//! Tests for the document codec and the aggregation run.

use node_graph::algorithm::Algorithm;
use node_graph::codec::{load_models, request_save, FileModel, FileTreeModel};
use node_graph::error::EngineError;
use node_graph::evaluate::{request_calculate, request_template_generation, query_values};
use node_graph::store::{find_name_index, TreeModel};

fn entry(name: &str, children: &[&str], algorithm: &str) -> FileModel {
    FileModel {
        name: name.to_string(),
        children: children.iter().map(|c| c.to_string()).collect(),
        algorithm: algorithm.to_string(),
    }
}

fn doc(root: &str, items: Vec<FileModel>) -> FileTreeModel {
    FileTreeModel { root_name: root.to_string(), data: items }
}

fn id_of(tm: &TreeModel, name: &str) -> u64 {
    let i = find_name_index(&tm.models, &name.to_string()).unwrap();
    tm.models[i].id
}

fn value_of(tm: &TreeModel, name: &str) -> Option<i64> {
    let i = find_name_index(&tm.models, &name.to_string()).unwrap();
    tm.models[i].value
}

#[test]
fn load_assigns_root_id_zero() {
    let d = doc("Total", vec![entry("Total", &["A", "B"], "Sum")]);
    let tm = load_models(&d, false).unwrap();
    assert_eq!(id_of(&tm, "Total"), 0);
    assert_eq!(tm.root_name, "Total".to_string());
    assert_eq!(tm.models.len(), 3);
    assert_eq!(tm.counter, 3);
}

#[test]
fn load_rejects_a_missing_root() {
    let d = doc("Root", vec![entry("Other", &[], "Sum")]);
    match load_models(&d, false) {
        Err(EngineError::RootMissing) => {},
        _ => panic!("expected a missing-root rejection"),
    }
}

#[test]
fn load_builds_leaves_for_child_only_names() {
    let d = doc("T", vec![entry("T", &["A", "B"], "Sum")]);
    let tm = load_models(&d, false).unwrap();
    let a = find_name_index(&tm.models, &"A".to_string()).unwrap();
    assert!(tm.models[a].expand_info.is_none());
    assert_eq!(tm.models[a].ref_count, 1);
}

#[test]
fn load_counts_shared_references() {
    let d = doc(
        "T",
        vec![entry("T", &["A", "L", "L"], "Sum"), entry("A", &["L"], "Sum")],
    );
    let tm = load_models(&d, false).unwrap();
    let l = find_name_index(&tm.models, &"L".to_string()).unwrap();
    assert_eq!(tm.models[l].ref_count, 3);
}

#[test]
fn calculate_sums_the_example_document() {
    let d = doc("Total", vec![entry("Total", &["A", "B"], "Sum")]);
    let mut tm = load_models(&d, false).unwrap();
    let table = vec![("A".to_string(), 2), ("B".to_string(), 3)];
    request_calculate(&mut tm, &table).unwrap();
    assert_eq!(value_of(&tm, "Total"), Some(5));
    assert_eq!(value_of(&tm, "A"), Some(2));
    assert_eq!(value_of(&tm, "B"), Some(3));
}

#[test]
fn calculate_walks_nested_composites() {
    let d = doc(
        "T",
        vec![
            entry("T", &["U", "V"], "Product"),
            entry("U", &["a", "b"], "Sum"),
            entry("V", &["c"], "Max"),
        ],
    );
    let mut tm = load_models(&d, false).unwrap();
    let table = vec![
        ("a".to_string(), 1),
        ("b".to_string(), 2),
        ("c".to_string(), 10),
    ];
    request_calculate(&mut tm, &table).unwrap();
    assert_eq!(value_of(&tm, "U"), Some(3));
    assert_eq!(value_of(&tm, "V"), Some(10));
    assert_eq!(value_of(&tm, "T"), Some(30));
}

#[test]
fn calculate_is_idempotent_on_the_same_table() {
    let d = doc(
        "T",
        vec![entry("T", &["U", "x"], "Sum"), entry("U", &["x", "y"], "Average")],
    );
    let mut tm = load_models(&d, false).unwrap();
    let table = vec![("x".to_string(), 10), ("y".to_string(), 4)];
    request_calculate(&mut tm, &table).unwrap();
    let first: Vec<Option<i64>> = tm.models.iter().map(|m| m.value).collect();
    request_calculate(&mut tm, &table).unwrap();
    let second: Vec<Option<i64>> = tm.models.iter().map(|m| m.value).collect();
    assert_eq!(first, second);
    assert_eq!(value_of(&tm, "T"), Some(17));
}

#[test]
fn calculate_rejects_a_missing_leaf_value() {
    let d = doc("T", vec![entry("T", &["A", "B"], "Sum")]);
    let mut tm = load_models(&d, false).unwrap();
    let table = vec![("A".to_string(), 2)];
    match request_calculate(&mut tm, &table) {
        Err(EngineError::MissingData(nm)) => assert_eq!(nm, "B".to_string()),
        _ => panic!("expected a missing-data rejection"),
    }
    // The failed run changed nothing.
    assert_eq!(value_of(&tm, "T"), None);
    assert_eq!(value_of(&tm, "A"), None);
}

#[test]
fn calculate_rejects_an_unset_reduction() {
    let d = doc("T", vec![entry("T", &["A"], "definitely not a label")]);
    let mut tm = load_models(&d, false).unwrap();
    let table = vec![("A".to_string(), 1)];
    match request_calculate(&mut tm, &table) {
        Err(EngineError::UnsetAlgorithm(0)) => {},
        _ => panic!("expected an unset-reduction rejection"),
    }
}

#[test]
fn save_round_trips_the_document() {
    let d = doc(
        "T",
        vec![entry("T", &["U", "x"], "Sum"), entry("U", &["x", "y"], "Min")],
    );
    let tm = load_models(&d, false).unwrap();
    let out = request_save(&tm).unwrap();
    assert_eq!(out.root_name, "T".to_string());
    assert_eq!(out.data.len(), 2);
    for e in &out.data {
        let orig = d.data.iter().find(|o| o.name == e.name).unwrap();
        assert_eq!(e.children, orig.children);
        assert_eq!(
            Algorithm::from_label(e.algorithm.as_str()),
            Algorithm::from_label(orig.algorithm.as_str())
        );
    }
}

#[test]
fn save_elides_leaves_and_keeps_names_unique() {
    let d = doc("T", vec![entry("T", &["A", "B"], "Sum")]);
    let tm = load_models(&d, false).unwrap();
    let out = request_save(&tm).unwrap();
    assert_eq!(out.data.len(), 1);
    assert_eq!(out.data[0].name, "T".to_string());
}

#[test]
fn randomize_replaces_only_unset_reductions() {
    let d = doc(
        "T",
        vec![entry("T", &["A"], "mystery"), entry("A", &["x"], "Sum")],
    );
    let tm = load_models(&d, true).unwrap();
    let t = find_name_index(&tm.models, &"T".to_string()).unwrap();
    let a = find_name_index(&tm.models, &"A".to_string()).unwrap();
    let t_alg = tm.models[t].expand_info.as_ref().unwrap().algorithm;
    let a_alg = tm.models[a].expand_info.as_ref().unwrap().algorithm;
    assert!(t_alg != Algorithm::Unset);
    assert_eq!(a_alg, Algorithm::Sum);
}

#[test]
fn template_lists_every_leaf_at_zero() {
    let d = doc(
        "T",
        vec![entry("T", &["U", "x"], "Sum"), entry("U", &["y"], "Sum")],
    );
    let tm = load_models(&d, false).unwrap();
    let mut tpl = request_template_generation(&tm);
    tpl.sort();
    assert_eq!(
        tpl,
        vec![("x".to_string(), 0), ("y".to_string(), 0)]
    );
}

#[test]
fn query_values_keys_by_decimal_id() {
    let d = doc("T", vec![entry("T", &["A"], "Sum")]);
    let mut tm = load_models(&d, false).unwrap();
    let table = vec![("A".to_string(), 7)];
    request_calculate(&mut tm, &table).unwrap();
    let a_id = id_of(&tm, "A");
    let resp = query_values(&tm, &vec![0, a_id]).unwrap();
    assert_eq!(resp.values.len(), 2);
    assert_eq!(resp.values[0], ("0".to_string(), 7));
    assert_eq!(resp.values[1], (a_id.to_string(), 7));
}

#[test]
fn query_values_reports_uncomputed_items() {
    let d = doc("T", vec![entry("T", &["A"], "Sum")]);
    let tm = load_models(&d, false).unwrap();
    match query_values(&tm, &vec![0]) {
        Err(EngineError::ValueNotComputed(0)) => {},
        _ => panic!("expected a value-not-computed rejection"),
    }
    match query_values(&tm, &vec![999]) {
        Err(EngineError::NotFound(999)) => {},
        _ => panic!("expected a not-found rejection"),
    }
}

#[test]
fn calculate_reuses_shared_subtrees() {
    // A diamond: both U and V list the same shared composite W.
    let d = doc(
        "T",
        vec![
            entry("T", &["U", "V"], "Sum"),
            entry("U", &["W"], "Sum"),
            entry("V", &["W", "x"], "Sum"),
            entry("W", &["x", "y"], "Sum"),
        ],
    );
    let mut tm = load_models(&d, false).unwrap();
    let table = vec![("x".to_string(), 5), ("y".to_string(), 7)];
    request_calculate(&mut tm, &table).unwrap();
    assert_eq!(value_of(&tm, "W"), Some(12));
    assert_eq!(value_of(&tm, "U"), Some(12));
    assert_eq!(value_of(&tm, "V"), Some(17));
    assert_eq!(value_of(&tm, "T"), Some(29));
}

#[test]
fn load_assigns_ids_in_first_seen_order() {
    // Root first, then declared items in document order, then their
    // children in document order.
    let d = doc(
        "R",
        vec![entry("B", &["z", "R"], "Sum"), entry("R", &["B", "a"], "Sum")],
    );
    let tm = load_models(&d, false).unwrap();
    assert_eq!(id_of(&tm, "R"), 0);
    assert_eq!(id_of(&tm, "B"), 1);
    assert_eq!(id_of(&tm, "z"), 2);
    assert_eq!(id_of(&tm, "a"), 3);
}
