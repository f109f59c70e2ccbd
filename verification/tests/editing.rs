//! Tests for the structural edit operations: rename with merge,
//! reference-counted delete, add-child, toggling, and reduction updates.

use node_graph::algorithm::Algorithm;
use node_graph::codec::{load_models, request_save, FileModel, FileTreeModel};
use node_graph::editor::{
    query_node, request_add, request_can_expand_toggling, request_delete, request_rename,
    request_update_algorithm,
};
use node_graph::error::EngineError;
use node_graph::evaluate::request_calculate;
use node_graph::messages::RenameResponse;
use node_graph::names::suggest_new_name_dupe;
use node_graph::store::{find_name_index, TreeModel};

fn entry(name: &str, children: &[&str], algorithm: &str) -> FileModel {
    FileModel {
        name: name.to_string(),
        children: children.iter().map(|c| c.to_string()).collect(),
        algorithm: algorithm.to_string(),
    }
}

fn doc(root: &str, items: Vec<FileModel>) -> FileTreeModel {
    FileTreeModel { root_name: root.to_string(), data: items }
}

fn idx_of(tm: &TreeModel, name: &str) -> usize {
    find_name_index(&tm.models, &name.to_string()).unwrap()
}

fn id_of(tm: &TreeModel, name: &str) -> u64 {
    tm.models[idx_of(tm, name)].id
}

fn ref_count_of(tm: &TreeModel, name: &str) -> u64 {
    tm.models[idx_of(tm, name)].ref_count
}

fn check_ref_counts(tm: &TreeModel) {
    for m in &tm.models {
        let mut n: u64 = 0;
        for o in &tm.models {
            if let Some(e) = &o.expand_info {
                n += e.children.iter().filter(|c| **c == m.id).count() as u64;
            }
        }
        assert_eq!(m.ref_count, n, "stale reference count");
    }
}

#[test]
fn rename_in_place() {
    let d = doc("T", vec![entry("T", &["A"], "Sum")]);
    let mut tm = load_models(&d, false).unwrap();
    let a = id_of(&tm, "A");
    match request_rename(&mut tm, a, "Apples").unwrap() {
        RenameResponse::RenameSelf(nm) => assert_eq!(nm, "Apples".to_string()),
        _ => panic!("expected an in-place rename"),
    }
    assert!(find_name_index(&tm.models, &"A".to_string()).is_none());
    assert_eq!(id_of(&tm, "Apples"), a);
    check_ref_counts(&tm);
}

#[test]
fn rename_rejects_bad_names() {
    let d = doc("T", vec![entry("T", &["A", "B"], "Sum")]);
    let mut tm = load_models(&d, false).unwrap();
    let a = id_of(&tm, "A");
    assert!(matches!(request_rename(&mut tm, a, ""), Err(EngineError::EmptyName)));
    assert!(matches!(request_rename(&mut tm, a, "A"), Err(EngineError::UnchangedName)));
    assert!(matches!(request_rename(&mut tm, 999, "Z"), Err(EngineError::NotFound(999))));
    // Merging a composite into an existing name is refused.
    assert!(matches!(request_rename(&mut tm, 0, "B"), Err(EngineError::DuplicateName)));
}

#[test]
fn rename_merges_a_leaf_into_the_owner() {
    // Both T and C point at X; Y already exists. Renaming X to Y merges
    // them: every child list that listed X now lists Y.
    let d = doc(
        "T",
        vec![entry("T", &["X", "Y", "C"], "Sum"), entry("C", &["X"], "Sum")],
    );
    let mut tm = load_models(&d, false).unwrap();
    let x = id_of(&tm, "X");
    let y = id_of(&tm, "Y");
    let c = id_of(&tm, "C");
    assert_eq!(ref_count_of(&tm, "Y"), 1);
    match request_rename(&mut tm, x, "Y").unwrap() {
        RenameResponse::RemoveSelfUpdateRelated { id_to_remove, mut ids_to_update } => {
            assert_eq!(id_to_remove, x);
            ids_to_update.sort();
            let mut expected = vec![0, y, c];
            expected.sort();
            assert_eq!(ids_to_update, expected);
        },
        _ => panic!("expected a merge"),
    }
    assert!(query_node(&tm, x).is_err());
    let t_children = tm.models[idx_of(&tm, "T")].expand_info.as_ref().unwrap().children.clone();
    assert_eq!(t_children, vec![y, y, c]);
    let c_children = tm.models[idx_of(&tm, "C")].expand_info.as_ref().unwrap().children.clone();
    assert_eq!(c_children, vec![y]);
    // Y absorbed X's two references on top of its own.
    assert_eq!(ref_count_of(&tm, "Y"), 3);
    check_ref_counts(&tm);
}

#[test]
fn delete_detaches_a_shared_leaf_then_removes_it() {
    // L is listed by both T and A: the first delete only detaches it.
    let d = doc(
        "T",
        vec![entry("T", &["A", "L"], "Sum"), entry("A", &["L"], "Sum")],
    );
    let mut tm = load_models(&d, false).unwrap();
    let l = id_of(&tm, "L");
    let a = id_of(&tm, "A");
    assert_eq!(ref_count_of(&tm, "L"), 2);
    let resp = request_delete(&mut tm, l, Some(a)).unwrap();
    assert_eq!(resp.id_to_remove, None);
    assert_eq!(resp.ids_to_update, vec![a, l]);
    assert_eq!(ref_count_of(&tm, "L"), 1);
    assert!(query_node(&tm, l).is_ok());
    check_ref_counts(&tm);
    // The second delete removes it entirely.
    let resp2 = request_delete(&mut tm, l, Some(0)).unwrap();
    assert_eq!(resp2.id_to_remove, Some(l));
    assert!(query_node(&tm, l).is_err());
    for m in &tm.models {
        if let Some(e) = &m.expand_info {
            assert!(!e.children.contains(&l));
        }
    }
    check_ref_counts(&tm);
}

#[test]
fn delete_rejects_the_root_and_unknown_items() {
    let d = doc("T", vec![entry("T", &["A"], "Sum")]);
    let mut tm = load_models(&d, false).unwrap();
    assert!(matches!(request_delete(&mut tm, 0, None), Err(EngineError::RootImmutable)));
    assert!(matches!(request_delete(&mut tm, 77, Some(0)), Err(EngineError::NotFound(77))));
}

#[test]
fn delete_of_a_shared_item_needs_its_parent() {
    let d = doc(
        "T",
        vec![
            entry("T", &["A", "L", "M", "B"], "Sum"),
            entry("A", &["L"], "Sum"),
            entry("B", &[], "Sum"),
        ],
    );
    let mut tm = load_models(&d, false).unwrap();
    let l = id_of(&tm, "L");
    let m = id_of(&tm, "M");
    let b = id_of(&tm, "B");
    assert!(matches!(request_delete(&mut tm, l, None), Err(EngineError::ParentRequired)));
    // A leaf cannot serve as the parent.
    assert!(matches!(request_delete(&mut tm, l, Some(m)), Err(EngineError::NotComposite)));
    // A composite that does not actually list the item is refused.
    assert!(matches!(request_delete(&mut tm, l, Some(b)), Err(EngineError::ChildNotFound)));
    // The declared parent works and only detaches.
    let a = id_of(&tm, "A");
    let resp = request_delete(&mut tm, l, Some(a)).unwrap();
    assert!(resp.id_to_remove.is_none());
}

#[test]
fn add_child_appends_a_fresh_leaf() {
    let d = doc("T", vec![entry("T", &["A"], "Sum")]);
    let mut tm = load_models(&d, false).unwrap();
    let before = tm.models.len();
    let counter_before = tm.counter;
    assert_eq!(request_add(&mut tm, 0).unwrap(), 0);
    assert_eq!(tm.models.len(), before + 1);
    let new_item = tm.models.last().unwrap();
    assert_eq!(new_item.id, counter_before);
    assert_eq!(new_item.ref_count, 1);
    assert!(new_item.expand_info.is_none());
    assert_eq!(new_item.name, "new_node".to_string());
    check_ref_counts(&tm);
    // A second add picks the next free suffix.
    request_add(&mut tm, 0).unwrap();
    assert_eq!(tm.models.last().unwrap().name, "new_node1".to_string());
    check_ref_counts(&tm);
}

#[test]
fn add_child_rejects_leaves() {
    let d = doc("T", vec![entry("T", &["A"], "Sum")]);
    let mut tm = load_models(&d, false).unwrap();
    let a = id_of(&tm, "A");
    assert!(matches!(request_add(&mut tm, a), Err(EngineError::NotComposite)));
}

#[test]
fn toggle_turns_a_leaf_into_an_empty_composite() {
    let d = doc("T", vec![entry("T", &["A"], "Sum")]);
    let mut tm = load_models(&d, false).unwrap();
    let a = id_of(&tm, "A");
    assert_eq!(request_can_expand_toggling(&mut tm, a, false).unwrap(), a);
    let info = tm.models[idx_of(&tm, "A")].expand_info.as_ref().unwrap();
    assert_eq!(info.algorithm, Algorithm::Unset);
    assert!(info.children.is_empty());
    check_ref_counts(&tm);
}

#[test]
fn toggle_with_children_needs_confirmation() {
    let d = doc("T", vec![entry("T", &["A", "B"], "Sum")]);
    let mut tm = load_models(&d, false).unwrap();
    assert!(matches!(
        request_can_expand_toggling(&mut tm, 0, false),
        Err(EngineError::Cancelled)
    ));
    // The children survive the confirmed toggle as detached items.
    assert_eq!(request_can_expand_toggling(&mut tm, 0, true).unwrap(), 0);
    assert!(tm.models[idx_of(&tm, "T")].expand_info.is_none());
    assert_eq!(ref_count_of(&tm, "A"), 0);
    assert_eq!(ref_count_of(&tm, "B"), 0);
    assert_eq!(tm.models.len(), 3);
    check_ref_counts(&tm);
}

#[test]
fn update_algorithm_overwrites_the_reduction() {
    let d = doc("T", vec![entry("T", &["A"], "Sum")]);
    let mut tm = load_models(&d, false).unwrap();
    assert_eq!(request_update_algorithm(&mut tm, 0, Algorithm::Min).unwrap(), 0);
    let info = tm.models[idx_of(&tm, "T")].expand_info.as_ref().unwrap();
    assert_eq!(info.algorithm, Algorithm::Min);
    let a = id_of(&tm, "A");
    assert!(matches!(
        request_update_algorithm(&mut tm, a, Algorithm::Max),
        Err(EngineError::NotComposite)
    ));
}

#[test]
fn query_node_returns_a_full_copy() {
    let d = doc("T", vec![entry("T", &["A"], "Sum")]);
    let tm = load_models(&d, false).unwrap();
    let m = query_node(&tm, 0).unwrap();
    assert_eq!(m.id, 0);
    assert_eq!(m.name, "T".to_string());
    let info = m.expand_info.unwrap();
    assert_eq!(info.children, vec![id_of(&tm, "A")]);
    assert!(matches!(query_node(&tm, 42), Err(EngineError::NotFound(42))));
}

#[test]
fn merge_can_build_a_cycle_that_only_calculation_rejects() {
    // Renaming the leaf X onto its own parent's name makes T list itself.
    // Saving still ends (the visited set guards the walk), while the
    // evaluator runs out of fuel and reports corruption.
    let d = doc("R", vec![entry("R", &["T"], "Sum"), entry("T", &["X"], "Sum")]);
    let mut tm = load_models(&d, false).unwrap();
    let x = id_of(&tm, "X");
    request_rename(&mut tm, x, "T").unwrap();
    check_ref_counts(&tm);
    assert!(request_save(&tm).is_ok());
    match request_calculate(&mut tm, &vec![]) {
        Err(EngineError::Corrupt) => {},
        _ => panic!("expected a corruption rejection on the cyclic store"),
    }
}

#[test]
fn duplicate_names_get_a_marker_suffix() {
    let d = doc("T", vec![entry("T", &["A"], "Sum")]);
    let tm = load_models(&d, false).unwrap();
    assert_eq!(suggest_new_name_dupe("Z", &tm.models), "Z".to_string());
    assert_eq!(suggest_new_name_dupe("A", &tm.models), "A (duplicate)".to_string());
}
