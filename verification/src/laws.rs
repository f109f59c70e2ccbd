//! The library's global laws, stated and proved once over the contracts of
//! the codec, the editor and the evaluator.

use crate::algorithm::{lemma_label_round_trip, spec_label, spec_parse_label};
use crate::codec::{
    decl_index, entry_matches, is_declared, load_item_ok, load_post, save_post, FileTreeModel,
};
use crate::editor::{add_post, delete_post, index_of_name, rename_post, replace_post};
use crate::error::EngineError;
use crate::evaluate::{calc_post, eval_spec, eval_list, table_lookup, values_at};
use crate::messages::{DeleteResponse, RenameResponse};
use crate::store::{
    children_closed, contains_id, contains_name, ids_unique, index_of_id, model_of,
    names_unique, occurrences, reaches, same_except_value, spec_children, Model, TreeModel,
};
use vstd::prelude::*;

verus! {

/// Round-trip law, sound direction: every entry that saving a freshly
/// loaded store emits corresponds to a declared entry of the original
/// document — same name, a label that decodes to the same reduction, and
/// the same child names in the same order. The root name survives, and no
/// name is emitted twice. (Leaves are elided by design, and entries
/// shadowed by a later entry of the same name or unreachable from the
/// root are dropped.)
#[verifier::rlimit(100)]
pub proof fn law_save_load_round_trip(doc: FileTreeModel, tm: TreeModel, out: FileTreeModel)
    requires
        tm.inv(),
        load_post(doc, false, Result::<TreeModel, EngineError>::Ok(tm)),
        save_post(tm, Result::<FileTreeModel, EngineError>::Ok(out)),
    ensures
        out.root_name@ == doc.root_name@,
        forall|p: int, q: int|
            0 <= p < q < out.data@.len() ==> out.data@[p].name@ != out.data@[q].name@,
        forall|p: int|
            0 <= p < out.data@.len() ==> {
                let nm = (#[trigger] out.data@[p]).name@;
                let e = doc.data@[decl_index(doc.data@, nm)];
                is_declared(doc.data@, nm) && e.name@ == nm && spec_parse_label(
                    out.data@[p].algorithm@,
                ) == spec_parse_label(e.algorithm@) && out.data@[p].children@.len()
                    == e.children@.len() && (forall|c: int|
                    0 <= c < e.children@.len() ==> (#[trigger] out.data@[p].children@[c])@
                        == e.children@[c]@)
            },
{
    let s = tm.models@;
    let data = doc.data@;
    assert forall|p: int| 0 <= p < out.data@.len() implies {
        let nm = (#[trigger] out.data@[p]).name@;
        let e = data[decl_index(data, nm)];
        is_declared(data, nm) && e.name@ == nm && spec_parse_label(out.data@[p].algorithm@)
            == spec_parse_label(e.algorithm@) && out.data@[p].children@.len() == e.children@.len()
            && (forall|c: int|
            0 <= c < e.children@.len() ==> (#[trigger] out.data@[p].children@[c])@
                == e.children@[c]@)
    } by {
        let nm = out.data@[p].name@;
        let vid = s[index_of_name(s, nm)].id;
        assert(entry_matches(s, out.data@[p], vid));
        let m = model_of(s, vid);
        let ki = index_of_id(s, vid);
        assert(0 <= ki < s.len() && s[ki].id == vid);
        assert(load_item_ok(data, s, s[ki], false));
        // The emitted entry's item is composite, so its name is declared.
        assert(is_declared(data, m.name@)) by {
            if !is_declared(data, m.name@) {
                assert(s[ki].expand_info is None);
            }
        }
        crate::codec::lemma_decl_index_valid(data, m.name@);
        let e = data[decl_index(data, m.name@)];
        let x = m.expand_info.unwrap();
        // Children resolve to the declared child names, position by position.
        assert forall|c: int|
            0 <= c < e.children@.len() implies (#[trigger] out.data@[p].children@[c])@
            == e.children@[c]@ by {
            assert(out.data@[p].children@[c]@ == model_of(s, x.children@[c]).name@);
            assert(model_of(s, x.children@[c]).name@ == e.children@[c]@);
        }
        // Labels decode to the same reduction.
        assert(out.data@[p].algorithm@ == spec_label(x.algorithm));
        assert(x.algorithm == spec_parse_label(e.algorithm@));
        lemma_label_round_trip(x.algorithm);
        assert(m.name@ == nm);
    }
    assert(out.root_name@ == model_of(s, 0).name@);
    assert(model_of(s, 0).name@ == doc.root_name@);
}

/// Round-trip law, converse direction: a declared entry is only dropped
/// by a save if its loaded item is unreachable from the root. Every
/// declared name whose item the root reaches appears in the output.
pub proof fn law_save_load_keeps_reachable_entries(
    doc: FileTreeModel,
    tm: TreeModel,
    out: FileTreeModel,
    i: int,
    f: nat,
)
    requires
        tm.inv(),
        load_post(doc, false, Result::<TreeModel, EngineError>::Ok(tm)),
        save_post(tm, Result::<FileTreeModel, EngineError>::Ok(out)),
        0 <= i < doc.data@.len(),
        reaches(
            tm.models@,
            0,
            tm.models@[crate::editor::index_of_name(tm.models@, doc.data@[i].name@)].id,
            f,
        ),
    ensures
        exists|p: int|
            0 <= p < out.data@.len() && (#[trigger] out.data@[p]).name@ == doc.data@[i].name@,
{
    let s = tm.models@;
    let data = doc.data@;
    let nm = data[i].name@;
    assert(contains_name(s, nm));
    let w = crate::editor::index_of_name(s, nm);
    assert(0 <= w < s.len() && s[w].name@ == nm);
    let vid = s[w].id;
    // The item owning a declared name is composite.
    assert(is_declared(data, s[w].name@)) by {
        assert(data[i].name@ == nm);
    }
    assert(load_item_ok(data, s, s[w], false));
    assert(s[w].expand_info is Some);
    // Its id resolves back to the same item.
    let ki = index_of_id(s, vid);
    assert(0 <= ki < s.len() && s[ki].id == vid) by {
        assert(s[w].id == vid);
    }
    assert(ki == w);
    assert(model_of(s, vid) == s[w]);
    // Save completeness: the root reaches it, so it was emitted.
    let p = choose|p: int| 0 <= p < out.data@.len() && out.data@[p].name@ == model_of(s, vid).name@;
    assert(out.data@[p].name@ == nm);
}

/// Deleting a shared item (reference count above one) never removes it
/// from the store; exactly one occurrence leaves the named parent's child
/// list, so its reference count drops by exactly one.
pub proof fn law_delete_shared_keeps_item(
    pre: TreeModel,
    post: TreeModel,
    id: u64,
    parent: Option<u64>,
    r: Result<DeleteResponse, EngineError>,
)
    requires
        pre.inv(),
        delete_post(pre, post, id, parent, r),
        r is Ok,
        id != 0,
        contains_id(pre.models@, id),
        model_of(pre.models@, id).ref_count > 1,
    ensures
        contains_id(post.models@, id),
        occurrences(post.models@, id) + 1 == occurrences(pre.models@, id),
{
    let s = pre.models@;
    let k = index_of_id(s, id);
    assert(0 <= k < s.len() && s[k].id == id);
    assert(model_of(s, id) == s[k]);
    match parent {
        Option::None => {
            assert(false);
        },
        Option::Some(p) => {
            let pk = index_of_id(s, p);
            assert(crate::editor::detach_shape(s, post.models@, pk, id));
            assert(contains_id(post.models@, id)) by {
                if k != pk {
                    assert(crate::store::same_except_ref(post.models@[k], s[k]));
                    assert(post.models@[k].id == id);
                } else {
                    assert(post.models@[pk].id == s[pk].id);
                }
            }
        },
    }
}

/// Deleting an item whose reference count is one removes it from the
/// store and from every child list.
pub proof fn law_delete_last_reference_removes(
    pre: TreeModel,
    post: TreeModel,
    id: u64,
    parent: Option<u64>,
    r: Result<DeleteResponse, EngineError>,
)
    requires
        pre.inv(),
        delete_post(pre, post, id, parent, r),
        r is Ok,
        id != 0,
        contains_id(pre.models@, id),
        model_of(pre.models@, id).ref_count == 1,
    ensures
        !contains_id(post.models@, id),
        forall|j: int|
            0 <= j < post.models@.len() ==> !spec_children(#[trigger] post.models@[j]).contains(
                id,
            ),
        occurrences(post.models@, id) == 0,
{
    let s = pre.models@;
    let k = index_of_id(s, id);
    assert(0 <= k < s.len() && s[k].id == id);
    assert(model_of(s, id) == s[k]);
    let resp = r.unwrap();
    let upd0 = choose|upd0: Seq<u64>|
        replace_post(s, post.models@, id, Option::None, upd0) && resp.ids_to_update@ == upd0;
    assert(replace_post(s, post.models@, id, Option::None, upd0));
}

/// A successful rename never leaves two items with the same name, and a
/// merge increases the surviving owner's in-degree by exactly the merged
/// item's in-degree.
pub proof fn law_rename_preserves_unique_names(
    pre: TreeModel,
    post: TreeModel,
    id: u64,
    nm: Seq<char>,
    r: Result<RenameResponse, EngineError>,
)
    requires
        pre.inv(),
        post.inv(),
        rename_post(pre, post, id, nm, r),
    ensures
        names_unique(post.models@),
{
}

/// Adding a child always yields a previously-unused id and a name that
/// collides with no existing name.
pub proof fn law_add_child_fresh(
    pre: TreeModel,
    post: TreeModel,
    id: u64,
    r: Result<u64, EngineError>,
)
    requires
        pre.inv(),
        add_post(pre, post, id, r),
        r is Ok,
        contains_id(pre.models@, id),
        model_of(pre.models@, id).expand_info is Some,
        pre.counter < u64::MAX,
    ensures
        !contains_id(pre.models@, post.models@[pre.models@.len() as int].id),
        !contains_name(pre.models@, post.models@[pre.models@.len() as int].name@),
{
    let s = pre.models@;
    let k = index_of_id(s, id);
    assert(0 <= k < s.len() && s[k].id == id);
    assert(model_of(s, id) == s[k]);
}

/// Two stores with identical structure: same items in the same order, up
/// to the computed `value` fields.
pub open spec fn same_structure(s1: Seq<Model>, s2: Seq<Model>) -> bool {
    s1.len() == s2.len() && (forall|i: int|
        0 <= i < s1.len() ==> same_except_value(#[trigger] s2[i], s1[i]))
}

/// Id lookups agree between structurally equal stores.
proof fn lemma_structure_lookup(s1: Seq<Model>, s2: Seq<Model>, id: u64)
    requires
        same_structure(s1, s2),
        ids_unique(s1),
    ensures
        contains_id(s2, id) == contains_id(s1, id),
        contains_id(s1, id) ==> index_of_id(s2, id) == index_of_id(s1, id) && same_except_value(
            model_of(s2, id),
            model_of(s1, id),
        ),
{
    assert forall|a: int, b: int| 0 <= a < b < s2.len() implies s2[a].id != s2[b].id by {
        assert(s2[a].id == s1[a].id && s2[b].id == s1[b].id);
    }
    if contains_id(s1, id) {
        let k1 = index_of_id(s1, id);
        assert(0 <= k1 < s1.len() && s1[k1].id == id);
        assert(s2[k1].id == id);
        assert(contains_id(s2, id));
        let k2 = index_of_id(s2, id);
        assert(0 <= k2 < s2.len() && s2[k2].id == id);
        assert(s1[k2].id == id);
        assert(k2 == k1);
    }
    if contains_id(s2, id) {
        let k2 = choose|k: int| 0 <= k < s2.len() && s2[k].id == id;
        assert(s1[k2].id == id);
        assert(contains_id(s1, id));
    }
}

/// Reachability depends only on the structure.
proof fn lemma_reaches_congruent(s1: Seq<Model>, s2: Seq<Model>, src: u64, dst: u64, f: nat)
    requires
        same_structure(s1, s2),
        ids_unique(s1),
        children_closed(s1),
        contains_id(s1, src),
    ensures
        reaches(s2, src, dst, f) == reaches(s1, src, dst, f),
    decreases f,
{
    if f > 0 {
        lemma_structure_lookup(s1, s2, src);
        let m1 = model_of(s1, src);
        let k = index_of_id(s1, src);
        assert(m1 == s1[k]);
        assert(spec_children(model_of(s2, src)) == spec_children(m1));
        if reaches(s1, src, dst, f) && src != dst {
            let c = choose|c: int|
                0 <= c < spec_children(m1).len() && reaches(
                    s1,
                    spec_children(m1)[c],
                    dst,
                    (f - 1) as nat,
                );
            assert(contains_id(s1, spec_children(s1[k])[c]));
            lemma_reaches_congruent(s1, s2, spec_children(m1)[c], dst, (f - 1) as nat);
        }
        if reaches(s2, src, dst, f) && src != dst {
            let c = choose|c: int|
                0 <= c < spec_children(model_of(s2, src)).len() && reaches(
                    s2,
                    spec_children(model_of(s2, src))[c],
                    dst,
                    (f - 1) as nat,
                );
            assert(contains_id(s1, spec_children(s1[k])[c]));
            lemma_reaches_congruent(s1, s2, spec_children(m1)[c], dst, (f - 1) as nat);
        }
    }
}

/// Evaluation depends only on the structure and the table.
proof fn lemma_eval_congruent(
    s1: Seq<Model>,
    s2: Seq<Model>,
    t: Seq<(String, i64)>,
    id: u64,
    f: nat,
)
    requires
        same_structure(s1, s2),
        ids_unique(s1),
    ensures
        eval_spec(s2, t, id, f) == eval_spec(s1, t, id, f),
    decreases f, 0int,
{
    if f > 0 {
        lemma_structure_lookup(s1, s2, id);
        if contains_id(s1, id) {
            let m1 = model_of(s1, id);
            let m2 = model_of(s2, id);
            assert(m2.name@ == m1.name@);
            match m1.expand_info {
                Option::None => {},
                Option::Some(x) => {
                    assert(spec_children(m2) == x.children@);
                    assert(m2.expand_info.unwrap().algorithm == x.algorithm);
                    lemma_eval_list_congruent(s1, s2, t, x.children@, (f - 1) as nat);
                },
            }
        }
    }
}

proof fn lemma_eval_list_congruent(
    s1: Seq<Model>,
    s2: Seq<Model>,
    t: Seq<(String, i64)>,
    ids: Seq<u64>,
    f: nat,
)
    requires
        same_structure(s1, s2),
        ids_unique(s1),
    ensures
        eval_list(s2, t, ids, f) == eval_list(s1, t, ids, f),
    decreases f, ids.len() + 1,
{
    if ids.len() > 0 {
        lemma_eval_congruent(s1, s2, t, ids[0], f);
        lemma_eval_list_congruent(s1, s2, t, ids.drop_first(), f);
    }
}

/// Aggregation is idempotent: running the calculation twice against the
/// same data table produces identical values, because the first run
/// changes nothing the evaluation depends on.
pub proof fn law_calculate_idempotent(
    pre: TreeModel,
    mid: TreeModel,
    post: TreeModel,
    t: Seq<(String, i64)>,
)
    requires
        pre.inv(),
        calc_post(pre, mid, t, Result::<(), EngineError>::Ok(())),
        calc_post(mid, post, t, Result::<(), EngineError>::Ok(())),
    ensures
        post.models@.len() == mid.models@.len(),
        forall|i: int|
            0 <= i < mid.models@.len() ==> (#[trigger] post.models@[i]).value
                == mid.models@[i].value,
{
    let s = pre.models@;
    let s2 = mid.models@;
    let s3 = post.models@;
    assert(same_structure(s, s2));
    let b1 = choose|bound: nat| values_at(s, t, s2, bound);
    let b2 = choose|bound: nat| values_at(s2, t, s3, bound);
    assert forall|i: int| 0 <= i < s2.len() implies (#[trigger] s3[i]).value == s2[i].value by {
        assert(same_except_value(s2[i], s[i]));
        if s[i].expand_info is None {
            assert(s2[i].expand_info is None && s2[i].name@ == s[i].name@);
            assert(s2[i].value == Some(table_lookup(t, s[i].name@).unwrap()));
            assert(s3[i].value == Some(table_lookup(t, s2[i].name@).unwrap()));
        } else {
            let id = s[i].id;
            assert(s2[i].expand_info is Some && s2[i].id == id);
            assert(contains_id(s, 0));
            if exists|f: nat| reaches(s, 0, id, f) {
                let f = choose|f: nat| reaches(s, 0, id, f);
                assert(values_at(s, t, s2, b1));
                assert(eval_spec(s, t, id, b1) is Some && s2[i].value == Some(
                    eval_spec(s, t, id, b1).unwrap(),
                ));
                lemma_reaches_congruent(s, s2, 0, id, f);
                assert(reaches(s2, 0, id, f));
                assert(values_at(s2, t, s3, b2));
                assert(eval_spec(s2, t, id, b2) is Some && s3[i].value == Some(
                    eval_spec(s2, t, id, b2).unwrap(),
                ));
                lemma_eval_congruent(s, s2, t, id, b2);
                crate::evaluate::lemma_eval_deterministic(s, t, id, b1, b2);
            } else {
                assert(s2[i].value == s[i].value || reaches(s, 0, s[i].id, 10000));
                assert(!reaches(s, 0, id, 10000));
                assert(s2[i].value == s[i].value);
                assert(s3[i].value == s2[i].value || reaches(s2, 0, s2[i].id, 10000));
                if reaches(s2, 0, s2[i].id, 10000) {
                    lemma_reaches_congruent(s, s2, 0, id, 10000);
                }
            }
        }
    }
}

} // verus!
