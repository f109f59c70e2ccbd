//! The graph editor: the structural operations on the item store —
//! rename with duplicate-name merge, reference-count-aware delete,
//! add-child, composite/leaf toggling and reduction updates. Every
//! operation is atomic: it either fully applies or returns an error with
//! the store untouched, and every operation preserves the store invariant.

use crate::error::EngineError;
use crate::messages::{DeleteResponse, RenameResponse};
use crate::store::{
    children_closed, clone_vec_u64, contains_id, contains_name, count_in, erase_child,
    find_index, find_name_index, ids_unique, index_of_id, lemma_count_push,
    lemma_count_remove_at, lemma_erase_absent, lemma_erase_counts,
    lemma_occ_absent, lemma_occ_push, lemma_occ_remove, lemma_occ_update, lemma_occ_upto_add,
    lemma_occ_upto_congruent, lemma_occ_zero, lemma_subst_absent,
    lemma_subst_counts, model_like, names_unique, occ_upto, occurrences,
    update_reference_count, ref_counts_ok, same_except_ref, spec_children, subst_children,
    ExpandInfo, Model, TreeModel,
};
use vstd::prelude::*;

verus! {

/// Whether a child-id vector mentions `id`.
pub fn contains_vec(ch: &Vec<u64>, id: u64) -> (r: bool)
    ensures
        r == ch@.contains(id),
{
    let n = ch.len();
    let mut i: usize = 0;
    while i < n
        invariant
            i <= n,
            n == ch@.len(),
            forall|j: int| 0 <= j < i ==> ch@[j] != id,
        decreases n - i,
    {
        if ch[i] == id {
            return true;
        }
        i = i + 1;
    }
    false
}

/// Rewrites every occurrence of `from` in the vector to `to`.
fn subst_vec(ch: &Vec<u64>, from: u64, to: u64) -> (r: Vec<u64>)
    ensures
        r@ == subst_children(ch@, from, to),
{
    let n = ch.len();
    let mut r: Vec<u64> = Vec::new();
    let mut i: usize = 0;
    while i < n
        invariant
            i <= n,
            n == ch@.len(),
            r@ =~= subst_children(ch@.take(i as int), from, to),
        decreases n - i,
    {
        let c = ch[i];
        if c == from {
            r.push(to);
        } else {
            r.push(c);
        }
        proof {
            assert(r@ =~= subst_children(ch@.take(i + 1), from, to));
        }
        i = i + 1;
    }
    proof {
        assert(ch@.take(n as int) =~= ch@);
    }
    r
}

/// Drops every occurrence of `id` from the vector.
fn erase_vec(ch: &Vec<u64>, id: u64) -> (r: Vec<u64>)
    ensures
        r@ == erase_child(ch@, id),
{
    let n = ch.len();
    let mut r: Vec<u64> = Vec::new();
    let mut i: usize = 0;
    while i < n
        invariant
            i <= n,
            n == ch@.len(),
            r@ == erase_child(ch@.take(i as int), id),
        decreases n - i,
    {
        proof {
            assert(ch@.take(i + 1).drop_last() =~= ch@.take(i as int));
            assert(ch@.take(i + 1).last() == ch@[i as int]);
        }
        if ch[i] != id {
            r.push(ch[i]);
        }
        i = i + 1;
    }
    proof {
        assert(ch@.take(n as int) =~= ch@);
    }
    r
}

/// How one item looks after the store-wide child-list rewrite that backs a
/// merge (`to` is `Some`) or a full removal (`to` is `None`): identical
/// except that its child list has every occurrence of `from` substituted or
/// erased. Stored reference counts are not constrained here.
pub open spec fn replaced_children(a: Model, b: Model, from: u64, to: Option<u64>) -> bool {
    b.id == a.id && b.name@ == a.name@ && b.value == a.value && match (a.expand_info, b.expand_info) {
        (Option::None, Option::None) => true,
        (Option::Some(x), Option::Some(y)) => y.algorithm == x.algorithm && y.children@
            == (match to {
            Option::Some(t) => subst_children(x.children@, from, t),
            Option::None => erase_child(x.children@, from),
        }),
        _ => false,
    }
}

/// Full postcondition of removing item `id` from the store: the item is
/// gone, every child list had `id` substituted by `new_id` (or erased),
/// reference counts are correct again, and `upd` names exactly the items
/// whose child lists mentioned `id`.
pub open spec fn replace_post(
    olds: Seq<Model>,
    news: Seq<Model>,
    id: u64,
    new_id: Option<u64>,
    upd: Seq<u64>,
) -> bool {
    let k = index_of_id(olds, id);
    let mid = olds.remove(k);
    news.len() == mid.len() && (forall|j: int|
        0 <= j < mid.len() ==> replaced_children(mid[j], #[trigger] news[j], id, new_id))
        && ref_counts_ok(news) && ids_unique(news) && children_closed(news) && (names_unique(olds)
        ==> names_unique(news)) && !contains_id(news, id) && (forall|x: u64|
        x != id ==> (contains_id(news, x) <==> contains_id(olds, x))) && (forall|x: u64|
        upd.contains(x) <==> (exists|j: int|
            0 <= j < mid.len() && (#[trigger] mid[j]).id == x && spec_children(mid[j]).contains(
                id,
            ))) && occurrences(news, id) == 0 && (match new_id {
        Option::Some(nid) => occurrences(news, nid) == occurrences(mid, nid) + occurrences(mid, id)
            && (forall|x: u64|
            x != id && x != nid ==> occurrences(news, x) == occurrences(mid, x)),
        Option::None => forall|x: u64| x != id ==> occurrences(news, x) == occurrences(mid, x),
    }) && (new_id is None ==> forall|j: int|
        0 <= j < news.len() ==> !spec_children(#[trigger] news[j]).contains(id))
}

/// Removes item `id` from the store and rewrites every child list that
/// mentioned it — substituting `new_id` when merging into a surviving item,
/// erasing otherwise — then recomputes all reference counts. Returns the
/// ids of the items whose child lists changed.
pub(crate) fn replace_node_and_update_children(
    models: &mut Vec<Model>,
    id: u64,
    new_id: Option<u64>,
) -> (upd: Vec<u64>)
    requires
        ids_unique(old(models)@),
        children_closed(old(models)@),
        ref_counts_ok(old(models)@),
        contains_id(old(models)@, id),
        match new_id {
            Option::Some(nid) => nid != id && contains_id(old(models)@, nid) && occurrences(
                old(models)@,
                id,
            ) + occurrences(old(models)@, nid) <= u64::MAX,
            Option::None => true,
        },
    ensures
        replace_post(old(models)@, final(models)@, id, new_id, upd@),
{
    let ghost olds = old(models)@;
    let k = match find_index(models, id) {
        Some(k) => k,
        None => {
            proof {
                assert(false);
            }
            return Vec::new();
        },
    };
    proof {
        let ki = index_of_id(olds, id);
        assert(0 <= ki < olds.len() && olds[ki].id == id);
        assert(ki == k);
    }
    let removed = models.remove(k);
    let ghost mid = models@;
    let n = models.len();
    let mut upd: Vec<u64> = Vec::new();
    let mut j: usize = 0;
    while j < n
        invariant
            j <= n,
            n == mid.len(),
            models@.len() == n,
            forall|t: int|
                0 <= t < j ==> replaced_children(mid[t], #[trigger] models@[t], id, new_id),
            forall|t: int| j <= t < n ==> models@[t] == mid[t],
            forall|x: u64|
                upd@.contains(x) <==> (exists|t: int|
                    0 <= t < j && (#[trigger] mid[t]).id == x && spec_children(mid[t]).contains(
                        id,
                    )),
        decreases n - j,
    {
        let ghost pre_upd = upd@;
        let mut newinfo: Option<ExpandInfo> = None;
        match &models[j].expand_info {
            Some(e) => {
                if contains_vec(&e.children, id) {
                    let ch2 = match new_id {
                        Some(nid) => subst_vec(&e.children, id, nid),
                        None => erase_vec(&e.children, id),
                    };
                    newinfo = Some(ExpandInfo { algorithm: e.algorithm, children: ch2 });
                }
            },
            None => {},
        }
        match newinfo {
            Some(ni) => {
                let mid_id = models[j].id;
                models[j].expand_info = Some(ni);
                upd.push(mid_id);
                proof {
                    assert(replaced_children(mid[j as int], models@[j as int], id, new_id));
                    assert forall|x: u64| upd@.contains(x) implies (exists|t: int|
                        0 <= t <= j && (#[trigger] mid[t]).id == x && spec_children(
                            mid[t],
                        ).contains(id)) by {
                        let w = choose|w: int| 0 <= w < upd@.len() && upd@[w] == x;
                        if w < pre_upd.len() {
                            assert(pre_upd[w] == x);
                            assert(pre_upd.contains(x));
                        } else {
                            assert(x == mid_id);
                            assert(mid[j as int].id == x && spec_children(mid[j as int]).contains(
                                id,
                            ));
                        }
                    }
                    assert forall|x: u64|
                        (exists|t: int|
                            0 <= t <= j && (#[trigger] mid[t]).id == x && spec_children(
                                mid[t],
                            ).contains(id)) implies upd@.contains(x) by {
                        let t = choose|t: int|
                            0 <= t <= j && (#[trigger] mid[t]).id == x && spec_children(
                                mid[t],
                            ).contains(id);
                        if t < j {
                            assert(pre_upd.contains(x));
                            let w = choose|w: int| 0 <= w < pre_upd.len() && pre_upd[w] == x;
                            assert(upd@[w] == x);
                        } else {
                            assert(upd@[upd@.len() - 1] == x);
                        }
                    }
                }
            },
            None => {
                proof {
                    let m = mid[j as int];
                    match m.expand_info {
                        Option::Some(x) => {
                            assert(!x.children@.contains(id));
                            match new_id {
                                Option::Some(nid) => lemma_subst_absent(x.children@, id, nid),
                                Option::None => lemma_erase_absent(x.children@, id),
                            }
                        },
                        Option::None => {},
                    }
                    assert(replaced_children(mid[j as int], models@[j as int], id, new_id));
                    assert forall|x: u64| upd@.contains(x) implies (exists|t: int|
                        0 <= t <= j && (#[trigger] mid[t]).id == x && spec_children(
                            mid[t],
                        ).contains(id)) by {}
                    assert forall|x: u64|
                        (exists|t: int|
                            0 <= t <= j && (#[trigger] mid[t]).id == x && spec_children(
                                mid[t],
                            ).contains(id)) implies upd@.contains(x) by {
                        let t = choose|t: int|
                            0 <= t <= j && (#[trigger] mid[t]).id == x && spec_children(
                                mid[t],
                            ).contains(id);
                        assert(t < j);
                    }
                }
            },
        }
        j = j + 1;
    }
    // Relate the rewritten store to `mid` id by id, then restore the
    // reference counts.
    proof {
        let cur = models@;
        let kk = index_of_id(olds, id);
        // Per-item counts of `id` are now all zero.
        assert forall|t: int| 0 <= t < n implies count_in(
            spec_children(#[trigger] cur[t]),
            id,
        ) == 0 by {
            lemma_per_item_counts(mid[t], cur[t], id, new_id);
        }
        lemma_occ_zero(cur, id, n as int);
        // Occurrence totals for every other id.
        assert forall|x: u64| x != id && (new_id is None || x != new_id.unwrap())
            implies occurrences(cur, x) == occurrences(mid, x) by {
            assert forall|t: int| 0 <= t < n implies count_in(
                spec_children(#[trigger] cur[t]),
                x,
            ) == count_in(spec_children(mid[t]), x) by {
                lemma_per_item_counts_other(mid[t], cur[t], id, new_id, x);
            }
            lemma_occ_upto_congruent(cur, mid, x, n as int);
        }
        match new_id {
            Option::Some(nid) => {
                assert forall|t: int| 0 <= t < n implies count_in(
                    spec_children(#[trigger] cur[t]),
                    nid,
                ) == count_in(spec_children(mid[t]), id) + count_in(
                    spec_children(mid[t]),
                    nid,
                ) by {
                    lemma_per_item_counts_merge(mid[t], cur[t], id, nid);
                }
                lemma_occ_upto_add(mid, cur, id, nid, n as int);
            },
            Option::None => {},
        }
        // Every occurrence total is within the machine range, so the
        // recount below cannot overflow.
        assert forall|x: u64| occurrences(mid, x) <= occurrences(olds, x) by {
            lemma_occ_remove(olds, kk, x, mid.len() as int);
        }
        assert forall|x: u64| occurrences(olds, x) <= u64::MAX by {
            if contains_id(olds, x) {
                let w = choose|w: int| 0 <= w < olds.len() && olds[w].id == x;
                assert(olds[w].ref_count == occurrences(olds, x));
            } else {
                lemma_occ_absent(olds, x, olds.len() as int);
            }
        }
        assert forall|x: u64| occurrences(cur, x) <= u64::MAX by {
            if x == id {
            } else {
                match new_id {
                    Option::Some(nid) => {
                        if x == nid {
                            assert(occurrences(cur, nid) == occurrences(mid, nid) + occurrences(
                                mid,
                                id,
                            ));
                        }
                    },
                    Option::None => {},
                }
            }
        }
    }
    let ghost cur = models@;
    update_reference_count(models);
    proof {
        let fin = models@;
        let kk = index_of_id(olds, id);
        assert forall|t: int| 0 <= t < n implies replaced_children(
            mid[t],
            #[trigger] fin[t],
            id,
            new_id,
        ) by {
            assert(same_except_ref(fin[t], cur[t]));
            assert(replaced_children(mid[t], cur[t], id, new_id));
        }
        // Occurrences survive the recount unchanged.
        assert(forall|x: u64| occurrences(fin, x) == occurrences(cur, x));
        // Uniqueness of ids and names carries over pointwise from `mid`.
        assert forall|a: int, b: int| 0 <= a < b < n implies fin[a].id != fin[b].id by {
            assert(fin[a].id == mid[a].id && fin[b].id == mid[b].id);
        }
        if names_unique(olds) {
            assert forall|a: int, b: int| 0 <= a < b < n implies fin[a].name@ != fin[b].name@ by {
                assert(fin[a].name@ == mid[a].name@ && fin[b].name@ == mid[b].name@);
            }
        }
        // `id` is gone: every remaining item keeps an id other than `id`.
        assert forall|t: int| 0 <= t < n implies fin[t].id != id by {
            assert(mid[t].id == if t < kk {
                olds[t].id
            } else {
                olds[t + 1].id
            });
        }
        // Identity of the remaining items.
        assert forall|x: u64| x != id implies (contains_id(fin, x) <==> contains_id(
            olds,
            x,
        )) by {
            if contains_id(fin, x) {
                let t = choose|t: int| 0 <= t < n && fin[t].id == x;
                assert(mid[t].id == x);
                assert(olds[if t < kk {
                    t
                } else {
                    t + 1
                }].id == x);
            }
            if contains_id(olds, x) {
                let t = choose|t: int| 0 <= t < olds.len() && olds[t].id == x;
                assert(t != kk);
                let t2 = if t < kk {
                    t
                } else {
                    t - 1
                };
                assert(mid[t2].id == x);
                assert(fin[t2].id == x);
            }
        }
        // Child lists stay closed: an id in a rewritten list is either a
        // surviving old id or the merge target.
        assert forall|t: int, c: int|
            0 <= t < n && 0 <= c < spec_children(fin[t]).len() implies contains_id(
            fin,
            #[trigger] spec_children(fin[t])[c],
        ) by {
            let x = spec_children(fin[t])[c];
            lemma_child_origin(mid[t], fin[t], id, new_id, c);
            assert(x != id);
            if spec_children(mid[t]).contains(x) {
                let tt = if t < kk {
                    t
                } else {
                    t + 1
                };
                assert(spec_children(olds[tt]) == spec_children(mid[t]));
                let cc = choose|cc: int|
                    0 <= cc < spec_children(mid[t]).len() && spec_children(mid[t])[cc] == x;
                assert(contains_id(olds, spec_children(olds[tt])[cc]));
            }
        }
    }
    upd
}

/// How the store looks after a rename-in-place of item `id` to `nm`: only
/// that item's name changed.
pub open spec fn renamed_in_place(pre: TreeModel, post: TreeModel, id: u64, nm: Seq<char>) -> bool {
    let s = pre.models@;
    let k = index_of_id(s, id);
    post.models@.len() == s.len() && post.counter == pre.counter && post.root_name@
        == pre.root_name@ && (forall|j: int| 0 <= j < s.len() && j != k ==> post.models@[j] == s[j])
        && post.models@[k].id == s[k].id && post.models@[k].name@ == nm && post.models@[k].ref_count
        == s[k].ref_count && post.models@[k].expand_info == s[k].expand_info
        && post.models@[k].value == s[k].value
}

/// The full rename contract. Merging is only offered to a leaf other than
/// the root; the overflow refusal is a machine limit (the merged reference
/// count must fit in a `u64`).
pub open spec fn rename_post(
    pre: TreeModel,
    post: TreeModel,
    id: u64,
    nm: Seq<char>,
    r: Result<RenameResponse, EngineError>,
) -> bool {
    let s = pre.models@;
    let k = index_of_id(s, id);
    let o = index_of_name(s, nm);
    let owner_id = s[o].id;
    if !contains_id(s, id) {
        r == Result::<RenameResponse, EngineError>::Err(EngineError::NotFound(id)) && post == pre
    } else if nm.len() == 0 {
        r == Result::<RenameResponse, EngineError>::Err(EngineError::EmptyName) && post == pre
    } else if s[k].name@ == nm {
        r == Result::<RenameResponse, EngineError>::Err(EngineError::UnchangedName) && post == pre
    } else if !contains_name(s, nm) {
        renamed_in_place(pre, post, id, nm) && (match r {
            Result::Ok(RenameResponse::RenameSelf(out)) => out@ == nm,
            _ => false,
        })
    } else if s[k].expand_info is Some {
        r == Result::<RenameResponse, EngineError>::Err(EngineError::DuplicateName) && post == pre
    } else if id == 0 {
        r == Result::<RenameResponse, EngineError>::Err(EngineError::RootImmutable) && post == pre
    } else if occurrences(s, id) + occurrences(s, owner_id) > u64::MAX {
        r == Result::<RenameResponse, EngineError>::Err(EngineError::Overflow) && post == pre
    } else {
        post.counter == pre.counter && post.root_name@ == pre.root_name@ && (match r {
            Result::Ok(RenameResponse::RemoveSelfUpdateRelated { id_to_remove, ids_to_update }) => {
                id_to_remove == id && exists|upd0: Seq<u64>|
                    replace_post(s, post.models@, id, Option::Some(owner_id), upd0) && (forall|
                        x: u64,
                    |
                        ids_to_update@.contains(x) <==> (#[trigger] upd0.contains(x)) || x
                            == owner_id)
            },
            _ => false,
        })
    }
}

/// Index of the item carrying the given name.
pub open spec fn index_of_name(s: Seq<Model>, nm: Seq<char>) -> int {
    choose|i: int| 0 <= i < s.len() && s[i].name@ == nm
}

/// Renames item `id` to `new_name`. An empty or unchanged name is refused.
/// If another item already owns the name, a leaf is merged into that owner
/// (every child list pointing at `id` is repointed and `id` is removed),
/// while a composite is refused.
pub fn request_rename(tm: &mut TreeModel, id: u64, new_name: &str) -> (r: Result<
    RenameResponse,
    EngineError,
>)
    requires
        old(tm).inv(),
    ensures
        final(tm).inv(),
        rename_post(*old(tm), *final(tm), id, new_name@, r),
{
    let ghost pre = *tm;
    let ghost s = tm.models@;
    let k = match find_index(&tm.models, id) {
        Some(k) => k,
        None => {
            return Err(EngineError::NotFound(id));
        },
    };
    proof {
        let ki = index_of_id(s, id);
        assert(0 <= ki < s.len() && s[ki].id == id);
        assert(ki == k);
    }
    if new_name.is_empty() {
        return Err(EngineError::EmptyName);
    }
    let owned_new = new_name.to_owned();
    if tm.models[k].name == owned_new {
        return Err(EngineError::UnchangedName);
    }
    let o = match find_name_index(&tm.models, &owned_new) {
        Some(o) => o,
        None => {
            // Rename in place.
            tm.models[k].name = owned_new;
            proof {
                let cur = tm.models@;
                assert forall|x: u64| occurrences(cur, x) == occurrences(s, x) by {
                    assert forall|j: int|
                        0 <= j < s.len() implies count_in(
                        spec_children(#[trigger] cur[j]),
                        x,
                    ) == count_in(spec_children(s[j]), x) by {
                        assert(cur[j].expand_info == s[j].expand_info);
                    }
                    lemma_occ_upto_congruent(cur, s, x, s.len() as int);
                }
                assert forall|a: int, b: int| 0 <= a < b < cur.len() implies cur[a].name@
                    != cur[b].name@ by {
                    if a != k && b != k {
                        assert(cur[a].name@ == s[a].name@ && cur[b].name@ == s[b].name@);
                    }
                }
                assert forall|i: int, j: int|
                    0 <= i < cur.len() && 0 <= j < spec_children(cur[i]).len() implies contains_id(
                    cur,
                    #[trigger] spec_children(cur[i])[j],
                ) by {
                    assert(spec_children(cur[i]) == spec_children(s[i]));
                    assert(contains_id(s, spec_children(s[i])[j]));
                    let w = choose|w: int|
                        0 <= w < s.len() && s[w].id == spec_children(s[i])[j];
                    assert(cur[w].id == spec_children(s[i])[j]);
                }
                assert(contains_id(cur, 0)) by {
                    let w = choose|w: int| 0 <= w < s.len() && s[w].id == 0;
                    assert(cur[w].id == 0);
                }
            }
            return Ok(RenameResponse::RenameSelf(new_name.to_owned()));
        },
    };
    proof {
        let oi = index_of_name(s, new_name@);
        assert(0 <= oi < s.len() && s[oi].name@ == new_name@);
        assert(oi == o) by {
            if oi != o {
                assert(s[oi].name@ == s[o as int].name@);
            }
        }
        assert(o != k);
    }
    let is_composite = match &tm.models[k].expand_info {
        Some(_) => true,
        None => false,
    };
    if is_composite {
        return Err(EngineError::DuplicateName);
    }
    if id == 0 {
        return Err(EngineError::RootImmutable);
    }
    let owner_id = tm.models[o].id;
    let merged = match tm.models[k].ref_count.checked_add(tm.models[o].ref_count) {
        Some(_) => true,
        None => false,
    };
    if !merged {
        return Err(EngineError::Overflow);
    }
    proof {
        assert(owner_id != id);
        assert(occurrences(s, id) == s[k as int].ref_count);
        assert(occurrences(s, owner_id) == s[o as int].ref_count);
    }
    let upd0 = replace_node_and_update_children(&mut tm.models, id, Some(owner_id));
    let ghost upd0v = upd0@;
    let mut ids_to_update = upd0;
    if !contains_vec(&ids_to_update, owner_id) {
        ids_to_update.push(owner_id);
        proof {
            assert forall|x: u64| ids_to_update@.contains(x) implies (upd0v.contains(x) || x
                == owner_id) by {
                let w = choose|w: int| 0 <= w < ids_to_update@.len() && ids_to_update@[w] == x;
                if w < upd0v.len() {
                    assert(upd0v[w] == x);
                }
            }
            assert forall|x: u64| upd0v.contains(x) || x == owner_id implies ids_to_update@.contains(
                x,
            ) by {
                if upd0v.contains(x) {
                    let w = choose|w: int| 0 <= w < upd0v.len() && upd0v[w] == x;
                    assert(ids_to_update@[w] == x);
                } else {
                    assert(ids_to_update@[ids_to_update@.len() - 1] == x);
                }
            }
        }
    }
    proof {
        lemma_inv_after_replace(pre, *tm, id, Option::Some(owner_id), upd0v);
    }
    Ok(RenameResponse::RemoveSelfUpdateRelated { id_to_remove: id, ids_to_update })
}

/// After a merge or removal backed by `replace_post`, the store invariant
/// holds again: the root survives and all ids stay below the counter.
proof fn lemma_inv_after_replace(
    pre: TreeModel,
    post: TreeModel,
    id: u64,
    new_id: Option<u64>,
    upd0: Seq<u64>,
)
    requires
        pre.inv(),
        id != 0,
        post.counter == pre.counter,
        replace_post(pre.models@, post.models@, id, new_id, upd0),
    ensures
        post.inv(),
{
    let s = pre.models@;
    let news = post.models@;
    assert(contains_id(news, 0));
    assert forall|i: int| 0 <= i < news.len() implies news[i].id < post.counter by {
        assert(contains_id(news, news[i].id)) by {
            assert(news[i].id == news[i].id);
        }
        assert(news[i].id != id || !contains_id(news, id));
        assert(contains_id(s, news[i].id));
        let w = choose|w: int| 0 <= w < s.len() && s[w].id == news[i].id;
        assert(s[w].id < pre.counter);
    }
}

/// Finds the first position of `id` in a child-id vector.
fn find_first_pos(ch: &Vec<u64>, id: u64) -> (r: Option<usize>)
    ensures
        match r {
            Option::Some(pos) => pos < ch@.len() && ch@[pos as int] == id && (forall|q: int|
                0 <= q < pos ==> ch@[q] != id),
            Option::None => !ch@.contains(id),
        },
{
    let n = ch.len();
    let mut i: usize = 0;
    while i < n
        invariant
            i <= n,
            n == ch@.len(),
            forall|j: int| 0 <= j < i ==> ch@[j] != id,
        decreases n - i,
    {
        if ch[i] == id {
            return Some(i);
        }
        i = i + 1;
    }
    None
}

/// How the store looks after detaching one occurrence of shared item `id`
/// from parent `pk`'s child list: the first occurrence is gone, every
/// other item keeps its shape, and reference counts are correct again
/// (the shared item's count visibly drops by one).
pub open spec fn detach_shape(s: Seq<Model>, news: Seq<Model>, pk: int, id: u64) -> bool {
    let ch = spec_children(s[pk]);
    news.len() == s.len() && (forall|j: int|
        0 <= j < s.len() && j != pk ==> same_except_ref(#[trigger] news[j], s[j])) && news[pk].id
        == s[pk].id && news[pk].name@ == s[pk].name@ && news[pk].value == s[pk].value && (exists|
        pos: int,
    |
        0 <= pos < ch.len() && ch[pos] == id && (forall|q: int| 0 <= q < pos ==> ch[q] != id)
            && (match news[pk].expand_info {
            Option::Some(y) => y.algorithm == s[pk].expand_info.unwrap().algorithm && y.children@
                == ch.remove(pos),
            Option::None => false,
        })) && ref_counts_ok(news) && occurrences(news, id) + 1 == occurrences(s, id) && (forall|
        x: u64,
    |
        x != id ==> occurrences(news, x) == occurrences(s, x))
}

/// The full delete contract: the root is immutable; an item whose
/// reference count is 1 is removed outright together with every child-list
/// occurrence; a shared item is only detached from the named parent.
pub open spec fn delete_post(
    pre: TreeModel,
    post: TreeModel,
    id: u64,
    parent: Option<u64>,
    r: Result<DeleteResponse, EngineError>,
) -> bool {
    let s = pre.models@;
    let k = index_of_id(s, id);
    if id == 0 {
        r == Result::<DeleteResponse, EngineError>::Err(EngineError::RootImmutable) && post == pre
    } else if !contains_id(s, id) {
        r == Result::<DeleteResponse, EngineError>::Err(EngineError::NotFound(id)) && post == pre
    } else if s[k].ref_count == 1 {
        post.counter == pre.counter && post.root_name@ == pre.root_name@ && (match r {
            Result::Ok(resp) => resp.id_to_remove == Some(id) && exists|upd0: Seq<u64>|
                replace_post(s, post.models@, id, Option::None, upd0) && resp.ids_to_update@
                    == upd0,
            _ => false,
        })
    } else {
        match parent {
            Option::None => r == Result::<DeleteResponse, EngineError>::Err(
                EngineError::ParentRequired,
            ) && post == pre,
            Option::Some(p) => {
                let pk = index_of_id(s, p);
                if !contains_id(s, p) {
                    r == Result::<DeleteResponse, EngineError>::Err(EngineError::NotFound(p))
                        && post == pre
                } else if s[pk].expand_info is None {
                    r == Result::<DeleteResponse, EngineError>::Err(EngineError::NotComposite)
                        && post == pre
                } else if !spec_children(s[pk]).contains(id) {
                    r == Result::<DeleteResponse, EngineError>::Err(EngineError::ChildNotFound)
                        && post == pre
                } else {
                    post.counter == pre.counter && post.root_name@ == pre.root_name@
                        && detach_shape(s, post.models@, pk, id) && (match r {
                        Result::Ok(resp) => resp.id_to_remove is None && resp.ids_to_update@
                            == seq![p, id],
                        _ => false,
                    })
                }
            },
        }
    }
}

/// Deletes item `id`. The root cannot be deleted. An item referenced only
/// once is removed from the store and from every child list; a shared item
/// is detached from the explicitly named parent only, and its reference
/// count drops by one.
pub fn request_delete(tm: &mut TreeModel, id: u64, parent: Option<u64>) -> (r: Result<
    DeleteResponse,
    EngineError,
>)
    requires
        old(tm).inv(),
    ensures
        final(tm).inv(),
        delete_post(*old(tm), *final(tm), id, parent, r),
{
    let ghost pre = *tm;
    let ghost s = tm.models@;
    if id == 0 {
        return Err(EngineError::RootImmutable);
    }
    let k = match find_index(&tm.models, id) {
        Some(k) => k,
        None => {
            return Err(EngineError::NotFound(id));
        },
    };
    proof {
        let ki = index_of_id(s, id);
        assert(0 <= ki < s.len() && s[ki].id == id);
        assert(ki == k);
    }
    if tm.models[k].ref_count == 1 {
        let upd0 = replace_node_and_update_children(&mut tm.models, id, None);
        proof {
            lemma_inv_after_replace(pre, *tm, id, Option::None, upd0@);
            assert(replace_post(s, tm.models@, id, Option::None, upd0@));
        }
        return Ok(DeleteResponse { id_to_remove: Some(id), ids_to_update: upd0 });
    }
    let p = match parent {
        Some(p) => p,
        None => {
            return Err(EngineError::ParentRequired);
        },
    };
    let pk = match find_index(&tm.models, p) {
        Some(pk) => pk,
        None => {
            return Err(EngineError::NotFound(p));
        },
    };
    proof {
        let pki = index_of_id(s, p);
        assert(0 <= pki < s.len() && s[pki].id == p);
        assert(pki == pk);
    }
    let (newinfo, pos) = match &tm.models[pk].expand_info {
        None => {
            return Err(EngineError::NotComposite);
        },
        Some(e) => {
            let pos = match find_first_pos(&e.children, id) {
                Some(pos) => pos,
                None => {
                    return Err(EngineError::ChildNotFound);
                },
            };
            let mut ch2 = clone_vec_u64(&e.children);
            ch2.remove(pos);
            (ExpandInfo { algorithm: e.algorithm, children: ch2 }, pos)
        },
    };
    let ghost ch = spec_children(s[pk as int]);
    tm.models[pk].expand_info = Some(newinfo);
    proof {
        let cur = tm.models@;
        assert(cur =~= s.update(pk as int, cur[pk as int]));
        // Occurrence totals drop by one for `id` and stay put otherwise.
        assert forall|x: u64|
            occurrences(cur, x) + (if x == id {
                1nat
            } else {
                0nat
            }) == occurrences(s, x) by {
            lemma_occ_update(s, pk as int, cur[pk as int], x, s.len() as int);
            lemma_count_remove_at(ch, pos as int, x);
            assert(occ_upto(s.update(pk as int, cur[pk as int]), x, s.len() as int) == occ_upto(
                cur,
                x,
                s.len() as int,
            )) by {
                lemma_occ_upto_congruent(s.update(pk as int, cur[pk as int]), cur, x, s.len() as int);
            }
        }
        assert forall|x: u64| occurrences(cur, x) <= u64::MAX by {
            assert(occurrences(cur, x) + (if x == id {
                1nat
            } else {
                0nat
            }) == occurrences(s, x));
            if contains_id(s, x) {
                let w = choose|w: int| 0 <= w < s.len() && s[w].id == x;
                assert(s[w].ref_count == occurrences(s, x));
            } else {
                lemma_occ_absent(s, x, s.len() as int);
            }
        }
    }
    let ghost cur = tm.models@;
    update_reference_count(&mut tm.models);
    proof {
        let fin = tm.models@;
        assert(forall|x: u64| occurrences(fin, x) == occurrences(cur, x));
        assert forall|j: int| 0 <= j < s.len() && j != pk implies same_except_ref(
            #[trigger] fin[j],
            s[j],
        ) by {
            assert(same_except_ref(fin[j], cur[j]));
            assert(cur[j] == s[j]);
        }
        // The detached child list sits inside the old one, so the store
        // stays closed, and ids and names are untouched.
        assert forall|i: int, j: int|
            0 <= i < fin.len() && 0 <= j < spec_children(fin[i]).len() implies contains_id(
            fin,
            #[trigger] spec_children(fin[i])[j],
        ) by {
            let x = spec_children(fin[i])[j];
            assert(spec_children(fin[i]) == spec_children(cur[i]));
            if i == pk {
                assert(spec_children(cur[i]) == ch.remove(pos as int));
                assert(x == if j < pos {
                    ch[j]
                } else {
                    ch[j + 1]
                });
                assert(contains_id(s, x));
            } else {
                assert(contains_id(s, x));
            }
            let w = choose|w: int| 0 <= w < s.len() && s[w].id == x;
            assert(fin[w].id == x);
        }
        assert forall|a: int, b: int| 0 <= a < b < fin.len() implies fin[a].id != fin[b].id
            && fin[a].name@ != fin[b].name@ by {
            assert(fin[a].id == s[a].id && fin[b].id == s[b].id);
            assert(fin[a].name@ == s[a].name@ && fin[b].name@ == s[b].name@);
        }
        assert(contains_id(fin, 0)) by {
            let w = choose|w: int| 0 <= w < s.len() && s[w].id == 0;
            assert(fin[w].id == 0);
        }
        assert forall|i: int| 0 <= i < fin.len() implies fin[i].id < pre.counter by {
            assert(fin[i].id == s[i].id);
        }
        assert(detach_shape(s, fin, pk as int, id)) by {
            assert(0 <= (pos as int) < ch.len() && ch[pos as int] == id && (forall|q: int|
                0 <= q < pos ==> ch[q] != id) && (match fin[pk as int].expand_info {
                Option::Some(y) => y.algorithm == s[pk as int].expand_info.unwrap().algorithm
                    && y.children@ == ch.remove(pos as int),
                Option::None => false,
            }));
        }
    }
    let mut ids_to_update: Vec<u64> = Vec::new();
    ids_to_update.push(p);
    ids_to_update.push(id);
    proof {
        assert(ids_to_update@ =~= seq![p, id]);
    }
    Ok(DeleteResponse { id_to_remove: None, ids_to_update })
}

/// The add-child contract: a fresh leaf child with a never-used id and a
/// never-used name is appended to the named composite parent.
pub open spec fn add_post(pre: TreeModel, post: TreeModel, id: u64, r: Result<
    u64,
    EngineError,
>) -> bool {
    let s = pre.models@;
    let k = index_of_id(s, id);
    if !contains_id(s, id) {
        r == Result::<u64, EngineError>::Err(EngineError::NotFound(id)) && post == pre
    } else if s[k].expand_info is None {
        r == Result::<u64, EngineError>::Err(EngineError::NotComposite) && post == pre
    } else if pre.counter == u64::MAX {
        r == Result::<u64, EngineError>::Err(EngineError::Overflow) && post == pre
    } else {
        let newm = post.models@[s.len() as int];
        r == Result::<u64, EngineError>::Ok(id) && post.counter == pre.counter + 1
            && post.root_name@ == pre.root_name@ && post.models@.len() == s.len() + 1 && (forall|
            j: int,
        |
            0 <= j < s.len() && j != k ==> post.models@[j] == s[j]) && post.models@[k].id
            == s[k].id && post.models@[k].name@ == s[k].name@ && post.models@[k].ref_count
            == s[k].ref_count && post.models@[k].value == s[k].value && (match post.models@[k].expand_info {
            Option::Some(y) => y.algorithm == s[k].expand_info.unwrap().algorithm && y.children@
                == spec_children(s[k]).push(pre.counter),
            Option::None => false,
        }) && newm.id == pre.counter && newm.ref_count == 1 && newm.expand_info is None
            && newm.value is None && !contains_id(s, newm.id) && !contains_name(s, newm.name@)
    }
}

/// Adds a fresh leaf child to composite item `id`: allocates a new id,
/// appends it to the parent's child list, and gives the new item a
/// placeholder name that collides with no existing name.
pub fn request_add(tm: &mut TreeModel, id: u64) -> (r: Result<u64, EngineError>)
    requires
        old(tm).inv(),
    ensures
        final(tm).inv(),
        add_post(*old(tm), *final(tm), id, r),
{
    let ghost pre = *tm;
    let ghost s = tm.models@;
    let k = match find_index(&tm.models, id) {
        Some(k) => k,
        None => {
            return Err(EngineError::NotFound(id));
        },
    };
    proof {
        let ki = index_of_id(s, id);
        assert(0 <= ki < s.len() && s[ki].id == id);
        assert(ki == k);
    }
    let newinfo = match &tm.models[k].expand_info {
        None => {
            return Err(EngineError::NotComposite);
        },
        Some(e) => {
            if tm.counter == u64::MAX {
                return Err(EngineError::Overflow);
            }
            let mut ch2 = clone_vec_u64(&e.children);
            ch2.push(tm.counter);
            ExpandInfo { algorithm: e.algorithm, children: ch2 }
        },
    };
    let new_id = tm.counter;
    tm.counter = tm.counter + 1;
    tm.models[k].expand_info = Some(newinfo);
    let new_name = crate::names::suggest_new_name_add(&tm.models);
    let ghost cur = tm.models@;
    let newm = Model {
        id: new_id,
        name: new_name,
        ref_count: 1,
        expand_info: None,
        value: None,
    };
    tm.models.push(newm);
    proof {
        let fin = tm.models@;
        let ch = spec_children(s[k as int]);
        assert(fin =~= cur.push(fin[s.len() as int]));
        assert(!contains_id(s, new_id)) by {
            if contains_id(s, new_id) {
                let w = choose|w: int| 0 <= w < s.len() && s[w].id == new_id;
                assert(s[w].id < pre.counter);
            }
        }
        // Occurrence totals: only the fresh id gains one occurrence.
        assert forall|x: u64|
            occurrences(fin, x) == occurrences(s, x) + (if x == new_id {
                1nat
            } else {
                0nat
            }) by {
            lemma_occ_push(cur, fin[s.len() as int], x);
            lemma_occ_update(s, k as int, cur[k as int], x, s.len() as int);
            lemma_count_push(ch, new_id, x);
            assert(occ_upto(s.update(k as int, cur[k as int]), x, s.len() as int) == occ_upto(
                cur,
                x,
                s.len() as int,
            )) by {
                lemma_occ_upto_congruent(s.update(k as int, cur[k as int]), cur, x, s.len() as int);
            }
        }
        assert(occurrences(s, new_id) == 0) by {
            lemma_occ_absent(s, new_id, s.len() as int);
        }
        // The invariant: fresh id and name keep uniqueness; the new child
        // id is present, so the store stays closed; counts match.
        assert forall|a: int, b: int| 0 <= a < b < fin.len() implies fin[a].id != fin[b].id by {
            if b == s.len() as int {
                assert(fin[a].id == s[a].id && s[a].id < pre.counter);
            } else {
                assert(fin[a].id == s[a].id && fin[b].id == s[b].id);
            }
        }
        assert forall|a: int, b: int| 0 <= a < b < fin.len() implies fin[a].name@
            != fin[b].name@ by {
            if b == s.len() as int {
                assert(fin[a].name@ == s[a].name@);
                assert(contains_name(cur, s[a].name@)) by {
                    assert(cur[a].name@ == s[a].name@);
                }
            } else {
                assert(fin[a].name@ == s[a].name@ && fin[b].name@ == s[b].name@);
            }
        }
        assert forall|i: int, j: int|
            0 <= i < fin.len() && 0 <= j < spec_children(fin[i]).len() implies contains_id(
            fin,
            #[trigger] spec_children(fin[i])[j],
        ) by {
            let x = spec_children(fin[i])[j];
            if i == k as int && j == ch.len() {
                assert(x == new_id);
                assert(fin[s.len() as int].id == new_id);
            } else if i == s.len() as int {
                assert(spec_children(fin[i]).len() == 0);
            } else {
                assert(spec_children(fin[i])[j] == spec_children(s[i])[j]);
                assert(contains_id(s, x));
                let w = choose|w: int| 0 <= w < s.len() && s[w].id == x;
                assert(fin[w].id == x);
            }
        }
        assert forall|i: int| 0 <= i < fin.len() implies fin[i].ref_count == occurrences(
            fin,
            #[trigger] fin[i].id,
        ) by {
            if i == s.len() as int {
            } else {
                assert(fin[i].ref_count == s[i].ref_count);
                assert(s[i].ref_count == occurrences(s, s[i].id));
                assert(s[i].id != new_id) by {
                    assert(s[i].id < pre.counter);
                }
            }
        }
        assert(contains_id(fin, 0)) by {
            let w = choose|w: int| 0 <= w < s.len() && s[w].id == 0;
            assert(fin[w].id == 0);
        }
        assert forall|i: int| 0 <= i < fin.len() implies fin[i].id < tm.counter by {
            if i < s.len() {
                assert(fin[i].id == s[i].id && s[i].id < pre.counter);
            }
        }
        assert(!contains_name(s, fin[s.len() as int].name@)) by {
            if contains_name(s, fin[s.len() as int].name@) {
                let w = choose|w: int|
                    0 <= w < s.len() && s[w].name@ == fin[s.len() as int].name@;
                assert(contains_name(cur, fin[s.len() as int].name@)) by {
                    assert(cur[w].name@ == fin[s.len() as int].name@);
                }
            }
        }
    }
    Ok(id)
}

/// The reduction-update contract: only the named composite item's
/// reduction changes.
pub open spec fn update_algorithm_post(
    pre: TreeModel,
    post: TreeModel,
    id: u64,
    alg: crate::algorithm::Algorithm,
    r: Result<u64, EngineError>,
) -> bool {
    let s = pre.models@;
    let k = index_of_id(s, id);
    if !contains_id(s, id) {
        r == Result::<u64, EngineError>::Err(EngineError::NotFound(id)) && post == pre
    } else if s[k].expand_info is None {
        r == Result::<u64, EngineError>::Err(EngineError::NotComposite) && post == pre
    } else {
        r == Result::<u64, EngineError>::Ok(id) && post.counter == pre.counter && post.root_name@
            == pre.root_name@ && post.models@.len() == s.len() && (forall|j: int|
            0 <= j < s.len() && j != k ==> post.models@[j] == s[j]) && post.models@[k].id
            == s[k].id && post.models@[k].name@ == s[k].name@ && post.models@[k].ref_count
            == s[k].ref_count && post.models@[k].value == s[k].value && (match post.models@[k].expand_info {
            Option::Some(y) => y.algorithm == alg && y.children@ == spec_children(s[k]),
            Option::None => false,
        })
    }
}

/// Overwrites the reduction of composite item `id`.
pub fn request_update_algorithm(
    tm: &mut TreeModel,
    id: u64,
    new_algorithm: crate::algorithm::Algorithm,
) -> (r: Result<u64, EngineError>)
    requires
        old(tm).inv(),
    ensures
        final(tm).inv(),
        update_algorithm_post(*old(tm), *final(tm), id, new_algorithm, r),
{
    let ghost pre = *tm;
    let ghost s = tm.models@;
    let k = match find_index(&tm.models, id) {
        Some(k) => k,
        None => {
            return Err(EngineError::NotFound(id));
        },
    };
    proof {
        let ki = index_of_id(s, id);
        assert(0 <= ki < s.len() && s[ki].id == id);
        assert(ki == k);
    }
    let newinfo = match &tm.models[k].expand_info {
        None => {
            return Err(EngineError::NotComposite);
        },
        Some(e) => ExpandInfo { algorithm: new_algorithm, children: clone_vec_u64(&e.children) },
    };
    tm.models[k].expand_info = Some(newinfo);
    proof {
        lemma_inv_after_reshape(pre, *tm, k as int);
    }
    Ok(id)
}

/// A store whose items keep their ids, names, reference counts and child
/// lists — only reductions, values or leaf/composite flags with equal
/// child views may differ at one index — keeps the whole invariant.
proof fn lemma_inv_after_reshape(pre: TreeModel, post: TreeModel, k: int)
    requires
        pre.inv(),
        post.counter == pre.counter,
        post.models@.len() == pre.models@.len(),
        forall|j: int| 0 <= j < pre.models@.len() && j != k ==> post.models@[j] == pre.models@[j],
        0 <= k < pre.models@.len(),
        post.models@[k].id == pre.models@[k].id,
        post.models@[k].name@ == pre.models@[k].name@,
        post.models@[k].ref_count == pre.models@[k].ref_count,
        spec_children(post.models@[k]) == spec_children(pre.models@[k]),
    ensures
        post.inv(),
{
    let s = pre.models@;
    let fin = post.models@;
    let n = s.len() as int;
    assert forall|x: u64| occurrences(fin, x) == occurrences(s, x) by {
        assert forall|j: int|
            0 <= j < n implies count_in(spec_children(#[trigger] fin[j]), x) == count_in(
            spec_children(s[j]),
            x,
        ) by {}
        lemma_occ_upto_congruent(fin, s, x, n);
    }
    assert forall|a: int, b: int| 0 <= a < b < n implies fin[a].id != fin[b].id && fin[a].name@
        != fin[b].name@ by {
        assert(fin[a].id == s[a].id && fin[b].id == s[b].id);
        assert(fin[a].name@ == s[a].name@ && fin[b].name@ == s[b].name@);
    }
    assert forall|i: int, j: int|
        0 <= i < n && 0 <= j < spec_children(fin[i]).len() implies contains_id(
        fin,
        #[trigger] spec_children(fin[i])[j],
    ) by {
        assert(spec_children(fin[i]) == spec_children(s[i]));
        assert(contains_id(s, spec_children(s[i])[j]));
        let w = choose|w: int| 0 <= w < n && s[w].id == spec_children(s[i])[j];
        assert(fin[w].id == spec_children(s[i])[j]);
    }
    assert(contains_id(fin, 0)) by {
        let w = choose|w: int| 0 <= w < n && s[w].id == 0;
        assert(fin[w].id == 0);
    }
    assert forall|i: int| 0 <= i < n implies fin[i].id < post.counter by {
        assert(fin[i].id == s[i].id);
    }
    assert forall|i: int| 0 <= i < n implies fin[i].ref_count == occurrences(
        fin,
        #[trigger] fin[i].id,
    ) by {
        assert(fin[i].ref_count == s[i].ref_count && fin[i].id == s[i].id);
    }
}

/// The toggle contract. A leaf becomes an empty composite with the unset
/// reduction. A composite with no children becomes a leaf outright; one
/// with children does so only on explicit confirmation, detaching the
/// children (their reference counts drop; the children persist).
pub open spec fn toggle_post(
    pre: TreeModel,
    post: TreeModel,
    id: u64,
    confirm: bool,
    r: Result<u64, EngineError>,
) -> bool {
    let s = pre.models@;
    let k = index_of_id(s, id);
    if !contains_id(s, id) {
        r == Result::<u64, EngineError>::Err(EngineError::NotFound(id)) && post == pre
    } else if s[k].expand_info is Some {
        if spec_children(s[k]).len() > 0 && !confirm {
            r == Result::<u64, EngineError>::Err(EngineError::Cancelled) && post == pre
        } else {
            r == Result::<u64, EngineError>::Ok(id) && post.counter == pre.counter
                && post.root_name@ == pre.root_name@ && post.models@.len() == s.len() && (forall|
                j: int,
            |
                0 <= j < s.len() && j != k ==> same_except_ref(#[trigger] post.models@[j], s[j]))
                && post.models@[k].id == s[k].id && post.models@[k].name@ == s[k].name@
                && post.models@[k].value == s[k].value && post.models@[k].expand_info is None
                && ref_counts_ok(post.models@) && (forall|x: u64|
                occurrences(post.models@, x) + count_in(spec_children(s[k]), x) == occurrences(
                    s,
                    x,
                ))
        }
    } else {
        r == Result::<u64, EngineError>::Ok(id) && post.counter == pre.counter && post.root_name@
            == pre.root_name@ && post.models@.len() == s.len() && (forall|j: int|
            0 <= j < s.len() && j != k ==> post.models@[j] == s[j]) && post.models@[k].id
            == s[k].id && post.models@[k].name@ == s[k].name@ && post.models@[k].ref_count
            == s[k].ref_count && post.models@[k].value == s[k].value && (match post.models@[k].expand_info {
            Option::Some(y) => y.algorithm == crate::algorithm::Algorithm::Unset && y.children@
                =~= Seq::<u64>::empty(),
            Option::None => false,
        })
    }
}

/// Toggles item `id` between leaf and composite. Dropping a non-empty
/// child list needs `confirm`; the detached children stay in the store and
/// their reference counts drop accordingly.
pub fn request_can_expand_toggling(tm: &mut TreeModel, id: u64, confirm: bool) -> (r: Result<
    u64,
    EngineError,
>)
    requires
        old(tm).inv(),
    ensures
        final(tm).inv(),
        toggle_post(*old(tm), *final(tm), id, confirm, r),
{
    let ghost pre = *tm;
    let ghost s = tm.models@;
    let k = match find_index(&tm.models, id) {
        Some(k) => k,
        None => {
            return Err(EngineError::NotFound(id));
        },
    };
    proof {
        let ki = index_of_id(s, id);
        assert(0 <= ki < s.len() && s[ki].id == id);
        assert(ki == k);
    }
    let was_composite = match &tm.models[k].expand_info {
        Some(e) => {
            if e.children.len() > 0 && !confirm {
                return Err(EngineError::Cancelled);
            }
            true
        },
        None => false,
    };
    if !was_composite {
        tm.models[k].expand_info = Some(
            ExpandInfo { algorithm: crate::algorithm::Algorithm::Unset, children: Vec::new() },
        );
        proof {
            assert(spec_children(tm.models@[k as int]) =~= spec_children(s[k as int]));
            lemma_inv_after_reshape(pre, *tm, k as int);
        }
        return Ok(id);
    }
    let ghost ch = spec_children(s[k as int]);
    tm.models[k].expand_info = None;
    proof {
        let cur = tm.models@;
        assert forall|x: u64|
            occurrences(cur, x) + count_in(ch, x) == occurrences(s, x) by {
            lemma_occ_update(s, k as int, cur[k as int], x, s.len() as int);
            assert(occ_upto(s.update(k as int, cur[k as int]), x, s.len() as int) == occ_upto(
                cur,
                x,
                s.len() as int,
            )) by {
                lemma_occ_upto_congruent(s.update(k as int, cur[k as int]), cur, x, s.len() as int);
            }
        }
        assert forall|x: u64| occurrences(cur, x) <= u64::MAX by {
            assert(occurrences(cur, x) + count_in(ch, x) == occurrences(s, x));
            if contains_id(s, x) {
                let w = choose|w: int| 0 <= w < s.len() && s[w].id == x;
                assert(s[w].ref_count == occurrences(s, x));
            } else {
                lemma_occ_absent(s, x, s.len() as int);
            }
        }
    }
    let ghost cur = tm.models@;
    update_reference_count(&mut tm.models);
    proof {
        let fin = tm.models@;
        assert(forall|x: u64| occurrences(fin, x) == occurrences(cur, x));
        assert forall|j: int| 0 <= j < s.len() && j != k implies same_except_ref(
            #[trigger] fin[j],
            s[j],
        ) by {
            assert(same_except_ref(fin[j], cur[j]));
            assert(cur[j] == s[j]);
        }
        assert forall|a: int, b: int| 0 <= a < b < fin.len() implies fin[a].id != fin[b].id
            && fin[a].name@ != fin[b].name@ by {
            assert(fin[a].id == s[a].id && fin[b].id == s[b].id);
            assert(fin[a].name@ == s[a].name@ && fin[b].name@ == s[b].name@);
        }
        assert forall|i: int, j: int|
            0 <= i < fin.len() && 0 <= j < spec_children(fin[i]).len() implies contains_id(
            fin,
            #[trigger] spec_children(fin[i])[j],
        ) by {
            assert(i != k);
            assert(spec_children(fin[i]) == spec_children(s[i]));
            assert(contains_id(s, spec_children(s[i])[j]));
            let w = choose|w: int| 0 <= w < s.len() && s[w].id == spec_children(s[i])[j];
            assert(fin[w].id == spec_children(s[i])[j]);
        }
        assert(contains_id(fin, 0)) by {
            let w = choose|w: int| 0 <= w < s.len() && s[w].id == 0;
            assert(fin[w].id == 0);
        }
        assert forall|i: int| 0 <= i < fin.len() implies fin[i].id < pre.counter by {
            assert(fin[i].id == s[i].id);
        }
    }
    Ok(id)
}

/// Returns a copy of the item with the given id.
pub fn query_node(tm: &TreeModel, id: u64) -> (r: Result<Model, EngineError>)
    requires
        tm.inv(),
    ensures
        match r {
            Result::Ok(m) => contains_id(tm.models@, id) && model_like(
                m,
                tm.models@[index_of_id(tm.models@, id)],
            ),
            Result::Err(e) => e == EngineError::NotFound(id) && !contains_id(tm.models@, id),
        },
{
    let ghost s = tm.models@;
    match find_index(&tm.models, id) {
        Some(k) => {
            proof {
                let ki = index_of_id(s, id);
                assert(0 <= ki < s.len() && s[ki].id == id);
                assert(ki == k);
            }
            Ok(tm.models[k].clone())
        },
        None => Err(EngineError::NotFound(id)),
    }
}

/// After the rewrite, no child list mentions the removed id.
proof fn lemma_per_item_counts(a: Model, b: Model, id: u64, new_id: Option<u64>)
    requires
        replaced_children(a, b, id, new_id),
        match new_id {
            Option::Some(nid) => nid != id,
            Option::None => true,
        },
    ensures
        count_in(spec_children(b), id) == 0,
{
    match (a.expand_info, b.expand_info) {
        (Option::Some(x), Option::Some(y)) => {
            match new_id {
                Option::Some(nid) => {
                    lemma_subst_counts(x.children@, id, nid, id);
                },
                Option::None => {
                    lemma_erase_counts(x.children@, id);
                },
            }
        },
        _ => {},
    }
}

/// The rewrite leaves counts of unrelated ids untouched.
proof fn lemma_per_item_counts_other(a: Model, b: Model, id: u64, new_id: Option<u64>, x: u64)
    requires
        replaced_children(a, b, id, new_id),
        x != id,
        match new_id {
            Option::Some(nid) => nid != id && x != nid,
            Option::None => true,
        },
    ensures
        count_in(spec_children(b), x) == count_in(spec_children(a), x),
{
    match (a.expand_info, b.expand_info) {
        (Option::Some(ei), Option::Some(y)) => {
            match new_id {
                Option::Some(nid) => {
                    lemma_subst_counts(ei.children@, id, nid, x);
                },
                Option::None => {
                    lemma_erase_counts(ei.children@, id);
                },
            }
        },
        _ => {},
    }
}

/// Under a merge, the target absorbs every occurrence of the removed id.
proof fn lemma_per_item_counts_merge(a: Model, b: Model, id: u64, nid: u64)
    requires
        replaced_children(a, b, id, Some(nid)),
        nid != id,
    ensures
        count_in(spec_children(b), nid) == count_in(spec_children(a), id) + count_in(
            spec_children(a),
            nid,
        ),
{
    match (a.expand_info, b.expand_info) {
        (Option::Some(x), Option::Some(y)) => {
            lemma_subst_counts(x.children@, id, nid, nid);
        },
        _ => {},
    }
}

/// Every id in a rewritten child list is an old child or the merge target,
/// and never the removed id.
proof fn lemma_child_origin(a: Model, b: Model, id: u64, new_id: Option<u64>, c: int)
    requires
        replaced_children(a, b, id, new_id),
        match new_id {
            Option::Some(nid) => nid != id,
            Option::None => true,
        },
        0 <= c < spec_children(b).len(),
    ensures
        spec_children(b)[c] != id,
        spec_children(a).contains(spec_children(b)[c]) || (match new_id {
            Option::Some(nid) => spec_children(b)[c] == nid,
            Option::None => false,
        }),
{
    match (a.expand_info, b.expand_info) {
        (Option::Some(x), Option::Some(y)) => {
            match new_id {
                Option::Some(nid) => {
                    assert(y.children@[c] == if x.children@[c] == id {
                        nid
                    } else {
                        x.children@[c]
                    });
                    if x.children@[c] != id {
                        assert(spec_children(a).contains(spec_children(b)[c])) by {
                            assert(x.children@[c] == y.children@[c]);
                        }
                    }
                },
                Option::None => {
                    lemma_erase_counts(x.children@, id);
                    assert(y.children@.contains(y.children@[c]));
                },
            }
        },
        _ => {},
    }
}

} // verus!
