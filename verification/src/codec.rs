//! The document codec: translation between the persisted, name-keyed
//! document format and the in-memory, id-keyed store. Saving walks the
//! store breadth-first from the root behind a visited set and an iteration
//! cap; loading assigns ids (root first, then declared items, then their
//! children) and rebuilds reference counts.

use crate::algorithm::{spec_label, spec_parse_label, Algorithm};
use crate::error::EngineError;
use crate::store::{
    contains_id, contains_name, find_index, ids_unique, index_of_id,
    lemma_reach_in_closed_set, model_of, occurrences, reaches, ref_counts_ok,
    spec_children, ExpandInfo, Model, TreeModel,
};
use vstd::prelude::*;

verus! {

/// One persisted item entry: a composite's name, its reduction label, and
/// its children by name. Leaves are not persisted — they exist only as
/// names in some composite's child list.
pub struct FileModel {
    pub name: String,
    pub children: Vec<String>,
    pub algorithm: String,
}

/// The whole persisted document.
pub struct FileTreeModel {
    pub root_name: String,
    pub data: Vec<FileModel>,
}

/// Whether persisted entry `e` correctly describes composite item `vid`.
pub open spec fn entry_matches(s: Seq<Model>, e: FileModel, vid: u64) -> bool {
    contains_id(s, vid) && {
        let m = model_of(s, vid);
        m.expand_info is Some && {
            let x = m.expand_info.unwrap();
            e.name@ == m.name@ && e.algorithm@ == spec_label(x.algorithm) && e.children@.len()
                == x.children@.len() && (forall|c: int|
                0 <= c < x.children@.len() ==> contains_id(s, x.children@[c]) && (
                #[trigger] e.children@[c])@ == model_of(s, x.children@[c]).name@)
        }
    }
}

/// The save contract: on success the document names the root, holds one
/// correct entry per emitted composite, repeats no name, emits only
/// composites the root reaches, and misses none of them. Failure is only
/// the iteration cap, which guards against a corrupted (cyclic) store;
/// any store whose child lists fit within the cap is saved.
pub open spec fn save_post(tm: TreeModel, r: Result<FileTreeModel, EngineError>) -> bool {
    let s = tm.models@;
    (match r {
        Result::Ok(doc) => doc.root_name@ == model_of(s, 0).name@ && (forall|p: int|
            0 <= p < doc.data@.len() ==> entry_matches(
                s,
                #[trigger] doc.data@[p],
                s[crate::editor::index_of_name(s, doc.data@[p].name@)].id,
            )) && (forall|p: int|
            0 <= p < doc.data@.len() ==> reaches(
                s,
                0,
                s[crate::editor::index_of_name(s, (#[trigger] doc.data@[p]).name@)].id,
                10000,
            )) && (forall|p: int, q: int|
            0 <= p < q < doc.data@.len() ==> doc.data@[p].name@ != doc.data@[q].name@) && (forall|
            dst: u64,
            f: nat,
        |
            reaches(s, 0, dst, f) && model_of(s, dst).expand_info is Some ==> exists|p: int|
                0 <= p < doc.data@.len() && (#[trigger] doc.data@[p]).name@ == model_of(
                    s,
                    dst,
                ).name@),
        Result::Err(e) => e == EngineError::Corrupt,
    }) && (1 + crate::store::total_children(s) <= 10000 ==> r is Ok)
}

/// Serializes the store into document form: a breadth-first walk from the
/// root, guarded by a visited set and a hard iteration cap, emitting one
/// entry per composite item and eliding leaves.
pub fn request_save(tm: &TreeModel) -> (r: Result<FileTreeModel, EngineError>)
    requires
        tm.inv(),
    ensures
        save_post(*tm, r),
{
    let ghost s = tm.models@;
    let rk = match find_index(&tm.models, 0) {
        Some(k) => k,
        None => {
            proof {
                assert(false);
            }
            return Err(EngineError::Corrupt);
        },
    };
    proof {
        let ki = index_of_id(s, 0);
        assert(0 <= ki < s.len() && s[ki].id == 0);
        assert(ki == rk);
    }
    let root_name = tm.models[rk].name.clone();
    let mut queue: Vec<u64> = Vec::new();
    let mut qi: usize = 0;
    let mut visited: Vec<u64> = Vec::new();
    let mut out: Vec<FileModel> = Vec::new();
    let ghost mut out_ids: Seq<u64> = Seq::empty();
    let ghost mut visited_ks: Seq<int> = Seq::empty();
    let mut counter: u64 = 0;
    queue.push(0);
    proof {
        assert(reaches(s, 0, 0, 1));
    }
    loop
        invariant_except_break
            tm.inv(),
            s == tm.models@,
            qi <= queue@.len(),
            counter <= 10000,
            counter == qi,
            queue@.len() >= 1 && queue@[0] == 0,
            visited_ks.len() == visited@.len(),
            forall|p: int|
                0 <= p < visited_ks.len() ==> 0 <= #[trigger] visited_ks[p] < s.len() && s[
                    visited_ks[p]
                ].id == visited@[p],
            queue@.len() <= 1 + crate::store::picked_children_sum(s, visited_ks),
            forall|t: int|
                0 <= t < queue@.len() ==> reaches(s, 0, #[trigger] queue@[t], (t + 1) as nat),
            forall|v: int|
                0 <= v < visited@.len() ==> reaches(s, 0, #[trigger] visited@[v], 10000),
            forall|t: int| 0 <= t < queue@.len() ==> contains_id(s, #[trigger] queue@[t]),
            forall|t: int| 0 <= t < qi ==> visited@.contains(#[trigger] queue@[t]),
            forall|p: int, q: int| 0 <= p < q < visited@.len() ==> visited@[p] != visited@[q],
            forall|v: int, c: int|
                0 <= v < visited@.len() && 0 <= c < spec_children(
                    model_of(s, visited@[v]),
                ).len() ==> queue@.contains(
                    #[trigger] spec_children(model_of(s, visited@[v]))[c],
                ),
            forall|v: int|
                0 <= v < visited@.len() && model_of(s, #[trigger] visited@[v]).expand_info is Some
                    ==> out_ids.contains(visited@[v]),
            out_ids.len() == out@.len(),
            forall|p: int| 0 <= p < out@.len() ==> entry_matches(s, #[trigger] out@[p], out_ids[p]),
            forall|p: int| 0 <= p < out_ids.len() ==> visited@.contains(#[trigger] out_ids[p]),
            forall|p: int, q: int| 0 <= p < q < out_ids.len() ==> out_ids[p] != out_ids[q],
        ensures
            qi == queue@.len(),
            s == tm.models@,
            queue@.len() >= 1 && queue@[0] == 0,
            forall|p: int| 0 <= p < out_ids.len() ==> visited@.contains(#[trigger] out_ids[p]),
            forall|v: int|
                0 <= v < visited@.len() ==> reaches(s, 0, #[trigger] visited@[v], 10000),
            forall|t: int| 0 <= t < qi ==> visited@.contains(#[trigger] queue@[t]),
            forall|v: int, c: int|
                0 <= v < visited@.len() && 0 <= c < spec_children(
                    model_of(s, visited@[v]),
                ).len() ==> queue@.contains(
                    #[trigger] spec_children(model_of(s, visited@[v]))[c],
                ),
            forall|v: int|
                0 <= v < visited@.len() && model_of(s, #[trigger] visited@[v]).expand_info is Some
                    ==> out_ids.contains(visited@[v]),
            out_ids.len() == out@.len(),
            forall|p: int| 0 <= p < out@.len() ==> entry_matches(s, #[trigger] out@[p], out_ids[p]),
            forall|p: int, q: int| 0 <= p < q < out_ids.len() ==> out_ids[p] != out_ids[q],
        decreases 10001 - counter,
    {
        if qi == queue.len() {
            break;
        }
        let id = queue[qi];
        qi = qi + 1;
        counter = counter + 1;
        if counter > 10000 {
            // The walk pops each queued slot once, and the queue never
            // grows past one plus the store's total child count, so the
            // cap only fires on stores beyond that bound.
            proof {
                assert forall|p: int, q: int|
                    0 <= p < q < visited_ks.len() implies visited_ks[p] != visited_ks[q] by {
                    assert(s[visited_ks[p]].id == visited@[p]);
                    assert(s[visited_ks[q]].id == visited@[q]);
                }
                crate::store::lemma_picked_distinct_le(s, visited_ks, s.len() as int);
            }
            return Err(EngineError::Corrupt);
        }
        if crate::editor::contains_vec(&visited, id) {
            continue;
        }
        let ghost visited_pre = visited@;
        visited.push(id);
        proof {
            assert forall|y: u64| visited_pre.contains(y) implies visited@.contains(y) by {
                let w = choose|w: int| 0 <= w < visited_pre.len() && visited_pre[w] == y;
                assert(visited@[w] == y);
            }
            assert(visited@.contains(id)) by {
                assert(visited@[visited@.len() - 1] == id);
            }
        }
        let k = match find_index(&tm.models, id) {
            Some(k) => k,
            None => {
                proof {
                    assert(false);
                }
                return Err(EngineError::Corrupt);
            },
        };
        let ghost ks_pre = visited_ks;
        proof {
            let ki = index_of_id(s, id);
            assert(0 <= ki < s.len() && s[ki].id == id);
            assert(ki == k);
            assert(model_of(s, id) == s[k as int]);
            // Record the visited item's index; the queue bound and the
            // reachability of every visited id follow along.
            visited_ks = visited_ks.push(k as int);
            assert(visited_ks.drop_last() =~= ks_pre);
            assert(crate::store::picked_children_sum(s, visited_ks)
                == crate::store::picked_children_sum(s, ks_pre) + spec_children(
                s[k as int],
            ).len());
            assert forall|p: int|
                0 <= p < visited_ks.len() implies 0 <= #[trigger] visited_ks[p] < s.len() && s[
                visited_ks[p]
            ].id == visited@[p] by {
                if p < ks_pre.len() {
                    assert(visited_ks[p] == ks_pre[p] && visited@[p] == visited_pre[p]);
                }
            }
            assert(reaches(s, 0, id, qi as nat)) by {
                assert(queue@[qi - 1] == id);
            }
            crate::store::lemma_reaches_mono(s, 0, id, qi as nat, 10000);
            assert forall|v: int| 0 <= v < visited@.len() implies reaches(
                s,
                0,
                #[trigger] visited@[v],
                10000,
            ) by {
                if v < visited_pre.len() {
                    assert(visited@[v] == visited_pre[v]);
                }
            }
        }
        let ghost ch = spec_children(s[k as int]);
        match &tm.models[k].expand_info {
            None => {
                proof {
                    assert(ch.len() == 0);
                }
                continue;
            },
            Some(e) => {
                proof {
                    assert(e.children@ == ch);
                }
                let n_ch = e.children.len();
                let mut child_names: Vec<String> = Vec::new();
                let mut c: usize = 0;
                let ghost queue_pre = queue@;
                while c < n_ch
                    invariant
                        tm.inv(),
                        s == tm.models@,
                        c <= n_ch,
                        n_ch == ch.len(),
                        e.children@ == ch,
                        contains_id(s, id),
                        spec_children(model_of(s, id)) == ch,
                        child_names@.len() == c,
                        forall|t: int|
                            0 <= t < c ==> contains_id(s, ch[t]) && (#[trigger] child_names@[t])@
                                == model_of(s, ch[t]).name@,
                        queue@.len() == queue_pre.len() + c,
                        forall|t: int| 0 <= t < queue_pre.len() ==> queue@[t] == queue_pre[t],
                        forall|t: int| 0 <= t < c ==> queue@[queue_pre.len() + t] == ch[t],
                        forall|t: int|
                            0 <= t < queue@.len() ==> contains_id(s, #[trigger] queue@[t]),
                        qi <= queue_pre.len(),
                        reaches(s, 0, id, qi as nat),
                        forall|t: int|
                            0 <= t < queue@.len() ==> reaches(
                                s,
                                0,
                                #[trigger] queue@[t],
                                (t + 1) as nat,
                            ),
                    decreases n_ch - c,
                {
                    let cid = e.children[c];
                    proof {
                        assert(contains_id(s, spec_children(s[index_of_id(s, id)])[c as int]));
                    }
                    let ck = match find_index(&tm.models, cid) {
                        Some(ck) => ck,
                        None => {
                            proof {
                                assert(false);
                            }
                            return Err(EngineError::Corrupt);
                        },
                    };
                    proof {
                        let cki = index_of_id(s, cid);
                        assert(0 <= cki < s.len() && s[cki].id == cid);
                        assert(cki == ck);
                    }
                    child_names.push(tm.models[ck].name.clone());
                    let ghost queue_step = queue@;
                    queue.push(cid);
                    proof {
                        // The new slot holds a child of a reachable item,
                        // one step deeper; earlier slots are untouched.
                        let end = queue@.len() - 1;
                        assert(queue@[end] == cid);
                        assert(spec_children(model_of(s, id)).contains(cid)) by {
                            assert(spec_children(model_of(s, id))[c as int] == cid);
                        }
                        crate::store::lemma_reaches_step(s, 0, id, cid, qi as nat);
                        crate::store::lemma_reaches_mono(s, 0, cid, (qi + 1) as nat, (end
                            + 1) as nat);
                        assert forall|t: int| 0 <= t < queue@.len() implies reaches(
                            s,
                            0,
                            #[trigger] queue@[t],
                            (t + 1) as nat,
                        ) by {
                            if t < end {
                                assert(queue@[t] == queue_step[t]);
                            }
                        }
                    }
                    c = c + 1;
                }
                let entry = FileModel {
                    name: tm.models[k].name.clone(),
                    children: child_names,
                    algorithm: e.algorithm.to_label(),
                };
                let ghost out_pre = out@;
                let ghost out_ids_pre = out_ids;
                out.push(entry);
                proof {
                    out_ids = out_ids.push(id);
                    // The new entry describes composite `id`; older queue
                    // entries and facts persist under the pushes.
                    assert(entry_matches(s, out@[out@.len() - 1], id));
                    assert forall|p: int| 0 <= p < out@.len() implies entry_matches(
                        s,
                        #[trigger] out@[p],
                        out_ids[p],
                    ) by {
                        if p < out_pre.len() {
                            assert(out@[p] == out_pre[p] && out_ids[p] == out_ids_pre[p]);
                        }
                    }
                    assert forall|y: u64| queue_pre.contains(y) implies queue@.contains(y) by {
                        let w = choose|w: int| 0 <= w < queue_pre.len() && queue_pre[w] == y;
                        assert(queue@[w] == y);
                    }
                    assert forall|v: int, cc: int|
                        0 <= v < visited@.len() && 0 <= cc < spec_children(
                            model_of(s, visited@[v]),
                        ).len() implies queue@.contains(
                        #[trigger] spec_children(model_of(s, visited@[v]))[cc],
                    ) by {
                        if v < visited_pre.len() {
                            assert(queue_pre.contains(spec_children(model_of(s, visited@[v]))[cc]));
                        } else {
                            assert(visited@[v] == id);
                            assert(queue@[queue_pre.len() + cc] == ch[cc]);
                        }
                    }
                    assert(!out_ids_pre.contains(id)) by {
                        if out_ids_pre.contains(id) {
                            let w = choose|w: int|
                                0 <= w < out_ids_pre.len() && out_ids_pre[w] == id;
                            assert(visited_pre.contains(id));
                        }
                    }
                    assert(out_ids.contains(id)) by {
                        assert(out_ids[out_ids.len() - 1] == id);
                    }
                    assert forall|y: u64| out_ids_pre.contains(y) implies out_ids.contains(y) by {
                        let w = choose|w: int| 0 <= w < out_ids_pre.len() && out_ids_pre[w] == y;
                        assert(out_ids[w] == y);
                    }
                    assert forall|v: int|
                        0 <= v < visited@.len() && model_of(
                            s,
                            #[trigger] visited@[v],
                        ).expand_info is Some implies out_ids.contains(visited@[v]) by {
                        if v < visited_pre.len() {
                            assert(out_ids_pre.contains(visited_pre[v]));
                        } else {
                            assert(visited@[v] == id);
                        }
                    }
                    assert forall|t: int| 0 <= t < qi implies visited@.contains(
                        #[trigger] queue@[t],
                    ) by {
                        assert(queue@[t] == queue_pre[t]);
                        if t < qi - 1 {
                            assert(visited_pre.contains(queue_pre[t]));
                        } else {
                            assert(queue_pre[t] == id);
                        }
                    }
                }
            },
        }
    }
    proof {
        assert(visited@.contains(0)) by {
            assert(visited@.contains(queue@[0]));
        }
        assert forall|dst: u64, f: nat|
            reaches(s, 0, dst, f) && model_of(s, dst).expand_info is Some implies exists|p: int|
            0 <= p < out@.len() && (#[trigger] out@[p]).name@ == model_of(s, dst).name@ by {
            assert forall|v: u64, c: int|
                visited@.contains(v) && 0 <= c < spec_children(model_of(s, v)).len()
                    implies visited@.contains(
                #[trigger] spec_children(model_of(s, v))[c],
            ) by {
                let w = choose|w: int| 0 <= w < visited@.len() && visited@[w] == v;
                assert(queue@.contains(spec_children(model_of(s, visited@[w]))[c]));
                let t = choose|t: int|
                    0 <= t < queue@.len() && queue@[t] == spec_children(model_of(s, v))[c];
                assert(visited@.contains(queue@[t]));
            }
            lemma_reach_in_closed_set(s, visited@, 0, dst, f);
            let w = choose|w: int| 0 <= w < visited@.len() && visited@[w] == dst;
            assert(out_ids.contains(visited@[w]));
            let p = choose|p: int| 0 <= p < out_ids.len() && out_ids[p] == dst;
            assert(entry_matches(s, out@[p], dst));
            assert(0 <= p < out@.len() && out@[p].name@ == model_of(s, dst).name@);
        }
        assert forall|p: int| 0 <= p < out@.len() implies exists|vid: u64|
            entry_matches(s, #[trigger] out@[p], vid) by {
            assert(entry_matches(s, out@[p], out_ids[p]));
        }
    }
    proof {
        assert forall|p: int, q: int| 0 <= p < q < out@.len() implies out@[p].name@
            != out@[q].name@ by {
            assert(entry_matches(s, out@[p], out_ids[p]));
            assert(entry_matches(s, out@[q], out_ids[q]));
            let ip = index_of_id(s, out_ids[p]);
            let iq = index_of_id(s, out_ids[q]);
            assert(s[ip].id == out_ids[p] && s[iq].id == out_ids[q]);
            assert(ip != iq);
        }
    }
    let ghost outv = out@;
    let doc = FileTreeModel { root_name, data: out };
    proof {
        assert(doc.data@ == outv);
        assert(doc.root_name@ == model_of(s, 0).name@);
        assert forall|p: int| 0 <= p < doc.data@.len() implies entry_matches(
            s,
            #[trigger] doc.data@[p],
            s[crate::editor::index_of_name(s, doc.data@[p].name@)].id,
        ) by {
            assert(doc.data@[p] == outv[p]);
            let vid = out_ids[p];
            assert(entry_matches(s, doc.data@[p], vid));
            let iv = index_of_id(s, vid);
            assert(0 <= iv < s.len() && s[iv].id == vid);
            assert(s[iv].name@ == doc.data@[p].name@);
            let ix = crate::editor::index_of_name(s, doc.data@[p].name@);
            assert(0 <= ix < s.len() && s[ix].name@ == doc.data@[p].name@) by {
                assert(contains_name(s, doc.data@[p].name@)) by {
                    assert(s[iv].name@ == doc.data@[p].name@);
                }
            }
            assert(ix == iv);
            assert(s[ix].id == vid);
        }
        assert forall|dst: u64, f: nat|
            reaches(s, 0, dst, f) && model_of(s, dst).expand_info is Some implies exists|p: int|
            0 <= p < doc.data@.len() && (#[trigger] doc.data@[p]).name@ == model_of(
                s,
                dst,
            ).name@ by {
            let p = choose|p: int|
                0 <= p < outv.len() && outv[p].name@ == model_of(s, dst).name@;
            assert(0 <= p < doc.data@.len() && doc.data@[p].name@ == model_of(s, dst).name@);
        }
    }
    Ok(doc)
}

// ------------------------------------------------------------------
// Loading.
// ------------------------------------------------------------------
/// Whether the document declares an entry with this name.
pub open spec fn is_declared(data: Seq<FileModel>, nm: Seq<char>) -> bool {
    exists|i: int| 0 <= i < data.len() && data[i].name@ == nm
}

/// The governing declared entry for a name: the last one, as later
/// entries shadow earlier ones.
pub open spec fn decl_index(data: Seq<FileModel>, nm: Seq<char>) -> int {
    choose|i: int|
        0 <= i < data.len() && data[i].name@ == nm && (forall|j: int|
            i < j < data.len() ==> data[j].name@ != nm)
}

/// A declared name has a governing entry: the `decl_index` choice is a
/// real index, carries the name, and no later entry shadows it.
pub proof fn lemma_decl_index_valid(data: Seq<FileModel>, nm: Seq<char>)
    requires
        is_declared(data, nm),
    ensures
        0 <= decl_index(data, nm) < data.len(),
        data[decl_index(data, nm)].name@ == nm,
        forall|j: int| decl_index(data, nm) < j < data.len() ==> data[j].name@ != nm,
    decreases data.len(),
{
    if data.last().name@ == nm {
        let w = data.len() - 1;
        assert(0 <= w < data.len() && data[w].name@ == nm && (forall|j: int|
            w < j < data.len() ==> data[j].name@ != nm));
    } else {
        assert(is_declared(data.drop_last(), nm)) by {
            let i = choose|i: int| 0 <= i < data.len() && data[i].name@ == nm;
            assert(data.drop_last()[i] == data[i]);
        }
        lemma_decl_index_valid(data.drop_last(), nm);
        let w = decl_index(data.drop_last(), nm);
        assert(data[w] == data.drop_last()[w]);
        assert(0 <= w < data.len() && data[w].name@ == nm && (forall|j: int|
            w < j < data.len() ==> data[j].name@ != nm)) by {
            assert forall|j: int| w < j < data.len() implies data[j].name@ != nm by {
                if j < data.len() - 1 {
                    assert(data.drop_last()[j] == data[j]);
                }
            }
        }
    }
}

/// Whether some declared entry lists this name as a child.
pub open spec fn is_child_name(data: Seq<FileModel>, nm: Seq<char>) -> bool {
    exists|i: int, j: int|
        0 <= i < data.len() && 0 <= j < data[i].children@.len() && data[i].children@[j]@ == nm
}

/// Whether a vector of names mentions `nm`.
pub open spec fn seq_contains_str(ns: Seq<String>, nm: Seq<char>) -> bool {
    exists|i: int| 0 <= i < ns.len() && ns[i]@ == nm
}

/// One step of name-table construction: a name is appended only when
/// first seen.
pub open spec fn add_name(acc: Seq<Seq<char>>, nm: Seq<char>) -> Seq<Seq<char>> {
    if acc.contains(nm) {
        acc
    } else {
        acc.push(nm)
    }
}

/// Folds the declared names into the table, in document order.
pub open spec fn add_decl_names(acc: Seq<Seq<char>>, data: Seq<FileModel>) -> Seq<Seq<char>>
    decreases data.len(),
{
    if data.len() == 0 {
        acc
    } else {
        add_decl_names(add_name(acc, data[0].name@), data.drop_first())
    }
}

/// Folds one entry's child names into the table, in order.
pub open spec fn add_child_names(acc: Seq<Seq<char>>, ch: Seq<String>) -> Seq<Seq<char>>
    decreases ch.len(),
{
    if ch.len() == 0 {
        acc
    } else {
        add_child_names(add_name(acc, ch[0]@), ch.drop_first())
    }
}

/// Folds every entry's child names into the table, in document order.
pub open spec fn add_all_child_names(acc: Seq<Seq<char>>, data: Seq<FileModel>) -> Seq<Seq<char>>
    decreases data.len(),
{
    if data.len() == 0 {
        acc
    } else {
        add_all_child_names(add_child_names(acc, data[0].children@), data.drop_first())
    }
}

/// The names a load assigns, in id order: the root name first, then
/// declared names in document order, then child names in document order,
/// each on first sight.
pub open spec fn assigned_names(doc: FileTreeModel) -> Seq<Seq<char>> {
    add_all_child_names(add_decl_names(seq![doc.root_name@], doc.data@), doc.data@)
}

/// The character sequences of a vector of names.
pub open spec fn names_view(ns: Seq<String>) -> Seq<Seq<char>> {
    ns.map_values(|s: String| s@)
}

proof fn lemma_contains_view(ns: Seq<String>, nm: Seq<char>)
    ensures
        seq_contains_str(ns, nm) == names_view(ns).contains(nm),
{
    if seq_contains_str(ns, nm) {
        let i = choose|i: int| 0 <= i < ns.len() && ns[i]@ == nm;
        assert(names_view(ns)[i] == nm);
    }
    if names_view(ns).contains(nm) {
        let i = choose|i: int| 0 <= i < names_view(ns).len() && names_view(ns)[i] == nm;
        assert(ns[i]@ == nm);
    }
}

proof fn lemma_add_decl_append(acc: Seq<Seq<char>>, d1: Seq<FileModel>, d2: Seq<FileModel>)
    ensures
        add_decl_names(acc, d1 + d2) == add_decl_names(add_decl_names(acc, d1), d2),
    decreases d1.len(),
{
    if d1.len() == 0 {
        assert(d1 + d2 =~= d2);
    } else {
        assert((d1 + d2).drop_first() =~= d1.drop_first() + d2);
        assert((d1 + d2)[0] == d1[0]);
        lemma_add_decl_append(add_name(acc, d1[0].name@), d1.drop_first(), d2);
    }
}

proof fn lemma_add_child_append(acc: Seq<Seq<char>>, c1: Seq<String>, c2: Seq<String>)
    ensures
        add_child_names(acc, c1 + c2) == add_child_names(add_child_names(acc, c1), c2),
    decreases c1.len(),
{
    if c1.len() == 0 {
        assert(c1 + c2 =~= c2);
    } else {
        assert((c1 + c2).drop_first() =~= c1.drop_first() + c2);
        assert((c1 + c2)[0] == c1[0]);
        lemma_add_child_append(add_name(acc, c1[0]@), c1.drop_first(), c2);
    }
}

proof fn lemma_add_all_append(acc: Seq<Seq<char>>, d1: Seq<FileModel>, d2: Seq<FileModel>)
    ensures
        add_all_child_names(acc, d1 + d2) == add_all_child_names(
            add_all_child_names(acc, d1),
            d2,
        ),
    decreases d1.len(),
{
    if d1.len() == 0 {
        assert(d1 + d2 =~= d2);
    } else {
        assert((d1 + d2).drop_first() =~= d1.drop_first() + d2);
        assert((d1 + d2)[0] == d1[0]);
        lemma_add_all_append(add_child_names(acc, d1[0].children@), d1.drop_first(), d2);
    }
}

/// One loaded item is faithful to the document: a declared name became a
/// composite matching its governing entry (children resolved id-to-name,
/// label decoded, the opt-in randomization replacing only an unset
/// reduction); an undeclared name became a leaf.
pub open spec fn load_item_ok(data: Seq<FileModel>, s: Seq<Model>, m: Model, randomize: bool) -> bool {
    if is_declared(data, m.name@) {
        let e = data[decl_index(data, m.name@)];
        m.expand_info is Some && {
            let x = m.expand_info.unwrap();
            x.children@.len() == e.children@.len() && (forall|c: int|
                0 <= c < x.children@.len() ==> contains_id(s, #[trigger] x.children@[c])
                    && model_of(s, x.children@[c]).name@ == e.children@[c]@) && (if randomize {
                (spec_parse_label(e.algorithm@) == Algorithm::Unset ==> x.algorithm
                    != Algorithm::Unset) && (spec_parse_label(e.algorithm@) != Algorithm::Unset
                    ==> x.algorithm == spec_parse_label(e.algorithm@))
            } else {
                x.algorithm == spec_parse_label(e.algorithm@)
            })
        }
    } else {
        m.expand_info is None
    }
}

/// The load contract: success exactly rebuilds the document as a store —
/// the root is item 0, every declared name is a faithful composite, every
/// child-only name a leaf, nothing else exists, no value is set, and the
/// allocator starts past the assigned ids. Failure happens exactly when
/// the document lacks its root entry, or — a machine limit — when its
/// total child count overflows the reference-count field; any document
/// with a declared root and a total within the field is loaded.
pub open spec fn load_post(
    doc: FileTreeModel,
    randomize: bool,
    r: Result<TreeModel, EngineError>,
) -> bool {
    let data = doc.data@;
    (!is_declared(data, doc.root_name@) ==> r == Result::<TreeModel, EngineError>::Err(
        EngineError::RootMissing,
    )) && (match r {
        Result::Ok(tm) => {
            let s = tm.models@;
            is_declared(data, doc.root_name@) && tm.root_name@ == doc.root_name@ && contains_id(
                s,
                0,
            ) && model_of(s, 0).name@ == doc.root_name@ && tm.counter == s.len() && s.len()
                == assigned_names(doc).len() && (forall|i: int|
                0 <= i < s.len() ==> (#[trigger] s[i]).name@ == assigned_names(doc)[i]) && (forall|i: int|
                0 <= i < s.len() ==> load_item_ok(data, s, #[trigger] s[i], randomize)
                    && s[i].value is None && s[i].id == i) && (forall|i: int|
                0 <= i < data.len() ==> contains_name(s, (#[trigger] data[i]).name@)) && (forall|
                i: int,
                j: int,
            |
                0 <= i < data.len() && 0 <= j < data[i].children@.len() ==> contains_name(
                    s,
                    (#[trigger] data[i].children@[j])@,
                )) && (forall|i: int|
                0 <= i < s.len() ==> (#[trigger] s[i]).name@ == doc.root_name@ || is_declared(
                    data,
                    s[i].name@,
                ) || is_child_name(data, s[i].name@))
        },
        Result::Err(e) => (e == EngineError::RootMissing && !is_declared(data, doc.root_name@))
            || (e == EngineError::Overflow && doc_child_total(data) > u64::MAX),
    }) && (is_declared(data, doc.root_name@) && doc_child_total(data) <= u64::MAX ==> r is Ok)
}

/// Total number of child names across the first `n` document entries.
pub open spec fn doc_children_upto(data: Seq<FileModel>, n: int) -> nat
    decreases n,
{
    if n <= 0 {
        0
    } else {
        doc_children_upto(data, n - 1) + data[n - 1].children@.len()
    }
}

/// Total number of child names across the whole document.
pub open spec fn doc_child_total(data: Seq<FileModel>) -> nat {
    doc_children_upto(data, data.len() as int)
}

/// Sum of the child counts of the listed document entries.
spec fn picked_doc_sum(data: Seq<FileModel>, ks: Seq<int>) -> nat
    decreases ks.len(),
{
    if ks.len() == 0 {
        0
    } else {
        picked_doc_sum(data, ks.drop_last()) + data[ks.last()].children@.len()
    }
}

/// Removing one listed entry removes exactly its child count.
proof fn lemma_picked_doc_remove(data: Seq<FileModel>, ks: Seq<int>, p: int)
    requires
        0 <= p < ks.len(),
    ensures
        picked_doc_sum(data, ks.remove(p)) + data[ks[p]].children@.len() == picked_doc_sum(
            data,
            ks,
        ),
    decreases ks.len(),
{
    if p == ks.len() - 1 {
        assert(ks.remove(p) =~= ks.drop_last());
    } else {
        lemma_picked_doc_remove(data, ks.drop_last(), p);
        assert(ks.remove(p).drop_last() =~= ks.drop_last().remove(p));
        assert(ks.remove(p).last() == ks.last());
    }
}

/// The child count over distinct in-range entries is at most the whole
/// document's child count.
proof fn lemma_picked_doc_distinct_le(data: Seq<FileModel>, ks: Seq<int>, n: int)
    requires
        forall|p: int| 0 <= p < ks.len() ==> 0 <= #[trigger] ks[p] < n,
        forall|p: int, q: int| 0 <= p < q < ks.len() ==> ks[p] != ks[q],
    ensures
        picked_doc_sum(data, ks) <= doc_children_upto(data, n),
    decreases n,
{
    if n <= 0 {
        if ks.len() > 0 {
            assert(0 <= ks[0] < n);
        }
    } else {
        if ks.contains(n - 1) {
            let p = choose|p: int| 0 <= p < ks.len() && ks[p] == n - 1;
            lemma_picked_doc_remove(data, ks, p);
            let rest = ks.remove(p);
            assert forall|a: int| 0 <= a < rest.len() implies 0 <= #[trigger] rest[a] < n
                - 1 by {
                assert(rest[a] == if a < p {
                    ks[a]
                } else {
                    ks[a + 1]
                });
            }
            assert forall|a: int, b: int| 0 <= a < b < rest.len() implies rest[a] != rest[b] by {
                assert(rest[a] == if a < p {
                    ks[a]
                } else {
                    ks[a + 1]
                });
                assert(rest[b] == if b < p {
                    ks[b]
                } else {
                    ks[b + 1]
                });
            }
            lemma_picked_doc_distinct_le(data, rest, n - 1);
        } else {
            assert forall|p: int| 0 <= p < ks.len() implies 0 <= #[trigger] ks[p] < n - 1 by {
                assert(ks[p] != n - 1) by {
                    if ks[p] == n - 1 {
                        assert(ks.contains(n - 1));
                    }
                }
            }
            lemma_picked_doc_distinct_le(data, ks, n - 1);
        }
    }
}

/// The indexes of the composite items among the first `n` store items.
spec fn comp_idx(s: Seq<Model>, n: int) -> Seq<int>
    decreases n,
{
    if n <= 0 {
        Seq::empty()
    } else {
        comp_idx(s, n - 1) + (if s[n - 1].expand_info is Some {
            seq![n - 1]
        } else {
            Seq::<int>::empty()
        })
    }
}

/// The governing entry indexes of those composite items, in order.
spec fn decl_ks(data: Seq<FileModel>, s: Seq<Model>, n: int) -> Seq<int>
    decreases n,
{
    if n <= 0 {
        Seq::empty()
    } else {
        decl_ks(data, s, n - 1) + (if s[n - 1].expand_info is Some {
            seq![decl_index(data, s[n - 1].name@)]
        } else {
            Seq::<int>::empty()
        })
    }
}

/// A loaded store cannot hold more child slots than its document: each
/// composite's child list is exactly its governing entry's list, and
/// distinct names have distinct governing entries.
proof fn lemma_built_children_le_doc(data: Seq<FileModel>, s: Seq<Model>, n: int)
    requires
        n <= s.len(),
        forall|i: int|
            0 <= i < s.len() ==> ((#[trigger] s[i]).expand_info is Some <==> is_declared(
                data,
                s[i].name@,
            )),
        forall|i: int|
            0 <= i < s.len() && (#[trigger] s[i]).expand_info is Some ==> spec_children(
                s[i],
            ).len() == data[decl_index(data, s[i].name@)].children@.len(),
        forall|i: int, j: int| 0 <= i < j < s.len() ==> s[i].name@ != s[j].name@,
    ensures
        crate::store::total_children_upto(s, n) == picked_doc_sum(data, decl_ks(data, s, n)),
        decl_ks(data, s, n).len() == comp_idx(s, n).len(),
        forall|p: int|
            0 <= p < comp_idx(s, n).len() ==> 0 <= #[trigger] comp_idx(s, n)[p] < n && s[comp_idx(
                s,
                n,
            )[p]].expand_info is Some && decl_ks(data, s, n)[p] == decl_index(
                data,
                s[comp_idx(s, n)[p]].name@,
            ),
        forall|p: int|
            0 <= p < decl_ks(data, s, n).len() ==> 0 <= #[trigger] decl_ks(data, s, n)[p]
                < data.len(),
        forall|p: int, q: int|
            0 <= p < q < decl_ks(data, s, n).len() ==> decl_ks(data, s, n)[p] != decl_ks(
                data,
                s,
                n,
            )[q],
    decreases n,
{
    if n > 0 {
        lemma_built_children_le_doc(data, s, n - 1);
        let prev_ks = decl_ks(data, s, n - 1);
        let prev_ci = comp_idx(s, n - 1);
        let cur_ks = decl_ks(data, s, n);
        let cur_ci = comp_idx(s, n);
        if s[n - 1].expand_info is Some {
            lemma_decl_index_valid(data, s[n - 1].name@);
            let k = decl_index(data, s[n - 1].name@);
            assert(cur_ks =~= prev_ks.push(k));
            assert(cur_ci =~= prev_ci.push(n - 1));
            assert(cur_ks.drop_last() =~= prev_ks);
            assert(cur_ci.drop_last() =~= prev_ci);
            assert(picked_doc_sum(data, cur_ks) == picked_doc_sum(data, prev_ks)
                + data[k].children@.len());
            assert forall|p: int, q: int|
                0 <= p < q < cur_ks.len() implies cur_ks[p] != cur_ks[q] by {
                if q == cur_ks.len() - 1 {
                    let ip = prev_ci[p];
                    assert(0 <= ip < n - 1 && s[ip].expand_info is Some && prev_ks[p]
                        == decl_index(data, s[ip].name@));
                    lemma_decl_index_valid(data, s[ip].name@);
                    if cur_ks[p] == k {
                        assert(data[k].name@ == s[n - 1].name@);
                        assert(data[prev_ks[p]].name@ == s[ip].name@);
                    }
                } else {
                    assert(cur_ks[p] == prev_ks[p] && cur_ks[q] == prev_ks[q]);
                }
            }
        } else {
            assert(cur_ks =~= prev_ks);
            assert(cur_ci =~= prev_ci);
            assert(spec_children(s[n - 1]).len() == 0);
        }
    }
}

/// Finds the governing (last) declared entry carrying `name`.
fn find_last_entry(data: &Vec<FileModel>, name: &String) -> (r: Option<usize>)
    ensures
        match r {
            Option::Some(i) => i < data@.len() && data@[i as int].name@ == name@ && (forall|j: int|
                i < j < data@.len() ==> data@[j].name@ != name@),
            Option::None => !is_declared(data@, name@),
        },
{
    let mut i: usize = data.len();
    while i > 0
        invariant
            i <= data@.len(),
            forall|j: int| i <= j < data@.len() ==> data@[j].name@ != name@,
        decreases i,
    {
        i = i - 1;
        if data[i].name == *name {
            return Some(i);
        }
    }
    None
}

/// Finds the position of `nm` in the assigned-name table.
fn name_position(names: &Vec<String>, nm: &String) -> (r: Option<usize>)
    ensures
        match r {
            Option::Some(p) => p < names@.len() && names@[p as int]@ == nm@,
            Option::None => !seq_contains_str(names@, nm@),
        },
{
    let n = names.len();
    let mut i: usize = 0;
    while i < n
        invariant
            i <= n,
            n == names@.len(),
            forall|j: int| 0 <= j < i ==> names@[j]@ != nm@,
        decreases n - i,
    {
        if names[i] == *nm {
            return Some(i);
        }
        i = i + 1;
    }
    None
}

/// Relies on rand::random_range: a uniform draw from a non-empty
/// half-open range, so the result is below the upper bound.
#[verifier::external_body]
fn random_index() -> (r: u64)
    ensures
        r < 5,
{
    rand::random_range(0u64..5)
}

/// Counts the total in-degree of `id` in a wide accumulator, so that a
/// freshly loaded store of any size can be counted without overflow.
fn count_occurrences_wide(models: &Vec<Model>, id: u64) -> (c: u128)
    ensures
        c == crate::store::occurrences(models@, id),
{
    let n = models.len();
    let mut c: u128 = 0;
    let mut i: usize = 0;
    while i < n
        invariant
            i <= n,
            n == models@.len(),
            n <= u64::MAX,
            c == crate::store::occ_upto(models@, id, i as int),
            c <= (i as int) * (u64::MAX as int),
        decreases n - i,
    {
        let k = crate::store::count_in_model(&models[i], id);
        proof {
            assert((i as int) * (u64::MAX as int) + (u64::MAX as int) == ((i + 1) as int) * (
            u64::MAX as int)) by (nonlinear_arith);
            assert(((i + 1) as int) * (u64::MAX as int) <= (n as int) * (u64::MAX as int)) by (nonlinear_arith)
                requires
                    0 <= i + 1 <= n,
            ;
            assert((n as int) * (u64::MAX as int) < u128::MAX) by (nonlinear_arith)
                requires
                    0 <= n <= u64::MAX,
            ;
        }
        c = c + (k as u128);
        i = i + 1;
    }
    c
}

/// Writes every item's true in-degree into its `ref_count` field, failing
/// only if a count does not fit the field (a machine limit).
fn set_ref_counts_checked(models: &mut Vec<Model>) -> (r: Result<(), EngineError>)
    ensures
        match r {
            Result::Ok(()) => final(models)@.len() == old(models)@.len() && (forall|j: int|
                0 <= j < old(models)@.len() ==> crate::store::same_except_ref(
                    #[trigger] final(models)@[j],
                    old(models)@[j],
                )) && ref_counts_ok(final(models)@),
            Result::Err(e) => e == EngineError::Overflow,
        },
        (forall|x: u64| occurrences(old(models)@, x) <= u64::MAX) ==> r is Ok,
        r is Err ==> exists|x: u64| occurrences(old(models)@, x) > u64::MAX,
{
    let n = models.len();
    let mut i: usize = 0;
    while i < n
        invariant
            i <= n,
            n == models@.len(),
            n == old(models)@.len(),
            forall|j: int|
                0 <= j < n ==> crate::store::same_except_ref(
                    #[trigger] models@[j],
                    old(models)@[j],
                ),
            forall|x: u64|
                crate::store::occurrences(models@, x) == crate::store::occurrences(
                    old(models)@,
                    x,
                ),
            forall|j: int|
                0 <= j < i ==> models@[j].ref_count == crate::store::occurrences(
                    models@,
                    #[trigger] models@[j].id,
                ),
        decreases n - i,
    {
        let ghost pre = models@;
        let id = models[i].id;
        let c = count_occurrences_wide(models, id);
        if c > u64::MAX as u128 {
            proof {
                assert(occurrences(old(models)@, id) > u64::MAX);
            }
            return Err(EngineError::Overflow);
        }
        models[i].ref_count = c as u64;
        proof {
            let cur = models@;
            assert forall|x: u64|
                crate::store::occurrences(cur, x) == crate::store::occurrences(pre, x) by {
                assert forall|j: int|
                    0 <= j < n implies crate::store::count_in(
                    spec_children(#[trigger] cur[j]),
                    x,
                ) == crate::store::count_in(spec_children(pre[j]), x) by {
                    if j == i {
                        assert(cur[j].expand_info == pre[j].expand_info);
                    }
                }
                crate::store::lemma_occ_upto_congruent(cur, pre, x, n as int);
            }
        }
        i = i + 1;
    }
    Ok(())
}

/// Builds a fresh store from a document: ids are assigned (root first,
/// then declared items in document order, then their children in document
/// order), declared names become composites, child-only names become
/// leaves, and reference counts are rebuilt from the child lists.
/// Assigns every reachable name an id — its index in the returned table:
/// the root name first, then declared names in document order, then child
/// names in document order, each on first sight.
#[verifier::rlimit(60)]
#[verifier::spinoff_prover]
fn assign_names(doc: &FileTreeModel) -> (names: Vec<String>)
    ensures
        names@.len() >= 1 && names@[0]@ == doc.root_name@,
        forall|p: int, q: int| 0 <= p < q < names@.len() ==> names@[p]@ != names@[q]@,
        forall|p: int|
            0 <= p < names@.len() ==> (#[trigger] names@[p])@ == doc.root_name@ || is_declared(
                doc.data@,
                names@[p]@,
            ) || is_child_name(doc.data@, names@[p]@),
        forall|t: int|
            0 <= t < doc.data@.len() ==> seq_contains_str(names@, (#[trigger] doc.data@[t]).name@),
        forall|t: int, u: int|
            0 <= t < doc.data@.len() && 0 <= u < doc.data@[t].children@.len()
                ==> seq_contains_str(names@, (#[trigger] doc.data@[t].children@[u])@),
        names_view(names@) == assigned_names(*doc),
{
    let ghost data = doc.data@;
    // Assign names their ids: index in `names` is the id.
    let mut names: Vec<String> = Vec::new();
    names.push(doc.root_name.clone());
    proof {
        assert(names_view(names@) =~= seq![doc.root_name@]);
        assert(data.take(0) =~= Seq::<FileModel>::empty());
    }
    let nd = doc.data.len();
    let mut i: usize = 0;
    while i < nd
        invariant
            i <= nd,
            nd == data.len(),
            data == doc.data@,
            names@.len() >= 1 && names@[0]@ == doc.root_name@,
            forall|p: int, q: int| 0 <= p < q < names@.len() ==> names@[p]@ != names@[q]@,
            forall|p: int|
                0 <= p < names@.len() ==> (#[trigger] names@[p])@ == doc.root_name@ || is_declared(
                    data,
                    names@[p]@,
                ) || is_child_name(data, names@[p]@),
            forall|t: int| 0 <= t < i ==> seq_contains_str(names@, (#[trigger] data[t]).name@),
            names_view(names@) == add_decl_names(seq![doc.root_name@], data.take(i as int)),
        decreases nd - i,
    {
        let ghost names_pre = names@;
        proof {
            assert(data.take(i + 1) =~= data.take(i as int) + seq![data[i as int]]);
            lemma_add_decl_append(seq![doc.root_name@], data.take(i as int), seq![data[i as int]]);
            lemma_contains_view(names_pre, data[i as int].name@);
            let acc0 = add_decl_names(seq![doc.root_name@], data.take(i as int));
            assert(seq![data[i as int]].drop_first() =~= Seq::<FileModel>::empty());
            assert(seq![data[i as int]][0] == data[i as int]);
            assert(add_decl_names(add_name(acc0, data[i as int].name@), Seq::<FileModel>::empty())
                == add_name(acc0, data[i as int].name@));
            assert(add_decl_names(acc0, seq![data[i as int]]) == add_name(
                acc0,
                data[i as int].name@,
            ));
        }
        match name_position(&names, &doc.data[i].name) {
            Some(w) => {
                proof {
                    assert(seq_contains_str(names_pre, data[i as int].name@)) by {
                        assert(names_pre[w as int]@ == data[i as int].name@);
                    }
                }
            },
            None => {
                names.push(doc.data[i].name.clone());
                proof {
                    assert forall|nm: Seq<char>|
                        seq_contains_str(names_pre, nm) implies seq_contains_str(
                        names@,
                        nm,
                    ) by {
                        let w = choose|w: int| 0 <= w < names_pre.len() && names_pre[w]@ == nm;
                        assert(names@[w]@ == nm);
                    }
                    assert(names_view(names@) =~= names_view(names_pre).push(
                        data[i as int].name@,
                    ));
                }
            },
        }
        proof {
            assert(seq_contains_str(names@, data[i as int].name@)) by {
                if names@.len() > names_pre.len() {
                    assert(names@[names@.len() - 1]@ == data[i as int].name@);
                } else {
                    let w = choose|w: int|
                        0 <= w < names_pre.len() && names_pre[w]@ == data[i as int].name@;
                    assert(names@[w]@ == data[i as int].name@);
                }
            }
            assert(names_view(names@) == add_decl_names(
                seq![doc.root_name@],
                data.take(i + 1),
            ));
        }
        i = i + 1;
    }
    proof {
        assert(data.take(nd as int) =~= data);
    }
    let ghost decl_acc = names_view(names@);
    let mut i: usize = 0;
    proof {
        assert(add_all_child_names(decl_acc, data.take(0)) == decl_acc) by {
            assert(data.take(0) =~= Seq::<FileModel>::empty());
        }
    }
    while i < nd
        invariant
            i <= nd,
            nd == data.len(),
            data == doc.data@,
            decl_acc == add_decl_names(seq![doc.root_name@], data),
            names@.len() >= 1 && names@[0]@ == doc.root_name@,
            forall|p: int, q: int| 0 <= p < q < names@.len() ==> names@[p]@ != names@[q]@,
            forall|p: int|
                0 <= p < names@.len() ==> (#[trigger] names@[p])@ == doc.root_name@ || is_declared(
                    data,
                    names@[p]@,
                ) || is_child_name(data, names@[p]@),
            forall|t: int| 0 <= t < nd ==> seq_contains_str(names@, (#[trigger] data[t]).name@),
            forall|t: int, u: int|
                0 <= t < i && 0 <= u < data[t].children@.len() ==> seq_contains_str(
                    names@,
                    (#[trigger] data[t].children@[u])@,
                ),
            names_view(names@) == add_all_child_names(decl_acc, data.take(i as int)),
        decreases nd - i,
    {
        let ghost item_acc = add_all_child_names(decl_acc, data.take(i as int));
        let ghost ich = data[i as int].children@;
        let nc = doc.data[i].children.len();
        let mut j: usize = 0;
        proof {
            assert(add_child_names(item_acc, ich.take(0)) == item_acc) by {
                assert(ich.take(0) =~= Seq::<String>::empty());
            }
        }
        while j < nc
            invariant
                j <= nc,
                i < nd,
                nd == data.len(),
                data == doc.data@,
                nc == data[i as int].children@.len(),
                ich == data[i as int].children@,
                names@.len() >= 1 && names@[0]@ == doc.root_name@,
                forall|p: int, q: int| 0 <= p < q < names@.len() ==> names@[p]@ != names@[q]@,
                forall|p: int|
                    0 <= p < names@.len() ==> (#[trigger] names@[p])@ == doc.root_name@
                        || is_declared(data, names@[p]@) || is_child_name(data, names@[p]@),
                forall|t: int|
                    0 <= t < nd ==> seq_contains_str(names@, (#[trigger] data[t]).name@),
                forall|t: int, u: int|
                    0 <= t < i && 0 <= u < data[t].children@.len() ==> seq_contains_str(
                        names@,
                        (#[trigger] data[t].children@[u])@,
                    ),
                forall|u: int|
                    0 <= u < j ==> seq_contains_str(
                        names@,
                        (#[trigger] data[i as int].children@[u])@,
                    ),
                names_view(names@) == add_child_names(item_acc, ich.take(j as int)),
            decreases nc - j,
        {
            let ghost names_pre = names@;
            proof {
                assert(ich.take(j + 1) =~= ich.take(j as int) + seq![ich[j as int]]);
                lemma_add_child_append(item_acc, ich.take(j as int), seq![ich[j as int]]);
                lemma_contains_view(names_pre, ich[j as int]@);
                let acc0 = add_child_names(item_acc, ich.take(j as int));
                assert(seq![ich[j as int]].drop_first() =~= Seq::<String>::empty());
                assert(seq![ich[j as int]][0] == ich[j as int]);
                assert(add_child_names(add_name(acc0, ich[j as int]@), Seq::<String>::empty())
                    == add_name(acc0, ich[j as int]@));
                assert(add_child_names(acc0, seq![ich[j as int]]) == add_name(
                    acc0,
                    ich[j as int]@,
                ));
            }
            match name_position(&names, &doc.data[i].children[j]) {
                Some(w) => {
                    proof {
                        assert(seq_contains_str(names_pre, ich[j as int]@)) by {
                            assert(names_pre[w as int]@ == ich[j as int]@);
                        }
                    }
                },
                None => {
                    names.push(doc.data[i].children[j].clone());
                    proof {
                        assert forall|nm: Seq<char>|
                            seq_contains_str(names_pre, nm) implies seq_contains_str(
                            names@,
                            nm,
                        ) by {
                            let w = choose|w: int|
                                0 <= w < names_pre.len() && names_pre[w]@ == nm;
                            assert(names@[w]@ == nm);
                        }
                        assert(is_child_name(data, names@[names@.len() - 1]@));
                        assert(names_view(names@) =~= names_view(names_pre).push(
                            ich[j as int]@,
                        ));
                    }
                },
            }
            proof {
                assert(seq_contains_str(names@, data[i as int].children@[j as int]@)) by {
                    if names@.len() > names_pre.len() {
                        assert(names@[names@.len() - 1]@ == data[i as int].children@[j as int]@);
                    } else {
                        let w = choose|w: int|
                            0 <= w < names_pre.len() && names_pre[w]@ == data[i as int].children@[
                                j as int
                            ]@;
                        assert(names@[w]@ == data[i as int].children@[j as int]@);
                    }
                }
                assert(names_view(names@) == add_child_names(item_acc, ich.take(j + 1)));
            }
            j = j + 1;
        }
        proof {
            assert(ich.take(nc as int) =~= ich);
            assert(data.take(i + 1) =~= data.take(i as int) + seq![data[i as int]]);
            lemma_add_all_append(decl_acc, data.take(i as int), seq![data[i as int]]);
            assert(seq![data[i as int]].drop_first() =~= Seq::<FileModel>::empty());
            assert(seq![data[i as int]][0] == data[i as int]);
            assert(add_all_child_names(add_child_names(item_acc, ich), Seq::<FileModel>::empty())
                == add_child_names(item_acc, ich));
            assert(add_all_child_names(item_acc, seq![data[i as int]]) == add_child_names(
                item_acc,
                ich,
            ));
            assert(names_view(names@) == add_all_child_names(decl_acc, data.take(i + 1)));
        }
        i = i + 1;
    }
    proof {
        assert(data.take(nd as int) =~= data);
        assert(names_view(names@) == assigned_names(*doc));
    }
    names
}

#[verifier::rlimit(60)]
#[verifier::spinoff_prover]
pub fn load_models(doc: &FileTreeModel, randomize: bool) -> (r: Result<TreeModel, EngineError>)
    ensures
        match r {
            Result::Ok(tm) => tm.inv(),
            Result::Err(_) => true,
        },
        load_post(*doc, randomize, r),
{
    let ghost data = doc.data@;
    let ri = match find_last_entry(&doc.data, &doc.root_name) {
        None => {
            return Err(EngineError::RootMissing);
        },
        Some(ri) => ri,
    };
    proof {
        assert(is_declared(data, doc.root_name@)) by {
            assert(data[ri as int].name@ == doc.root_name@);
        }
    }
    let names = assign_names(doc);
    // Build the items.
    let nn = names.len();
    let mut models_v: Vec<Model> = Vec::new();
    let mut i: usize = 0;
    while i < nn
        invariant
            i <= nn,
            nn == names@.len(),
            data == doc.data@,
            names@.len() >= 1 && names@[0]@ == doc.root_name@,
            forall|p: int, q: int| 0 <= p < q < names@.len() ==> names@[p]@ != names@[q]@,
            forall|p: int|
                0 <= p < names@.len() ==> (#[trigger] names@[p])@ == doc.root_name@ || is_declared(
                    data,
                    names@[p]@,
                ) || is_child_name(data, names@[p]@),
            forall|t: int| 0 <= t < data.len() ==> seq_contains_str(names@, (#[trigger] data[t]).name@),
            forall|t: int, u: int|
                0 <= t < data.len() && 0 <= u < data[t].children@.len() ==> seq_contains_str(
                    names@,
                    (#[trigger] data[t].children@[u])@,
                ),
            models_v@.len() == i,
            forall|p: int|
                0 <= p < i ==> (#[trigger] models_v@[p]).id == p && models_v@[p].name@
                    == names@[p]@ && models_v@[p].ref_count == 0 && models_v@[p].value is None,
            forall|p: int|
                0 <= p < i ==> (is_declared(data, names@[p]@) <==> (
                #[trigger] models_v@[p]).expand_info is Some),
            forall|p: int|
                0 <= p < i && is_declared(data, names@[p]@) ==> built_composite_ok(
                    data,
                    names@,
                    #[trigger] models_v@[p],
                    randomize,
                ),
        decreases nn - i,
    {
        match find_last_entry(&doc.data, &names[i]) {
            Some(ei) => {
                proof {
                    assert(is_declared(data, names@[i as int]@)) by {
                        assert(data[ei as int].name@ == names@[i as int]@);
                    }
                    let di = decl_index(data, names@[i as int]@);
                    assert(0 <= di < data.len() && data[di].name@ == names@[i as int]@ && (forall|
                        j: int,
                    |
                        di < j < data.len() ==> data[j].name@ != names@[i as int]@)) by {
                        assert(0 <= ei < data.len() && data[ei as int].name@ == names@[i as int]@
                            && (forall|j: int|
                            ei < j < data.len() ==> data[j].name@ != names@[i as int]@));
                    }
                    assert(di == ei);
                }
                let alg0 = Algorithm::from_label(doc.data[ei].algorithm.as_str());
                let is_unset = match alg0 {
                    Algorithm::Unset => true,
                    _ => false,
                };
                let alg = if randomize && is_unset {
                    Algorithm::random(random_index())
                } else {
                    alg0
                };
                let nc = doc.data[ei].children.len();
                let mut ch: Vec<u64> = Vec::new();
                let mut j: usize = 0;
                while j < nc
                    invariant
                        j <= nc,
                        ei < data.len(),
                        data == doc.data@,
                        nn == names@.len(),
                        nc == data[ei as int].children@.len(),
                        forall|t: int, u: int|
                            0 <= t < data.len() && 0 <= u < data[t].children@.len()
                                ==> seq_contains_str(
                                names@,
                                (#[trigger] data[t].children@[u])@,
                            ),
                        ch@.len() == j,
                        forall|u: int|
                            0 <= u < j ==> (#[trigger] ch@[u]) < nn && names@[ch@[u] as int]@
                                == data[ei as int].children@[u]@,
                    decreases nc - j,
                {
                    let cp = match name_position(&names, &doc.data[ei].children[j]) {
                        Some(p) => p,
                        None => {
                            proof {
                                assert(false);
                            }
                            return Err(EngineError::Overflow);
                        },
                    };
                    ch.push(cp as u64);
                    j = j + 1;
                }
                models_v.push(
                    Model {
                        id: i as u64,
                        name: names[i].clone(),
                        ref_count: 0,
                        expand_info: Some(ExpandInfo { algorithm: alg, children: ch }),
                        value: None,
                    },
                );
                proof {
                    assert(built_composite_ok(
                        data,
                        names@,
                        models_v@[i as int],
                        randomize,
                    ));
                }
            },
            None => {
                models_v.push(
                    Model {
                        id: i as u64,
                        name: names[i].clone(),
                        ref_count: 0,
                        expand_info: None,
                        value: None,
                    },
                );
            },
        }
        i = i + 1;
    }
    // Rebuild reference counts, then assemble the store.
    let ghost built = models_v@;
    match set_ref_counts_checked(&mut models_v) {
        Ok(()) => {},
        Err(_) => {
            // A reference count overflowed its field, so the document's
            // total child count already exceeds it.
            proof {
                let x = choose|x: u64| occurrences(built, x) > u64::MAX;
                crate::store::lemma_occ_le_total(built, x, built.len() as int);
                assert forall|ii: int|
                    0 <= ii < built.len() implies ((#[trigger] built[ii]).expand_info is Some
                    <==> is_declared(data, built[ii].name@)) by {
                    assert(built[ii].name@ == names@[ii]@);
                }
                assert forall|ii: int|
                    0 <= ii < built.len() && (#[trigger] built[ii]).expand_info is Some
                    implies spec_children(built[ii]).len() == data[decl_index(
                    data,
                    built[ii].name@,
                )].children@.len() by {
                    assert(built_composite_ok(data, names@, built[ii], randomize));
                }
                assert forall|ii: int, jj: int|
                    0 <= ii < jj < built.len() implies built[ii].name@ != built[jj].name@ by {
                    assert(built[ii].name@ == names@[ii]@ && built[jj].name@ == names@[jj]@);
                }
                lemma_built_children_le_doc(data, built, built.len() as int);
                lemma_picked_doc_distinct_le(
                    data,
                    decl_ks(data, built, built.len() as int),
                    data.len() as int,
                );
            }
            return Err(EngineError::Overflow);
        },
    }
    let tm = TreeModel {
        models: models_v,
        root_name: doc.root_name.clone(),
        counter: nn as u64,
    };
    proof {
        lemma_loaded_store_ok(data, names@, tm, randomize, doc.root_name@);
        assert(tm.models@.len() == assigned_names(*doc).len());
        assert forall|p: int|
            0 <= p < tm.models@.len() implies (#[trigger] tm.models@[p]).name@ == assigned_names(
            *doc,
        )[p] by {
            assert(names_view(names@)[p] == names@[p]@);
        }
    }
    Ok(tm)
}

/// A freshly built composite matches its governing entry, with children
/// resolved through the name table.
pub open spec fn built_composite_ok(
    data: Seq<FileModel>,
    names: Seq<String>,
    m: Model,
    randomize: bool,
) -> bool {
    let e = data[decl_index(data, m.name@)];
    m.expand_info is Some && {
        let x = m.expand_info.unwrap();
        x.children@.len() == e.children@.len() && (forall|c: int|
            0 <= c < x.children@.len() ==> (#[trigger] x.children@[c]) < names.len() && names[
                x.children@[c] as int
            ]@ == e.children@[c]@) && (if randomize {
            (spec_parse_label(e.algorithm@) == Algorithm::Unset ==> x.algorithm
                != Algorithm::Unset) && (spec_parse_label(e.algorithm@) != Algorithm::Unset
                ==> x.algorithm == spec_parse_label(e.algorithm@))
        } else {
            x.algorithm == spec_parse_label(e.algorithm@)
        })
    }
}

/// Lifts the per-index construction facts to the final store: ids are the
/// indexes, so lookups by id resolve to the expected items and the whole
/// invariant holds.
/// In a store whose item at each index carries that index as its id,
/// lookups by id resolve to the indexes.
proof fn lemma_ids_are_indexes(s: Seq<Model>)
    requires
        forall|p: int| 0 <= p < s.len() ==> (#[trigger] s[p]).id == p,
    ensures
        forall|x: u64|
            #![trigger index_of_id(s, x)]
            #![trigger contains_id(s, x)]
            x < s.len() ==> index_of_id(s, x) == x as int && model_of(s, x) == s[x as int]
                && contains_id(s, x),
        ids_unique(s),
{
    assert forall|x: u64| x < s.len() implies index_of_id(s, x) == x as int && model_of(s, x)
        == s[x as int] && contains_id(s, x) by {
        assert(s[x as int].id == x);
        let w = index_of_id(s, x);
        assert(0 <= w < s.len() && s[w].id == x);
        assert(w == x as int);
    }
}

/// One built item satisfies the load contract once ids resolve to
/// indexes and names follow the table.
proof fn lemma_item_lifts(
    data: Seq<FileModel>,
    names: Seq<String>,
    s: Seq<Model>,
    i: int,
    randomize: bool,
)
    requires
        s.len() == names.len(),
        forall|x: u64|
            #![trigger index_of_id(s, x)]
            #![trigger contains_id(s, x)]
            x < s.len() ==> index_of_id(s, x) == x as int && model_of(s, x) == s[x as int]
                && contains_id(s, x),
        forall|p: int| 0 <= p < s.len() ==> (#[trigger] s[p]).name@ == names[p]@,
        0 <= i < s.len(),
        is_declared(data, s[i].name@) ==> built_composite_ok(data, names, s[i], randomize),
        is_declared(data, s[i].name@) <==> s[i].expand_info is Some,
    ensures
        load_item_ok(data, s, s[i], randomize),
{
    if is_declared(data, s[i].name@) {
        let e = data[decl_index(data, s[i].name@)];
        let x = s[i].expand_info.unwrap();
        assert forall|c: int| 0 <= c < x.children@.len() implies contains_id(
            s,
            #[trigger] x.children@[c],
        ) && model_of(s, x.children@[c]).name@ == e.children@[c]@ by {
            assert(x.children@[c] < names.len());
            assert(model_of(s, x.children@[c]) == s[x.children@[c] as int]);
        }
    }
}

/// Lifts the per-index construction facts to the final store: ids are the
/// indexes, so lookups by id resolve to the expected items and the whole
/// invariant holds.
proof fn lemma_loaded_store_ok(
    data: Seq<FileModel>,
    names: Seq<String>,
    tm: TreeModel,
    randomize: bool,
    root: Seq<char>,
)
    requires
        tm.models@.len() == names.len(),
        tm.counter == names.len(),
        tm.root_name@ == root,
        names.len() >= 1 && names[0]@ == root,
        is_declared(data, root),
        forall|p: int, q: int| 0 <= p < q < names.len() ==> names[p]@ != names[q]@,
        forall|p: int|
            0 <= p < names.len() ==> (#[trigger] names[p])@ == root || is_declared(
                data,
                names[p]@,
            ) || is_child_name(data, names[p]@),
        forall|t: int| 0 <= t < data.len() ==> seq_contains_str(names, (#[trigger] data[t]).name@),
        forall|t: int, u: int|
            0 <= t < data.len() && 0 <= u < data[t].children@.len() ==> seq_contains_str(
                names,
                (#[trigger] data[t].children@[u])@,
            ),
        forall|p: int|
            0 <= p < names.len() ==> (#[trigger] tm.models@[p]).id == p && tm.models@[p].name@
                == names[p]@ && tm.models@[p].value is None,
        forall|p: int|
            0 <= p < names.len() ==> (is_declared(data, names[p]@) <==> (
            #[trigger] tm.models@[p]).expand_info is Some),
        forall|p: int|
            0 <= p < names.len() && is_declared(data, names[p]@) ==> built_composite_ok(
                data,
                names,
                #[trigger] tm.models@[p],
                randomize,
            ),
        ref_counts_ok(tm.models@),
    ensures
        tm.inv(),
        contains_id(tm.models@, 0),
        model_of(tm.models@, 0).name@ == root,
        forall|i: int|
            0 <= i < tm.models@.len() ==> load_item_ok(
                data,
                tm.models@,
                #[trigger] tm.models@[i],
                randomize,
            ) && tm.models@[i].value is None && tm.models@[i].id == i,
        forall|i: int| 0 <= i < data.len() ==> contains_name(tm.models@, (#[trigger] data[i]).name@),
        forall|i: int, j: int|
            0 <= i < data.len() && 0 <= j < data[i].children@.len() ==> contains_name(
                tm.models@,
                (#[trigger] data[i].children@[j])@,
            ),
        forall|i: int|
            0 <= i < tm.models@.len() ==> (#[trigger] tm.models@[i]).name@ == root || is_declared(
                data,
                tm.models@[i].name@,
            ) || is_child_name(data, tm.models@[i].name@),
{
    let s = tm.models@;
    let n = s.len() as int;
    lemma_ids_are_indexes(s);
    assert(contains_id(s, 0)) by {
        assert(s[0].id == 0);
    }
    assert(model_of(s, 0).name@ == root);
    assert forall|i: int, j: int|
        0 <= i < n && 0 <= j < spec_children(s[i]).len() implies contains_id(
        s,
        #[trigger] spec_children(s[i])[j],
    ) by {
        assert(s[i].expand_info is Some);
        assert(is_declared(data, names[i]@));
        assert(built_composite_ok(data, names, s[i], randomize));
        assert(spec_children(s[i])[j] < names.len());
    }
    assert forall|i: int| 0 <= i < n implies load_item_ok(
        data,
        s,
        #[trigger] s[i],
        randomize,
    ) by {
        lemma_item_lifts(data, names, s, i, randomize);
    }
    assert forall|i: int| 0 <= i < data.len() implies contains_name(
        s,
        (#[trigger] data[i]).name@,
    ) by {
        let w = choose|w: int| 0 <= w < names.len() && names[w]@ == data[i].name@;
        assert(s[w].name@ == data[i].name@);
    }
    assert forall|i: int, j: int|
        0 <= i < data.len() && 0 <= j < data[i].children@.len() implies contains_name(
        s,
        (#[trigger] data[i].children@[j])@,
    ) by {
        let w = choose|w: int| 0 <= w < names.len() && names[w]@ == data[i].children@[j]@;
        assert(s[w].name@ == data[i].children@[j]@);
    }
    assert forall|a: int, b: int| 0 <= a < b < n implies s[a].name@ != s[b].name@ by {
        assert(s[a].name@ == names[a]@ && s[b].name@ == names[b]@);
    }
}

} // verus!
