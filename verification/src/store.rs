//! The item store: an id-indexed collection of items forming a directed
//! graph (an id may sit in more than one parent's child list), plus the
//! monotonic id allocator. This module defines the store's invariants —
//! unique ids, unique names, closed child lists, correct reference counts —
//! and the store-wide reference-count recomputation shared by the editors.

use crate::algorithm::Algorithm;
use vstd::prelude::*;

verus! {

/// The composite half of an item: its reduction and its ordered child ids.
pub struct ExpandInfo {
    pub algorithm: Algorithm,
    pub children: Vec<u64>,
}

/// One item of the graph. `expand_info` is present iff the item is
/// composite; a leaf's name is the key under which external data is
/// supplied at calculation time.
pub struct Model {
    pub id: u64,
    pub name: String,
    pub ref_count: u64,
    pub expand_info: Option<ExpandInfo>,
    pub value: Option<i64>,
}

/// The whole store: all items, the persisted root name, and the next id to
/// hand out (monotonically increasing, never reused).
pub struct TreeModel {
    pub models: Vec<Model>,
    pub root_name: String,
    pub counter: u64,
}

/// The child-id list of an item (empty for a leaf).
pub open spec fn spec_children(m: Model) -> Seq<u64> {
    match m.expand_info {
        Option::Some(e) => e.children@,
        Option::None => Seq::empty(),
    }
}

/// Number of occurrences of `id` in one child list.
pub open spec fn count_in(ch: Seq<u64>, id: u64) -> nat
    decreases ch.len(),
{
    if ch.len() == 0 {
        0
    } else {
        count_in(ch.drop_last(), id) + if ch.last() == id {
            1nat
        } else {
            0nat
        }
    }
}

/// Occurrences of `id` across the child lists of the first `n` items.
pub open spec fn occ_upto(s: Seq<Model>, id: u64, n: int) -> nat
    decreases n,
{
    if n <= 0 {
        0
    } else {
        occ_upto(s, id, n - 1) + count_in(spec_children(s[n - 1]), id)
    }
}

/// Total in-degree of `id`: occurrences across all items' child lists
/// (an item referenced twice by the same parent counts twice).
pub open spec fn occurrences(s: Seq<Model>, id: u64) -> nat {
    occ_upto(s, id, s.len() as int)
}

pub open spec fn contains_id(s: Seq<Model>, id: u64) -> bool {
    exists|i: int| 0 <= i < s.len() && s[i].id == id
}

pub open spec fn contains_name(s: Seq<Model>, name: Seq<char>) -> bool {
    exists|i: int| 0 <= i < s.len() && s[i].name@ == name
}

/// Index of the item with the given id (meaningful when `contains_id` and
/// ids are unique).
pub open spec fn index_of_id(s: Seq<Model>, id: u64) -> int {
    choose|i: int| 0 <= i < s.len() && s[i].id == id
}

/// The item with the given id.
pub open spec fn model_of(s: Seq<Model>, id: u64) -> Model {
    s[index_of_id(s, id)]
}

/// No two items share an id (ids are stable and never reused).
pub open spec fn ids_unique(s: Seq<Model>) -> bool {
    forall|i: int, j: int| 0 <= i < j < s.len() ==> s[i].id != s[j].id
}

/// No two live items share a name.
pub open spec fn names_unique(s: Seq<Model>) -> bool {
    forall|i: int, j: int| 0 <= i < j < s.len() ==> s[i].name@ != s[j].name@
}

/// Every id in a child list is the id of some item in the store.
pub open spec fn children_closed(s: Seq<Model>) -> bool {
    forall|i: int, j: int|
        0 <= i < s.len() && 0 <= j < spec_children(s[i]).len() ==> contains_id(
            s,
            #[trigger] spec_children(s[i])[j],
        )
}

/// Every item id is below the allocator counter, so fresh ids are unused.
pub open spec fn ids_below(s: Seq<Model>, counter: u64) -> bool {
    forall|i: int| 0 <= i < s.len() ==> s[i].id < counter
}

/// Every stored reference count equals the item's true in-degree.
pub open spec fn ref_counts_ok(s: Seq<Model>) -> bool {
    forall|i: int| 0 <= i < s.len() ==> s[i].ref_count == occurrences(s, #[trigger] s[i].id)
}

/// Two items agree on everything except possibly the stored ref_count.
pub open spec fn same_except_ref(a: Model, b: Model) -> bool {
    a.id == b.id && a.name@ == b.name@ && expand_like(a.expand_info, b.expand_info) && a.value
        == b.value
}

/// Two optional expand infos describe the same composite shape.
pub open spec fn expand_like(a: Option<ExpandInfo>, b: Option<ExpandInfo>) -> bool {
    match (a, b) {
        (Option::None, Option::None) => true,
        (Option::Some(x), Option::Some(y)) => x.algorithm == y.algorithm && x.children@
            == y.children@,
        _ => false,
    }
}

/// Two items agree on id, name, shape, ref_count — everything except
/// possibly the computed value.
pub open spec fn same_except_value(a: Model, b: Model) -> bool {
    a.id == b.id && a.name@ == b.name@ && expand_like(a.expand_info, b.expand_info) && a.ref_count
        == b.ref_count
}

/// Two items agree on all observable fields.
pub open spec fn model_like(a: Model, b: Model) -> bool {
    same_except_ref(a, b) && a.ref_count == b.ref_count
}

impl TreeModel {
    /// The store's full invariant: unique ids and names, closed child
    /// lists, ids below the allocator counter, a root item with id 0, and
    /// correct reference counts.
    pub open spec fn inv(self) -> bool {
        ids_unique(self.models@) && names_unique(self.models@) && children_closed(self.models@)
            && ids_below(self.models@, self.counter) && contains_id(self.models@, 0)
            && ref_counts_ok(self.models@)
    }
}

/// Copies a child-id vector element by element.
pub fn clone_vec_u64(v: &Vec<u64>) -> (r: Vec<u64>)
    ensures
        r@ == v@,
{
    let n = v.len();
    let mut r: Vec<u64> = Vec::new();
    let mut i: usize = 0;
    while i < n
        invariant
            i <= n,
            n == v@.len(),
            r@ == v@.take(i as int),
        decreases n - i,
    {
        r.push(v[i]);
        proof {
            assert(v@.take(i as int).push(v@[i as int]) =~= v@.take(i + 1));
        }
        i = i + 1;
    }
    proof {
        assert(v@.take(n as int) =~= v@);
    }
    r
}

impl Clone for ExpandInfo {
    /// Copies the reduction and the child list.
    fn clone(&self) -> (r: Self)
        ensures
            r.algorithm == self.algorithm,
            r.children@ == self.children@,
    {
        ExpandInfo { algorithm: self.algorithm, children: clone_vec_u64(&self.children) }
    }
}

impl Clone for Model {
    /// Copies every observable field of the item.
    fn clone(&self) -> (r: Self)
        ensures
            model_like(r, *self),
    {
        Model {
            id: self.id,
            name: self.name.clone(),
            ref_count: self.ref_count,
            expand_info: match &self.expand_info {
                Some(e) => Some(e.clone()),
                None => None,
            },
            value: self.value,
        }
    }
}

// ------------------------------------------------------------------
// Lemmas about counting.
// ------------------------------------------------------------------
pub proof fn lemma_count_le_len(ch: Seq<u64>, id: u64)
    ensures
        count_in(ch, id) <= ch.len(),
    decreases ch.len(),
{
    if ch.len() > 0 {
        lemma_count_le_len(ch.drop_last(), id);
    }
}

pub proof fn lemma_count_zero_iff_absent(ch: Seq<u64>, id: u64)
    ensures
        count_in(ch, id) == 0 <==> !ch.contains(id),
    decreases ch.len(),
{
    if ch.len() > 0 {
        lemma_count_zero_iff_absent(ch.drop_last(), id);
        assert(ch.contains(id) ==> ch.last() == id || ch.drop_last().contains(id)) by {
            if ch.contains(id) && ch.last() != id {
                let i = choose|i: int| 0 <= i < ch.len() && ch[i] == id;
                assert(ch.drop_last()[i] == id);
            }
        }
        if ch.drop_last().contains(id) {
            assert(ch.contains(id)) by {
                let i = choose|i: int| 0 <= i < ch.drop_last().len() && ch.drop_last()[i] == id;
                assert(ch[i] == id);
            }
        }
        if ch.last() == id {
            assert(ch.contains(id));
        }
    }
}

pub proof fn lemma_count_take_one_more(ch: Seq<u64>, i: int, id: u64)
    requires
        0 <= i < ch.len(),
    ensures
        count_in(ch.take(i + 1), id) == count_in(ch.take(i), id) + if ch[i] == id {
            1nat
        } else {
            0nat
        },
{
    assert(ch.take(i + 1).drop_last() =~= ch.take(i));
    assert(ch.take(i + 1).last() == ch[i]);
}

pub proof fn lemma_occ_upto_mono(s: Seq<Model>, id: u64, m: int, n: int)
    requires
        m <= n,
    ensures
        occ_upto(s, id, m) <= occ_upto(s, id, n),
    decreases n - m,
{
    if m < n {
        lemma_occ_upto_mono(s, id, m, n - 1);
    }
}

/// Occurrence counts depend only on the per-item child lists, counted
/// item by item.
pub proof fn lemma_occ_upto_congruent(s1: Seq<Model>, s2: Seq<Model>, id: u64, n: int)
    requires
        forall|i: int|
            0 <= i < n ==> count_in(spec_children(#[trigger] s1[i]), id) == count_in(
                spec_children(s2[i]),
                id,
            ),
    ensures
        occ_upto(s1, id, n) == occ_upto(s2, id, n),
    decreases n,
{
    if n > 0 {
        lemma_occ_upto_congruent(s1, s2, id, n - 1);
    }
}

/// In a store with closed child lists, an id that no item carries has no
/// occurrences at all.
pub proof fn lemma_occ_absent(s: Seq<Model>, id: u64, n: int)
    requires
        children_closed(s),
        !contains_id(s, id),
        n <= s.len(),
    ensures
        occ_upto(s, id, n) == 0,
    decreases n,
{
    if n > 0 {
        lemma_occ_absent(s, id, n - 1);
        let ch = spec_children(s[n - 1]);
        assert(!ch.contains(id)) by {
            if ch.contains(id) {
                let j = choose|j: int| 0 <= j < ch.len() && ch[j] == id;
                assert(contains_id(s, spec_children(s[n - 1])[j]));
            }
        }
        lemma_count_zero_iff_absent(ch, id);
    }
}

/// Updating one item changes every id's occurrence count by exactly the
/// difference between the old and new child lists of that item.
pub proof fn lemma_occ_update(s: Seq<Model>, k: int, m2: Model, id: u64, n: int)
    requires
        0 <= k < s.len(),
        n <= s.len(),
    ensures
        n <= k ==> occ_upto(s.update(k, m2), id, n) == occ_upto(s, id, n),
        n > k ==> occ_upto(s.update(k, m2), id, n) + count_in(spec_children(s[k]), id) == occ_upto(
            s,
            id,
            n,
        ) + count_in(spec_children(m2), id),
    decreases n,
{
    if n > 0 {
        lemma_occ_update(s, k, m2, id, n - 1);
    }
}

/// Appending an item adds exactly that item's child-list counts.
pub proof fn lemma_occ_push(s: Seq<Model>, m: Model, id: u64)
    ensures
        occurrences(s.push(m), id) == occurrences(s, id) + count_in(spec_children(m), id),
{
    let s2 = s.push(m);
    assert(occ_upto(s2, id, s2.len() as int) == occ_upto(s2, id, s.len() as int) + count_in(
        spec_children(m),
        id,
    ));
    lemma_occ_upto_congruent(s2, s, id, s.len() as int);
}

/// Removing an item removes exactly that item's child-list counts.
pub proof fn lemma_occ_remove(s: Seq<Model>, k: int, id: u64, n: int)
    requires
        0 <= k < s.len(),
        n <= s.len() - 1,
    ensures
        n <= k ==> occ_upto(s.remove(k), id, n) == occ_upto(s, id, n),
        n > k ==> occ_upto(s.remove(k), id, n) + count_in(spec_children(s[k]), id) == occ_upto(
            s,
            id,
            n + 1,
        ),
    decreases n,
{
    if n > 0 {
        lemma_occ_remove(s, k, id, n - 1);
        if n > k {
            assert(s.remove(k)[n - 1] == s[n]);
        }
    }
}

/// Child-list substitution: every occurrence of `from` becomes `to`.
pub open spec fn subst_children(ch: Seq<u64>, from: u64, to: u64) -> Seq<u64> {
    ch.map_values(|c: u64| if c == from { to } else { c })
}

pub proof fn lemma_subst_counts(ch: Seq<u64>, from: u64, to: u64, id: u64)
    requires
        from != to,
    ensures
        count_in(subst_children(ch, from, to), from) == 0,
        count_in(subst_children(ch, from, to), to) == count_in(ch, from) + count_in(ch, to),
        id != from && id != to ==> count_in(subst_children(ch, from, to), id) == count_in(ch, id),
    decreases ch.len(),
{
    if ch.len() > 0 {
        lemma_subst_counts(ch.drop_last(), from, to, id);
        assert(subst_children(ch, from, to).drop_last() =~= subst_children(
            ch.drop_last(),
            from,
            to,
        ));
        assert(subst_children(ch, from, to).last() == if ch.last() == from {
            to
        } else {
            ch.last()
        });
    }
}

/// Child-list erasure: every occurrence of `id` is dropped.
pub open spec fn erase_child(ch: Seq<u64>, id: u64) -> Seq<u64>
    decreases ch.len(),
{
    if ch.len() == 0 {
        Seq::empty()
    } else if ch.last() == id {
        erase_child(ch.drop_last(), id)
    } else {
        erase_child(ch.drop_last(), id).push(ch.last())
    }
}

pub proof fn lemma_erase_counts(ch: Seq<u64>, id: u64)
    ensures
        count_in(erase_child(ch, id), id) == 0,
        forall|x: u64|
            x != id ==> count_in(#[trigger] erase_child(ch, id), x) == count_in(ch, x),
        !erase_child(ch, id).contains(id),
        forall|x: u64| erase_child(ch, id).contains(x) ==> ch.contains(x),
    decreases ch.len(),
{
    if ch.len() > 0 {
        lemma_erase_counts(ch.drop_last(), id);
        if ch.last() != id {
            assert(erase_child(ch, id).drop_last() =~= erase_child(ch.drop_last(), id));
            assert(erase_child(ch, id).last() == ch.last());
        }
        assert forall|x: u64| x != id implies count_in(#[trigger] erase_child(ch, id), x)
            == count_in(ch, x) by {
            assert(count_in(erase_child(ch.drop_last(), id), x) == count_in(ch.drop_last(), x));
        }
    }
    lemma_count_zero_iff_absent(erase_child(ch, id), id);
    assert forall|x: u64| erase_child(ch, id).contains(x) implies ch.contains(x) by {
        if x != id {
            lemma_count_zero_iff_absent(erase_child(ch, id), x);
            lemma_count_zero_iff_absent(ch, x);
        }
    }
}

pub proof fn lemma_count_push(ch: Seq<u64>, v: u64, id: u64)
    ensures
        count_in(ch.push(v), id) == count_in(ch, id) + if v == id {
            1nat
        } else {
            0nat
        },
{
    assert(ch.push(v).drop_last() =~= ch);
}

/// Removing one element lowers that element's count by one and leaves
/// every other count alone.
pub proof fn lemma_count_remove_at(ch: Seq<u64>, p: int, id: u64)
    requires
        0 <= p < ch.len(),
    ensures
        count_in(ch.remove(p), id) + if ch[p] == id {
            1nat
        } else {
            0nat
        } == count_in(ch, id),
    decreases ch.len(),
{
    if ch.len() > 0 {
        if p == ch.len() - 1 {
            assert(ch.remove(p) =~= ch.drop_last());
        } else {
            lemma_count_remove_at(ch.drop_last(), p, id);
            assert(ch.remove(p).drop_last() =~= ch.drop_last().remove(p));
            assert(ch.remove(p).last() == ch.last());
        }
    }
}

/// Substitution is the identity on lists that never mention `from`.
pub proof fn lemma_subst_absent(ch: Seq<u64>, from: u64, to: u64)
    requires
        !ch.contains(from),
    ensures
        subst_children(ch, from, to) =~= ch,
{
    assert forall|i: int| 0 <= i < ch.len() implies subst_children(ch, from, to)[i] == ch[i] by {
        assert(ch[i] != from);
    }
}

/// Erasure is the identity on lists that never mention `id`.
pub proof fn lemma_erase_absent(ch: Seq<u64>, id: u64)
    requires
        !ch.contains(id),
    ensures
        erase_child(ch, id) =~= ch,
    decreases ch.len(),
{
    if ch.len() > 0 {
        assert(!ch.drop_last().contains(id)) by {
            if ch.drop_last().contains(id) {
                let j = choose|j: int| 0 <= j < ch.drop_last().len() && ch.drop_last()[j] == id;
                assert(ch[j] == id);
            }
        }
        lemma_erase_absent(ch.drop_last(), id);
        assert(ch.last() != id);
    }
}

/// If each item's count of `b` in `s2` is its count of `a` plus its count
/// of `b` in `s1`, the store totals add the same way.
pub proof fn lemma_occ_upto_add(s1: Seq<Model>, s2: Seq<Model>, a: u64, b: u64, n: int)
    requires
        forall|i: int|
            0 <= i < n ==> count_in(spec_children(#[trigger] s2[i]), b) == count_in(
                spec_children(s1[i]),
                a,
            ) + count_in(spec_children(s1[i]), b),
    ensures
        occ_upto(s2, b, n) == occ_upto(s1, a, n) + occ_upto(s1, b, n),
    decreases n,
{
    if n > 0 {
        lemma_occ_upto_add(s1, s2, a, b, n - 1);
    }
}

/// Whether `dst` can be reached from `src` along child edges within
/// `fuel` steps.
pub open spec fn reaches(s: Seq<Model>, src: u64, dst: u64, fuel: nat) -> bool
    decreases fuel,
{
    fuel > 0 && (src == dst || exists|c: int|
        0 <= c < spec_children(model_of(s, src)).len() && reaches(
            s,
            spec_children(model_of(s, src))[c],
            dst,
            (fuel - 1) as nat,
        ))
}

/// Anything reachable from a member of a child-closed id set is itself a
/// member.
/// Reachability is stable under extra fuel.
pub proof fn lemma_reaches_mono(s: Seq<Model>, src: u64, dst: u64, f1: nat, f2: nat)
    requires
        reaches(s, src, dst, f1),
        f1 <= f2,
    ensures
        reaches(s, src, dst, f2),
    decreases f1,
{
    if src != dst {
        let c = choose|c: int|
            0 <= c < spec_children(model_of(s, src)).len() && reaches(
                s,
                spec_children(model_of(s, src))[c],
                dst,
                (f1 - 1) as nat,
            );
        lemma_reaches_mono(s, spec_children(model_of(s, src))[c], dst, (f1 - 1) as nat, (f2
            - 1) as nat);
    }
}

/// A reachable item's children are reachable with one more step of fuel.
pub proof fn lemma_reaches_step(s: Seq<Model>, a: u64, b: u64, x: u64, f: nat)
    requires
        reaches(s, a, b, f),
        spec_children(model_of(s, b)).contains(x),
    ensures
        reaches(s, a, x, (f + 1) as nat),
    decreases f,
{
    if a == b {
        let c = choose|c: int|
            0 <= c < spec_children(model_of(s, b)).len() && spec_children(model_of(s, b))[c] == x;
        assert(reaches(s, x, x, f));
    } else {
        let c = choose|c: int|
            0 <= c < spec_children(model_of(s, a)).len() && reaches(
                s,
                spec_children(model_of(s, a))[c],
                b,
                (f - 1) as nat,
            );
        lemma_reaches_step(s, spec_children(model_of(s, a))[c], b, x, (f - 1) as nat);
    }
}

pub proof fn lemma_reach_in_closed_set(s: Seq<Model>, visited: Seq<u64>, src: u64, dst: u64, f: nat)
    requires
        visited.contains(src),
        forall|v: u64, c: int|
            visited.contains(v) && 0 <= c < spec_children(model_of(s, v)).len()
                ==> visited.contains(#[trigger] spec_children(model_of(s, v))[c]),
        reaches(s, src, dst, f),
    ensures
        visited.contains(dst),
    decreases f,
{
    if src != dst {
        let c = choose|c: int|
            0 <= c < spec_children(model_of(s, src)).len() && reaches(
                s,
                spec_children(model_of(s, src))[c],
                dst,
                (f - 1) as nat,
            );
        lemma_reach_in_closed_set(s, visited, spec_children(model_of(s, src))[c], dst, (f
            - 1) as nat);
    }
}

/// Total number of child-list slots across the first `n` items.
pub open spec fn total_children_upto(s: Seq<Model>, n: int) -> nat
    decreases n,
{
    if n <= 0 {
        0
    } else {
        total_children_upto(s, n - 1) + spec_children(s[n - 1]).len()
    }
}

/// Total number of child-list slots across the whole store.
pub open spec fn total_children(s: Seq<Model>) -> nat {
    total_children_upto(s, s.len() as int)
}

/// An id's in-degree never exceeds the total number of child slots.
pub proof fn lemma_occ_le_total(s: Seq<Model>, id: u64, n: int)
    ensures
        occ_upto(s, id, n) <= total_children_upto(s, n),
    decreases n,
{
    if n > 0 {
        lemma_occ_le_total(s, id, n - 1);
        lemma_count_le_len(spec_children(s[n - 1]), id);
    }
}

/// Sum of the child-list lengths of the items at the listed indexes.
pub open spec fn picked_children_sum(s: Seq<Model>, ks: Seq<int>) -> nat
    decreases ks.len(),
{
    if ks.len() == 0 {
        0
    } else {
        picked_children_sum(s, ks.drop_last()) + spec_children(s[ks.last()]).len()
    }
}

/// Removing one listed index removes exactly its item's child count.
pub proof fn lemma_picked_remove(s: Seq<Model>, ks: Seq<int>, p: int)
    requires
        0 <= p < ks.len(),
    ensures
        picked_children_sum(s, ks.remove(p)) + spec_children(s[ks[p]]).len()
            == picked_children_sum(s, ks),
    decreases ks.len(),
{
    if p == ks.len() - 1 {
        assert(ks.remove(p) =~= ks.drop_last());
    } else {
        lemma_picked_remove(s, ks.drop_last(), p);
        assert(ks.remove(p).drop_last() =~= ks.drop_last().remove(p));
        assert(ks.remove(p).last() == ks.last());
    }
}

/// The child count over distinct in-range indexes is at most the store's
/// total child count.
pub proof fn lemma_picked_distinct_le(s: Seq<Model>, ks: Seq<int>, n: int)
    requires
        forall|p: int| 0 <= p < ks.len() ==> 0 <= #[trigger] ks[p] < n,
        forall|p: int, q: int| 0 <= p < q < ks.len() ==> ks[p] != ks[q],
    ensures
        picked_children_sum(s, ks) <= total_children_upto(s, n),
    decreases n,
{
    if n <= 0 {
        if ks.len() > 0 {
            assert(0 <= ks[0] < n);
        }
    } else {
        if ks.contains(n - 1) {
            let p = choose|p: int| 0 <= p < ks.len() && ks[p] == n - 1;
            lemma_picked_remove(s, ks, p);
            let rest = ks.remove(p);
            assert forall|a: int| 0 <= a < rest.len() implies 0 <= #[trigger] rest[a] < n
                - 1 by {
                assert(rest[a] == if a < p {
                    ks[a]
                } else {
                    ks[a + 1]
                });
            }
            assert forall|a: int, b: int| 0 <= a < b < rest.len() implies rest[a] != rest[b] by {
                assert(rest[a] == if a < p {
                    ks[a]
                } else {
                    ks[a + 1]
                });
                assert(rest[b] == if b < p {
                    ks[b]
                } else {
                    ks[b + 1]
                });
            }
            lemma_picked_distinct_le(s, rest, n - 1);
        } else {
            assert forall|p: int| 0 <= p < ks.len() implies 0 <= #[trigger] ks[p] < n - 1 by {
                assert(ks[p] != n - 1) by {
                    if ks[p] == n - 1 {
                        assert(ks.contains(n - 1));
                    }
                }
            }
            lemma_picked_distinct_le(s, ks, n - 1);
        }
    }
}

/// A store whose items never mention `id` gives it no occurrences.
pub proof fn lemma_occ_zero(s: Seq<Model>, id: u64, n: int)
    requires
        forall|i: int| 0 <= i < n ==> count_in(spec_children(#[trigger] s[i]), id) == 0,
    ensures
        occ_upto(s, id, n) == 0,
    decreases n,
{
    if n > 0 {
        lemma_occ_zero(s, id, n - 1);
    }
}

// ------------------------------------------------------------------
// Executable lookups and counting.
// ------------------------------------------------------------------
/// Finds the index of the item with the given id.
pub fn find_index(models: &Vec<Model>, id: u64) -> (r: Option<usize>)
    ensures
        match r {
            Option::Some(i) => i < models@.len() && models@[i as int].id == id,
            Option::None => !contains_id(models@, id),
        },
{
    let n = models.len();
    let mut i: usize = 0;
    while i < n
        invariant
            i <= n,
            n == models@.len(),
            forall|j: int| 0 <= j < i ==> models@[j].id != id,
        decreases n - i,
    {
        if models[i].id == id {
            return Some(i);
        }
        i = i + 1;
    }
    None
}

/// Finds the index of the item carrying the given name.
pub fn find_name_index(models: &Vec<Model>, name: &String) -> (r: Option<usize>)
    ensures
        match r {
            Option::Some(i) => i < models@.len() && models@[i as int].name@ == name@,
            Option::None => !contains_name(models@, name@),
        },
{
    let n = models.len();
    let mut i: usize = 0;
    while i < n
        invariant
            i <= n,
            n == models@.len(),
            forall|j: int| 0 <= j < i ==> models@[j].name@ != name@,
        decreases n - i,
    {
        if models[i].name == *name {
            return Some(i);
        }
        i = i + 1;
    }
    None
}

/// Counts occurrences of `id` in one child-list vector.
fn count_in_vec(ch: &Vec<u64>, id: u64) -> (c: u64)
    ensures
        c == count_in(ch@, id),
{
    let n = ch.len();
    let mut c: u64 = 0;
    let mut i: usize = 0;
    while i < n
        invariant
            i <= n,
            n == ch@.len(),
            c == count_in(ch@.take(i as int), id),
            c <= i,
        decreases n - i,
    {
        proof {
            lemma_count_take_one_more(ch@, i as int, id);
            lemma_count_le_len(ch@.take(i as int), id);
        }
        if ch[i] == id {
            c = c + 1;
        }
        i = i + 1;
    }
    proof {
        assert(ch@.take(n as int) =~= ch@);
    }
    c
}

/// Counts occurrences of `id` in one item's child list.
pub(crate) fn count_in_model(m: &Model, id: u64) -> (c: u64)
    ensures
        c == count_in(spec_children(*m), id),
{
    match &m.expand_info {
        Some(e) => count_in_vec(&e.children, id),
        None => 0,
    }
}

/// Counts the total in-degree of `id` across the whole store.
pub fn count_occurrences(models: &Vec<Model>, id: u64) -> (c: u64)
    requires
        occurrences(models@, id) <= u64::MAX,
    ensures
        c == occurrences(models@, id),
{
    let n = models.len();
    let mut c: u64 = 0;
    let mut i: usize = 0;
    while i < n
        invariant
            i <= n,
            n == models@.len(),
            occurrences(models@, id) <= u64::MAX,
            c == occ_upto(models@, id, i as int),
        decreases n - i,
    {
        proof {
            lemma_occ_upto_mono(models@, id, i + 1, n as int);
        }
        let k = count_in_model(&models[i], id);
        c = c + k;
        i = i + 1;
    }
    c
}

/// Recomputes every item's stored reference count from scratch, per the
/// in-degree definition. Touches nothing but the `ref_count` fields.
pub fn update_reference_count(models: &mut Vec<Model>)
    requires
        forall|id: u64| occurrences(old(models)@, id) <= u64::MAX,
    ensures
        final(models)@.len() == old(models)@.len(),
        forall|j: int|
            0 <= j < old(models)@.len() ==> same_except_ref(
                #[trigger] final(models)@[j],
                old(models)@[j],
            ),
        ref_counts_ok(final(models)@),
        forall|id: u64| occurrences(final(models)@, id) == occurrences(old(models)@, id),
{
    let n = models.len();
    let mut i: usize = 0;
    while i < n
        invariant
            i <= n,
            n == models@.len(),
            n == old(models)@.len(),
            forall|j: int|
                0 <= j < n ==> same_except_ref(#[trigger] models@[j], old(models)@[j]),
            forall|id: u64| occurrences(models@, id) == occurrences(old(models)@, id),
            forall|id: u64| occurrences(models@, id) <= u64::MAX,
            forall|j: int|
                0 <= j < i ==> models@[j].ref_count == occurrences(
                    models@,
                    #[trigger] models@[j].id,
                ),
        decreases n - i,
    {
        let ghost pre = models@;
        let id = models[i].id;
        let c = count_occurrences(models, id);
        models[i].ref_count = c;
        proof {
            let cur = models@;
            assert forall|x: u64| occurrences(cur, x) == occurrences(pre, x) by {
                assert forall|j: int|
                    0 <= j < n implies count_in(spec_children(#[trigger] cur[j]), x) == count_in(
                    spec_children(pre[j]),
                    x,
                ) by {
                    if j == i {
                        assert(cur[j].expand_info == pre[j].expand_info);
                    }
                }
                lemma_occ_upto_congruent(cur, pre, x, n as int);
            }
            assert forall|x: u64| occurrences(models@, x) <= u64::MAX by {
                assert(occurrences(cur, x) == occurrences(pre, x));
            }
        }
        i = i + 1;
    }
}

} // verus!
