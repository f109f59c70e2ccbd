//! Fresh placeholder names for newly added items: the base label first,
//! then the base with an increasing decimal suffix, taking the first name
//! that no live item carries. A counting argument shows the search always
//! ends: n items cannot occupy n + 1 distinct candidate names.

use crate::decimal::{dec_seq, lemma_dec_seq_injective, lemma_dec_seq_len, u64_to_string};
use crate::store::{contains_name, find_name_index, Model};
use vstd::prelude::*;
use vstd::string::StringExecFns;

verus! {

/// The i-th candidate placeholder name.
pub open spec fn candidate_name(i: nat) -> Seq<char> {
    if i == 0 {
        "new_node"@
    } else {
        "new_node"@ + dec_seq(i)
    }
}

proof fn lemma_candidate_injective(a: nat, b: nat)
    requires
        a != b,
    ensures
        candidate_name(a) != candidate_name(b),
{
    reveal_strlit("new_node");
    if a != 0 {
        lemma_dec_seq_len(a);
    }
    if b != 0 {
        lemma_dec_seq_len(b);
    }
    if a != 0 && b != 0 {
        if candidate_name(a) == candidate_name(b) {
            assert(dec_seq(a) =~= ("new_node"@ + dec_seq(a)).skip(8));
            assert(dec_seq(b) =~= ("new_node"@ + dec_seq(b)).skip(8));
            lemma_dec_seq_injective(a, b);
        }
    }
}

/// If the first `m` candidate names are all taken by items of the store,
/// the store has at least `m` items.
proof fn lemma_candidate_pool(s: Seq<Model>, m: nat)
    requires
        forall|j: nat| j < m ==> contains_name(s, #[trigger] candidate_name(j)),
    ensures
        m <= s.len(),
{
    broadcast use vstd::seq_lib::seq_to_set_is_finite;

    let cands = Seq::new(m, |i: int| candidate_name(i as nat));
    assert(cands.no_duplicates()) by {
        assert forall|p: int, q: int|
            0 <= p < m && 0 <= q < m && p != q implies cands[p] != cands[q] by {
            lemma_candidate_injective(p as nat, q as nat);
        }
    }
    cands.unique_seq_to_set();
    let names = Seq::new(s.len(), |j: int| s[j].name@);
    names.lemma_cardinality_of_set();
    assert(cands.to_set().subset_of(names.to_set())) by {
        assert forall|x: Seq<char>| cands.to_set().contains(x) implies names.to_set().contains(
            x,
        ) by {
            let i = choose|i: int| 0 <= i < cands.len() && cands[i] == x;
            assert(contains_name(s, candidate_name(i as nat)));
            let w = choose|w: int| 0 <= w < s.len() && s[w].name@ == x;
            assert(names[w] == x);
            assert(names.contains(x));
        }
    }
    vstd::set_lib::lemma_len_subset(cands.to_set(), names.to_set());
}

/// Synthesizes a placeholder name that collides with no existing item
/// name: the first free candidate in the fixed base-then-suffix order.
pub fn suggest_new_name_add(models: &Vec<Model>) -> (nm: String)
    ensures
        !contains_name(models@, nm@),
        exists|i: nat|
            nm@ == candidate_name(i) && (forall|j: nat|
                j < i ==> contains_name(models@, #[trigger] candidate_name(j))),
{
    let n = models.len();
    let mut i: u64 = 0;
    let mut cand: String = "new_node".to_owned();
    loop
        invariant_except_break
            i <= n,
            n == models@.len(),
            cand@ == candidate_name(i as nat),
            forall|j: nat| j < i ==> contains_name(models@, #[trigger] candidate_name(j)),
        ensures
            !contains_name(models@, cand@),
            cand@ == candidate_name(i as nat),
            forall|j: nat| j < i ==> contains_name(models@, #[trigger] candidate_name(j)),
        decreases n - i,
    {
        match find_name_index(models, &cand) {
            None => {
                break;
            },
            Some(w) => {
                proof {
                    assert(contains_name(models@, candidate_name(i as nat))) by {
                        assert(models@[w as int].name@ == cand@);
                    }
                    assert forall|j: nat| j < i + 1 implies contains_name(
                        models@,
                        #[trigger] candidate_name(j),
                    ) by {}
                    lemma_candidate_pool(models@, (i + 1) as nat);
                }
                i = i + 1;
                cand = "new_node".to_owned();
                cand.append(u64_to_string(i).as_str());
                proof {
                    assert(cand@ == candidate_name(i as nat));
                }
            },
        }
    }
    cand
}

/// The k-th candidate when resolving a duplicate name: the requested name
/// with `k` copies of the duplicate marker appended.
pub open spec fn dupe_candidate(nm: Seq<char>, k: nat) -> Seq<char>
    decreases k,
{
    if k == 0 {
        nm
    } else {
        dupe_candidate(nm, (k - 1) as nat) + " (duplicate)"@
    }
}

/// The length of the longest name any item carries.
pub open spec fn spec_max_name_len(s: Seq<Model>) -> nat
    decreases s.len(),
{
    if s.len() == 0 {
        0
    } else {
        let rest = spec_max_name_len(s.drop_last());
        if s.last().name@.len() > rest {
            s.last().name@.len()
        } else {
            rest
        }
    }
}

proof fn lemma_name_le_max(s: Seq<Model>, nm: Seq<char>)
    requires
        contains_name(s, nm),
    ensures
        nm.len() <= spec_max_name_len(s),
    decreases s.len(),
{
    if s.len() > 0 {
        let i = choose|i: int| 0 <= i < s.len() && s[i].name@ == nm;
        if i < s.len() - 1 {
            assert(contains_name(s.drop_last(), nm)) by {
                assert(s.drop_last()[i] == s[i]);
            }
            lemma_name_le_max(s.drop_last(), nm);
        }
    }
}

/// Resolves a requested name that may collide: the duplicate marker is
/// appended until no live item carries the result. Each round lengthens
/// the candidate, and a colliding candidate is never longer than the
/// longest existing name, so the search ends.
pub fn suggest_new_name_dupe(new_name: &str, models: &Vec<Model>) -> (nm: String)
    ensures
        !contains_name(models@, nm@),
        exists|k: nat|
            nm@ == dupe_candidate(new_name@, k) && (forall|j: nat|
                j < k ==> contains_name(models@, #[trigger] dupe_candidate(new_name@, j))),
{
    let mut cand: String = new_name.to_owned();
    let ghost mut k: nat = 0nat;
    proof {
        reveal_strlit(" (duplicate)");
    }
    match find_name_index(models, &cand) {
        None => {
            proof {
                assert(cand@ == dupe_candidate(new_name@, 0nat));
            }
            return cand;
        },
        Some(_) => {},
    }
    proof {
        lemma_name_le_max(models@, cand@);
    }
    loop
        invariant_except_break
            cand@ == dupe_candidate(new_name@, k),
            forall|j: nat|
                j < k + 1 ==> contains_name(models@, #[trigger] dupe_candidate(new_name@, j)),
            contains_name(models@, cand@),
            cand@.len() <= spec_max_name_len(models@),
            " (duplicate)"@.len() == 12,
        ensures
            !contains_name(models@, cand@),
            exists|kk: nat|
                cand@ == dupe_candidate(new_name@, kk) && (forall|j: nat|
                    j < kk ==> contains_name(models@, #[trigger] dupe_candidate(new_name@, j))),
        decreases spec_max_name_len(models@) - cand@.len(),
    {
        cand.append(" (duplicate)");
        proof {
            k = k + 1;
        }
        match find_name_index(models, &cand) {
            None => {
                proof {
                    assert(cand@ == dupe_candidate(new_name@, k) && (forall|j: nat|
                        j < k ==> contains_name(
                            models@,
                            #[trigger] dupe_candidate(new_name@, j),
                        )));
                }
                break;
            },
            Some(w) => {
                proof {
                    assert(contains_name(models@, cand@)) by {
                        assert(models@[w as int].name@ == cand@);
                    }
                    lemma_name_le_max(models@, cand@);
                }
            },
        }
    }
    cand
}

} // verus!
