//! The aggregation evaluator: given a leaf-name-to-number table, computes
//! every composite item's value by a depth-first, memoized walk from the
//! root, guarded by a fuel cap against cyclic stores, and writes the
//! results back only if the whole walk succeeds.

use crate::algorithm::{reduce_ok, reduce_spec, Algorithm};
use crate::error::EngineError;
use crate::store::{
    children_closed, contains_id, ids_unique, index_of_id, model_of, occurrences, reaches,
    spec_children, Model, TreeModel,
};
use vstd::prelude::*;

verus! {

/// The external data table: a flat mapping from leaf name to number.
pub type FileData = Vec<(String, i64)>;

/// First-match lookup in the data table.
pub open spec fn table_lookup(t: Seq<(String, i64)>, nm: Seq<char>) -> Option<i64>
    decreases t.len(),
{
    if t.len() == 0 {
        Option::None
    } else if t[0].0@ == nm {
        Option::Some(t[0].1)
    } else {
        table_lookup(t.drop_first(), nm)
    }
}

/// Fueled evaluation of one item: a leaf looks its name up in the table; a
/// composite needs a chosen reduction and reduces its children's values in
/// child-list order. `None` stands for any failure: exhausted fuel, a
/// missing item or table entry, an unset reduction, or a value out of the
/// machine range.
pub open spec fn eval_spec(s: Seq<Model>, t: Seq<(String, i64)>, id: u64, fuel: nat) -> Option<
    i64,
>
    decreases fuel, 0int,
{
    if fuel == 0 {
        Option::None
    } else if !contains_id(s, id) {
        Option::None
    } else {
        let m = model_of(s, id);
        match m.expand_info {
            Option::None => table_lookup(t, m.name@),
            Option::Some(x) => {
                if x.algorithm == Algorithm::Unset {
                    Option::None
                } else {
                    match eval_list(s, t, x.children@, (fuel - 1) as nat) {
                        Option::None => Option::None,
                        Option::Some(vals) => {
                            if reduce_ok(x.algorithm, vals) {
                                Option::Some(reduce_spec(x.algorithm, vals) as i64)
                            } else {
                                Option::None
                            }
                        },
                    }
                }
            },
        }
    }
}

/// Fueled evaluation of a child list, in order.
pub open spec fn eval_list(s: Seq<Model>, t: Seq<(String, i64)>, ids: Seq<u64>, fuel: nat) -> Option<
    Seq<i64>,
>
    decreases fuel, ids.len() + 1,
{
    if ids.len() == 0 {
        Option::Some(Seq::empty())
    } else {
        match eval_spec(s, t, ids[0], fuel) {
            Option::None => Option::None,
            Option::Some(v) => {
                match eval_list(s, t, ids.drop_first(), fuel) {
                    Option::None => Option::None,
                    Option::Some(vs) => Option::Some(seq![v] + vs),
                }
            },
        }
    }
}

/// Evaluation results are stable under extra fuel.
pub proof fn lemma_eval_mono(s: Seq<Model>, t: Seq<(String, i64)>, id: u64, f1: nat, f2: nat)
    requires
        eval_spec(s, t, id, f1) is Some,
        f1 <= f2,
    ensures
        eval_spec(s, t, id, f2) == eval_spec(s, t, id, f1),
    decreases f1, 0int,
{
    let m = model_of(s, id);
    match m.expand_info {
        Option::None => {},
        Option::Some(x) => {
            if x.algorithm != Algorithm::Unset {
                lemma_eval_list_mono(s, t, x.children@, (f1 - 1) as nat, (f2 - 1) as nat);
            }
        },
    }
}

pub proof fn lemma_eval_list_mono(
    s: Seq<Model>,
    t: Seq<(String, i64)>,
    ids: Seq<u64>,
    f1: nat,
    f2: nat,
)
    requires
        eval_list(s, t, ids, f1) is Some,
        f1 <= f2,
    ensures
        eval_list(s, t, ids, f2) == eval_list(s, t, ids, f1),
    decreases f1, ids.len() + 1,
{
    if ids.len() > 0 {
        lemma_eval_mono(s, t, ids[0], f1, f2);
        lemma_eval_list_mono(s, t, ids.drop_first(), f1, f2);
    }
}

/// Two successful evaluations agree, whatever their fuel.
pub proof fn lemma_eval_deterministic(
    s: Seq<Model>,
    t: Seq<(String, i64)>,
    id: u64,
    f1: nat,
    f2: nat,
)
    requires
        eval_spec(s, t, id, f1) is Some,
        eval_spec(s, t, id, f2) is Some,
    ensures
        eval_spec(s, t, id, f1) == eval_spec(s, t, id, f2),
{
    let fm = if f1 <= f2 {
        f2
    } else {
        f1
    };
    lemma_eval_mono(s, t, id, f1, fm);
    lemma_eval_mono(s, t, id, f2, fm);
}

/// A list whose members each evaluate to the recorded values evaluates to
/// exactly that value sequence.
pub proof fn lemma_eval_list_of(
    s: Seq<Model>,
    t: Seq<(String, i64)>,
    ids: Seq<u64>,
    vals: Seq<i64>,
    fuel: nat,
)
    requires
        ids.len() == vals.len(),
        forall|u: int| 0 <= u < ids.len() ==> eval_spec(s, t, #[trigger] ids[u], fuel) == Some(
            vals[u],
        ),
    ensures
        eval_list(s, t, ids, fuel) == Some(vals),
    decreases ids.len(),
{
    if ids.len() == 0 {
        assert(vals =~= Seq::<i64>::empty());
    } else {
        assert forall|u: int|
            0 <= u < ids.drop_first().len() implies eval_spec(
            s,
            t,
            #[trigger] ids.drop_first()[u],
            fuel,
        ) == Some(vals.drop_first()[u]) by {
            assert(ids.drop_first()[u] == ids[u + 1]);
        }
        lemma_eval_list_of(s, t, ids.drop_first(), vals.drop_first(), fuel);
        assert(seq![vals[0]] + vals.drop_first() =~= vals);
    }
}

/// Whether the memo table holds an entry for `id`.
pub open spec fn mem_has(mem: Seq<(u64, i64)>, id: u64) -> bool {
    exists|p: int| 0 <= p < mem.len() && mem[p].0 == id
}

/// The memo table is sound at fuel `b`: every recorded value is the
/// item's evaluation at `b`, and the recorded ids are closed under child
/// edges (a composite is only recorded once all its children are).
pub open spec fn mem_inv(s: Seq<Model>, t: Seq<(String, i64)>, mem: Seq<(u64, i64)>, b: nat) -> bool {
    (forall|p: int|
        #![trigger mem[p]]
        0 <= p < mem.len() ==> eval_spec(s, t, mem[p].0, b) == Some(mem[p].1)) && (forall|
        p: int,
        c: int,
    |
        0 <= p < mem.len() && 0 <= c < spec_children(model_of(s, (#[trigger] mem[p]).0)).len()
            ==> mem_has(mem, #[trigger] spec_children(model_of(s, mem[p].0))[c]))
}

/// Soundness of the memo table survives extra fuel.
pub proof fn lemma_mem_inv_mono(
    s: Seq<Model>,
    t: Seq<(String, i64)>,
    mem: Seq<(u64, i64)>,
    b1: nat,
    b2: nat,
)
    requires
        mem_inv(s, t, mem, b1),
        b1 <= b2,
    ensures
        mem_inv(s, t, mem, b2),
{
    assert forall|p: int|
        #![trigger mem[p]]
        0 <= p < mem.len() implies eval_spec(s, t, mem[p].0, b2) == Some(mem[p].1) by {
        lemma_eval_mono(s, t, mem[p].0, b1, b2);
    }
}

/// Anything reachable from a recorded id is itself recorded.
pub proof fn lemma_reach_in_mem(
    s: Seq<Model>,
    t: Seq<(String, i64)>,
    mem: Seq<(u64, i64)>,
    b: nat,
    src: u64,
    dst: u64,
    f: nat,
)
    requires
        mem_inv(s, t, mem, b),
        mem_has(mem, src),
        reaches(s, src, dst, f),
    ensures
        mem_has(mem, dst),
    decreases f,
{
    if src != dst {
        let c = choose|c: int|
            0 <= c < spec_children(model_of(s, src)).len() && reaches(
                s,
                spec_children(model_of(s, src))[c],
                dst,
                (f - 1) as nat,
            );
        let p = choose|p: int| 0 <= p < mem.len() && mem[p].0 == src;
        assert(mem_has(mem, spec_children(model_of(s, mem[p].0))[c]));
        lemma_reach_in_mem(s, t, mem, b, spec_children(model_of(s, src))[c], dst, (f - 1) as nat);
    }
}

/// Looks an id up in the memo table (first match).
fn mem_lookup(mem: &Vec<(u64, i64)>, id: u64) -> (r: Option<i64>)
    ensures
        match r {
            Option::Some(v) => exists|p: int| 0 <= p < mem@.len() && mem@[p] == (id, v),
            Option::None => !mem_has(mem@, id),
        },
{
    let n = mem.len();
    let mut i: usize = 0;
    while i < n
        invariant
            i <= n,
            n == mem@.len(),
            forall|j: int| 0 <= j < i ==> mem@[j].0 != id,
        decreases n - i,
    {
        if mem[i].0 == id {
            return Some(mem[i].1);
        }
        i = i + 1;
    }
    None
}

/// Looks a name up in the data table (first match).
pub fn lookup_value(table: &Vec<(String, i64)>, nm: &String) -> (r: Option<i64>)
    ensures
        r == table_lookup(table@, nm@),
{
    let n = table.len();
    let mut i: usize = 0;
    proof {
        assert(table@.skip(0) =~= table@);
    }
    while i < n
        invariant
            i <= n,
            n == table@.len(),
            table_lookup(table@, nm@) == table_lookup(table@.skip(i as int), nm@),
        decreases n - i,
    {
        proof {
            assert(table@.skip(i as int).drop_first() =~= table@.skip(i + 1));
            assert(table@.skip(i as int)[0] == table@[i as int]);
        }
        if table[i].0 == *nm {
            return Some(table[i].1);
        }
        i = i + 1;
    }
    proof {
        assert(table@.skip(n as int).len() == 0);
    }
    None
}

/// Evaluates one item depth-first with memoization. The fuel cap bounds
/// the recursion against cyclic stores. The memo table only grows, stays
/// sound at the returned ghost fuel bound, gains only ids reachable from
/// `id`, and — on success — covers everything reachable from `id`.
#[verifier::rlimit(60)]
pub(crate) fn eval_node(
    models: &Vec<Model>,
    table: &Vec<(String, i64)>,
    mem: &mut Vec<(u64, i64)>,
    id: u64,
    fuel: u64,
    Ghost(b0): Ghost<nat>,
) -> (r: (Result<i64, EngineError>, Ghost<nat>))
    requires
        ids_unique(models@),
        children_closed(models@),
        mem_inv(models@, table@, old(mem)@, b0),
        forall|j: int|
            0 <= j < models@.len() && (#[trigger] models@[j]).expand_info is None ==> mem_has(
                old(mem)@,
                models@[j].id,
            ),
    ensures
        r.1@ >= b0,
        final(mem)@.len() >= old(mem)@.len(),
        forall|p: int| 0 <= p < old(mem)@.len() ==> final(mem)@[p] == old(mem)@[p],
        mem_inv(models@, table@, final(mem)@, r.1@),
        forall|j: int|
            0 <= j < models@.len() && (#[trigger] models@[j]).expand_info is None ==> mem_has(
                final(mem)@,
                models@[j].id,
            ),
        forall|p: int|
            old(mem)@.len() <= p < final(mem)@.len() ==> reaches(
                models@,
                id,
                (#[trigger] final(mem)@[p]).0,
                fuel as nat,
            ),
        forall|f: nat|
            f <= fuel && eval_spec(models@, table@, id, f) is Some ==> r.0 == Result::<
                i64,
                EngineError,
            >::Ok(eval_spec(models@, table@, id, f).unwrap()),
        r.0 is Ok ==> mem_has(final(mem)@, id) && eval_spec(models@, table@, id, r.1@) == Some(
            r.0.unwrap(),
        ),
        r.0 is Ok ==> forall|dst: u64, f: nat|
            reaches(models@, id, dst, f) ==> mem_has(final(mem)@, dst),
        match r.0 {
            Result::Err(e) => e is Corrupt || e is NotFound || e is UnsetAlgorithm
                || e is Overflow,
            Result::Ok(_) => true,
        },
    decreases fuel,
{
    let ghost s = models@;
    let ghost t = table@;
    if fuel == 0 {
        return (Err(EngineError::Corrupt), Ghost(b0));
    }
    match mem_lookup(mem, id) {
        Some(v) => {
            proof {
                let p = choose|p: int| 0 <= p < mem@.len() && mem@[p] == (id, v);
                assert(eval_spec(s, t, id, b0) == Some(v));
                assert forall|f: nat|
                    f <= fuel && eval_spec(s, t, id, f) is Some implies Result::<
                    i64,
                    EngineError,
                >::Ok(v) == Result::<i64, EngineError>::Ok(
                    eval_spec(s, t, id, f).unwrap(),
                ) by {
                    lemma_eval_deterministic(s, t, id, b0, f);
                }
                assert(mem_has(mem@, id)) by {
                    assert(mem@[p].0 == id);
                }
                assert forall|dst: u64, f: nat| reaches(s, id, dst, f) implies mem_has(
                    mem@,
                    dst,
                ) by {
                    lemma_reach_in_mem(s, t, mem@, b0, id, dst, f);
                }
            }
            return (Ok(v), Ghost(b0));
        },
        None => {},
    }
    let k = match crate::store::find_index(models, id) {
        Some(k) => k,
        None => {
            return (Err(EngineError::NotFound(id)), Ghost(b0));
        },
    };
    proof {
        let ki = index_of_id(s, id);
        assert(0 <= ki < s.len() && s[ki].id == id);
        assert(ki == k);
        assert(model_of(s, id) == s[k as int]);
    }
    let (alg, n_ch) = match &models[k].expand_info {
        None => {
            // Every leaf was recorded up front, so the lookup above hit.
            proof {
                assert(mem_has(mem@, s[k as int].id));
                assert(false);
            }
            return (Err(EngineError::MissingData(models[k].name.clone())), Ghost(b0));
        },
        Some(e) => {
            if match e.algorithm {
                Algorithm::Unset => true,
                _ => false,
            } {
                return (Err(EngineError::UnsetAlgorithm(id)), Ghost(b0));
            }
            (e.algorithm, e.children.len())
        },
    };
    let ghost ch = spec_children(s[k as int]);
    let ghost mem0 = mem@;
    let mut vals: Vec<i64> = Vec::new();
    let ghost mut b: nat = b0;
    let mut c: usize = 0;
    while c < n_ch
        invariant
            0 < fuel,
            ids_unique(s),
            children_closed(s),
            s == models@,
            t == table@,
            contains_id(s, id),
            0 <= index_of_id(s, id) < s.len(),
            k == index_of_id(s, id),
            k < s.len(),
            s[k as int].expand_info is Some,
            spec_children(s[k as int]) == ch,
            model_of(s, id).id == id,
            spec_children(model_of(s, id)) == ch,
            model_of(s, id).expand_info is Some,
            model_of(s, id).expand_info.unwrap().algorithm == alg,
            alg != Algorithm::Unset,
            c <= n_ch,
            n_ch == ch.len(),
            vals@.len() == c,
            mem0 == old(mem)@,
            b >= b0,
            mem@.len() >= mem0.len(),
            forall|p: int| 0 <= p < mem0.len() ==> mem@[p] == mem0[p],
            mem_inv(s, t, mem@, b),
            forall|j: int|
                0 <= j < s.len() && (#[trigger] s[j]).expand_info is None ==> mem_has(
                    mem@,
                    s[j].id,
                ),
            forall|p: int|
                mem0.len() <= p < mem@.len() ==> reaches(s, id, (#[trigger] mem@[p]).0, fuel as nat),
            forall|u: int| 0 <= u < c ==> eval_spec(s, t, #[trigger] ch[u], b) == Some(vals@[u]),
            forall|u: int, f: nat|
                0 <= u < c && f <= fuel - 1 && #[trigger] eval_spec(s, t, ch[u], f) is Some
                    ==> eval_spec(s, t, ch[u], f) == Some(vals@[u]),
            forall|u: int| 0 <= u < c ==> mem_has(mem@, #[trigger] ch[u]),
        decreases n_ch - c,
    {
        let cid = match &models[k].expand_info {
            Some(e) => e.children[c],
            None => {
                proof {
                    assert(false);
                }
                return (Err(EngineError::Corrupt), Ghost(b));
            },
        };
        proof {
            assert(cid == ch[c as int]);
        }
        let ghost mem_before = mem@;
        let ghost b_before = b;
        let (res, gb) = eval_node(models, table, mem, cid, fuel - 1, Ghost(b));
        proof {
            b = gb@;
        }
        let v = match res {
            Ok(v) => v,
            Err(e) => {
                proof {
                    assert forall|p: int|
                        mem0.len() <= p < mem@.len() implies reaches(
                        s,
                        id,
                        (#[trigger] mem@[p]).0,
                        fuel as nat,
                    ) by {
                        if p < mem_before.len() {
                        } else {
                            assert(reaches(s, cid, mem@[p].0, (fuel - 1) as nat));
                            assert(reaches(s, id, mem@[p].0, fuel as nat)) by {
                                assert(spec_children(model_of(s, id))[c as int] == cid);
                            }
                        }
                    }
                    assert forall|f: nat|
                        f <= fuel && eval_spec(s, t, id, f) is Some implies false by {
                        let vals_f = eval_list(s, t, ch, (f - 1) as nat);
                        assert(vals_f is Some);
                        lemma_eval_list_member(s, t, ch, (f - 1) as nat, c as int);
                    }
                }
                return (Err(e), Ghost(b));
            },
        };
        vals.push(v);
        proof {
            assert forall|u: int| 0 <= u < c + 1 implies eval_spec(s, t, #[trigger] ch[u], b)
                == Some(vals@[u]) by {
                if u < c {
                    lemma_eval_mono(s, t, ch[u], b_before, b);
                }
            }
            assert forall|u: int| 0 <= u < c + 1 implies mem_has(mem@, #[trigger] ch[u]) by {
                if u < c {
                    assert(mem_has(mem_before, ch[u]));
                    let w = choose|w: int| 0 <= w < mem_before.len() && mem_before[w].0 == ch[u];
                    assert(mem@[w].0 == ch[u]);
                }
            }
            assert forall|p: int|
                mem0.len() <= p < mem@.len() implies reaches(
                s,
                id,
                (#[trigger] mem@[p]).0,
                fuel as nat,
            ) by {
                if p < mem_before.len() {
                } else {
                    assert(reaches(s, cid, mem@[p].0, (fuel - 1) as nat));
                    assert(reaches(s, id, mem@[p].0, fuel as nat)) by {
                        assert(spec_children(model_of(s, id))[c as int] == cid);
                    }
                }
            }
        }
        c = c + 1;
    }
    let v = match alg.calculate(&vals) {
        Some(v) => v,
        None => {
            proof {
                assert forall|f: nat|
                    f <= fuel && eval_spec(s, t, id, f) is Some implies false by {
                    let fl = eval_list(s, t, ch, (f - 1) as nat);
                    assert(fl is Some);
                    lemma_eval_list_agrees(s, t, ch, vals@, (f - 1) as nat);
                    assert(reduce_ok(alg, vals@));
                }
            }
            return (Err(EngineError::Overflow), Ghost(b));
        },
    };
    let ghost mem_pre_push = mem@;
    mem.push((id, v));
    proof {
        // The new entry is itself the evaluation at one step past the
        // children's common fuel bound.
        lemma_eval_list_of(s, t, ch, vals@, b);
        assert(eval_spec(s, t, id, b + 1) == Some(v));
        lemma_mem_inv_mono(s, t, mem_pre_push, b, (b + 1) as nat);
        assert forall|p: int|
            #![trigger mem@[p]]
            0 <= p < mem@.len() implies eval_spec(s, t, mem@[p].0, (b + 1) as nat) == Some(
            mem@[p].1,
        ) by {
            if p < mem_pre_push.len() {
                assert(mem@[p] == mem_pre_push[p]);
            } else {
                assert(mem@[p] == (id, v));
            }
        }
        assert forall|y: u64| mem_has(mem_pre_push, y) implies mem_has(mem@, y) by {
            let w = choose|w: int| 0 <= w < mem_pre_push.len() && mem_pre_push[w].0 == y;
            assert(mem@[w].0 == y);
        }
        assert forall|p: int, cc: int|
            0 <= p < mem@.len() && 0 <= cc < spec_children(
                model_of(s, (#[trigger] mem@[p]).0),
            ).len() implies mem_has(
            mem@,
            #[trigger] spec_children(model_of(s, mem@[p].0))[cc],
        ) by {
            if p < mem_pre_push.len() {
                assert(mem_has(mem_pre_push, spec_children(model_of(s, mem_pre_push[p].0))[cc]));
            } else {
                assert(mem@[p].0 == id);
                assert(mem_has(mem_pre_push, spec_children(model_of(s, id))[cc]));
            }
        }
        b = (b + 1) as nat;
        assert(mem_inv(s, t, mem@, b));
        assert(mem_has(mem@, id)) by {
            assert(mem@[mem@.len() - 1].0 == id);
        }
        assert forall|p: int|
            mem0.len() <= p < mem@.len() implies reaches(
            s,
            id,
            (#[trigger] mem@[p]).0,
            fuel as nat,
        ) by {
            if p < mem_pre_push.len() {
            } else {
                assert(mem@[p].0 == id);
            }
        }
        assert forall|f: nat|
            f <= fuel && eval_spec(s, t, id, f) is Some implies Result::<i64, EngineError>::Ok(v)
                == Result::<i64, EngineError>::Ok(eval_spec(s, t, id, f).unwrap()) by {
            lemma_eval_deterministic(s, t, id, b, f);
        }
        assert forall|dst: u64, f: nat| reaches(s, id, dst, f) implies mem_has(mem@, dst) by {
            lemma_reach_in_mem(s, t, mem@, b, id, dst, f);
        }
    }
    (Ok(v), Ghost(b))
}

/// Whether the table supplies a value for every current leaf name.
pub open spec fn leaves_covered(s: Seq<Model>, t: Seq<(String, i64)>) -> bool {
    forall|j: int|
        0 <= j < s.len() && (#[trigger] s[j]).expand_info is None ==> table_lookup(
            t,
            s[j].name@,
        ) is Some
}

/// All composite items reachable from the root carry their evaluation at
/// the common fuel `bound` in `post_models`.
pub open spec fn values_at(
    s: Seq<Model>,
    t: Seq<(String, i64)>,
    post_models: Seq<Model>,
    bound: nat,
) -> bool {
    forall|i: int, f: nat|
        0 <= i < s.len() && (#[trigger] s[i]).expand_info is Some && #[trigger] reaches(
            s,
            0,
            s[i].id,
            f,
        ) ==> eval_spec(s, t, s[i].id, bound) is Some && post_models[i].value == Some(
            eval_spec(s, t, s[i].id, bound).unwrap(),
        )
}

/// The calculation contract. On success the run was total: every leaf got
/// its table value, every composite reachable from the root got its
/// evaluation (all at one common fuel bound), and nothing else changed —
/// in particular, a composite's value only changes if the root reaches it
/// within the iteration cap. On failure the store is untouched.
pub open spec fn calc_post(
    pre: TreeModel,
    post: TreeModel,
    t: Seq<(String, i64)>,
    r: Result<(), EngineError>,
) -> bool {
    let s = pre.models@;
    (match r {
        Result::Ok(()) => post.counter == pre.counter && post.root_name@ == pre.root_name@
            && post.models@.len() == s.len() && (forall|i: int|
            0 <= i < s.len() ==> crate::store::same_except_value(
                #[trigger] post.models@[i],
                s[i],
            )) && leaves_covered(s, t) && (forall|i: int|
            0 <= i < s.len() && (#[trigger] s[i]).expand_info is None ==> post.models@[i].value
                == Some(table_lookup(t, s[i].name@).unwrap())) && (exists|bound: nat| #[trigger] values_at(s, t, post.models@, bound)) && (forall|i: int|
            0 <= i < s.len() && (#[trigger] s[i]).expand_info is Some ==> post.models@[i].value
                == s[i].value || reaches(s, 0, s[i].id, 10000)),
        Result::Err(e) => post == pre && (match e {
            EngineError::MissingData(nm) => exists|j: int|
                0 <= j < s.len() && (#[trigger] s[j]).expand_info is None && s[j].name@ == nm@
                    && table_lookup(t, s[j].name@) is None,
            EngineError::Corrupt => true,
            EngineError::NotFound(_) => true,
            EngineError::UnsetAlgorithm(_) => true,
            EngineError::Overflow => true,
            _ => false,
        }),
    }) && (leaves_covered(s, t) && eval_spec(s, t, 0, 10000) is Some ==> r is Ok)
}

/// Store invariants survive changes that touch only the `value` fields.
proof fn lemma_inv_value_only(pre: TreeModel, post: TreeModel)
    requires
        pre.inv(),
        post.counter == pre.counter,
        post.models@.len() == pre.models@.len(),
        forall|j: int|
            0 <= j < pre.models@.len() ==> crate::store::same_except_value(
                #[trigger] post.models@[j],
                pre.models@[j],
            ),
    ensures
        post.inv(),
{
    let s = pre.models@;
    let fin = post.models@;
    let n = s.len() as int;
    assert forall|x: u64| occurrences(fin, x) == occurrences(s, x) by {
        assert forall|j: int|
            0 <= j < n implies crate::store::count_in(
            spec_children(#[trigger] fin[j]),
            x,
        ) == crate::store::count_in(spec_children(s[j]), x) by {
            assert(spec_children(fin[j]) == spec_children(s[j]));
        }
        crate::store::lemma_occ_upto_congruent(fin, s, x, n);
    }
    assert forall|a: int, b: int| 0 <= a < b < n implies fin[a].id != fin[b].id && fin[a].name@
        != fin[b].name@ by {
        assert(fin[a].id == s[a].id && fin[b].id == s[b].id);
        assert(fin[a].name@ == s[a].name@ && fin[b].name@ == s[b].name@);
    }
    assert forall|i: int, j: int|
        0 <= i < n && 0 <= j < spec_children(fin[i]).len() implies contains_id(
        fin,
        #[trigger] spec_children(fin[i])[j],
    ) by {
        assert(spec_children(fin[i]) == spec_children(s[i]));
        assert(contains_id(s, spec_children(s[i])[j]));
        let w = choose|w: int| 0 <= w < n && s[w].id == spec_children(s[i])[j];
        assert(fin[w].id == spec_children(s[i])[j]);
    }
    assert(contains_id(fin, 0)) by {
        let w = choose|w: int| 0 <= w < n && s[w].id == 0;
        assert(fin[w].id == 0);
    }
    assert forall|i: int| 0 <= i < n implies fin[i].id < post.counter by {
        assert(fin[i].id == s[i].id);
    }
    assert forall|i: int| 0 <= i < n implies fin[i].ref_count == occurrences(
        fin,
        #[trigger] fin[i].id,
    ) by {
        assert(fin[i].ref_count == s[i].ref_count && fin[i].id == s[i].id);
    }
}

/// Runs the aggregation: checks the table covers every leaf, evaluates the
/// root depth-first with memoization under the iteration cap, and — only
/// if the whole walk succeeds — writes every memoized value back.
#[verifier::rlimit(60)]
pub fn request_calculate(tm: &mut TreeModel, data: &FileData) -> (r: Result<(), EngineError>)
    requires
        old(tm).inv(),
    ensures
        final(tm).inv(),
        r is Err ==> *final(tm) == *old(tm),
        calc_post(*old(tm), *final(tm), data@, r),
{
    let ghost pre = *tm;
    let ghost s = tm.models@;
    let ghost t = data@;
    let n = tm.models.len();
    let mut mem: Vec<(u64, i64)> = Vec::new();
    let mut i: usize = 0;
    while i < n
        invariant
            *tm == pre,
            pre.inv(),
            i <= n,
            n == s.len(),
            s == tm.models@,
            t == data@,
            mem_inv(s, t, mem@, 1),
            forall|j: int|
                0 <= j < i && (#[trigger] s[j]).expand_info is None ==> mem_has(mem@, s[j].id)
                    && table_lookup(t, s[j].name@) is Some,
            forall|p: int|
                0 <= p < mem@.len() ==> model_of(s, (#[trigger] mem@[p]).0).expand_info is None,
        decreases n - i,
    {
        let ghost mem_pre = mem@;
        match &tm.models[i].expand_info {
            None => {
                let v = match lookup_value(data, &tm.models[i].name) {
                    None => {
                        return Err(EngineError::MissingData(tm.models[i].name.clone()));
                    },
                    Some(v) => v,
                };
                let iid = tm.models[i].id;
                mem.push((iid, v));
                proof {
                    let ki = index_of_id(s, iid);
                    assert(0 <= ki < s.len() && s[ki].id == iid) by {
                        assert(s[i as int].id == iid);
                    }
                    assert(ki == i);
                    assert(model_of(s, iid) == s[i as int]);
                    assert(eval_spec(s, t, iid, 1) == Some(v)) by {
                        assert(contains_id(s, iid)) by {
                            assert(s[i as int].id == iid);
                        }
                    }
                    assert forall|p: int|
                        #![trigger mem@[p]]
                        0 <= p < mem@.len() implies eval_spec(s, t, mem@[p].0, 1) == Some(
                        mem@[p].1,
                    ) by {
                        if p < mem_pre.len() {
                            assert(mem@[p] == mem_pre[p]);
                        }
                    }
                    assert forall|p: int, cc: int|
                        0 <= p < mem@.len() && 0 <= cc < spec_children(
                            model_of(s, (#[trigger] mem@[p]).0),
                        ).len() implies mem_has(
                        mem@,
                        #[trigger] spec_children(model_of(s, mem@[p].0))[cc],
                    ) by {
                        assert(model_of(s, mem@[p].0).expand_info is None);
                    }
                    assert forall|j: int|
                        0 <= j < i + 1 && (#[trigger] s[j]).expand_info is None implies mem_has(
                        mem@,
                        s[j].id,
                    ) by {
                        if j < i {
                            assert(mem_has(mem_pre, s[j].id));
                            let w = choose|w: int| 0 <= w < mem_pre.len() && mem_pre[w].0 == s[j].id;
                            assert(mem@[w].0 == s[j].id);
                        } else {
                            assert(mem@[mem@.len() - 1].0 == s[j].id);
                        }
                    }
                }
            },
            Some(_) => {},
        }
        i = i + 1;
    }
    let (res, gb) = eval_node(&tm.models, data, &mut mem, 0, 10000, Ghost(1nat));
    let ghost b = gb@;
    match res {
        Err(e) => {
            proof {
                assert(leaves_covered(s, t));
                if eval_spec(s, t, 0, 10000) is Some {
                    assert(res == Result::<i64, EngineError>::Ok(
                        eval_spec(s, t, 0, 10000).unwrap(),
                    ));
                }
            }
            return Err(e);
        },
        Ok(_) => {},
    }
    let ghost memv = mem@;
    let ghost n0 = memv.len();
    let mut i: usize = 0;
    while i < n
        invariant
            i <= n,
            n == s.len(),
            pre.inv(),
            tm.counter == pre.counter,
            tm.root_name@ == pre.root_name@,
            tm.models@.len() == n,
            t == data@,
            memv == mem@,
            mem_inv(s, t, memv, b),
            forall|j: int|
                0 <= j < s.len() && (#[trigger] s[j]).expand_info is None ==> mem_has(
                    memv,
                    s[j].id,
                ) && table_lookup(t, s[j].name@) is Some,
            forall|dst: u64, f: nat| reaches(s, 0, dst, f) ==> mem_has(memv, dst),
            forall|p: int|
                0 <= p < memv.len() ==> model_of(s, (#[trigger] memv[p]).0).expand_info is None
                    || reaches(s, 0, memv[p].0, 10000),
            forall|j: int| i <= j < n ==> tm.models@[j] == s[j],
            forall|j: int|
                0 <= j < i ==> crate::store::same_except_value(#[trigger] tm.models@[j], s[j]),
            forall|j: int|
                0 <= j < i ==> ((#[trigger] tm.models@[j]).value == (if mem_has(memv, s[j].id) {
                    Option::Some(mem_value(memv, s[j].id))
                } else {
                    s[j].value
                })),
        decreases n - i,
    {
        let iid = tm.models[i].id;
        proof {
            assert(tm.models@[i as int] == s[i as int]);
        }
        match mem_lookup(&mem, iid) {
            Some(v) => {
                tm.models[i].value = Some(v);
                proof {
                    let w = choose|w: int| 0 <= w < memv.len() && memv[w] == (iid, v);
                    lemma_mem_value_agrees(s, t, memv, b, iid, v, w);
                }
            },
            None => {},
        }
        i = i + 1;
    }
    proof {
        lemma_inv_value_only(pre, *tm);
        let fin = tm.models@;
        // Leaves got their table values.
        assert forall|j: int|
            0 <= j < n && (#[trigger] s[j]).expand_info is None implies fin[j].value == Some(
            table_lookup(t, s[j].name@).unwrap(),
        ) by {
            let w = choose|w: int| 0 <= w < memv.len() && memv[w].0 == s[j].id;
            assert(mem_value(memv, s[j].id) == memv[w].1);
            assert(eval_spec(s, t, memv[w].0, b) == Some(memv[w].1));
            assert(contains_id(s, s[j].id)) by {
                assert(s[j].id == s[j].id);
            }
            let ki = index_of_id(s, s[j].id);
            assert(0 <= ki < s.len() && s[ki].id == s[j].id);
            assert(ki == j);
            assert(model_of(s, s[j].id) == s[j]);
            assert(b >= 1);
            assert(eval_spec(s, t, s[j].id, b) == table_lookup(t, s[j].name@));
        }
        // Reachable composites got their evaluations at the final bound.
        assert forall|i2: int, f: nat|
            0 <= i2 < n && (#[trigger] s[i2]).expand_info is Some && #[trigger] reaches(
                s,
                0,
                s[i2].id,
                f,
            ) implies eval_spec(s, t, s[i2].id, b) is Some && fin[i2].value == Some(
            eval_spec(s, t, s[i2].id, b).unwrap(),
        ) by {
            assert(mem_has(memv, s[i2].id));
            let w = choose|w: int| 0 <= w < memv.len() && memv[w].0 == s[i2].id;
            assert(mem_value(memv, s[i2].id) == memv[w].1);
            assert(eval_spec(s, t, memv[w].0, b) == Some(memv[w].1));
        }
        assert(values_at(s, t, fin, b));
        // Untouched composites were unreachable within the cap.
        assert forall|i2: int|
            0 <= i2 < n && (#[trigger] s[i2]).expand_info is Some implies fin[i2].value
                == s[i2].value || reaches(s, 0, s[i2].id, 10000) by {
            if mem_has(memv, s[i2].id) {
                let w = choose|w: int| 0 <= w < memv.len() && memv[w].0 == s[i2].id;
                assert(contains_id(s, s[i2].id)) by {
                    assert(s[i2].id == s[i2].id);
                }
                let ki = index_of_id(s, s[i2].id);
                assert(ki == i2);
                assert(model_of(s, s[i2].id) == s[i2]);
                assert(reaches(s, 0, memv[w].0, 10000));
            }
        }
    }
    Ok(())
}

/// The value the memo table records for `id` (meaningful when present).
pub open spec fn mem_value(mem: Seq<(u64, i64)>, id: u64) -> i64 {
    let w = choose|w: int| 0 <= w < mem.len() && mem[w].0 == id;
    mem[w].1
}

/// Any entry for `id` carries the recorded value: under a sound memo
/// table all entries for one id agree, so the witness choice is
/// immaterial.
proof fn lemma_mem_value_agrees(
    s: Seq<Model>,
    t: Seq<(String, i64)>,
    mem: Seq<(u64, i64)>,
    b: nat,
    id: u64,
    v: i64,
    w: int,
)
    requires
        mem_inv(s, t, mem, b),
        0 <= w < mem.len(),
        mem[w] == (id, v),
    ensures
        mem_has(mem, id),
        mem_value(mem, id) == v,
{
    assert(mem_has(mem, id)) by {
        assert(mem[w].0 == id);
    }
    let w2 = choose|p: int| 0 <= p < mem.len() && mem[p].0 == id;
    assert(0 <= w2 < mem.len() && mem[w2].0 == id);
    assert(eval_spec(s, t, mem[w2].0, b) == Some(mem[w2].1));
    assert(eval_spec(s, t, mem[w].0, b) == Some(mem[w].1));
}

/// Returns the computed values of the requested items, keyed by the
/// decimal rendering of each id. Every requested item must exist and have
/// a computed value.
pub fn query_values(tm: &TreeModel, ids: &Vec<u64>) -> (r: Result<
    crate::messages::QueryValuesResponse,
    EngineError,
>)
    requires
        tm.inv(),
    ensures
        match r {
            Result::Ok(resp) => resp.values@.len() == ids@.len() && (forall|j: int|
                0 <= j < ids@.len() ==> contains_id(tm.models@, #[trigger] ids@[j]) && model_of(
                    tm.models@,
                    ids@[j],
                ).value is Some && resp.values@[j].0@ == crate::decimal::dec_seq(ids@[j] as nat)
                    && resp.values@[j].1 == model_of(tm.models@, ids@[j]).value.unwrap()),
            Result::Err(e) => match e {
                EngineError::NotFound(x) => ids@.contains(x) && !contains_id(tm.models@, x),
                EngineError::ValueNotComputed(x) => ids@.contains(x) && contains_id(tm.models@, x)
                    && model_of(tm.models@, x).value is None,
                _ => false,
            },
        },
        (forall|j: int|
            0 <= j < ids@.len() ==> contains_id(tm.models@, #[trigger] ids@[j]) && model_of(
                tm.models@,
                ids@[j],
            ).value is Some) ==> r is Ok,
{
    let ghost s = tm.models@;
    let n = ids.len();
    let mut values: Vec<(String, i64)> = Vec::new();
    let mut j: usize = 0;
    while j < n
        invariant
            tm.inv(),
            s == tm.models@,
            j <= n,
            n == ids@.len(),
            values@.len() == j,
            forall|u: int|
                0 <= u < j ==> contains_id(s, #[trigger] ids@[u]) && model_of(
                    s,
                    ids@[u],
                ).value is Some && values@[u].0@ == crate::decimal::dec_seq(ids@[u] as nat)
                    && values@[u].1 == model_of(s, ids@[u]).value.unwrap(),
        decreases n - j,
    {
        let id = ids[j];
        let k = match crate::store::find_index(&tm.models, id) {
            Some(k) => k,
            None => {
                proof {
                    assert(ids@.contains(id)) by {
                        assert(ids@[j as int] == id);
                    }
                }
                return Err(EngineError::NotFound(id));
            },
        };
        proof {
            let ki = index_of_id(s, id);
            assert(0 <= ki < s.len() && s[ki].id == id);
            assert(ki == k);
        }
        let v = match tm.models[k].value {
            Some(v) => v,
            None => {
                proof {
                    assert(ids@.contains(id)) by {
                        assert(ids@[j as int] == id);
                    }
                }
                return Err(EngineError::ValueNotComputed(id));
            },
        };
        values.push((crate::decimal::u64_to_string(id), v));
        j = j + 1;
    }
    Ok(crate::messages::QueryValuesResponse { values })
}

/// The names of the leaf items, in store order.
pub open spec fn leaf_names(s: Seq<Model>) -> Seq<Seq<char>>
    decreases s.len(),
{
    if s.len() == 0 {
        Seq::empty()
    } else {
        leaf_names(s.drop_last()) + (if s.last().expand_info is None {
            seq![s.last().name@]
        } else {
            Seq::empty()
        })
    }
}

/// Emits a data-table template: every current leaf name mapped to zero,
/// in store order.
pub fn request_template_generation(tm: &TreeModel) -> (r: FileData)
    ensures
        r@.len() == leaf_names(tm.models@).len(),
        forall|p: int|
            0 <= p < r@.len() ==> (#[trigger] r@[p]).0@ == leaf_names(tm.models@)[p] && r@[p].1
                == 0,
{
    let ghost s = tm.models@;
    let n = tm.models.len();
    let mut out: Vec<(String, i64)> = Vec::new();
    let mut i: usize = 0;
    while i < n
        invariant
            s == tm.models@,
            i <= n,
            n == s.len(),
            out@.len() == leaf_names(s.take(i as int)).len(),
            forall|p: int|
                0 <= p < out@.len() ==> (#[trigger] out@[p]).0@ == leaf_names(s.take(i as int))[p]
                    && out@[p].1 == 0,
        decreases n - i,
    {
        proof {
            assert(s.take(i + 1).drop_last() =~= s.take(i as int));
            assert(s.take(i + 1).last() == s[i as int]);
        }
        match &tm.models[i].expand_info {
            None => {
                out.push((tm.models[i].name.clone(), 0));
            },
            Some(_) => {},
        }
        i = i + 1;
    }
    proof {
        assert(s.take(n as int) =~= s);
    }
    out
}

/// If a list evaluates, each member evaluates.
proof fn lemma_eval_list_member(
    s: Seq<Model>,
    t: Seq<(String, i64)>,
    ids: Seq<u64>,
    fuel: nat,
    u: int,
)
    requires
        eval_list(s, t, ids, fuel) is Some,
        0 <= u < ids.len(),
    ensures
        eval_spec(s, t, ids[u], fuel) is Some,
    decreases u,
{
    if u > 0 {
        assert(ids.drop_first()[u - 1] == ids[u]);
        lemma_eval_list_member(s, t, ids.drop_first(), fuel, u - 1);
    }
}

/// A successful list evaluation returns exactly the values the members
/// evaluate to.
proof fn lemma_eval_list_agrees(
    s: Seq<Model>,
    t: Seq<(String, i64)>,
    ids: Seq<u64>,
    vals: Seq<i64>,
    fuel: nat,
)
    requires
        eval_list(s, t, ids, fuel) is Some,
        ids.len() == vals.len(),
        forall|u: int, f: nat|
            0 <= u < ids.len() && f <= fuel && #[trigger] eval_spec(s, t, ids[u], f) is Some
                ==> eval_spec(s, t, ids[u], f) == Some(vals[u]),
    ensures
        eval_list(s, t, ids, fuel) == Some(vals),
{
    assert forall|u: int| 0 <= u < ids.len() implies eval_spec(s, t, #[trigger] ids[u], fuel)
        == Some(vals[u]) by {
        lemma_eval_list_member(s, t, ids, fuel, u);
    }
    lemma_eval_list_of(s, t, ids, vals, fuel);
}

} // verus!
