//! The five-way reduction enumeration and its evaluation function over a
//! sequence of numbers, together with the fixed string-label table used by
//! the document format.

use vstd::prelude::*;

verus! {

/// The reduction assigned to a composite item. `Unset` is the "no reduction
/// chosen" default; evaluating an item whose reduction is `Unset` is an
/// error at the aggregation layer.
#[derive(Clone, Copy, Debug, PartialEq, Eq, Structural)]
pub enum Algorithm {
    Unset,
    Sum,
    Product,
    Average,
    Max,
    Min,
}

impl Default for Algorithm {
    fn default() -> (r: Self)
        ensures
            r == Algorithm::Unset,
    {
        Algorithm::Unset
    }
}

/// Mathematical sum of a sequence of machine integers.
pub open spec fn sum_seq(s: Seq<i64>) -> int
    decreases s.len(),
{
    if s.len() == 0 {
        0
    } else {
        sum_seq(s.drop_last()) + s.last()
    }
}

/// Mathematical product of a sequence of machine integers (empty product is 1).
pub open spec fn prod_seq(s: Seq<i64>) -> int
    decreases s.len(),
{
    if s.len() == 0 {
        1
    } else {
        prod_seq(s.drop_last()) * s.last()
    }
}

/// Largest element of a non-empty sequence; 0 for the empty sequence.
pub open spec fn max_seq(s: Seq<i64>) -> int
    decreases s.len(),
{
    if s.len() == 0 {
        0
    } else if s.len() == 1 {
        s[0] as int
    } else {
        let m = max_seq(s.drop_last());
        if s.last() as int > m {
            s.last() as int
        } else {
            m
        }
    }
}

/// Smallest element of a non-empty sequence; 0 for the empty sequence.
pub open spec fn min_seq(s: Seq<i64>) -> int
    decreases s.len(),
{
    if s.len() == 0 {
        0
    } else if s.len() == 1 {
        s[0] as int
    } else {
        let m = min_seq(s.drop_last());
        if (s.last() as int) < m {
            s.last() as int
        } else {
            m
        }
    }
}

pub open spec fn i64_in_range(v: int) -> bool {
    i64::MIN <= v <= i64::MAX
}

/// Every prefix sum stays within the machine range, so a left-to-right
/// checked summation succeeds.
pub open spec fn sum_prefixes_ok(s: Seq<i64>) -> bool {
    forall|i: int| 0 <= i <= s.len() ==> i64_in_range(sum_seq(#[trigger] s.take(i)))
}

/// Every prefix product stays within the machine range, so a left-to-right
/// checked multiplication succeeds.
pub open spec fn prod_prefixes_ok(s: Seq<i64>) -> bool {
    forall|i: int| 0 <= i <= s.len() ==> i64_in_range(prod_seq(#[trigger] s.take(i)))
}

/// The mathematical value of a reduction applied to a sequence, in
/// child-list order. Average uses Euclidean division; the empty sequence
/// yields the documented identity of each reduction.
pub open spec fn reduce_spec(alg: Algorithm, s: Seq<i64>) -> int {
    match alg {
        Algorithm::Unset => 0,
        Algorithm::Sum => sum_seq(s),
        Algorithm::Product => prod_seq(s),
        Algorithm::Average => if s.len() == 0 {
            0
        } else {
            sum_seq(s) / (s.len() as int)
        },
        Algorithm::Max => max_seq(s),
        Algorithm::Min => min_seq(s),
    }
}

/// Whether evaluating `alg` over `s` with checked machine arithmetic
/// succeeds (no intermediate or final value leaves the `i64` range).
pub open spec fn reduce_ok(alg: Algorithm, s: Seq<i64>) -> bool {
    match alg {
        Algorithm::Unset => true,
        Algorithm::Sum => sum_prefixes_ok(s),
        Algorithm::Product => prod_prefixes_ok(s),
        Algorithm::Average => sum_prefixes_ok(s) && i64_in_range(reduce_spec(alg, s)),
        Algorithm::Max => true,
        Algorithm::Min => true,
    }
}

/// The fixed label table: one persisted string per reduction.
pub open spec fn spec_label(alg: Algorithm) -> Seq<char> {
    match alg {
        Algorithm::Unset => "None"@,
        Algorithm::Sum => "Sum"@,
        Algorithm::Product => "Product"@,
        Algorithm::Average => "Average"@,
        Algorithm::Max => "Max"@,
        Algorithm::Min => "Min"@,
    }
}

/// Decoding of a persisted label; anything unrecognized decodes to `Unset`.
pub open spec fn spec_parse_label(s: Seq<char>) -> Algorithm {
    if s == "Sum"@ {
        Algorithm::Sum
    } else if s == "Product"@ {
        Algorithm::Product
    } else if s == "Average"@ {
        Algorithm::Average
    } else if s == "Max"@ {
        Algorithm::Max
    } else if s == "Min"@ {
        Algorithm::Min
    } else {
        Algorithm::Unset
    }
}

/// Labels round-trip: decoding the label of any reduction other than
/// `Unset` gives the reduction back, and `Unset`'s label decodes to `Unset`.
pub proof fn lemma_label_round_trip(alg: Algorithm)
    ensures
        spec_parse_label(spec_label(alg)) == alg,
{
    reveal_strlit("None");
    reveal_strlit("Sum");
    reveal_strlit("Product");
    reveal_strlit("Average");
    reveal_strlit("Max");
    reveal_strlit("Min");
    assert("Max"@[1] == 'a' && "Min"@[1] == 'i');
    assert("None"@.len() == 4 && "Sum"@.len() == 3 && "Product"@.len() == 7 && "Average"@.len()
        == 7 && "Max"@.len() == 3 && "Min"@.len() == 3);
    assert("Product"@[0] == 'P' && "Average"@[0] == 'A');
    assert("Sum"@[0] == 'S' && "Max"@[0] == 'M' && "Min"@[0] == 'M');
}

proof fn lemma_take_one_more(s: Seq<i64>, i: int)
    requires
        0 <= i < s.len(),
    ensures
        s.take(i + 1).drop_last() =~= s.take(i),
        s.take(i + 1).last() == s[i],
{
}

proof fn lemma_max_min_in_range(s: Seq<i64>)
    ensures
        i64_in_range(max_seq(s)),
        i64_in_range(min_seq(s)),
    decreases s.len(),
{
    if s.len() > 1 {
        lemma_max_min_in_range(s.drop_last());
    }
}

/// Left-to-right checked summation; `None` exactly when some prefix sum
/// leaves the `i64` range.
fn checked_sum(data: &Vec<i64>) -> (r: Option<i64>)
    ensures
        sum_prefixes_ok(data@) ==> r == Some(sum_seq(data@) as i64) && i64_in_range(
            sum_seq(data@),
        ),
        !sum_prefixes_ok(data@) ==> r is None,
{
    let n = data.len();
    let mut acc: i64 = 0;
    let mut i: usize = 0;
    loop
        invariant_except_break
            i <= n,
            n == data@.len(),
            acc == sum_seq(data@.take(i as int)),
            forall|j: int| 0 <= j <= i ==> i64_in_range(sum_seq(#[trigger] data@.take(j))),
        ensures
            sum_prefixes_ok(data@) ==> acc == sum_seq(data@) && i64_in_range(sum_seq(data@)),
            !sum_prefixes_ok(data@) ==> false,
        decreases n - i,
    {
        if i == n {
            proof {
                assert(data@.take(n as int) =~= data@);
            }
            break;
        }
        proof {
            lemma_take_one_more(data@, i as int);
        }
        match acc.checked_add(data[i]) {
            Some(v) => {
                acc = v;
            },
            None => {
                proof {
                    assert(!i64_in_range(sum_seq(data@.take(i + 1))));
                }
                return None;
            },
        }
        i = i + 1;
    }
    Some(acc)
}

/// Left-to-right checked product; `None` exactly when some prefix product
/// leaves the `i64` range.
fn checked_prod(data: &Vec<i64>) -> (r: Option<i64>)
    ensures
        prod_prefixes_ok(data@) ==> r == Some(prod_seq(data@) as i64) && i64_in_range(
            prod_seq(data@),
        ),
        !prod_prefixes_ok(data@) ==> r is None,
{
    let n = data.len();
    let mut acc: i64 = 1;
    let mut i: usize = 0;
    loop
        invariant_except_break
            i <= n,
            n == data@.len(),
            acc == prod_seq(data@.take(i as int)),
            forall|j: int| 0 <= j <= i ==> i64_in_range(prod_seq(#[trigger] data@.take(j))),
        ensures
            prod_prefixes_ok(data@) ==> acc == prod_seq(data@) && i64_in_range(prod_seq(data@)),
            !prod_prefixes_ok(data@) ==> false,
        decreases n - i,
    {
        if i == n {
            proof {
                assert(data@.take(n as int) =~= data@);
            }
            break;
        }
        proof {
            lemma_take_one_more(data@, i as int);
        }
        match acc.checked_mul(data[i]) {
            Some(v) => {
                acc = v;
            },
            None => {
                proof {
                    assert(!i64_in_range(prod_seq(data@.take(i + 1))));
                }
                return None;
            },
        }
        i = i + 1;
    }
    Some(acc)
}

/// Largest element (0 for an empty vector); never overflows.
fn max_of(data: &Vec<i64>) -> (r: i64)
    ensures
        r == max_seq(data@),
{
    let n = data.len();
    let mut acc: i64 = 0;
    let mut i: usize = 0;
    if n > 0 {
        acc = data[0];
        i = 1;
        proof {
            assert(data@.take(1) =~= seq![data@[0]]);
        }
    }
    while i < n
        invariant
            n == data@.len(),
            i <= n,
            n > 0 ==> 1 <= i && acc == max_seq(data@.take(i as int)),
            n == 0 ==> acc == 0,
        decreases n - i,
    {
        proof {
            lemma_take_one_more(data@, i as int);
            lemma_max_min_in_range(data@.take(i as int));
        }
        if data[i] > acc {
            acc = data[i];
        }
        i = i + 1;
    }
    proof {
        assert(data@.take(n as int) =~= data@);
    }
    acc
}

/// Smallest element (0 for an empty vector); never overflows.
fn min_of(data: &Vec<i64>) -> (r: i64)
    ensures
        r == min_seq(data@),
{
    let n = data.len();
    let mut acc: i64 = 0;
    let mut i: usize = 0;
    if n > 0 {
        acc = data[0];
        i = 1;
        proof {
            assert(data@.take(1) =~= seq![data@[0]]);
        }
    }
    while i < n
        invariant
            n == data@.len(),
            i <= n,
            n > 0 ==> 1 <= i && acc == min_seq(data@.take(i as int)),
            n == 0 ==> acc == 0,
        decreases n - i,
    {
        proof {
            lemma_take_one_more(data@, i as int);
            lemma_max_min_in_range(data@.take(i as int));
        }
        if data[i] < acc {
            acc = data[i];
        }
        i = i + 1;
    }
    proof {
        assert(data@.take(n as int) =~= data@);
    }
    acc
}

impl Algorithm {
    /// Evaluates the reduction over `data` in order, with checked machine
    /// arithmetic. Returns `None` exactly when an intermediate or final
    /// value would leave the `i64` range.
    pub fn calculate(&self, data: &Vec<i64>) -> (r: Option<i64>)
        ensures
            reduce_ok(*self, data@) ==> r == Some(reduce_spec(*self, data@) as i64)
                && i64_in_range(reduce_spec(*self, data@)),
            !reduce_ok(*self, data@) ==> r is None,
    {
        match self {
            Algorithm::Unset => Some(0),
            Algorithm::Sum => checked_sum(data),
            Algorithm::Product => checked_prod(data),
            Algorithm::Average => {
                let n = data.len();
                if n == 0 {
                    return Some(0);
                }
                let sum = match checked_sum(data) {
                    Some(v) => v,
                    None => {
                        return None;
                    },
                };
                let qe: i128 = match (sum as i128).checked_div_euclid(n as i128) {
                    Some(q) => q,
                    None => {
                        return None;
                    },
                };
                if qe >= i64::MIN as i128 && qe <= i64::MAX as i128 {
                    Some(qe as i64)
                } else {
                    None
                }
            },
            Algorithm::Max => Some(max_of(data)),
            Algorithm::Min => Some(min_of(data)),
        }
    }

    /// The fixed string label under which this reduction is persisted.
    pub fn to_label(&self) -> (r: String)
        ensures
            r@ == spec_label(*self),
    {
        match self {
            Algorithm::Unset => "None".to_owned(),
            Algorithm::Sum => "Sum".to_owned(),
            Algorithm::Product => "Product".to_owned(),
            Algorithm::Average => "Average".to_owned(),
            Algorithm::Max => "Max".to_owned(),
            Algorithm::Min => "Min".to_owned(),
        }
    }

    /// Decodes a persisted label; unrecognized labels decode to `Unset`.
    pub fn from_label(label: &str) -> (r: Algorithm)
        ensures
            r == spec_parse_label(label@),
    {
        let owned = label.to_owned();
        if owned == "Sum".to_owned() {
            Algorithm::Sum
        } else if owned == "Product".to_owned() {
            Algorithm::Product
        } else if owned == "Average".to_owned() {
            Algorithm::Average
        } else if owned == "Max".to_owned() {
            Algorithm::Max
        } else if owned == "Min".to_owned() {
            Algorithm::Min
        } else {
            Algorithm::Unset
        }
    }

    /// Picks the reduction that a uniform draw in `0..5` stands for; any
    /// other draw yields `Unset`.
    pub fn random(draw: u64) -> (r: Algorithm)
        ensures
            draw == 0 ==> r == Algorithm::Sum,
            draw == 1 ==> r == Algorithm::Product,
            draw == 2 ==> r == Algorithm::Average,
            draw == 3 ==> r == Algorithm::Max,
            draw == 4 ==> r == Algorithm::Min,
            draw >= 5 ==> r == Algorithm::Unset,
            draw < 5 ==> r != Algorithm::Unset,
    {
        match draw {
            0 => Algorithm::Sum,
            1 => Algorithm::Product,
            2 => Algorithm::Average,
            3 => Algorithm::Max,
            4 => Algorithm::Min,
            _ => Algorithm::Unset,
        }
    }
}

} // verus!
