use vstd::prelude::*;

verus! {

/// Sum of `vals[n]` over all `n` in `[0, upto)` that satisfy the predicate.
/// All the aggregate quantities of the library (core length, pangenome
/// length, per-genome length, total graph length) are instances of this sum.
pub open spec fn sum_where(vals: Seq<u64>, p: spec_fn(int) -> bool, upto: int) -> int
    decreases upto,
{
    if upto <= 0 {
        0
    } else {
        sum_where(vals, p, upto - 1) + if p(upto - 1) {
            vals[upto - 1] as int
        } else {
            0
        }
    }
}

/// Sum of every entry of `vals`.
pub open spec fn sum_all(vals: Seq<u64>) -> int {
    sum_where(vals, |n: int| true, vals.len() as int)
}

pub proof fn lemma_sum_where_nonneg(vals: Seq<u64>, p: spec_fn(int) -> bool, upto: int)
    requires
        upto <= vals.len(),
    ensures
        0 <= sum_where(vals, p, upto),
    decreases upto,
{
    if upto > 0 {
        lemma_sum_where_nonneg(vals, p, upto - 1);
    }
}

/// If one predicate implies another on the summed range, the sums compare.
pub proof fn lemma_sum_where_mono_pred(
    vals: Seq<u64>,
    p: spec_fn(int) -> bool,
    q: spec_fn(int) -> bool,
    upto: int,
)
    requires
        upto <= vals.len(),
        forall|m: int| 0 <= m < upto && #[trigger] p(m) ==> q(m),
    ensures
        sum_where(vals, p, upto) <= sum_where(vals, q, upto),
    decreases upto,
{
    if upto > 0 {
        lemma_sum_where_mono_pred(vals, p, q, upto - 1);
    }
}

/// Predicates that agree on the range give the same sum.
pub proof fn lemma_sum_where_same(
    vals: Seq<u64>,
    p: spec_fn(int) -> bool,
    q: spec_fn(int) -> bool,
    upto: int,
)
    requires
        forall|m: int| 0 <= m < upto ==> (#[trigger] p(m) <==> q(m)),
    ensures
        sum_where(vals, p, upto) == sum_where(vals, q, upto),
    decreases upto,
{
    if upto > 0 {
        lemma_sum_where_same(vals, p, q, upto - 1);
    }
}

/// The sum only grows as the range is extended.
pub proof fn lemma_sum_where_mono_upto(vals: Seq<u64>, p: spec_fn(int) -> bool, a: int, b: int)
    requires
        a <= b <= vals.len(),
    ensures
        sum_where(vals, p, a) <= sum_where(vals, p, b),
    decreases b - a,
{
    if a < b {
        lemma_sum_where_mono_upto(vals, p, a, b - 1);
    }
}

/// A span on which the predicate never holds contributes nothing.
pub proof fn lemma_sum_where_zero_span(vals: Seq<u64>, p: spec_fn(int) -> bool, a: int, b: int)
    requires
        a <= b,
        forall|m: int| a <= m < b ==> !(#[trigger] p(m)),
    ensures
        sum_where(vals, p, b) == sum_where(vals, p, a),
    decreases b - a,
{
    if a < b {
        lemma_sum_where_zero_span(vals, p, a, b - 1);
    }
}

/// A sum over a disjoint union of predicates splits into the two sums.
pub proof fn lemma_sum_where_disjoint(
    vals: Seq<u64>,
    p: spec_fn(int) -> bool,
    q: spec_fn(int) -> bool,
    r: spec_fn(int) -> bool,
    upto: int,
)
    requires
        forall|m: int| 0 <= m < upto ==> (#[trigger] r(m) <==> (p(m) || q(m))),
        forall|m: int| 0 <= m < upto ==> !(#[trigger] p(m) && q(m)),
    ensures
        sum_where(vals, r, upto) == sum_where(vals, p, upto) + sum_where(vals, q, upto),
    decreases upto,
{
    if upto > 0 {
        lemma_sum_where_disjoint(vals, p, q, r, upto - 1);
    }
}

} // verus!
