//! Axis-aligned boxes and the lower-bound argument behind box pruning: the
//! point of a box closest to a query is the query clamped into the box, so
//! the distance to the clamped point bounds the distance to every point
//! inside the box from below.

use vstd::prelude::*;

use crate::metric::{
    DistanceMetric, axis_term, bounded_row, clamped, dist, dist_cheb, dist_sum,
    lemma_axis_term_clamp,
};

verus! {

/// `row` lies inside the axis-aligned box `[lo, hi]`.
pub open spec fn in_box(row: Seq<i64>, lo: Seq<i64>, hi: Seq<i64>) -> bool {
    &&& row.len() == lo.len()
    &&& hi.len() == lo.len()
    &&& forall|a: int| 0 <= a < row.len() ==> lo[a] <= #[trigger] row[a] <= hi[a]
}

/// The query clamped into the box coordinate by coordinate.
pub open spec fn clamp_row(q: Seq<i64>, lo: Seq<i64>, hi: Seq<i64>) -> Seq<i64> {
    Seq::new(q.len(), |a: int| if q[a] < lo[a] { lo[a] } else if q[a] > hi[a] { hi[a] } else { q[a] })
}

/// Soundness of box pruning: the distance key from the query to its clamped
/// image is a lower bound on the key to every point inside the box.
pub proof fn lemma_box_bound(m: DistanceMetric, q: Seq<i64>, lo: Seq<i64>, hi: Seq<i64>, row: Seq<i64>)
    requires
        q.len() == lo.len(),
        in_box(row, lo, hi),
    ensures
        dist(m, q, clamp_row(q, lo, hi)) <= dist(m, q, row),
{
    lemma_box_bound_partial(m, q, lo, hi, row, q.len() as int);
}

/// Axis-by-axis form of the box lower bound.
pub proof fn lemma_box_bound_partial(
    m: DistanceMetric,
    q: Seq<i64>,
    lo: Seq<i64>,
    hi: Seq<i64>,
    row: Seq<i64>,
    i: int,
)
    requires
        q.len() == lo.len(),
        in_box(row, lo, hi),
        0 <= i <= q.len(),
    ensures
        dist_sum(m, q, clamp_row(q, lo, hi), i) <= dist_sum(m, q, row, i),
        dist_cheb(q, clamp_row(q, lo, hi), i) <= dist_cheb(q, row, i),
    decreases i,
{
    let c = clamp_row(q, lo, hi);
    if i > 0 {
        lemma_box_bound_partial(m, q, lo, hi, row, i - 1);
        lemma_axis_term_clamp(m, q[i - 1] as int, row[i - 1] as int, lo[i - 1] as int, hi[i - 1] as int);
        assert(c[i - 1] as int == clamped(q[i - 1] as int, lo[i - 1] as int, hi[i - 1] as int));
        assert(axis_term(m, q[i - 1] as int, c[i - 1] as int)
            <= axis_term(m, q[i - 1] as int, row[i - 1] as int));
        assert(axis_term(DistanceMetric::Manhattan, q[i - 1] as int, c[i - 1] as int)
            <= axis_term(DistanceMetric::Manhattan, q[i - 1] as int, row[i - 1] as int)) by {
            lemma_axis_term_clamp(
                DistanceMetric::Manhattan,
                q[i - 1] as int,
                row[i - 1] as int,
                lo[i - 1] as int,
                hi[i - 1] as int,
            );
        }
    }
}

/// The query clamped into the box, executably.
pub fn clamp_point(q: &Vec<i64>, lo: &Vec<i64>, hi: &Vec<i64>) -> (c: Vec<i64>)
    requires
        q@.len() == lo@.len(),
        lo@.len() == hi@.len(),
        bounded_row(q@),
        bounded_row(lo@),
        bounded_row(hi@),
    ensures
        c@ == clamp_row(q@, lo@, hi@),
        bounded_row(c@),
{
    let n = q.len();
    let mut c: Vec<i64> = Vec::new();
    let mut a: usize = 0;
    while a < n
        invariant
            n == q@.len(),
            q@.len() == lo@.len(),
            lo@.len() == hi@.len(),
            bounded_row(q@),
            bounded_row(lo@),
            bounded_row(hi@),
            a <= n,
            c@.len() == a,
            forall|t: int| 0 <= t < a ==> #[trigger] c@[t] == clamp_row(q@, lo@, hi@)[t],
        decreases n - a,
    {
        let v = if q[a] < lo[a] {
            lo[a]
        } else if q[a] > hi[a] {
            hi[a]
        } else {
            q[a]
        };
        c.push(v);
        a = a + 1;
    }
    proof {
        assert(c@ =~= clamp_row(q@, lo@, hi@));
    }
    c
}

} // verus!
