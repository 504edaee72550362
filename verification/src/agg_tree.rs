//! Aggregation tree: a KD-style axis/median partition whose every node
//! caches an aggregate of its subtree (point count, coordinate-wise sum, and
//! bounding extent), answering axis-aligned region aggregates without
//! visiting every leaf: a node fully outside the region contributes nothing,
//! one fully inside contributes its cached aggregate unopened.

use vstd::prelude::*;

use crate::bounds::in_box;
use crate::heap::{HeapItem, index_set, lemma_index_set_concat, sort_items};
use crate::metric::{COORD_LIMIT, DistanceMetric, SpatialError, bounded_row, metric_ok};
use crate::spatial_query::{
    SpatialQuery, expected_dim, pts_ok, range_set, rows_bounded, rows_view, uniform_dims,
};
use crate::kd_tree::KDTree;

verus! {

broadcast use vstd::set::group_set_axioms;

/// Sum of `f(p)` over the indices of `idxs` whose points lie in the region
/// `[lo, hi]`.
pub open spec fn region_fold(
    pts: Seq<Seq<i64>>,
    idxs: Seq<usize>,
    lo: Seq<i64>,
    hi: Seq<i64>,
    f: spec_fn(int) -> int,
) -> int
    decreases idxs.len(),
{
    if idxs.len() == 0 {
        0
    } else {
        region_fold(pts, idxs.drop_last(), lo, hi, f) + (if in_box(
            pts[idxs.last() as int],
            lo,
            hi,
        ) {
            f(idxs.last() as int)
        } else {
            0
        })
    }
}

/// Sum of `f(p)` over all indices of `idxs`.
pub open spec fn plain_fold(pts: Seq<Seq<i64>>, idxs: Seq<usize>, f: spec_fn(int) -> int) -> int
    decreases idxs.len(),
{
    if idxs.len() == 0 {
        0
    } else {
        plain_fold(pts, idxs.drop_last(), f) + f(idxs.last() as int)
    }
}

/// How many points of `idxs` lie in the region.
pub open spec fn region_count(pts: Seq<Seq<i64>>, idxs: Seq<usize>, lo: Seq<i64>, hi: Seq<i64>) -> int {
    region_fold(pts, idxs, lo, hi, |p: int| 1)
}

/// Sum of coordinate `a` over the points of `idxs` in the region.
pub open spec fn region_coord_sum(
    pts: Seq<Seq<i64>>,
    idxs: Seq<usize>,
    lo: Seq<i64>,
    hi: Seq<i64>,
    a: int,
) -> int {
    region_fold(pts, idxs, lo, hi, |p: int| pts[p][a] as int)
}

/// The identity index sequence `0 .. n`.
pub open spec fn upto(n: int) -> Seq<usize> {
    Seq::new(n as nat, |i: int| i as usize)
}

/// Folds split over concatenation.
pub proof fn lemma_fold_concat(
    pts: Seq<Seq<i64>>,
    a: Seq<usize>,
    b: Seq<usize>,
    lo: Seq<i64>,
    hi: Seq<i64>,
    f: spec_fn(int) -> int,
)
    ensures
        region_fold(pts, a + b, lo, hi, f) == region_fold(pts, a, lo, hi, f) + region_fold(
            pts,
            b,
            lo,
            hi,
            f,
        ),
    decreases b.len(),
{
    if b.len() == 0 {
        assert(a + b =~= a);
    } else {
        lemma_fold_concat(pts, a, b.drop_last(), lo, hi, f);
        assert((a + b).drop_last() =~= a + b.drop_last());
        assert((a + b).last() == b.last());
    }
}

/// A fold over points that all lie in the region is the plain fold; one over
/// points that all lie outside is zero.
pub proof fn lemma_fold_all(
    pts: Seq<Seq<i64>>,
    idxs: Seq<usize>,
    lo: Seq<i64>,
    hi: Seq<i64>,
    f: spec_fn(int) -> int,
)
    ensures
        (forall|t: int| 0 <= t < idxs.len() ==> in_box(pts[#[trigger] idxs[t] as int], lo, hi))
            ==> region_fold(pts, idxs, lo, hi, f) == plain_fold(pts, idxs, f),
        (forall|t: int| 0 <= t < idxs.len() ==> !in_box(pts[#[trigger] idxs[t] as int], lo, hi))
            ==> region_fold(pts, idxs, lo, hi, f) == 0,
    decreases idxs.len(),
{
    if idxs.len() > 0 {
        lemma_fold_all(pts, idxs.drop_last(), lo, hi, f);
        assert(forall|t: int| 0 <= t < idxs.len() - 1
            ==> #[trigger] idxs.drop_last()[t] == idxs[t]);
        assert(idxs.last() == idxs[idxs.len() - 1]);
    }
}

/// Removing one position from an index sequence removes its contribution.
pub proof fn lemma_fold_remove(
    pts: Seq<Seq<i64>>,
    idxs: Seq<usize>,
    lo: Seq<i64>,
    hi: Seq<i64>,
    f: spec_fn(int) -> int,
    w: int,
)
    requires
        0 <= w < idxs.len(),
    ensures
        region_fold(pts, idxs.remove(w), lo, hi, f) == region_fold(pts, idxs, lo, hi, f) - (
        if in_box(pts[idxs[w] as int], lo, hi) {
            f(idxs[w] as int)
        } else {
            0
        }),
    decreases idxs.len(),
{
    if w == idxs.len() - 1 {
        assert(idxs.remove(w) =~= idxs.drop_last());
    } else {
        lemma_fold_remove(pts, idxs.drop_last(), lo, hi, f, w);
        assert(idxs.remove(w).drop_last() =~= idxs.drop_last().remove(w));
        assert(idxs.remove(w).last() == idxs.last());
        assert(idxs.drop_last()[w] == idxs[w]);
    }
}

/// Folds are blind to the order of a duplicate-free index sequence: two
/// distinct sequences over the same index set fold to the same value.
pub proof fn lemma_fold_permutation(
    pts: Seq<Seq<i64>>,
    s1: Seq<usize>,
    s2: Seq<usize>,
    lo: Seq<i64>,
    hi: Seq<i64>,
    f: spec_fn(int) -> int,
)
    requires
        forall|i: int, j: int| 0 <= i < j < s1.len() ==> s1[i] != s1[j],
        forall|i: int, j: int| 0 <= i < j < s2.len() ==> s2[i] != s2[j],
        index_set(s1) == index_set(s2),
        s1.len() == s2.len(),
    ensures
        region_fold(pts, s1, lo, hi, f) == region_fold(pts, s2, lo, hi, f),
    decreases s1.len(),
{
    if s1.len() > 0 {
        let p = s1.last();
        assert(index_set(s1).contains(p as int)) by {
            assert(s1[s1.len() - 1] == p);
        }
        assert(index_set(s2).contains(p as int));
        let w = choose|w: int| 0 <= w < s2.len() && s2[w] == p;
        let t1 = s1.drop_last();
        let t2 = s2.remove(w);
        assert(forall|i: int| 0 <= i < t1.len() ==> #[trigger] t1[i] == s1[i]);
        assert(forall|i: int| 0 <= i < w ==> #[trigger] t2[i] == s2[i]);
        assert(forall|i: int| w <= i < t2.len() ==> #[trigger] t2[i] == s2[i + 1]);
        assert forall|x: int| index_set(t1).contains(x) implies index_set(t2).contains(x) by {
            let i = choose|i: int| 0 <= i < t1.len() && t1[i] == x;
            assert(s1[i] == x);
            assert(x != p as int) by {
                if s1[i] == p {
                    assert(s1[i] == s1[s1.len() - 1]);
                }
            }
            assert(index_set(s2).contains(x));
            let j = choose|j: int| 0 <= j < s2.len() && s2[j] == x;
            assert(j != w);
            if j < w {
                assert(t2[j] == x);
            } else {
                assert(t2[j - 1] == x);
            }
        }
        assert forall|x: int| index_set(t2).contains(x) implies index_set(t1).contains(x) by {
            let i = choose|i: int| 0 <= i < t2.len() && t2[i] == x;
            let j: int = if i < w {
                i
            } else {
                i + 1
            };
            assert(s2[j] == x);
            assert(x != p as int) by {
                if s2[j] == p {
                    assert(s2[j] == s2[w]);
                }
            }
            assert(index_set(s1).contains(x));
            let u = choose|u: int| 0 <= u < s1.len() && s1[u] == x;
            assert(u != s1.len() - 1);
            assert(t1[u] == x);
        }
        assert(index_set(t1) =~= index_set(t2));
        lemma_fold_permutation(pts, t1, t2, lo, hi, f);
        lemma_fold_remove(pts, s2, lo, hi, f, w);
    } else {
        assert(s1 =~= s2);
    }
}

/// A region count lies between zero and the number of indices.
pub proof fn lemma_count_bounds(pts: Seq<Seq<i64>>, idxs: Seq<usize>, lo: Seq<i64>, hi: Seq<i64>)
    ensures
        0 <= region_count(pts, idxs, lo, hi) <= idxs.len(),
    decreases idxs.len(),
{
    if idxs.len() > 0 {
        lemma_count_bounds(pts, idxs.drop_last(), lo, hi);
    }
}

/// A region coordinate sum over bounded, valid points is bounded by the
/// count times the coordinate limit.
pub proof fn lemma_sum_bounds(
    pts: Seq<Seq<i64>>,
    idxs: Seq<usize>,
    lo: Seq<i64>,
    hi: Seq<i64>,
    a: int,
    d: int,
)
    requires
        pts_ok(pts, d),
        0 <= a < d,
        forall|t: int| 0 <= t < idxs.len() ==> (#[trigger] idxs[t] as int) < pts.len(),
    ensures
        -(idxs.len() as int) * (COORD_LIMIT as int) <= region_coord_sum(pts, idxs, lo, hi, a),
        region_coord_sum(pts, idxs, lo, hi, a) <= (idxs.len() as int) * (COORD_LIMIT as int),
    decreases idxs.len(),
{
    let f = |p: int| pts[p][a] as int;
    if idxs.len() > 0 {
        assert(forall|t: int| 0 <= t < idxs.len() - 1
            ==> #[trigger] idxs.drop_last()[t] == idxs[t]);
        lemma_sum_bounds(pts, idxs.drop_last(), lo, hi, a, d);
        let p = idxs.last() as int;
        assert(bounded_row(pts[p]));
        assert(crate::metric::bounded_val(pts[p][a] as int));
        assert((idxs.len() as int) * (COORD_LIMIT as int)
            == (idxs.len() - 1) * (COORD_LIMIT as int) + COORD_LIMIT as int) by (nonlinear_arith);
    }
}

/// The same bound for the unconditioned fold.
pub proof fn lemma_plain_sum_bounds(pts: Seq<Seq<i64>>, idxs: Seq<usize>, a: int, d: int)
    requires
        pts_ok(pts, d),
        0 <= a < d,
        forall|t: int| 0 <= t < idxs.len() ==> (#[trigger] idxs[t] as int) < pts.len(),
    ensures
        -(idxs.len() as int) * (COORD_LIMIT as int) <= plain_fold(pts, idxs, |p: int| pts[p][a] as int),
        plain_fold(pts, idxs, |p: int| pts[p][a] as int) <= (idxs.len() as int) * (COORD_LIMIT as int),
    decreases idxs.len(),
{
    if idxs.len() > 0 {
        assert(forall|t: int| 0 <= t < idxs.len() - 1
            ==> #[trigger] idxs.drop_last()[t] == idxs[t]);
        lemma_plain_sum_bounds(pts, idxs.drop_last(), a, d);
        let p = idxs.last() as int;
        assert(bounded_row(pts[p]));
        assert(crate::metric::bounded_val(pts[p][a] as int));
        assert((idxs.len() as int) * (COORD_LIMIT as int)
            == (idxs.len() - 1) * (COORD_LIMIT as int) + COORD_LIMIT as int) by (nonlinear_arith);
    }
}

/// A constant fold counts the indices.
pub proof fn lemma_plain_count(pts: Seq<Seq<i64>>, idxs: Seq<usize>)
    ensures
        plain_fold(pts, idxs, |p: int| 1) == idxs.len(),
    decreases idxs.len(),
{
    if idxs.len() > 0 {
        lemma_plain_count(pts, idxs.drop_last());
    }
}

/// Plain folds split over concatenation.
pub proof fn lemma_plain_fold_concat(
    pts: Seq<Seq<i64>>,
    a: Seq<usize>,
    b: Seq<usize>,
    f: spec_fn(int) -> int,
)
    ensures
        plain_fold(pts, a + b, f) == plain_fold(pts, a, f) + plain_fold(pts, b, f),
    decreases b.len(),
{
    if b.len() == 0 {
        assert(a + b =~= a);
    } else {
        lemma_plain_fold_concat(pts, a, b.drop_last(), f);
        assert((a + b).drop_last() =~= a + b.drop_last());
        assert((a + b).last() == b.last());
    }
}

/// An aggregation node's payload: a bucket or a median split.
#[derive(Debug)]
pub enum AggKind {
    /// A bucket of at most `leaf_size` point indices.
    Leaf { bucket: Vec<usize> },
    /// A median split into two children.
    Internal { left: Box<AggNode>, right: Box<AggNode> },
}

/// An aggregation node: the bounding extent of its subtree plus the cached
/// exact aggregate (count and coordinate-wise sum).
#[derive(Debug)]
pub struct AggNode {
    /// Lower corner of the subtree's bounding extent.
    pub lo: Vec<i64>,
    /// Upper corner of the subtree's bounding extent.
    pub hi: Vec<i64>,
    /// Number of points below this node.
    pub count: usize,
    /// Coordinate-wise sum of the points below this node.
    pub sum: Vec<i128>,
    /// Bucket or split.
    pub kind: AggKind,
}

impl AggNode {
    /// All point indices stored below this node.
    pub open spec fn idxs(self) -> Seq<usize>
        decreases self,
    {
        match self.kind {
            AggKind::Leaf { bucket } => bucket@,
            AggKind::Internal { left, right } => (*left).idxs() + (*right).idxs(),
        }
    }

    /// Structural soundness: the extent covers the subtree, indices are
    /// distinct and valid (with buckets respecting `leaf_size` except for
    /// unsplittable zero-dimensional points), and the cached aggregate is
    /// the exact reduction over the subtree.
    pub open spec fn wf(self, pts: Seq<Seq<i64>>, d: int, leaf_size: int) -> bool
        decreases self,
    {
        &&& self.lo@.len() == d
        &&& self.hi@.len() == d
        &&& bounded_row(self.lo@)
        &&& bounded_row(self.hi@)
        &&& (forall|p: int| #[trigger] index_set(self.idxs()).contains(p)
            ==> 0 <= p < pts.len() && in_box(pts[p], self.lo@, self.hi@))
        &&& (forall|i: int, j: int| 0 <= i < j < self.idxs().len()
            ==> self.idxs()[i] != self.idxs()[j])
        &&& self.count == self.idxs().len()
        &&& self.sum@.len() == d
        &&& (forall|a: int| 0 <= a < d
            ==> #[trigger] self.sum@[a] == plain_fold(pts, self.idxs(), |p: int| pts[p][a] as int))
        &&& match self.kind {
            AggKind::Leaf { bucket } => bucket@.len() <= leaf_size || d == 0,
            AggKind::Internal { left, right } => {
                &&& (*left).wf(pts, d, leaf_size)
                &&& (*right).wf(pts, d, leaf_size)
                &&& (*left).idxs().len() > 0
                &&& (*right).idxs().len() > 0
                &&& (*left).idxs().len() == ((*left).idxs().len() + (*right).idxs().len() + 1) / 2
            },
        }
    }
}

/// The exact coordinate-wise sums over a whole index subset.
fn subset_sums(points: &Vec<Vec<i64>>, d: usize, idxs: &Vec<usize>) -> (sum: Vec<i128>)
    requires
        pts_ok(rows_view(points@), d as int),
        forall|j: int| 0 <= j < idxs@.len() ==> (#[trigger] idxs@[j] as int) < points@.len(),
    ensures
        sum@.len() == d,
        forall|a: int| 0 <= a < d
            ==> #[trigger] sum@[a] == plain_fold(
                rows_view(points@),
                idxs@,
                |p: int| rows_view(points@)[p][a] as int,
            ),
{
    let ghost pts = rows_view(points@);
    let n = idxs.len();
    let mut sum: Vec<i128> = Vec::new();
    let mut a: usize = 0;
    while a < d
        invariant
            pts_ok(pts, d as int),
            pts == rows_view(points@),
            n == idxs@.len(),
            forall|j: int| 0 <= j < idxs@.len() ==> (#[trigger] idxs@[j] as int) < points@.len(),
            a <= d,
            sum@.len() == a,
            forall|t: int| 0 <= t < a
                ==> #[trigger] sum@[t] == plain_fold(pts, idxs@, |p: int| pts[p][t] as int),
        decreases d - a,
    {
        let ghost f = |p: int| pts[p][a as int] as int;
        let mut acc: i128 = 0;
        let mut j: usize = 0;
        proof {
            assert(idxs@.take(0) =~= Seq::<usize>::empty());
        }
        while j < n
            invariant
                pts_ok(pts, d as int),
                pts == rows_view(points@),
                n == idxs@.len(),
                forall|t: int| 0 <= t < idxs@.len()
                    ==> (#[trigger] idxs@[t] as int) < points@.len(),
                a < d,
                j <= n,
                f == (|p: int| pts[p][a as int] as int),
                acc == plain_fold(pts, idxs@.take(j as int), f),
            decreases n - j,
        {
            let p = idxs[j];
            proof {
                assert(pts[p as int] == points@[p as int]@);
                assert(idxs@.take(j + 1).drop_last() =~= idxs@.take(j as int));
                assert(idxs@.take(j + 1).last() == idxs@[j as int]);
                assert forall|t: int| 0 <= t < idxs@.take(j + 1).len()
                    implies (#[trigger] idxs@.take(j + 1)[t] as int) < points@.len() by {
                    assert(idxs@.take(j + 1)[t] == idxs@[t]);
                }
                lemma_plain_sum_bounds(pts, idxs@.take(j as int), a as int, d as int);
                lemma_plain_sum_bounds(pts, idxs@.take(j + 1), a as int, d as int);
                assert(bounded_row(pts[p as int]));
                assert(crate::metric::bounded_val(pts[p as int][a as int] as int));
                assert((j + 1) * (COORD_LIMIT as int) <= (usize::MAX as int) * (COORD_LIMIT as int))
                    by (nonlinear_arith)
                    requires j + 1 <= usize::MAX as int;
            }
            acc = acc + (points[p][a] as i128);
            j = j + 1;
        }
        proof {
            assert(idxs@.take(n as int) =~= idxs@);
        }
        sum.push(acc);
        a = a + 1;
    }
    sum
}

/// Recursive aggregation-tree build over a non-empty index subset.
fn build_agg_node(points: &Vec<Vec<i64>>, d: usize, leaf_size: usize, idxs: Vec<usize>) -> (node: AggNode)
    requires
        pts_ok(rows_view(points@), d as int),
        leaf_size >= 1,
        idxs@.len() >= 1,
        forall|j: int| 0 <= j < idxs@.len() ==> (#[trigger] idxs@[j] as int) < points@.len(),
        forall|i: int, j: int| 0 <= i < j < idxs@.len() ==> idxs@[i] != idxs@[j],
    ensures
        node.wf(rows_view(points@), d as int, leaf_size as int),
        index_set(node.idxs()) == index_set(idxs@),
        node.idxs().len() == idxs@.len(),
    decreases idxs@.len(),
{
    let ghost pts = rows_view(points@);
    let (lo, hi) = crate::kd_tree::compute_bbox(points, d, &idxs);
    let n = idxs.len();
    let sum = subset_sums(points, d, &idxs);
    if n <= leaf_size || d == 0 {
        let node = AggNode { lo, hi, count: n, sum, kind: AggKind::Leaf { bucket: idxs } };
        proof {
            assert(node.idxs() == idxs@);
        }
        node
    } else {
        let mut axis: usize = 0;
        let mut best: i64 = hi[0] - lo[0];
        let mut a: usize = 1;
        while a < d
            invariant
                d == lo@.len(),
                lo@.len() == hi@.len(),
                bounded_row(lo@),
                bounded_row(hi@),
                1 <= a <= d,
                axis < d,
            decreases d - a,
        {
            let spread = hi[a] - lo[a];
            if spread > best {
                best = spread;
                axis = a;
            }
            a = a + 1;
        }
        let mut items: Vec<HeapItem> = Vec::new();
        let mut j: usize = 0;
        while j < n
            invariant
                pts_ok(pts, d as int),
                pts == rows_view(points@),
                n == idxs@.len(),
                forall|t: int| 0 <= t < idxs@.len() ==> (#[trigger] idxs@[t] as int) < points@.len(),
                forall|t: int, u: int| 0 <= t < u < idxs@.len() ==> idxs@[t] != idxs@[u],
                axis < d,
                j <= n,
                items@.len() == j,
                forall|t: int| 0 <= t < j ==> (#[trigger] items@[t]).index == idxs@[t],
            decreases n - j,
        {
            let p = idxs[j];
            proof {
                assert(pts[p as int] == points@[p as int]@);
            }
            let coord = points[p][axis];
            items.push(HeapItem { distance: coord as i128, index: p });
            j = j + 1;
        }
        proof {
            assert forall|t: int, u: int| 0 <= t < u < items@.len()
                implies (#[trigger] items@[t]).index != (#[trigger] items@[u]).index by {
                assert(items@[t].index == idxs@[t] && items@[u].index == idxs@[u]);
            }
        }
        let sorted = sort_items(items);
        let mid = (n - 1) / 2 + 1;
        let mut left_in: Vec<usize> = Vec::new();
        let mut right_in: Vec<usize> = Vec::new();
        let mut t: usize = 0;
        while t < mid
            invariant
                mid <= sorted@.len(),
                t <= mid,
                left_in@.len() == t,
                forall|u: int| 0 <= u < t ==> #[trigger] left_in@[u] == (sorted@[u]).index,
            decreases mid - t,
        {
            left_in.push(sorted[t].index);
            t = t + 1;
        }
        let mut u: usize = mid;
        while u < n
            invariant
                n == sorted@.len(),
                mid <= u <= n,
                right_in@.len() == u - mid,
                forall|w: int| 0 <= w < u - mid
                    ==> #[trigger] right_in@[w] == (sorted@[mid + w]).index,
            decreases n - u,
        {
            right_in.push(sorted[u].index);
            u = u + 1;
        }
        proof {
            crate::kd_tree::lemma_kd_split(
                idxs@, items@, sorted@, left_in@, right_in@, pts, axis as int, mid as int,
                points@.len() as int,
            );
        }
        let left = build_agg_node(points, d, leaf_size, left_in);
        let right = build_agg_node(points, d, leaf_size, right_in);
        let ghost left_set = index_set(left.idxs());
        let ghost right_set = index_set(right.idxs());
        let node = AggNode {
            lo,
            hi,
            count: n,
            sum,
            kind: AggKind::Internal { left: Box::new(left), right: Box::new(right) },
        };
        proof {
            lemma_index_set_concat(left.idxs(), right.idxs());
            assert(node.idxs() == left.idxs() + right.idxs());
            assert(index_set(node.idxs()) =~= index_set(idxs@));
            assert forall|i: int, j: int| 0 <= i < j < node.idxs().len()
                implies node.idxs()[i] != node.idxs()[j] by {
                let li = left.idxs();
                let ri = right.idxs();
                if i < li.len() && j >= li.len() {
                    assert(node.idxs()[i] == li[i] && node.idxs()[j] == ri[j - li.len()]);
                    if li[i] == ri[j - li.len()] {
                        assert(left_set.contains(li[i] as int));
                        assert(right_set.contains(ri[j - li.len()] as int));
                    }
                } else if i < li.len() {
                    assert(node.idxs()[i] == li[i] && node.idxs()[j] == li[j]);
                } else {
                    assert(node.idxs()[i] == ri[i - li.len()] && node.idxs()[j] == ri[j - li.len()]);
                }
            }
            assert forall|p: int| #[trigger] index_set(node.idxs()).contains(p)
                implies 0 <= p < pts.len() && in_box(pts[p], node.lo@, node.hi@) by {
                assert(index_set(idxs@).contains(p));
            }
            assert forall|a2: int| 0 <= a2 < d
                implies #[trigger] node.sum@[a2] == plain_fold(
                    pts,
                    node.idxs(),
                    |p: int| pts[p][a2] as int,
                ) by {
                lemma_fold_permutation_plain(pts, idxs@, node.idxs(), |p: int| pts[p][a2] as int);
            }
        }
        node
    }
}

/// Removing one position from a plain fold removes its contribution.
pub proof fn lemma_plain_fold_remove(
    pts: Seq<Seq<i64>>,
    idxs: Seq<usize>,
    f: spec_fn(int) -> int,
    w: int,
)
    requires
        0 <= w < idxs.len(),
    ensures
        plain_fold(pts, idxs.remove(w), f) == plain_fold(pts, idxs, f) - f(idxs[w] as int),
    decreases idxs.len(),
{
    if w == idxs.len() - 1 {
        assert(idxs.remove(w) =~= idxs.drop_last());
    } else {
        lemma_plain_fold_remove(pts, idxs.drop_last(), f, w);
        assert(idxs.remove(w).drop_last() =~= idxs.drop_last().remove(w));
        assert(idxs.remove(w).last() == idxs.last());
        assert(idxs.drop_last()[w] == idxs[w]);
    }
}

/// Plain folds over duplicate-free sequences with equal index sets agree:
/// the fold is blind to order.
pub proof fn lemma_fold_permutation_plain(
    pts: Seq<Seq<i64>>,
    s1: Seq<usize>,
    s2: Seq<usize>,
    f: spec_fn(int) -> int,
)
    requires
        forall|i: int, j: int| 0 <= i < j < s1.len() ==> s1[i] != s1[j],
        forall|i: int, j: int| 0 <= i < j < s2.len() ==> s2[i] != s2[j],
        index_set(s1) == index_set(s2),
        s1.len() == s2.len(),
    ensures
        plain_fold(pts, s1, f) == plain_fold(pts, s2, f),
    decreases s1.len(),
{
    if s1.len() > 0 {
        let p = s1.last();
        assert(index_set(s1).contains(p as int)) by {
            assert(s1[s1.len() - 1] == p);
        }
        assert(index_set(s2).contains(p as int));
        let w = choose|w: int| 0 <= w < s2.len() && s2[w] == p;
        let t1 = s1.drop_last();
        let t2 = s2.remove(w);
        assert(forall|i: int| 0 <= i < t1.len() ==> #[trigger] t1[i] == s1[i]);
        assert(forall|i: int| 0 <= i < w ==> #[trigger] t2[i] == s2[i]);
        assert(forall|i: int| w <= i < t2.len() ==> #[trigger] t2[i] == s2[i + 1]);
        assert forall|x: int| index_set(t1).contains(x) implies index_set(t2).contains(x) by {
            let i = choose|i: int| 0 <= i < t1.len() && t1[i] == x;
            assert(s1[i] == x);
            assert(x != p as int) by {
                if s1[i] == p {
                    assert(s1[i] == s1[s1.len() - 1]);
                }
            }
            assert(index_set(s2).contains(x));
            let j = choose|j: int| 0 <= j < s2.len() && s2[j] == x;
            assert(j != w);
            if j < w {
                assert(t2[j] == x);
            } else {
                assert(t2[j - 1] == x);
            }
        }
        assert forall|x: int| index_set(t2).contains(x) implies index_set(t1).contains(x) by {
            let i = choose|i: int| 0 <= i < t2.len() && t2[i] == x;
            let j: int = if i < w {
                i
            } else {
                i + 1
            };
            assert(s2[j] == x);
            assert(x != p as int) by {
                if s2[j] == p {
                    assert(s2[j] == s2[w]);
                }
            }
            assert(index_set(s1).contains(x));
            let u = choose|u: int| 0 <= u < s1.len() && s1[u] == x;
            assert(u != s1.len() - 1);
            assert(t1[u] == x);
        }
        assert(index_set(t1) =~= index_set(t2));
        lemma_fold_permutation_plain(pts, t1, t2, f);
        lemma_plain_fold_remove(pts, s2, f, w);
    } else {
        assert(s1 =~= s2);
    }
}

/// A region aggregate: how many points fall in the region and their
/// coordinate-wise sum. The mean is the caller's division.
#[derive(Debug)]
pub struct RegionAggregate {
    /// Number of points inside the region.
    pub count: usize,
    /// Coordinate-wise sum over the points inside the region.
    pub sum: Vec<i128>,
}

/// Whether a row lies inside the region `[lo, hi]`.
fn region_contains(row: &Vec<i64>, lo: &Vec<i64>, hi: &Vec<i64>) -> (r: bool)
    ensures
        r == in_box(row@, lo@, hi@),
{
    if row.len() != lo.len() || hi.len() != lo.len() {
        return false;
    }
    let n = row.len();
    let mut a: usize = 0;
    while a < n
        invariant
            n == row@.len(),
            row@.len() == lo@.len(),
            hi@.len() == lo@.len(),
            a <= n,
            forall|t: int| 0 <= t < a ==> lo@[t] <= #[trigger] row@[t] <= hi@[t],
        decreases n - a,
    {
        if row[a] < lo[a] || row[a] > hi[a] {
            return false;
        }
        a = a + 1;
    }
    true
}

/// Recursive region aggregation: nothing from a subtree fully outside the
/// region, the cached aggregate from one fully inside, a descent otherwise.
fn agg_region_node(
    points: &Vec<Vec<i64>>,
    node: &AggNode,
    rlo: &Vec<i64>,
    rhi: &Vec<i64>,
    d: usize,
    leaf_size: usize,
) -> (r: (usize, Vec<i128>))
    requires
        pts_ok(rows_view(points@), d as int),
        node.wf(rows_view(points@), d as int, leaf_size as int),
        rlo@.len() == d,
        rhi@.len() == d,
    ensures
        r.0 == region_count(rows_view(points@), node.idxs(), rlo@, rhi@),
        r.0 <= node.idxs().len(),
        r.1@.len() == d,
        forall|a: int| 0 <= a < d
            ==> #[trigger] r.1@[a] == region_coord_sum(rows_view(points@), node.idxs(), rlo@, rhi@, a),
    decreases *node,
{
    let ghost pts = rows_view(points@);
    proof {
        lemma_count_bounds(pts, node.idxs(), rlo@, rhi@);
        assert forall|t: int| 0 <= t < node.idxs().len()
            implies (#[trigger] node.idxs()[t] as int) < pts.len() by {
            assert(index_set(node.idxs()).contains(node.idxs()[t] as int)) by {
                assert(node.idxs()[t] == node.idxs()[t]);
            }
        }
    }
    // fully outside: some axis separates the extent from the region
    let mut disjoint = false;
    let ghost mut sep_axis: int = 0;
    let mut a: usize = 0;
    while a < d
        invariant
            node.lo@.len() == d,
            node.hi@.len() == d,
            rlo@.len() == d,
            rhi@.len() == d,
            a <= d,
            disjoint ==> 0 <= sep_axis < d && (node.hi@[sep_axis] < rlo@[sep_axis]
                || node.lo@[sep_axis] > rhi@[sep_axis]),
        decreases d - a,
    {
        if node.hi[a] < rlo[a] || node.lo[a] > rhi[a] {
            disjoint = true;
            proof {
                sep_axis = a as int;
            }
        }
        a = a + 1;
    }
    if disjoint {
        let mut zeros: Vec<i128> = Vec::new();
        let mut z: usize = 0;
        while z < d
            invariant
                z <= d,
                zeros@.len() == z,
                forall|t: int| 0 <= t < z ==> #[trigger] zeros@[t] == 0i128,
            decreases d - z,
        {
            zeros.push(0);
            z = z + 1;
        }
        proof {
            assert forall|t: int| 0 <= t < node.idxs().len()
                implies !in_box(pts[#[trigger] node.idxs()[t] as int], rlo@, rhi@) by {
                let p = node.idxs()[t] as int;
                assert(index_set(node.idxs()).contains(p)) by {
                    assert(node.idxs()[t] == node.idxs()[t]);
                }
                assert(in_box(pts[p], node.lo@, node.hi@));
                assert(node.lo@[sep_axis] <= pts[p][sep_axis] <= node.hi@[sep_axis]);
            }
            lemma_fold_all(pts, node.idxs(), rlo@, rhi@, |p: int| 1);
            assert forall|a2: int| 0 <= a2 < d
                implies #[trigger] zeros@[a2] == region_coord_sum(pts, node.idxs(), rlo@, rhi@, a2) by {
                lemma_fold_all(pts, node.idxs(), rlo@, rhi@, |p: int| pts[p][a2] as int);
            }
        }
        return (0, zeros);
    }
    // fully inside: the cached aggregate answers without descending
    let mut inside = true;
    let mut b: usize = 0;
    while b < d
        invariant
            node.lo@.len() == d,
            node.hi@.len() == d,
            rlo@.len() == d,
            rhi@.len() == d,
            b <= d,
            inside ==> forall|t: int| 0 <= t < b
                ==> rlo@[t] <= #[trigger] node.lo@[t] && node.hi@[t] <= rhi@[t],
        decreases d - b,
    {
        if rlo[b] > node.lo[b] || node.hi[b] > rhi[b] {
            inside = false;
        }
        b = b + 1;
    }
    if inside {
        let mut csum: Vec<i128> = Vec::new();
        let mut z: usize = 0;
        while z < d
            invariant
                node.sum@.len() == d,
                z <= d,
                csum@.len() == z,
                forall|t: int| 0 <= t < z ==> #[trigger] csum@[t] == node.sum@[t],
            decreases d - z,
        {
            csum.push(node.sum[z]);
            z = z + 1;
        }
        proof {
            assert forall|t: int| 0 <= t < node.idxs().len()
                implies in_box(pts[#[trigger] node.idxs()[t] as int], rlo@, rhi@) by {
                let p = node.idxs()[t] as int;
                assert(index_set(node.idxs()).contains(p)) by {
                    assert(node.idxs()[t] == node.idxs()[t]);
                }
                assert(in_box(pts[p], node.lo@, node.hi@));
                assert forall|y: int| 0 <= y < d
                    implies rlo@[y] <= #[trigger] pts[p][y] <= rhi@[y] by {
                    assert(node.lo@[y] <= pts[p][y] <= node.hi@[y]);
                }
            }
            lemma_fold_all(pts, node.idxs(), rlo@, rhi@, |p: int| 1);
            lemma_plain_count(pts, node.idxs());
            assert forall|a2: int| 0 <= a2 < d
                implies #[trigger] csum@[a2] == region_coord_sum(pts, node.idxs(), rlo@, rhi@, a2) by {
                lemma_fold_all(pts, node.idxs(), rlo@, rhi@, |p: int| pts[p][a2] as int);
            }
        }
        return (node.count, csum);
    }
    match &node.kind {
        AggKind::Leaf { bucket } => {
            proof {
                assert(node.idxs() == bucket@);
            }
            let n_b = bucket.len();
            let mut count: usize = 0;
            let mut sums: Vec<i128> = Vec::new();
            let mut z: usize = 0;
            while z < d
                invariant
                    z <= d,
                    sums@.len() == z,
                    forall|t: int| 0 <= t < z ==> #[trigger] sums@[t] == 0i128,
                decreases d - z,
            {
                sums.push(0);
                z = z + 1;
            }
            let mut j: usize = 0;
            proof {
                assert(bucket@.take(0) =~= Seq::<usize>::empty());
            }
            while j < n_b
                invariant
                    pts_ok(pts, d as int),
                    pts == rows_view(points@),
                    node.wf(pts, d as int, leaf_size as int),
                    node.idxs() == bucket@,
                    rlo@.len() == d,
                    rhi@.len() == d,
                    n_b == bucket@.len(),
                    j <= n_b,
                    forall|t: int| 0 <= t < bucket@.len()
                        ==> (#[trigger] bucket@[t] as int) < pts.len(),
                    count == region_count(pts, bucket@.take(j as int), rlo@, rhi@),
                    count <= j,
                    sums@.len() == d,
                    forall|a2: int| 0 <= a2 < d
                        ==> #[trigger] sums@[a2] == region_coord_sum(
                            pts,
                            bucket@.take(j as int),
                            rlo@,
                            rhi@,
                            a2,
                        ),
                decreases n_b - j,
            {
                let p = bucket[j];
                proof {
                    assert(pts[p as int] == points@[p as int]@);
                    assert(bucket@.take(j + 1).drop_last() =~= bucket@.take(j as int));
                    assert(bucket@.take(j + 1).last() == bucket@[j as int]);
                    lemma_count_bounds(pts, bucket@.take(j as int), rlo@, rhi@);
                }
                let is_in = region_contains(&points[p], rlo, rhi);
                if is_in {
                    count = count + 1;
                    let mut a2: usize = 0;
                    let ghost sums0 = sums@;
                    proof {
                        assert(bounded_row(pts[p as int]));
                        assert((usize::MAX as int) * (COORD_LIMIT as int)
                            < 0x7fffffffffffffffffffffffffff0000i128 as int) by (nonlinear_arith);
                        assert forall|t: int| 0 <= t < d implies
                            -((usize::MAX as int) * (COORD_LIMIT as int)) <= #[trigger] sums0[t]
                                <= (usize::MAX as int) * (COORD_LIMIT as int) by {
                            let tk = bucket@.take(j as int);
                            assert forall|u: int| 0 <= u < tk.len()
                                implies (#[trigger] tk[u] as int) < pts.len() by {
                                assert(tk[u] == bucket@[u]);
                            }
                            lemma_sum_bounds(pts, tk, rlo@, rhi@, t, d as int);
                            assert((tk.len() as int) * (COORD_LIMIT as int)
                                <= (usize::MAX as int) * (COORD_LIMIT as int)) by (nonlinear_arith)
                                requires tk.len() as int <= usize::MAX as int;
                        }
                    }
                    while a2 < d
                        invariant
                            pts_ok(pts, d as int),
                            pts == rows_view(points@),
                            (p as int) < pts.len(),
                            pts[p as int] == points@[p as int]@,
                            a2 <= d,
                            sums@.len() == d,
                            sums0.len() == d,
                            forall|t: int| a2 <= t < d ==> #[trigger] sums@[t] == sums0[t],
                            forall|t: int| 0 <= t < a2
                                ==> #[trigger] sums@[t] == sums0[t] + pts[p as int][t],
                            forall|t: int| 0 <= t < d
                                ==> crate::metric::bounded_val(#[trigger] pts[p as int][t] as int),
                            (usize::MAX as int) * (COORD_LIMIT as int)
                                < 0x7fffffffffffffffffffffffffff0000i128 as int,
                            forall|t: int| 0 <= t < d
                                ==> -((usize::MAX as int) * (COORD_LIMIT as int)) <= #[trigger] sums0[t]
                                    <= (usize::MAX as int) * (COORD_LIMIT as int),
                        decreases d - a2,
                    {
                        sums.set(a2, sums[a2] + (points[p][a2] as i128));
                        a2 = a2 + 1;
                    }
                } else {
                }
                proof {
                    let tk = bucket@.take(j + 1);
                    assert forall|t: int| 0 <= t < tk.len()
                        implies (#[trigger] tk[t] as int) < pts.len() by {
                        assert(tk[t] == bucket@[t]);
                    }
                }
                j = j + 1;
            }
            proof {
                assert(bucket@.take(n_b as int) =~= bucket@);
            }
            (count, sums)
        },
        AggKind::Internal { left, right } => {
            proof {
                assert((**left).wf(pts, d as int, leaf_size as int));
                assert((**right).wf(pts, d as int, leaf_size as int));
            }
            let (cl, sl) = agg_region_node(points, left, rlo, rhi, d, leaf_size);
            let (cr, sr) = agg_region_node(points, right, rlo, rhi, d, leaf_size);
            proof {
                assert(node.idxs() == (**left).idxs() + (**right).idxs());
                lemma_fold_concat(pts, (**left).idxs(), (**right).idxs(), rlo@, rhi@, |p: int| 1);
                lemma_count_bounds(pts, (**left).idxs(), rlo@, rhi@);
                lemma_count_bounds(pts, (**right).idxs(), rlo@, rhi@);
            }
            let count = cl + cr;
            let mut sums: Vec<i128> = Vec::new();
            let mut a2: usize = 0;
            while a2 < d
                invariant
                    pts_ok(pts, d as int),
                    node.wf(pts, d as int, leaf_size as int),
                    node.idxs() == (**left).idxs() + (**right).idxs(),
                    (**left).wf(pts, d as int, leaf_size as int),
                    (**right).wf(pts, d as int, leaf_size as int),
                    rlo@.len() == d,
                    rhi@.len() == d,
                    sl@.len() == d,
                    sr@.len() == d,
                    forall|t: int| 0 <= t < d
                        ==> #[trigger] sl@[t] == region_coord_sum(pts, (**left).idxs(), rlo@, rhi@, t),
                    forall|t: int| 0 <= t < d
                        ==> #[trigger] sr@[t] == region_coord_sum(pts, (**right).idxs(), rlo@, rhi@, t),
                    a2 <= d,
                    sums@.len() == a2,
                    forall|t: int| 0 <= t < a2
                        ==> #[trigger] sums@[t] == region_coord_sum(pts, node.idxs(), rlo@, rhi@, t),
                decreases d - a2,
            {
                proof {
                    assert forall|t: int| 0 <= t < (**left).idxs().len()
                        implies ((#[trigger] (**left).idxs()[t]) as int) < pts.len() by {
                        assert(index_set((**left).idxs()).contains((**left).idxs()[t] as int)) by {
                            assert((**left).idxs()[t] == (**left).idxs()[t]);
                        }
                    }
                    assert forall|t: int| 0 <= t < (**right).idxs().len()
                        implies ((#[trigger] (**right).idxs()[t]) as int) < pts.len() by {
                        assert(index_set((**right).idxs()).contains((**right).idxs()[t] as int)) by {
                            assert((**right).idxs()[t] == (**right).idxs()[t]);
                        }
                    }
                    lemma_sum_bounds(pts, (**left).idxs(), rlo@, rhi@, a2 as int, d as int);
                    lemma_sum_bounds(pts, (**right).idxs(), rlo@, rhi@, a2 as int, d as int);
                    assert(((**left).idxs().len() as int) * (COORD_LIMIT as int)
                        <= (usize::MAX as int) * (COORD_LIMIT as int)) by (nonlinear_arith)
                        requires (**left).idxs().len() as int <= usize::MAX as int;
                    assert(((**right).idxs().len() as int) * (COORD_LIMIT as int)
                        <= (usize::MAX as int) * (COORD_LIMIT as int)) by (nonlinear_arith)
                        requires (**right).idxs().len() as int <= usize::MAX as int;
                    lemma_fold_concat(
                        pts,
                        (**left).idxs(),
                        (**right).idxs(),
                        rlo@,
                        rhi@,
                        |p: int| pts[p][a2 as int] as int,
                    );
                }
                sums.push(sl[a2] + sr[a2]);
                a2 = a2 + 1;
            }
            (count, sums)
        },
    }
}

/// An owned copy of the coordinate rows.
fn copy_rows(src: &Vec<Vec<i64>>) -> (r: Vec<Vec<i64>>)
    ensures
        rows_view(r@) == rows_view(src@),
{
    let n = src.len();
    let mut out: Vec<Vec<i64>> = Vec::new();
    let mut i: usize = 0;
    while i < n
        invariant
            n == src@.len(),
            i <= n,
            out@.len() == i,
            forall|t: int| 0 <= t < i ==> #[trigger] out@[t]@ == src@[t]@,
        decreases n - i,
    {
        let m = src[i].len();
        let mut row: Vec<i64> = Vec::new();
        let mut j: usize = 0;
        while j < m
            invariant
                i < src@.len(),
                m == src@[i as int]@.len(),
                j <= m,
                row@.len() == j,
                forall|t: int| 0 <= t < j ==> #[trigger] row@[t] == src@[i as int]@[t],
            decreases m - j,
        {
            row.push(src[i][j]);
            j = j + 1;
        }
        proof {
            assert(row@ =~= src@[i as int]@);
        }
        out.push(row);
        i = i + 1;
    }
    proof {
        assert(rows_view(out@) =~= rows_view(src@));
    }
    out
}

/// The brute-force region aggregate: filters every point.
pub fn linear_scan_aggregate(
    points: &Vec<Vec<i64>>,
    rlo: &Vec<i64>,
    rhi: &Vec<i64>,
) -> (r: (usize, Vec<i128>))
    requires
        rows_bounded(rows_view(points@)),
        uniform_dims(rows_view(points@)),
    ensures
        r.0 == region_count(rows_view(points@), upto(points@.len() as int), rlo@, rhi@),
        r.1@.len() == expected_dim(rows_view(points@)),
        forall|a: int| 0 <= a < r.1@.len()
            ==> #[trigger] r.1@[a] == region_coord_sum(
                rows_view(points@),
                upto(points@.len() as int),
                rlo@,
                rhi@,
                a,
            ),
{
    let ghost pts = rows_view(points@);
    let n = points.len();
    let d: usize = if n == 0 {
        0
    } else {
        points[0].len()
    };
    proof {
        if n > 0 {
            assert(pts[0] == points@[0]@);
        }
        assert(pts_ok(pts, d as int));
    }
    let mut count: usize = 0;
    let mut sums: Vec<i128> = Vec::new();
    let mut z: usize = 0;
    while z < d
        invariant
            z <= d,
            sums@.len() == z,
            forall|t: int| 0 <= t < z ==> #[trigger] sums@[t] == 0i128,
        decreases d - z,
    {
        sums.push(0);
        z = z + 1;
    }
    let mut j: usize = 0;
    proof {
        assert(upto(0) =~= Seq::<usize>::empty());
    }
    while j < n
        invariant
            pts_ok(pts, d as int),
            pts == rows_view(points@),
            n == pts.len(),
            j <= n,
            count == region_count(pts, upto(j as int), rlo@, rhi@),
            count <= j,
            sums@.len() == d,
            forall|a2: int| 0 <= a2 < d
                ==> #[trigger] sums@[a2] == region_coord_sum(pts, upto(j as int), rlo@, rhi@, a2),
        decreases n - j,
    {
        proof {
            assert(pts[j as int] == points@[j as int]@);
            assert(upto(j + 1).drop_last() =~= upto(j as int));
            assert(upto(j + 1).last() == j as usize);
            lemma_count_bounds(pts, upto(j as int), rlo@, rhi@);
        }
        let is_in = region_contains(&points[j], rlo, rhi);
        if is_in {
            count = count + 1;
            let mut a2: usize = 0;
            let ghost sums0 = sums@;
            proof {
                assert(bounded_row(pts[j as int]));
                assert((usize::MAX as int) * (COORD_LIMIT as int)
                    < 0x7fffffffffffffffffffffffffff0000i128 as int) by (nonlinear_arith);
                assert forall|t: int| 0 <= t < d implies
                    -((usize::MAX as int) * (COORD_LIMIT as int)) <= #[trigger] sums0[t]
                        <= (usize::MAX as int) * (COORD_LIMIT as int) by {
                    let tk = upto(j as int);
                    assert forall|u: int| 0 <= u < tk.len()
                        implies (#[trigger] tk[u] as int) < pts.len() by {
                        assert(tk[u] == u as usize);
                    }
                    lemma_sum_bounds(pts, tk, rlo@, rhi@, t, d as int);
                    assert((tk.len() as int) * (COORD_LIMIT as int)
                        <= (usize::MAX as int) * (COORD_LIMIT as int)) by (nonlinear_arith)
                        requires tk.len() as int <= usize::MAX as int;
                }
            }
            while a2 < d
                invariant
                    pts_ok(pts, d as int),
                    pts == rows_view(points@),
                    (j as int) < pts.len(),
                    pts[j as int] == points@[j as int]@,
                    a2 <= d,
                    sums@.len() == d,
                    sums0.len() == d,
                    forall|t: int| a2 <= t < d ==> #[trigger] sums@[t] == sums0[t],
                    forall|t: int| 0 <= t < a2
                        ==> #[trigger] sums@[t] == sums0[t] + pts[j as int][t],
                    forall|t: int| 0 <= t < d
                        ==> crate::metric::bounded_val(#[trigger] pts[j as int][t] as int),
                    (usize::MAX as int) * (COORD_LIMIT as int)
                        < 0x7fffffffffffffffffffffffffff0000i128 as int,
                    forall|t: int| 0 <= t < d
                        ==> -((usize::MAX as int) * (COORD_LIMIT as int)) <= #[trigger] sums0[t]
                            <= (usize::MAX as int) * (COORD_LIMIT as int),
                decreases d - a2,
            {
                sums.set(a2, sums[a2] + (points[j][a2] as i128));
                a2 = a2 + 1;
            }
        }
        j = j + 1;
    }
    proof {
        assert(upto(n as int) =~= upto(pts.len() as int));
    }
    (count, sums)
}

/// An aggregation tree: a KD partition augmented with per-node aggregates,
/// plus an embedded KD index that answers the shared query interface over
/// the same point set.
#[derive(Debug)]
pub struct AggTree {
    points: Vec<Vec<i64>>,
    metric: DistanceMetric,
    leaf_size: usize,
    dim: usize,
    root: AggNode,
    kd: KDTree,
}

impl AggTree {
    /// Builds an aggregation tree; validation mirrors the KD build.
    pub fn build(points: Vec<Vec<i64>>, metric: DistanceMetric, leaf_size: usize) -> (r: Result<
        AggTree,
        SpatialError,
    >)
        requires
            rows_bounded(rows_view(points@)),
        ensures
            match r {
                Ok(t) => leaf_size >= 1 && metric_ok(metric)
                    && uniform_dims(rows_view(points@)) && t.inv()
                    && t.pts() == rows_view(points@) && t.metric() == metric
                    && t.dim() == expected_dim(rows_view(points@)),
                Err(e) => (e == SpatialError::InvalidConfiguration
                    && (leaf_size == 0 || !metric_ok(metric)))
                    || (e == SpatialError::DimensionMismatch && leaf_size >= 1
                        && metric_ok(metric) && !uniform_dims(rows_view(points@))),
            },
    {
        let ghost pts = rows_view(points@);
        let copy = copy_rows(&points);
        let kd = match KDTree::build(copy, metric, leaf_size) {
            Ok(kd) => kd,
            Err(e) => {
                return Err(e);
            },
        };
        let n = points.len();
        let d: usize = if n == 0 {
            0
        } else {
            points[0].len()
        };
        proof {
            if n > 0 {
                assert(pts[0] == points@[0]@);
            }
            assert(expected_dim(pts) == d as int);
            assert(pts_ok(pts, d as int));
        }
        let mut idxs: Vec<usize> = Vec::new();
        let mut j: usize = 0;
        while j < n
            invariant
                j <= n,
                idxs@.len() == j,
                forall|t: int| 0 <= t < j ==> #[trigger] idxs@[t] == t,
            decreases n - j,
        {
            idxs.push(j);
            j = j + 1;
        }
        let root = if n == 0 {
            AggNode {
                lo: Vec::new(),
                hi: Vec::new(),
                count: 0,
                sum: Vec::new(),
                kind: AggKind::Leaf { bucket: Vec::new() },
            }
        } else {
            build_agg_node(&points, d, leaf_size, idxs)
        };
        proof {
            if n == 0 {
                assert(root.idxs() =~= Seq::<usize>::empty());
                assert(index_set(root.idxs()) =~= range_set(0));
            } else {
                let idv = idxs@;
                assert(index_set(root.idxs()) == index_set(idv));
                assert forall|p: int| index_set(idv).contains(p)
                    implies range_set(n as int).contains(p) by {
                    let w = choose|w: int| 0 <= w < idv.len() && idv[w] == p;
                    assert(idv[w] == w);
                }
                assert forall|p: int| range_set(n as int).contains(p)
                    implies index_set(idv).contains(p) by {
                    assert(idv[p] == p);
                }
                assert(index_set(idv) =~= range_set(n as int));
            }
        }
        Ok(AggTree { points, metric, leaf_size, dim: d, root, kd })
    }

    /// The exact aggregate over the axis-aligned region `[lo, hi]`: the
    /// count of points inside and their coordinate-wise sum, equal to the
    /// brute-force reduction over the filtered point subset.
    pub fn aggregate_in_region(&self, lo: &Vec<i64>, hi: &Vec<i64>) -> (r: Result<
        RegionAggregate,
        SpatialError,
    >)
        requires
            self.inv(),
        ensures
            match r {
                Ok(agg) => (self.pts().len() == 0
                    || (lo@.len() == self.dim() && hi@.len() == self.dim()))
                    && agg.count == region_count(
                        self.pts(),
                        upto(self.pts().len() as int),
                        lo@,
                        hi@,
                    ) && agg.sum@.len() == self.dim() && forall|a: int| 0 <= a < self.dim()
                    ==> #[trigger] agg.sum@[a] == region_coord_sum(
                        self.pts(),
                        upto(self.pts().len() as int),
                        lo@,
                        hi@,
                        a,
                    ),
                Err(e) => e == SpatialError::DimensionMismatch && self.pts().len() > 0
                    && (lo@.len() != self.dim() || hi@.len() != self.dim()),
            },
    {
        let ghost pts = rows_view(self.points@);
        let n = self.points.len();
        if n == 0 {
            proof {
                assert(upto(0) =~= Seq::<usize>::empty());
            }
            return Ok(RegionAggregate { count: 0, sum: Vec::new() });
        }
        if lo.len() != self.dim || hi.len() != self.dim {
            return Err(SpatialError::DimensionMismatch);
        }
        let (count, sum) = agg_region_node(
            &self.points,
            &self.root,
            lo,
            hi,
            self.dim,
            self.leaf_size,
        );
        proof {
            let idv = upto(n as int);
            assert forall|p: int| index_set(idv).contains(p)
                implies index_set(self.root.idxs()).contains(p) by {
                let w = choose|w: int| 0 <= w < idv.len() && idv[w] == p;
                assert(idv[w] == w as usize);
                assert(range_set(n as int).contains(p));
            }
            assert forall|p: int| index_set(self.root.idxs()).contains(p)
                implies index_set(idv).contains(p) by {
                assert(range_set(n as int).contains(p));
                assert(idv[p] == p as usize);
            }
            assert(index_set(idv) =~= index_set(self.root.idxs()));
            assert forall|i: int, j: int| 0 <= i < j < idv.len() implies idv[i] != idv[j] by {
                assert(idv[i] == i as usize && idv[j] == j as usize);
            }
            lemma_fold_permutation(pts, self.root.idxs(), idv, lo@, hi@, |p: int| 1);
            assert forall|a: int| 0 <= a < self.dim()
                implies #[trigger] sum@[a] == region_coord_sum(pts, idv, lo@, hi@, a) by {
                lemma_fold_permutation(pts, self.root.idxs(), idv, lo@, hi@, |p: int| pts[p][a] as int);
            }
        }
        Ok(RegionAggregate { count, sum })
    }

    /// The indices stored across the leaves, left to right.
    pub closed spec fn leaf_indices(&self) -> Seq<usize> {
        self.root.idxs()
    }

    /// Partition totality for the aggregation tree.
    pub proof fn lemma_partition_totality(&self)
        requires
            self.inv(),
        ensures
            index_set(self.leaf_indices()) == range_set(self.pts().len() as int),
            self.leaf_indices().len() == self.pts().len(),
            forall|i: int, j: int| 0 <= i < j < self.leaf_indices().len()
                ==> self.leaf_indices()[i] != self.leaf_indices()[j],
    {
    }
}

impl SpatialQuery for AggTree {
    closed spec fn pts(&self) -> Seq<Seq<i64>> {
        rows_view(self.points@)
    }

    closed spec fn metric(&self) -> DistanceMetric {
        self.metric
    }

    closed spec fn dim(&self) -> int {
        self.dim as int
    }

    closed spec fn inv(&self) -> bool {
        &&& metric_ok(self.metric)
        &&& pts_ok(rows_view(self.points@), self.dim as int)
        &&& self.leaf_size >= 1
        &&& self.root.wf(rows_view(self.points@), self.dim as int, self.leaf_size as int)
        &&& index_set(self.root.idxs()) == range_set(self.points@.len() as int)
        &&& self.root.idxs().len() == self.points@.len()
        &&& self.kd.inv()
        &&& self.kd.pts() == rows_view(self.points@)
        &&& self.kd.metric() == self.metric
        &&& self.kd.dim() == self.dim as int
        &&& (self.points@.len() == 0 ==> self.dim == 0)
    }

    fn k_nearest(&self, query: &Vec<i64>, k: usize) -> (r: Result<Vec<HeapItem>, SpatialError>) {
        self.kd.k_nearest(query, k)
    }

    fn radius(&self, query: &Vec<i64>, radius: i64) -> (r: Result<Vec<HeapItem>, SpatialError>) {
        self.kd.radius(query, radius)
    }
}

} // verus!
