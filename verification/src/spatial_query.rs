//! The unified query interface all spatial indexes expose, the exact
//! characterizations of its results, and a linear-scan reference
//! implementation.

use vstd::prelude::*;

use crate::heap::{
    CandidateSet, HeapItem, entry_ok, has_index, is_candidates, lemma_candidates_insert,
    lemma_candidates_unique, lemma_entry_index_unique, lemma_sorted_strict_unique, sorted_strict,
};
use crate::metric::{DistanceMetric, SpatialError, bounded_row, dist, distance, metric_ok};

verus! {

broadcast use vstd::set::group_set_axioms;

/// The point indices `0 .. n`.
pub open spec fn range_set(n: int) -> Set<int> {
    Set::new(|p: int| 0 <= p < n)
}

/// `range_set(n)` is finite and has `n` members.
pub proof fn lemma_range_set(n: int)
    requires
        n >= 0,
    ensures
        range_set(n).finite(),
        range_set(n).len() == n,
    decreases n,
{
    if n == 0 {
        assert(range_set(0) =~= Set::<int>::empty());
    } else {
        lemma_range_set(n - 1);
        assert(range_set(n) =~= range_set(n - 1).insert(n - 1));
    }
}

/// A point set the spatial structures accept: every row has dimension `d`
/// and bounded coordinates.
pub open spec fn pts_ok(pts: Seq<Seq<i64>>, d: int) -> bool {
    forall|i: int| 0 <= i < pts.len()
        ==> (#[trigger] pts[i]).len() == d && bounded_row(pts[i])
}

/// The coordinate rows of an owned point table.
pub open spec fn rows_view(v: Seq<Vec<i64>>) -> Seq<Seq<i64>> {
    v.map_values(|r: Vec<i64>| r@)
}

/// `r` is the exact k-nearest answer over the whole point set: the `min(k,
/// n)` closest points, ascending by distance key and, on ties, by index.
pub open spec fn is_knn(
    r: Seq<HeapItem>,
    pts: Seq<Seq<i64>>,
    m: DistanceMetric,
    q: Seq<i64>,
    k: int,
) -> bool {
    is_candidates(r, range_set(pts.len() as int), k, pts, m, q)
}

/// `r` is the exact radius answer: every point within the key bound `rad`,
/// each exactly once with its exact key, ascending by distance then index.
pub open spec fn is_radius_result(
    r: Seq<HeapItem>,
    pts: Seq<Seq<i64>>,
    m: DistanceMetric,
    q: Seq<i64>,
    rad: int,
) -> bool {
    &&& sorted_strict(r)
    &&& forall|i: int| 0 <= i < r.len()
        ==> entry_ok(#[trigger] r[i], pts, m, q) && (r[i].distance as int) <= rad
    &&& forall|p: int| 0 <= p < pts.len() && dist(m, q, pts[p]) <= rad ==> has_index(r, p)
}

/// The k-nearest answer is unique: any two sequences that satisfy the
/// characterization for the same point set, metric, query and `k` are equal.
/// Together with each index's contract this says every index structure, and
/// the linear scan, return the very same answer.
pub proof fn lemma_k_nearest_unique(
    r1: Seq<HeapItem>,
    r2: Seq<HeapItem>,
    pts: Seq<Seq<i64>>,
    m: DistanceMetric,
    q: Seq<i64>,
    k: int,
)
    requires
        is_knn(r1, pts, m, q, k),
        is_knn(r2, pts, m, q, k),
    ensures
        r1 == r2,
{
    lemma_range_set(pts.len() as int);
    lemma_candidates_unique(r1, r2, range_set(pts.len() as int), k, pts, m, q);
}

/// The radius answer is unique as well: its members are exactly the points
/// within the bound, and the ascending order pins the sequence.
pub proof fn lemma_radius_unique(
    r1: Seq<HeapItem>,
    r2: Seq<HeapItem>,
    pts: Seq<Seq<i64>>,
    m: DistanceMetric,
    q: Seq<i64>,
    rad: int,
)
    requires
        is_radius_result(r1, pts, m, q, rad),
        is_radius_result(r2, pts, m, q, rad),
    ensures
        r1 == r2,
{
    lemma_entry_index_unique(r1, pts, m, q);
    lemma_entry_index_unique(r2, pts, m, q);
    assert forall|x: HeapItem| r1.contains(x) implies r2.contains(x) by {
        let a = choose|a: int| 0 <= a < r1.len() && r1[a] == x;
        assert(entry_ok(x, pts, m, q));
        assert(has_index(r2, x.index as int));
        let b = choose|b: int| 0 <= b < r2.len() && (#[trigger] r2[b]).index == x.index;
        assert(r2[b] == x);
    }
    assert forall|x: HeapItem| r2.contains(x) implies r1.contains(x) by {
        let a = choose|a: int| 0 <= a < r2.len() && r2[a] == x;
        assert(entry_ok(x, pts, m, q));
        assert(has_index(r1, x.index as int));
        let b = choose|b: int| 0 <= b < r1.len() && (#[trigger] r1[b]).index == x.index;
        assert(r1[b] == x);
    }
    assert(r1.len() == r2.len()) by {
        crate::heap::lemma_item_set_len(r1);
        crate::heap::lemma_item_set_len(r2);
        assert(crate::heap::item_set(r1) =~= crate::heap::item_set(r2));
    }
    lemma_sorted_strict_unique(r1, r2);
}

/// The capability contract shared by every spatial index: exact k-nearest
/// and radius queries against an immutable, already validated structure.
pub trait SpatialQuery: Sized {
    /// The indexed coordinate rows.
    spec fn pts(&self) -> Seq<Seq<i64>>;

    /// The metric the index was built with.
    spec fn metric(&self) -> DistanceMetric;

    /// The common dimension of all indexed rows.
    spec fn dim(&self) -> int;

    /// The index is well formed: built by a constructor and untouched since.
    spec fn inv(&self) -> bool;

    /// The `min(k, n)` nearest points to `query`, ascending by distance key
    /// and, on ties, by index. A query of the wrong dimension is rejected;
    /// any dimension is accepted against an empty index, which returns the
    /// empty answer.
    fn k_nearest(&self, query: &Vec<i64>, k: usize) -> (r: Result<Vec<HeapItem>, SpatialError>)
        requires
            self.inv(),
            bounded_row(query@),
        ensures
            match r {
                Ok(v) => (self.pts().len() == 0 || query@.len() == self.dim())
                    && is_knn(v@, self.pts(), self.metric(), query@, k as int),
                Err(e) => e == SpatialError::DimensionMismatch && self.pts().len() > 0
                    && query@.len() != self.dim(),
            };

    /// Every point within distance key `radius` of `query`, ascending by
    /// distance then index. A negative radius is rejected, then a query of
    /// the wrong dimension; an empty index accepts any dimension.
    fn radius(&self, query: &Vec<i64>, radius: i64) -> (r: Result<Vec<HeapItem>, SpatialError>)
        requires
            self.inv(),
            bounded_row(query@),
        ensures
            match r {
                Ok(v) => radius >= 0 && (self.pts().len() == 0 || query@.len() == self.dim())
                    && is_radius_result(v@, self.pts(), self.metric(), query@, radius as int),
                Err(e) => (e == SpatialError::InvalidQuery && radius < 0)
                    || (e == SpatialError::DimensionMismatch && radius >= 0
                        && self.pts().len() > 0 && query@.len() != self.dim()),
            };
}

/// The brute-force reference: scans every point and keeps the `k` best in a
/// bounded candidate set. Every tree's `k_nearest` provably agrees with it.
pub fn linear_scan_k_nearest(
    points: &Vec<Vec<i64>>,
    m: DistanceMetric,
    query: &Vec<i64>,
    k: usize,
) -> (r: Vec<HeapItem>)
    requires
        metric_ok(m),
        bounded_row(query@),
        pts_ok(rows_view(points@), query@.len() as int),
    ensures
        is_knn(r@, rows_view(points@), m, query@, k as int),
{
    let ghost pts = rows_view(points@);
    let n = points.len();
    let mut cs = CandidateSet::new(k);
    let ghost mut seen = Set::<int>::empty();
    proof {
        lemma_range_set(0);
        assert(seen =~= range_set(0));
        assert(is_candidates(cs@, seen, k as int, pts, m, query@));
    }
    let mut i: usize = 0;
    while i < n
        invariant
            metric_ok(m),
            bounded_row(query@),
            pts_ok(pts, query@.len() as int),
            pts == rows_view(points@),
            pts.len() == n,
            i <= n,
            seen == range_set(i as int),
            seen.finite(),
            cs.cap_spec() == k as int,
            cs@.len() <= k as int,
            sorted_strict(cs@),
            is_candidates(cs@, seen, k as int, pts, m, query@),
        decreases n - i,
    {
        proof {
            assert(pts[i as int] == points@[i as int]@);
        }
        let dk = match distance(m, query, &points[i]) {
            Ok(dk) => dk,
            Err(_) => {
                proof {
                    assert(false);
                }
                0
            },
        };
        let e = HeapItem { distance: dk, index: i };
        proof {
            assert(entry_ok(e, pts, m, query@));
            assert(!seen.contains(i as int));
            assert(forall|t: int| 0 <= t < cs@.len()
                ==> seen.contains((#[trigger] cs@[t]).index as int));
            assert(forall|t: int| 0 <= t < cs@.len() ==> #[trigger] cs@[t] != e);
            lemma_candidates_insert(cs@, seen, k as int, pts, m, query@, e);
        }
        cs.insert(e);
        proof {
            seen = seen.insert(i as int);
            assert(seen =~= range_set(i + 1));
        }
        i = i + 1;
    }
    cs.into_items()
}

/// The running state of a radius traversal: collected entries are exact, lie
/// within the bound, carry distinct indices drawn from the seen points, and
/// every seen point within the bound has been collected.
pub open spec fn radius_acc(
    out: Seq<HeapItem>,
    seen: Set<int>,
    pts: Seq<Seq<i64>>,
    m: DistanceMetric,
    q: Seq<i64>,
    rad: int,
) -> bool {
    &&& forall|i: int| 0 <= i < out.len()
        ==> entry_ok(#[trigger] out[i], pts, m, q) && (out[i].distance as int) <= rad
            && seen.contains(out[i].index as int)
    &&& forall|i: int, j: int| 0 <= i < j < out.len()
        ==> (#[trigger] out[i]).index != (#[trigger] out[j]).index
    &&& forall|p: int| #[trigger] seen.contains(p) ==> 0 <= p < pts.len()
    &&& forall|p: int| #[trigger] seen.contains(p) && dist(m, q, pts[p]) <= rad
        ==> has_index(out, p)
}

/// Sorting a complete radius collection yields the canonical radius answer.
pub proof fn lemma_radius_sorted(
    out: Seq<HeapItem>,
    sorted: Seq<HeapItem>,
    pts: Seq<Seq<i64>>,
    m: DistanceMetric,
    q: Seq<i64>,
    rad: int,
)
    requires
        radius_acc(out, range_set(pts.len() as int), pts, m, q, rad),
        sorted_strict(sorted),
        sorted.len() == out.len(),
        forall|x: HeapItem| sorted.contains(x) <==> out.contains(x),
    ensures
        is_radius_result(sorted, pts, m, q, rad),
{
    assert forall|i: int| 0 <= i < sorted.len()
        implies entry_ok(#[trigger] sorted[i], pts, m, q) && (sorted[i].distance as int) <= rad by {
        assert(sorted.contains(sorted[i])) by {
            assert(sorted[i] == sorted[i]);
        }
        let w = choose|w: int| 0 <= w < out.len() && out[w] == sorted[i];
    }
    assert forall|p: int| 0 <= p < pts.len() && dist(m, q, pts[p]) <= rad
        implies has_index(sorted, p) by {
        assert(range_set(pts.len() as int).contains(p));
        assert(has_index(out, p));
        let w = choose|w: int| 0 <= w < out.len() && (#[trigger] out[w]).index == p;
        assert(out.contains(out[w]));
        assert(sorted.contains(out[w]));
        let v = choose|v: int| 0 <= v < sorted.len() && sorted[v] == out[w];
    }
}

/// Every row's coordinates are within the accepted magnitude bound.
pub open spec fn rows_bounded(pts: Seq<Seq<i64>>) -> bool {
    forall|i: int| 0 <= i < pts.len() ==> bounded_row(#[trigger] pts[i])
}

/// All rows share one dimension.
pub open spec fn uniform_dims(pts: Seq<Seq<i64>>) -> bool {
    forall|i: int| 0 <= i < pts.len() ==> (#[trigger] pts[i]).len() == pts[0].len()
}

/// The common dimension of a uniform point set; zero when it is empty.
pub open spec fn expected_dim(pts: Seq<Seq<i64>>) -> int {
    if pts.len() == 0 {
        0
    } else {
        pts[0].len() as int
    }
}

} // verus!
