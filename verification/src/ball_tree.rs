//! Ball tree: recursive partition by bounding hyperspheres built with a
//! farthest-point pivot heuristic. Pruning rests on the triangle inequality,
//! which the Manhattan and Chebyshev keys satisfy outright; the squared
//! Euclidean and powered Minkowski keys are not subadditive, so under those
//! metrics traversal descends without pruning and stays exact.

use vstd::prelude::*;

use crate::heap::{
    CandidateSet, HeapItem, entry_ok, has_index, index_set, is_candidates, lemma_candidates_insert,
    lemma_candidates_skip_all, lemma_index_set_concat, lemma_index_set_finite,
    lemma_index_set_take_step, sort_items,
};
use crate::metric::{
    COORD_LIMIT, DistanceMetric, SpatialError, bounded_row, dist, distance, lemma_dist_symmetric,
    lemma_triangle, metric_ok, triangle_ok,
};
use crate::spatial_query::{
    SpatialQuery, expected_dim, is_knn, is_radius_result, lemma_radius_sorted, lemma_range_set,
    pts_ok, radius_acc, range_set, rows_bounded, rows_view, uniform_dims,
};

verus! {

broadcast use vstd::set::group_set_axioms;

/// Soundness of sphere pruning: for a metric whose key satisfies the
/// triangle inequality, the distance from the query to the sphere's center
/// minus the sphere's radius bounds the distance to every point inside the
/// sphere from below.
pub proof fn lemma_ball_bound(
    m: DistanceMetric,
    q: Seq<i64>,
    center: Seq<i64>,
    radius: int,
    row: Seq<i64>,
)
    requires
        triangle_ok(m),
        q.len() == center.len(),
        center.len() == row.len(),
        dist(m, center, row) <= radius,
    ensures
        dist(m, q, row) >= dist(m, q, center) - radius,
{
    lemma_triangle(m, q, row, center);
    lemma_dist_symmetric(m, row, center);
    lemma_dist_symmetric(m, q, center);
    lemma_triangle(m, q, center, row);
    lemma_dist_symmetric(m, center, row);
}

/// A ball node's payload.
#[derive(Debug)]
pub enum BallKind {
    /// A bucket of at most `leaf_size` point indices.
    Leaf { bucket: Vec<usize> },
    /// A split into two child spheres.
    Internal { left: Box<BallNode>, right: Box<BallNode> },
}

/// A ball node: the bounding sphere of its subtree and a bucket or split.
#[derive(Debug)]
pub struct BallNode {
    /// Center of the bounding sphere (a clamped integer centroid).
    pub center: Vec<i64>,
    /// Radius key: the largest distance key from the center to any subtree
    /// point.
    pub radius: i128,
    /// Bucket or split.
    pub kind: BallKind,
}

impl BallNode {
    /// All point indices stored below this node.
    pub open spec fn idxs(self) -> Seq<usize>
        decreases self,
    {
        match self.kind {
            BallKind::Leaf { bucket } => bucket@,
            BallKind::Internal { left, right } => (*left).idxs() + (*right).idxs(),
        }
    }

    /// Structural soundness: the sphere covers the subtree, indices are
    /// distinct and valid, buckets respect `leaf_size`.
    pub open spec fn wf(self, pts: Seq<Seq<i64>>, m: DistanceMetric, d: int, leaf_size: int) -> bool
        decreases self,
    {
        &&& self.center@.len() == d
        &&& bounded_row(self.center@)
        &&& 0 <= self.radius <= crate::metric::KEY_LIMIT
        &&& (forall|p: int| #[trigger] index_set(self.idxs()).contains(p)
            ==> 0 <= p < pts.len() && dist(m, self.center@, pts[p]) <= self.radius as int)
        &&& (forall|i: int, j: int| 0 <= i < j < self.idxs().len()
            ==> self.idxs()[i] != self.idxs()[j])
        &&& match self.kind {
            BallKind::Leaf { bucket } => bucket@.len() <= leaf_size,
            BallKind::Internal { left, right } => {
                &&& (*left).wf(pts, m, d, leaf_size)
                &&& (*right).wf(pts, m, d, leaf_size)
                &&& (*left).idxs().len() > 0
                &&& (*right).idxs().len() > 0
            },
        }
    }
}

/// The clamped integer centroid of a point subset: the truncated mean per
/// axis, clamped into the accepted coordinate range. Any center gives a
/// valid bounding sphere; the centroid keeps it tight.
fn centroid(points: &Vec<Vec<i64>>, d: usize, idxs: &Vec<usize>) -> (c: Vec<i64>)
    requires
        pts_ok(rows_view(points@), d as int),
        idxs@.len() >= 1,
        forall|j: int| 0 <= j < idxs@.len() ==> (#[trigger] idxs@[j] as int) < points@.len(),
    ensures
        c@.len() == d,
        bounded_row(c@),
{
    let ghost pts = rows_view(points@);
    let n = idxs.len();
    let mut c: Vec<i64> = Vec::new();
    let mut a: usize = 0;
    while a < d
        invariant
            pts_ok(pts, d as int),
            pts == rows_view(points@),
            n == idxs@.len(),
            n >= 1,
            forall|j: int| 0 <= j < idxs@.len() ==> (#[trigger] idxs@[j] as int) < points@.len(),
            a <= d,
            c@.len() == a,
            forall|t: int| 0 <= t < a ==> crate::metric::bounded_val(#[trigger] c@[t] as int),
        decreases d - a,
    {
        let mut acc: i128 = 0;
        let mut j: usize = 0;
        while j < n
            invariant
                pts_ok(pts, d as int),
                pts == rows_view(points@),
                n == idxs@.len(),
                a < d,
                forall|t: int| 0 <= t < idxs@.len()
                    ==> (#[trigger] idxs@[t] as int) < points@.len(),
                j <= n,
                -(j as int) * (COORD_LIMIT as int) <= acc as int <= (j as int) * (COORD_LIMIT as int),
            decreases n - j,
        {
            let p = idxs[j];
            proof {
                assert(pts[p as int] == points@[p as int]@);
                assert(bounded_row(pts[p as int]));
                assert(crate::metric::bounded_val(pts[p as int][a as int] as int));
                assert((j as int) * (COORD_LIMIT as int) + (COORD_LIMIT as int)
                    == (j + 1) * (COORD_LIMIT as int)) by (nonlinear_arith);
                assert((j + 1) * (COORD_LIMIT as int) <= (usize::MAX as int) * (COORD_LIMIT as int))
                    by (nonlinear_arith)
                    requires j + 1 <= usize::MAX as int;
                assert((usize::MAX as int) * (COORD_LIMIT as int)
                    < 0x7fffffffffffffffffffffffffff0000i128 as int) by (nonlinear_arith);
                assert(-((usize::MAX as int) * (COORD_LIMIT as int)) <= -((j + 1) * (
                COORD_LIMIT as int))) by (nonlinear_arith)
                    requires j + 1 <= usize::MAX as int;
            }
            acc = acc + (points[p][a] as i128);
            j = j + 1;
        }
        let mean = acc / (n as i128);
        let v: i64 = if mean > COORD_LIMIT as i128 {
            COORD_LIMIT
        } else if mean < -(COORD_LIMIT as i128) {
            -COORD_LIMIT
        } else {
            mean as i64
        };
        c.push(v);
        a = a + 1;
    }
    proof {
        let p0 = idxs@[0] as int;
        assert((idxs@[0] as int) < points@.len());
        assert(pts[p0].len() == d && bounded_row(pts[p0]));
    }
    c
}

/// The largest distance key from `center` to any point of the subset.
fn max_dist(points: &Vec<Vec<i64>>, m: DistanceMetric, center: &Vec<i64>, idxs: &Vec<usize>, d: usize) -> (r: i128)
    requires
        metric_ok(m),
        pts_ok(rows_view(points@), d as int),
        center@.len() == d,
        bounded_row(center@),
        forall|j: int| 0 <= j < idxs@.len() ==> (#[trigger] idxs@[j] as int) < points@.len(),
    ensures
        0 <= r <= crate::metric::KEY_LIMIT,
        forall|j: int| 0 <= j < idxs@.len()
            ==> dist(m, center@, rows_view(points@)[#[trigger] idxs@[j] as int]) <= r as int,
{
    let ghost pts = rows_view(points@);
    let n = idxs.len();
    let mut best: i128 = 0;
    let mut j: usize = 0;
    while j < n
        invariant
            metric_ok(m),
            pts_ok(pts, d as int),
            pts == rows_view(points@),
            n == idxs@.len(),
            center@.len() == d,
            bounded_row(center@),
            forall|t: int| 0 <= t < idxs@.len() ==> (#[trigger] idxs@[t] as int) < points@.len(),
            j <= n,
            0 <= best <= crate::metric::KEY_LIMIT,
            forall|t: int| 0 <= t < j
                ==> dist(m, center@, pts[#[trigger] idxs@[t] as int]) <= best as int,
        decreases n - j,
    {
        let p = idxs[j];
        proof {
            assert(pts[p as int] == points@[p as int]@);
        }
        let dk = match distance(m, center, &points[p]) {
            Ok(dk) => dk,
            Err(_) => {
                proof {
                    assert(false);
                }
                0
            },
        };
        if dk > best {
            best = dk;
        }
        j = j + 1;
    }
    best
}

/// The subset point farthest from `from` (smallest index on ties).
fn farthest(points: &Vec<Vec<i64>>, m: DistanceMetric, from: usize, idxs: &Vec<usize>, d: usize) -> (r: usize)
    requires
        metric_ok(m),
        pts_ok(rows_view(points@), d as int),
        (from as int) < points@.len(),
        idxs@.len() >= 1,
        forall|j: int| 0 <= j < idxs@.len() ==> (#[trigger] idxs@[j] as int) < points@.len(),
    ensures
        (r as int) < points@.len(),
{
    let ghost pts = rows_view(points@);
    let n = idxs.len();
    let mut best_idx: usize = idxs[0];
    let mut best_key: i128 = -1;
    let mut j: usize = 0;
    while j < n
        invariant
            metric_ok(m),
            pts_ok(pts, d as int),
            pts == rows_view(points@),
            n == idxs@.len(),
            n >= 1,
            (from as int) < points@.len(),
            forall|t: int| 0 <= t < idxs@.len() ==> (#[trigger] idxs@[t] as int) < points@.len(),
            j <= n,
            (best_idx as int) < points@.len(),
        decreases n - j,
    {
        let p = idxs[j];
        proof {
            assert(pts[p as int] == points@[p as int]@);
            assert(pts[from as int] == points@[from as int]@);
        }
        let dk = match distance(m, &points[from], &points[p]) {
            Ok(dk) => dk,
            Err(_) => {
                proof {
                    assert(false);
                }
                0
            },
        };
        if dk > best_key {
            best_key = dk;
            best_idx = p;
        }
        j = j + 1;
    }
    best_idx
}

/// Recursive ball build over a non-empty index subset: bounding sphere from
/// the clamped centroid, farthest-point pivots, partition by nearer pivot
/// with a middle-split fallback when one side would be empty.
fn build_ball_node(points: &Vec<Vec<i64>>, m: DistanceMetric, d: usize, leaf_size: usize, idxs: Vec<usize>) -> (node: BallNode)
    requires
        metric_ok(m),
        pts_ok(rows_view(points@), d as int),
        leaf_size >= 1,
        idxs@.len() >= 1,
        forall|j: int| 0 <= j < idxs@.len() ==> (#[trigger] idxs@[j] as int) < points@.len(),
        forall|i: int, j: int| 0 <= i < j < idxs@.len() ==> idxs@[i] != idxs@[j],
    ensures
        node.wf(rows_view(points@), m, d as int, leaf_size as int),
        index_set(node.idxs()) == index_set(idxs@),
        node.idxs().len() == idxs@.len(),
    decreases idxs@.len(),
{
    let ghost pts = rows_view(points@);
    let center = centroid(points, d, &idxs);
    let radius = max_dist(points, m, &center, &idxs, d);
    let n = idxs.len();
    if n <= leaf_size {
        let node = BallNode { center, radius, kind: BallKind::Leaf { bucket: idxs } };
        proof {
            assert(node.idxs() == idxs@);
            assert forall|p: int| #[trigger] index_set(node.idxs()).contains(p)
                implies 0 <= p < pts.len() && dist(m, node.center@, pts[p]) <= node.radius as int by {
                let t = choose|t: int| 0 <= t < node.idxs().len() && node.idxs()[t] == p;
            }
        }
        node
    } else {
        // farthest-point pivots
        let pivot_a = farthest(points, m, idxs[0], &idxs, d);
        let pivot_b = farthest(points, m, pivot_a, &idxs, d);
        // order the subset by how much nearer each point is to pivot A than
        // to pivot B, ties by index
        let mut items: Vec<HeapItem> = Vec::new();
        let mut j: usize = 0;
        while j < n
            invariant
                metric_ok(m),
                pts_ok(pts, d as int),
                pts == rows_view(points@),
                n == idxs@.len(),
                (pivot_a as int) < points@.len(),
                (pivot_b as int) < points@.len(),
                forall|t: int| 0 <= t < idxs@.len() ==> (#[trigger] idxs@[t] as int) < points@.len(),
                forall|t: int, u: int| 0 <= t < u < idxs@.len() ==> idxs@[t] != idxs@[u],
                j <= n,
                items@.len() == j,
                forall|t: int| 0 <= t < j ==> (#[trigger] items@[t]).index == idxs@[t],
            decreases n - j,
        {
            let p = idxs[j];
            proof {
                assert(pts[p as int] == points@[p as int]@);
                assert(pts[pivot_a as int] == points@[pivot_a as int]@);
                assert(pts[pivot_b as int] == points@[pivot_b as int]@);
            }
            let da = match distance(m, &points[pivot_a], &points[p]) {
                Ok(v) => v,
                Err(_) => {
                    proof {
                        assert(false);
                    }
                    0
                },
            };
            let db = match distance(m, &points[pivot_b], &points[p]) {
                Ok(v) => v,
                Err(_) => {
                    proof {
                        assert(false);
                    }
                    0
                },
            };
            items.push(HeapItem { distance: da - db, index: p });
            j = j + 1;
        }
        proof {
            assert forall|t: int, u: int| 0 <= t < u < items@.len()
                implies (#[trigger] items@[t]).index != (#[trigger] items@[u]).index by {
                assert(items@[t].index == idxs@[t] && items@[u].index == idxs@[u]);
            }
        }
        let sorted = sort_items(items);
        // points nearer pivot A (non-positive key) go left; fall back to a
        // middle split if either side would be empty
        let mut c: usize = 0;
        while c < n
            invariant
                n == sorted@.len(),
                c <= n,
                forall|t: int| 0 <= t < c ==> (#[trigger] sorted@[t]).distance <= 0,
            ensures
                c <= n,
            decreases n - c,
        {
            if sorted[c].distance > 0 {
                break;
            }
            c = c + 1;
        }
        let split = if c == 0 || c == n {
            (n - 1) / 2 + 1
        } else {
            c
        };
        let mut left_in: Vec<usize> = Vec::new();
        let mut right_in: Vec<usize> = Vec::new();
        let mut t: usize = 0;
        while t < split
            invariant
                split <= sorted@.len(),
                t <= split,
                left_in@.len() == t,
                forall|u: int| 0 <= u < t ==> #[trigger] left_in@[u] == (sorted@[u]).index,
            decreases split - t,
        {
            left_in.push(sorted[t].index);
            t = t + 1;
        }
        let mut u: usize = split;
        while u < n
            invariant
                n == sorted@.len(),
                split <= u <= n,
                right_in@.len() == u - split,
                forall|w: int| 0 <= w < u - split
                    ==> #[trigger] right_in@[w] == (sorted@[split + w]).index,
            decreases n - u,
        {
            right_in.push(sorted[u].index);
            u = u + 1;
        }
        proof {
            crate::kd_tree::lemma_kd_split(
                idxs@, items@, sorted@, left_in@, right_in@, pts, 0, split as int,
                points@.len() as int,
            );
        }
        let left = build_ball_node(points, m, d, leaf_size, left_in);
        let right = build_ball_node(points, m, d, leaf_size, right_in);
        let ghost left_set = index_set(left.idxs());
        let ghost right_set = index_set(right.idxs());
        let node = BallNode {
            center,
            radius,
            kind: BallKind::Internal { left: Box::new(left), right: Box::new(right) },
        };
        proof {
            lemma_index_set_concat(left.idxs(), right.idxs());
            assert(node.idxs() == left.idxs() + right.idxs());
            assert(index_set(node.idxs()) =~= index_set(idxs@));
            assert forall|i: int, j: int| 0 <= i < j < node.idxs().len()
                implies node.idxs()[i] != node.idxs()[j] by {
                let li = left.idxs();
                let ri = right.idxs();
                if i < li.len() && j >= li.len() {
                    assert(node.idxs()[i] == li[i] && node.idxs()[j] == ri[j - li.len()]);
                    if li[i] == ri[j - li.len()] {
                        assert(left_set.contains(li[i] as int));
                        assert(right_set.contains(ri[j - li.len()] as int));
                    }
                } else if i < li.len() {
                    assert(node.idxs()[i] == li[i] && node.idxs()[j] == li[j]);
                } else {
                    assert(node.idxs()[i] == ri[i - li.len()] && node.idxs()[j] == ri[j - li.len()]);
                }
            }
            assert forall|p: int| #[trigger] index_set(node.idxs()).contains(p)
                implies 0 <= p < pts.len() && dist(m, node.center@, pts[p]) <= node.radius as int by {
                assert(index_set(idxs@).contains(p));
                let w = choose|w: int| 0 <= w < idxs@.len() && idxs@[w] == p;
            }
        }
        node
    }
}

/// One step of a k-nearest traversal below `node`.
fn ball_knn_node(
    points: &Vec<Vec<i64>>,
    m: DistanceMetric,
    query: &Vec<i64>,
    node: &BallNode,
    d: usize,
    leaf_size: usize,
    k: usize,
    cs: &mut CandidateSet,
    Ghost(seen): Ghost<Set<int>>,
) -> (gs: Ghost<Set<int>>)
    requires
        metric_ok(m),
        pts_ok(rows_view(points@), d as int),
        bounded_row(query@),
        query@.len() == d,
        node.wf(rows_view(points@), m, d as int, leaf_size as int),
        seen.finite(),
        forall|t: int| 0 <= t < node.idxs().len()
            ==> !seen.contains(#[trigger] node.idxs()[t] as int),
        old(cs).cap_spec() == k as int,
        old(cs)@.len() <= k as int,
        is_candidates(old(cs)@, seen, k as int, rows_view(points@), m, query@),
    ensures
        gs@ == seen.union(index_set(node.idxs())),
        gs@.finite(),
        final(cs).cap_spec() == k as int,
        final(cs)@.len() <= k as int,
        is_candidates(final(cs)@, gs@, k as int, rows_view(points@), m, query@),
    decreases *node, 0int,
{
    let ghost pts = rows_view(points@);
    match &node.kind {
        BallKind::Leaf { bucket } => {
            proof {
                assert(node.idxs() == bucket@);
            }
            let n_b = bucket.len();
            let ghost mut cur = seen;
            let mut j: usize = 0;
            proof {
                assert(bucket@.take(0) =~= Seq::<usize>::empty());
                assert(index_set(bucket@.take(0)) =~= Set::<int>::empty());
                assert(cur =~= seen.union(index_set(bucket@.take(0))));
            }
            while j < n_b
                invariant
                    metric_ok(m),
                    pts_ok(pts, d as int),
                    pts == rows_view(points@),
                    bounded_row(query@),
                    query@.len() == d,
                    node.wf(pts, m, d as int, leaf_size as int),
                    node.idxs() == bucket@,
                    n_b == bucket@.len(),
                    j <= n_b,
                    seen.finite(),
                    cur.finite(),
                    cur == seen.union(index_set(bucket@.take(j as int))),
                    forall|t: int| 0 <= t < bucket@.len()
                        ==> !seen.contains(#[trigger] bucket@[t] as int),
                    cs.cap_spec() == k as int,
                    cs@.len() <= k as int,
                    is_candidates(cs@, cur, k as int, pts, m, query@),
                decreases n_b - j,
            {
                let p = bucket[j];
                proof {
                    assert(index_set(node.idxs()).contains(p as int)) by {
                        assert(bucket@[j as int] == p);
                    }
                    assert(pts[p as int] == points@[p as int]@);
                }
                let dk = match distance(m, query, &points[p]) {
                    Ok(dk) => dk,
                    Err(_) => {
                        proof {
                            assert(false);
                        }
                        0
                    },
                };
                let e = HeapItem { distance: dk, index: p };
                proof {
                    assert(entry_ok(e, pts, m, query@));
                    assert(!cur.contains(p as int)) by {
                        if cur.contains(p as int) {
                            if index_set(bucket@.take(j as int)).contains(p as int) {
                                let w = choose|w: int|
                                    0 <= w < j && bucket@.take(j as int)[w] == p;
                                assert(bucket@[w] == bucket@[j as int]);
                            }
                        }
                    }
                    assert(forall|t: int| 0 <= t < cs@.len()
                        ==> cur.contains((#[trigger] cs@[t]).index as int));
                    assert(forall|t: int| 0 <= t < cs@.len() ==> #[trigger] cs@[t] != e);
                    lemma_candidates_insert(cs@, cur, k as int, pts, m, query@, e);
                }
                cs.insert(e);
                proof {
                    lemma_index_set_take_step(bucket@, j as int);
                    cur = cur.insert(p as int);
                    assert(cur =~= seen.union(index_set(bucket@.take(j + 1))));
                }
                j = j + 1;
            }
            proof {
                assert(bucket@.take(n_b as int) =~= bucket@);
            }
            Ghost(seen.union(index_set(bucket@)))
        },
        BallKind::Internal { left, right } => {
            let ghost li = (**left).idxs();
            let ghost ri = (**right).idxs();
            proof {
                assert((**left).wf(pts, m, d as int, leaf_size as int));
                assert((**right).wf(pts, m, d as int, leaf_size as int));
                assert(node.idxs() == li + ri);
                assert(forall|t: int| 0 <= t < li.len() ==> #[trigger] li[t] == node.idxs()[t]);
                assert(forall|t: int| 0 <= t < ri.len()
                    ==> #[trigger] ri[t] == node.idxs()[li.len() + t]);
                lemma_index_set_finite(li);
                lemma_index_set_finite(ri);
                lemma_index_set_concat(li, ri);
            }
            let dl = match distance(m, query, &left.center) {
                Ok(v) => v,
                Err(_) => {
                    proof {
                        assert(false);
                    }
                    0
                },
            };
            let dr = match distance(m, query, &right.center) {
                Ok(v) => v,
                Err(_) => {
                    proof {
                        assert(false);
                    }
                    0
                },
            };
            if dl <= dr {
                let gs1 = ball_knn_child(points, m, query, left, d, leaf_size, k, dl, cs, Ghost(seen));
                proof {
                    assert forall|t: int| 0 <= t < ri.len()
                        implies !gs1@.contains(#[trigger] ri[t] as int) by {
                        if index_set(li).contains(ri[t] as int) {
                            let w = choose|w: int| 0 <= w < li.len() && li[w] == ri[t];
                            assert(node.idxs()[w] == node.idxs()[li.len() + t]);
                        }
                    }
                }
                let gs2 = ball_knn_child(points, m, query, right, d, leaf_size, k, dr, cs, Ghost(gs1@));
                proof {
                    assert(gs2@ =~= seen.union(index_set(node.idxs())));
                }
                Ghost(seen.union(index_set(node.idxs())))
            } else {
                let gs1 = ball_knn_child(points, m, query, right, d, leaf_size, k, dr, cs, Ghost(seen));
                proof {
                    assert forall|t: int| 0 <= t < li.len()
                        implies !gs1@.contains(#[trigger] li[t] as int) by {
                        if index_set(ri).contains(li[t] as int) {
                            let w = choose|w: int| 0 <= w < ri.len() && ri[w] == li[t];
                            assert(node.idxs()[t] == node.idxs()[li.len() + w]);
                        }
                    }
                }
                let gs2 = ball_knn_child(points, m, query, left, d, leaf_size, k, dl, cs, Ghost(gs1@));
                proof {
                    assert(gs2@ =~= seen.union(index_set(node.idxs())));
                }
                Ghost(seen.union(index_set(node.idxs())))
            }
        },
    }
}

/// Visits one child during a k-nearest traversal: prunes it when the sphere
/// lower bound (valid under a triangle-inequality metric) already exceeds
/// the retained worst distance, else descends.
fn ball_knn_child(
    points: &Vec<Vec<i64>>,
    m: DistanceMetric,
    query: &Vec<i64>,
    child: &BallNode,
    d: usize,
    leaf_size: usize,
    k: usize,
    dc: i128,
    cs: &mut CandidateSet,
    Ghost(seen): Ghost<Set<int>>,
) -> (gs: Ghost<Set<int>>)
    requires
        metric_ok(m),
        pts_ok(rows_view(points@), d as int),
        bounded_row(query@),
        query@.len() == d,
        child.wf(rows_view(points@), m, d as int, leaf_size as int),
        dc == dist(m, query@, child.center@),
        0 <= dc <= crate::metric::KEY_LIMIT,
        seen.finite(),
        forall|t: int| 0 <= t < child.idxs().len()
            ==> !seen.contains(#[trigger] child.idxs()[t] as int),
        old(cs).cap_spec() == k as int,
        old(cs)@.len() <= k as int,
        is_candidates(old(cs)@, seen, k as int, rows_view(points@), m, query@),
    ensures
        gs@ == seen.union(index_set(child.idxs())),
        gs@.finite(),
        final(cs).cap_spec() == k as int,
        final(cs)@.len() <= k as int,
        is_candidates(final(cs)@, gs@, k as int, rows_view(points@), m, query@),
    decreases *child, 1int,
{
    let ghost pts = rows_view(points@);
    let mut prune = false;
    if m.has_triangle() && k > 0 && cs.is_full() {
        match cs.worst() {
            Some(w) => {
                if w.distance < dc - child.radius {
                    prune = true;
                }
            },
            None => {},
        }
    }
    if prune {
        proof {
            lemma_index_set_finite(child.idxs());
            assert(cs@.len() == k as int);
            assert forall|t: int| 0 <= t < child.idxs().len()
                implies (#[trigger] child.idxs()[t] as int) < pts.len() by {
                assert(index_set(child.idxs()).contains(child.idxs()[t] as int)) by {
                    assert(child.idxs()[t] == child.idxs()[t]);
                }
            }
            assert forall|t: int| 0 <= t < child.idxs().len()
                implies (cs@[k as int - 1].distance as int)
                    < dist(m, query@, pts[#[trigger] child.idxs()[t] as int]) by {
                let p = child.idxs()[t] as int;
                assert(index_set(child.idxs()).contains(p)) by {
                    assert(child.idxs()[t] == child.idxs()[t]);
                }
                assert(dist(m, child.center@, pts[p]) <= child.radius as int);
                lemma_ball_bound(m, query@, child.center@, child.radius as int, pts[p]);
            }
            lemma_candidates_skip_all(cs@, seen, k as int, pts, m, query@, child.idxs());
        }
        Ghost(seen.union(index_set(child.idxs())))
    } else {
        ball_knn_node(points, m, query, child, d, leaf_size, k, cs, Ghost(seen))
    }
}

/// One step of a radius traversal below `node`.
fn ball_radius_node(
    points: &Vec<Vec<i64>>,
    m: DistanceMetric,
    query: &Vec<i64>,
    node: &BallNode,
    d: usize,
    leaf_size: usize,
    rad: i128,
    out: &mut Vec<HeapItem>,
    Ghost(seen): Ghost<Set<int>>,
) -> (gs: Ghost<Set<int>>)
    requires
        metric_ok(m),
        pts_ok(rows_view(points@), d as int),
        bounded_row(query@),
        query@.len() == d,
        node.wf(rows_view(points@), m, d as int, leaf_size as int),
        seen.finite(),
        forall|t: int| 0 <= t < node.idxs().len()
            ==> !seen.contains(#[trigger] node.idxs()[t] as int),
        radius_acc(old(out)@, seen, rows_view(points@), m, query@, rad as int),
    ensures
        gs@ == seen.union(index_set(node.idxs())),
        gs@.finite(),
        radius_acc(final(out)@, gs@, rows_view(points@), m, query@, rad as int),
    decreases *node, 0int,
{
    let ghost pts = rows_view(points@);
    match &node.kind {
        BallKind::Leaf { bucket } => {
            proof {
                assert(node.idxs() == bucket@);
            }
            let n_b = bucket.len();
            let ghost mut cur = seen;
            let mut j: usize = 0;
            proof {
                assert(bucket@.take(0) =~= Seq::<usize>::empty());
                assert(index_set(bucket@.take(0)) =~= Set::<int>::empty());
                assert(cur =~= seen.union(index_set(bucket@.take(0))));
            }
            while j < n_b
                invariant
                    metric_ok(m),
                    pts_ok(pts, d as int),
                    pts == rows_view(points@),
                    bounded_row(query@),
                    query@.len() == d,
                    node.wf(pts, m, d as int, leaf_size as int),
                    node.idxs() == bucket@,
                    n_b == bucket@.len(),
                    j <= n_b,
                    seen.finite(),
                    cur.finite(),
                    cur == seen.union(index_set(bucket@.take(j as int))),
                    forall|t: int| 0 <= t < bucket@.len()
                        ==> !seen.contains(#[trigger] bucket@[t] as int),
                    radius_acc(out@, cur, pts, m, query@, rad as int),
                decreases n_b - j,
            {
                let p = bucket[j];
                proof {
                    assert(index_set(node.idxs()).contains(p as int)) by {
                        assert(bucket@[j as int] == p);
                    }
                    assert(pts[p as int] == points@[p as int]@);
                    assert(!cur.contains(p as int)) by {
                        if cur.contains(p as int) {
                            if index_set(bucket@.take(j as int)).contains(p as int) {
                                let w = choose|w: int|
                                    0 <= w < j && bucket@.take(j as int)[w] == p;
                                assert(bucket@[w] == bucket@[j as int]);
                            }
                        }
                    }
                }
                let dk = match distance(m, query, &points[p]) {
                    Ok(dk) => dk,
                    Err(_) => {
                        proof {
                            assert(false);
                        }
                        0
                    },
                };
                let ghost out0 = out@;
                if dk <= rad {
                    out.push(HeapItem { distance: dk, index: p });
                }
                proof {
                    lemma_index_set_take_step(bucket@, j as int);
                    cur = cur.insert(p as int);
                    assert(cur =~= seen.union(index_set(bucket@.take(j + 1))));
                    assert forall|t: int, u: int| 0 <= t < u < out@.len()
                        implies (#[trigger] out@[t]).index != (#[trigger] out@[u]).index by {
                        if u == out0.len() {
                            assert(out@[u].index == p);
                        }
                    }
                    assert forall|x: int| #[trigger] cur.contains(x)
                        && dist(m, query@, pts[x]) <= rad as int
                        implies has_index(out@, x) by {
                        if x == p as int {
                            if dk <= rad {
                                assert(out@[out0.len() as int].index == p);
                            }
                        } else {
                            assert(has_index(out0, x));
                            let w = choose|w: int| 0 <= w < out0.len()
                                && (#[trigger] out0[w]).index == x;
                            assert(out@[w].index == x);
                        }
                    }
                }
                j = j + 1;
            }
            proof {
                assert(bucket@.take(n_b as int) =~= bucket@);
            }
            Ghost(seen.union(index_set(bucket@)))
        },
        BallKind::Internal { left, right } => {
            let ghost li = (**left).idxs();
            let ghost ri = (**right).idxs();
            proof {
                assert((**left).wf(pts, m, d as int, leaf_size as int));
                assert((**right).wf(pts, m, d as int, leaf_size as int));
                assert(node.idxs() == li + ri);
                assert(forall|t: int| 0 <= t < li.len() ==> #[trigger] li[t] == node.idxs()[t]);
                assert(forall|t: int| 0 <= t < ri.len()
                    ==> #[trigger] ri[t] == node.idxs()[li.len() + t]);
                lemma_index_set_finite(li);
                lemma_index_set_finite(ri);
                lemma_index_set_concat(li, ri);
            }
            let gs1 = ball_radius_child(points, m, query, left, d, leaf_size, rad, out, Ghost(seen));
            proof {
                assert forall|t: int| 0 <= t < ri.len()
                    implies !gs1@.contains(#[trigger] ri[t] as int) by {
                    if index_set(li).contains(ri[t] as int) {
                        let w = choose|w: int| 0 <= w < li.len() && li[w] == ri[t];
                        assert(node.idxs()[w] == node.idxs()[li.len() + t]);
                    }
                }
            }
            let gs2 = ball_radius_child(points, m, query, right, d, leaf_size, rad, out, Ghost(gs1@));
            proof {
                assert(gs2@ =~= seen.union(index_set(node.idxs())));
            }
            Ghost(seen.union(index_set(node.idxs())))
        },
    }
}

/// Visits one child during a radius traversal: prunes it when the sphere
/// lower bound exceeds the radius, else descends.
fn ball_radius_child(
    points: &Vec<Vec<i64>>,
    m: DistanceMetric,
    query: &Vec<i64>,
    child: &BallNode,
    d: usize,
    leaf_size: usize,
    rad: i128,
    out: &mut Vec<HeapItem>,
    Ghost(seen): Ghost<Set<int>>,
) -> (gs: Ghost<Set<int>>)
    requires
        metric_ok(m),
        pts_ok(rows_view(points@), d as int),
        bounded_row(query@),
        query@.len() == d,
        child.wf(rows_view(points@), m, d as int, leaf_size as int),
        seen.finite(),
        forall|t: int| 0 <= t < child.idxs().len()
            ==> !seen.contains(#[trigger] child.idxs()[t] as int),
        radius_acc(old(out)@, seen, rows_view(points@), m, query@, rad as int),
    ensures
        gs@ == seen.union(index_set(child.idxs())),
        gs@.finite(),
        radius_acc(final(out)@, gs@, rows_view(points@), m, query@, rad as int),
    decreases *child, 1int,
{
    let ghost pts = rows_view(points@);
    let dc = match distance(m, query, &child.center) {
        Ok(v) => v,
        Err(_) => {
            proof {
                assert(false);
            }
            0
        },
    };
    let mut prune = false;
    if m.has_triangle() {
        if dc - child.radius > rad {
            prune = true;
        }
    }
    if prune {
        proof {
            lemma_index_set_finite(child.idxs());
            let cur = seen.union(index_set(child.idxs()));
            assert forall|x: int| #[trigger] cur.contains(x)
                implies 0 <= x < pts.len() by {
                if index_set(child.idxs()).contains(x) {
                }
            }
            assert forall|x: int| #[trigger] cur.contains(x)
                && dist(m, query@, pts[x]) <= rad as int
                implies has_index(out@, x) by {
                if seen.contains(x) {
                } else {
                    assert(index_set(child.idxs()).contains(x));
                    assert(dist(m, child.center@, pts[x]) <= child.radius as int);
                    lemma_ball_bound(m, query@, child.center@, child.radius as int, pts[x]);
                }
            }
        }
        Ghost(seen.union(index_set(child.idxs())))
    } else {
        ball_radius_node(points, m, query, child, d, leaf_size, rad, out, Ghost(seen))
    }
}

/// A ball tree over an owned copy of the point rows.
#[derive(Debug)]
pub struct BallTree {
    points: Vec<Vec<i64>>,
    metric: DistanceMetric,
    leaf_size: usize,
    dim: usize,
    root: BallNode,
}

impl BallTree {
    /// Builds a ball tree; validation mirrors the KD build.
    pub fn build(points: Vec<Vec<i64>>, metric: DistanceMetric, leaf_size: usize) -> (r: Result<
        BallTree,
        SpatialError,
    >)
        requires
            rows_bounded(rows_view(points@)),
        ensures
            match r {
                Ok(t) => leaf_size >= 1 && metric_ok(metric)
                    && uniform_dims(rows_view(points@)) && t.inv()
                    && t.pts() == rows_view(points@) && t.metric() == metric
                    && t.dim() == expected_dim(rows_view(points@)),
                Err(e) => (e == SpatialError::InvalidConfiguration
                    && (leaf_size == 0 || !metric_ok(metric)))
                    || (e == SpatialError::DimensionMismatch && leaf_size >= 1
                        && metric_ok(metric) && !uniform_dims(rows_view(points@))),
            },
    {
        let ghost pts = rows_view(points@);
        if leaf_size == 0 || !metric.check() {
            return Err(SpatialError::InvalidConfiguration);
        }
        let n = points.len();
        let d: usize = if n == 0 {
            0
        } else {
            points[0].len()
        };
        let mut i: usize = 0;
        while i < n
            invariant
                pts == rows_view(points@),
                n == points@.len(),
                n > 0 ==> d == pts[0].len(),
                i <= n,
                leaf_size >= 1,
                metric_ok(metric),
                forall|t: int| 0 <= t < i ==> (#[trigger] pts[t]).len() == d,
            decreases n - i,
        {
            proof {
                assert(pts[i as int] == points@[i as int]@);
            }
            if points[i].len() != d {
                proof {
                    assert(pts[i as int].len() != pts[0].len());
                    assert(!uniform_dims(pts));
                }
                return Err(SpatialError::DimensionMismatch);
            }
            i = i + 1;
        }
        proof {
            assert(uniform_dims(pts));
            assert(pts_ok(pts, d as int));
        }
        let mut idxs: Vec<usize> = Vec::new();
        let mut j: usize = 0;
        while j < n
            invariant
                j <= n,
                idxs@.len() == j,
                forall|t: int| 0 <= t < j ==> #[trigger] idxs@[t] == t,
            decreases n - j,
        {
            idxs.push(j);
            j = j + 1;
        }
        let root = if n == 0 {
            BallNode { center: Vec::new(), radius: 0, kind: BallKind::Leaf { bucket: Vec::new() } }
        } else {
            build_ball_node(&points, metric, d, leaf_size, idxs)
        };
        proof {
            if n == 0 {
                assert(root.idxs() =~= Seq::<usize>::empty());
                assert(index_set(root.idxs()) =~= range_set(0));
                assert(bounded_row(root.center@));
            } else {
                let idv = idxs@;
                assert forall|p: int| index_set(idv).contains(p)
                    implies range_set(n as int).contains(p) by {
                    let w = choose|w: int| 0 <= w < idv.len() && idv[w] == p;
                    assert(idv[w] == w);
                }
                assert forall|p: int| range_set(n as int).contains(p)
                    implies index_set(idv).contains(p) by {
                    assert(idv[p] == p);
                }
                assert(index_set(idv) =~= range_set(n as int));
            }
        }
        Ok(BallTree { points, metric, leaf_size, dim: d, root })
    }

    /// The indices stored across the leaves, left to right.
    pub closed spec fn leaf_indices(&self) -> Seq<usize> {
        self.root.idxs()
    }

    /// Partition totality for the ball tree.
    pub proof fn lemma_partition_totality(&self)
        requires
            self.inv(),
        ensures
            index_set(self.leaf_indices()) == range_set(self.pts().len() as int),
            self.leaf_indices().len() == self.pts().len(),
            forall|i: int, j: int| 0 <= i < j < self.leaf_indices().len()
                ==> self.leaf_indices()[i] != self.leaf_indices()[j],
    {
    }
}

impl SpatialQuery for BallTree {
    closed spec fn pts(&self) -> Seq<Seq<i64>> {
        rows_view(self.points@)
    }

    closed spec fn metric(&self) -> DistanceMetric {
        self.metric
    }

    closed spec fn dim(&self) -> int {
        self.dim as int
    }

    closed spec fn inv(&self) -> bool {
        &&& metric_ok(self.metric)
        &&& pts_ok(rows_view(self.points@), self.dim as int)
        &&& self.leaf_size >= 1
        &&& self.root.wf(rows_view(self.points@), self.metric, self.dim as int, self.leaf_size as int)
        &&& index_set(self.root.idxs()) == range_set(self.points@.len() as int)
        &&& self.root.idxs().len() == self.points@.len()
    }

    fn k_nearest(&self, query: &Vec<i64>, k: usize) -> (r: Result<Vec<HeapItem>, SpatialError>) {
        let ghost pts = rows_view(self.points@);
        let n = self.points.len();
        if n > 0 && query.len() != self.dim {
            return Err(SpatialError::DimensionMismatch);
        }
        let mut cs = CandidateSet::new(k);
        if n == 0 {
            proof {
                lemma_range_set(0);
                assert(range_set(pts.len() as int) =~= Set::<int>::empty());
                assert(is_knn(cs@, pts, self.metric, query@, k as int));
            }
            return Ok(cs.into_items());
        }
        proof {
            lemma_range_set(0);
            assert(Set::<int>::empty() =~= range_set(0));
            assert(is_candidates(cs@, Set::<int>::empty(), k as int, pts, self.metric, query@));
        }
        let gs = ball_knn_node(
            &self.points,
            self.metric,
            query,
            &self.root,
            self.dim,
            self.leaf_size,
            k,
            &mut cs,
            Ghost(Set::<int>::empty()),
        );
        proof {
            assert(gs@ =~= range_set(pts.len() as int));
        }
        Ok(cs.into_items())
    }

    fn radius(&self, query: &Vec<i64>, radius: i64) -> (r: Result<Vec<HeapItem>, SpatialError>) {
        let ghost pts = rows_view(self.points@);
        if radius < 0 {
            return Err(SpatialError::InvalidQuery);
        }
        let n = self.points.len();
        if n > 0 && query.len() != self.dim {
            return Err(SpatialError::DimensionMismatch);
        }
        let mut out: Vec<HeapItem> = Vec::new();
        if n == 0 {
            proof {
                assert(is_radius_result(out@, pts, self.metric, query@, radius as int));
            }
            return Ok(out);
        }
        proof {
            assert(radius_acc(out@, Set::<int>::empty(), pts, self.metric, query@, radius as int));
        }
        let gs = ball_radius_node(
            &self.points,
            self.metric,
            query,
            &self.root,
            self.dim,
            self.leaf_size,
            radius as i128,
            &mut out,
            Ghost(Set::<int>::empty()),
        );
        proof {
            assert(gs@ =~= range_set(pts.len() as int));
        }
        let sorted = sort_items(out);
        proof {
            lemma_radius_sorted(out@, sorted@, pts, self.metric, query@, radius as int);
        }
        Ok(sorted)
    }
}

} // verus!
