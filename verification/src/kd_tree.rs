//! KD-tree: recursive axis-aligned binary partition with cached bounding
//! boxes, exact k-nearest and radius queries with box pruning.

use vstd::prelude::*;

use crate::bounds::{clamp_point, clamp_row, in_box, lemma_box_bound};
use crate::heap::{
    CandidateSet, HeapItem, entry_ok, has_index, index_set, is_candidates,
    lemma_candidates_insert, lemma_candidates_skip_all, lemma_index_set_concat,
    lemma_index_set_finite, lemma_index_set_take_step, sort_items,
};
use crate::metric::{DistanceMetric, SpatialError, bounded_row, dist, distance, metric_ok};
use crate::spatial_query::{
    SpatialQuery, expected_dim, is_knn, is_radius_result, lemma_radius_sorted, lemma_range_set,
    pts_ok, radius_acc, range_set, rows_bounded, rows_view, uniform_dims,
};

verus! {

broadcast use vstd::set::group_set_axioms;

/// A KD node's payload: either a bucket of point indices or an axis split.
#[derive(Debug)]
pub enum KdKind {
    /// A bucket of at most `leaf_size` point indices.
    Leaf { bucket: Vec<usize> },
    /// A split: points with coordinate `axis` at most `threshold` go left,
    /// the rest right.
    Internal { axis: usize, threshold: i64, left: Box<KdNode>, right: Box<KdNode> },
}

/// A KD node together with the bounding box of every point below it.
#[derive(Debug)]
pub struct KdNode {
    /// Lower corner of the node's bounding box.
    pub lo: Vec<i64>,
    /// Upper corner of the node's bounding box.
    pub hi: Vec<i64>,
    /// Bucket or split.
    pub kind: KdKind,
}

impl KdNode {
    /// All point indices stored below this node, leaves left to right.
    pub open spec fn idxs(self) -> Seq<usize>
        decreases self,
    {
        match self.kind {
            KdKind::Leaf { bucket } => bucket@,
            KdKind::Internal { left, right, .. } => (*left).idxs() + (*right).idxs(),
        }
    }

    /// Structural soundness: the box covers every point below the node, the
    /// indices are distinct and valid, buckets respect `leaf_size` (except
    /// for zero-dimensional points, which cannot be split), and a split
    /// separates its children's points at the threshold, handing the left
    /// child the ceiling and the right child the floor of half the subset.
    pub open spec fn wf(self, pts: Seq<Seq<i64>>, d: int, leaf_size: int) -> bool
        decreases self,
    {
        &&& self.lo@.len() == d
        &&& self.hi@.len() == d
        &&& bounded_row(self.lo@)
        &&& bounded_row(self.hi@)
        &&& (forall|p: int| #[trigger] index_set(self.idxs()).contains(p)
            ==> 0 <= p < pts.len() && in_box(pts[p], self.lo@, self.hi@))
        &&& (forall|i: int, j: int| 0 <= i < j < self.idxs().len()
            ==> self.idxs()[i] != self.idxs()[j])
        &&& match self.kind {
            KdKind::Leaf { bucket } => bucket@.len() <= leaf_size || d == 0,
            KdKind::Internal { axis, threshold, left, right } => {
                &&& 0 <= (axis as int) < d
                &&& (*left).wf(pts, d, leaf_size)
                &&& (*right).wf(pts, d, leaf_size)
                &&& (*left).idxs().len() > 0
                &&& (*right).idxs().len() > 0
                &&& (*left).idxs().len() == ((*left).idxs().len() + (*right).idxs().len() + 1) / 2
                &&& (forall|p: int| #[trigger] index_set((*left).idxs()).contains(p)
                    ==> pts[p][axis as int] <= threshold)
                &&& (forall|p: int| #[trigger] index_set((*right).idxs()).contains(p)
                    ==> pts[p][axis as int] >= threshold)
            },
        }
    }
}

/// The bounding box of a set of points: low and high corner per axis.
pub(crate) fn compute_bbox(points: &Vec<Vec<i64>>, d: usize, idxs: &Vec<usize>) -> (r: (Vec<i64>, Vec<i64>))
    requires
        pts_ok(rows_view(points@), d as int),
        idxs@.len() >= 1,
        forall|j: int| 0 <= j < idxs@.len() ==> (#[trigger] idxs@[j] as int) < points@.len(),
    ensures
        r.0@.len() == d,
        r.1@.len() == d,
        bounded_row(r.0@),
        bounded_row(r.1@),
        forall|p: int| #[trigger] index_set(idxs@).contains(p)
            ==> in_box(rows_view(points@)[p], r.0@, r.1@),
{
    let ghost pts = rows_view(points@);
    let first = idxs[0];
    let mut lo: Vec<i64> = Vec::new();
    let mut hi: Vec<i64> = Vec::new();
    let mut a: usize = 0;
    while a < d
        invariant
            pts_ok(pts, d as int),
            pts == rows_view(points@),
            idxs@.len() >= 1,
            forall|j: int| 0 <= j < idxs@.len() ==> (#[trigger] idxs@[j] as int) < points@.len(),
            first == idxs@[0],
            a <= d,
            lo@.len() == a,
            hi@.len() == a,
            forall|t: int| 0 <= t < a ==> #[trigger] lo@[t] == pts[first as int][t],
            forall|t: int| 0 <= t < a ==> #[trigger] hi@[t] == pts[first as int][t],
        decreases d - a,
    {
        proof {
            assert(pts[first as int] == points@[first as int]@);
        }
        let v = points[first][a];
        lo.push(v);
        hi.push(v);
        a = a + 1;
    }
    proof {
        assert(bounded_row(pts[first as int]));
        assert forall|t: int| 0 <= t < d implies crate::metric::bounded_val(#[trigger] lo@[t] as int)
            && crate::metric::bounded_val(hi@[t] as int) by {
            assert(lo@[t] == pts[first as int][t]);
            assert(crate::metric::bounded_val(pts[first as int][t] as int));
        }
        assert(in_box(pts[first as int], lo@, hi@));
    }
    let n = idxs.len();
    let mut j: usize = 1;
    while j < n
        invariant
            pts_ok(pts, d as int),
            pts == rows_view(points@),
            n == idxs@.len(),
            idxs@.len() >= 1,
            forall|t: int| 0 <= t < idxs@.len() ==> (#[trigger] idxs@[t] as int) < points@.len(),
            1 <= j <= n,
            lo@.len() == d,
            hi@.len() == d,
            bounded_row(lo@),
            bounded_row(hi@),
            forall|t: int| 0 <= t < j ==> in_box(#[trigger] pts[idxs@[t] as int], lo@, hi@),
        decreases n - j,
    {
        let p = idxs[j];
        proof {
            assert(pts[p as int] == points@[p as int]@);
        }
        let mut x: usize = 0;
        while x < d
            invariant
                pts_ok(pts, d as int),
                pts == rows_view(points@),
                pts[p as int] == points@[p as int]@,
                (p as int) < points@.len(),
                n == idxs@.len(),
                forall|t: int| 0 <= t < idxs@.len() ==> (#[trigger] idxs@[t] as int) < points@.len(),
                j < n,
                p == idxs@[j as int],
                x <= d,
                lo@.len() == d,
                hi@.len() == d,
                bounded_row(lo@),
                bounded_row(hi@),
                forall|t: int| 0 <= t < j ==> in_box(#[trigger] pts[idxs@[t] as int], lo@, hi@),
                forall|y: int| 0 <= y < x
                    ==> lo@[y] <= #[trigger] pts[p as int][y] && pts[p as int][y] <= hi@[y],
            decreases d - x,
        {
            let ghost lo0 = lo@;
            let ghost hi0 = hi@;
            let v = points[p][x];
            if v < lo[x] {
                lo.set(x, v);
            }
            if v > hi[x] {
                hi.set(x, v);
            }
            proof {
                assert(lo@[x as int] <= lo0[x as int] && hi@[x as int] >= hi0[x as int]);
                assert(lo@[x as int] <= pts[p as int][x as int]);
                assert(pts[p as int][x as int] <= hi@[x as int]);
                assert(forall|y: int| 0 <= y < d && y != x
                    ==> lo@[y] == lo0[y] && hi@[y] == hi0[y]);
                assert forall|t: int| 0 <= t < j
                    implies in_box(#[trigger] pts[idxs@[t] as int], lo@, hi@) by {
                    assert(in_box(pts[idxs@[t] as int], lo0, hi0));
                    assert forall|y: int| 0 <= y < d
                        implies lo@[y] <= #[trigger] pts[idxs@[t] as int][y]
                            && pts[idxs@[t] as int][y] <= hi@[y] by {
                        assert(lo0[y] <= pts[idxs@[t] as int][y] && pts[idxs@[t] as int][y] <= hi0[y]);
                    }
                }
                assert(crate::metric::bounded_val(pts[p as int][x as int] as int)) by {
                    assert(bounded_row(pts[p as int]));
                }
            }
            x = x + 1;
        }
        proof {
            assert(in_box(pts[p as int], lo@, hi@));
        }
        j = j + 1;
    }
    proof {
        assert forall|p: int| #[trigger] index_set(idxs@).contains(p)
            implies in_box(pts[p], lo@, hi@) by {
            let t = choose|t: int| 0 <= t < idxs@.len() && idxs@[t] == p;
            assert(in_box(pts[idxs@[t] as int], lo@, hi@));
        }
    }
    (lo, hi)
}

/// Recursive KD build over a non-empty index subset: bounding box, leaf or
/// median split along the axis of maximum spread.
fn build_kd_node(points: &Vec<Vec<i64>>, d: usize, leaf_size: usize, idxs: Vec<usize>) -> (node: KdNode)
    requires
        pts_ok(rows_view(points@), d as int),
        leaf_size >= 1,
        idxs@.len() >= 1,
        forall|j: int| 0 <= j < idxs@.len() ==> (#[trigger] idxs@[j] as int) < points@.len(),
        forall|i: int, j: int| 0 <= i < j < idxs@.len() ==> idxs@[i] != idxs@[j],
    ensures
        node.wf(rows_view(points@), d as int, leaf_size as int),
        index_set(node.idxs()) == index_set(idxs@),
        node.idxs().len() == idxs@.len(),
    decreases idxs@.len(),
{
    let ghost pts = rows_view(points@);
    let (lo, hi) = compute_bbox(points, d, &idxs);
    let n = idxs.len();
    if n <= leaf_size || d == 0 {
        let node = KdNode { lo, hi, kind: KdKind::Leaf { bucket: idxs } };
        proof {
            assert(node.idxs() == idxs@);
        }
        node
    } else {
        // axis of maximum spread, ties resolved toward the lowest axis
        let mut axis: usize = 0;
        let mut best: i64 = hi[0] - lo[0];
        let mut a: usize = 1;
        while a < d
            invariant
                d == lo@.len(),
                lo@.len() == hi@.len(),
                bounded_row(lo@),
                bounded_row(hi@),
                1 <= a <= d,
                axis < d,
                best == hi@[axis as int] - lo@[axis as int],
            decreases d - a,
        {
            let spread = hi[a] - lo[a];
            if spread > best {
                best = spread;
                axis = a;
            }
            a = a + 1;
        }
        // order the subset by coordinate along the axis, then by index
        let mut items: Vec<HeapItem> = Vec::new();
        let mut j: usize = 0;
        while j < n
            invariant
                pts_ok(pts, d as int),
                pts == rows_view(points@),
                n == idxs@.len(),
                forall|t: int| 0 <= t < idxs@.len() ==> (#[trigger] idxs@[t] as int) < points@.len(),
                forall|t: int, u: int| 0 <= t < u < idxs@.len() ==> idxs@[t] != idxs@[u],
                axis < d,
                j <= n,
                items@.len() == j,
                forall|t: int| 0 <= t < j ==> (#[trigger] items@[t]).index == idxs@[t],
                forall|t: int| 0 <= t < j
                    ==> (#[trigger] items@[t]).distance == pts[idxs@[t] as int][axis as int],
            decreases n - j,
        {
            let p = idxs[j];
            proof {
                assert(pts[p as int] == points@[p as int]@);
            }
            let coord = points[p][axis];
            items.push(HeapItem { distance: coord as i128, index: p });
            j = j + 1;
        }
        proof {
            assert forall|t: int, u: int| 0 <= t < u < items@.len()
                implies (#[trigger] items@[t]).index != (#[trigger] items@[u]).index by {
                assert(items@[t].index == idxs@[t] && items@[u].index == idxs@[u]);
            }
        }
        let sorted = sort_items(items);
        proof {
            // every sorted entry is one of the built items, so its distance
            // is its point's coordinate along the axis
            assert forall|t: int| 0 <= t < sorted@.len()
                implies entry_coord_ok(#[trigger] sorted@[t], pts, axis as int) by {
                assert(sorted@.contains(sorted@[t])) by {
                    assert(sorted@[t] == sorted@[t]);
                }
                let w = choose|w: int| 0 <= w < items@.len() && items@[w] == sorted@[t];
            }
        }
        let mid = (n - 1) / 2 + 1;
        let threshold_item = sorted[mid - 1];
        let p_at = threshold_item.index;
        proof {
            assert(sorted@.contains(sorted@[mid - 1])) by {
                assert(sorted@[mid - 1] == sorted@[mid - 1]);
            }
            let w = choose|w: int| 0 <= w < items@.len() && items@[w] == sorted@[mid - 1];
            assert((p_at as int) < points@.len());
            assert(pts[p_at as int] == points@[p_at as int]@);
        }
        let threshold = points[p_at][axis];
        let mut left_in: Vec<usize> = Vec::new();
        let mut right_in: Vec<usize> = Vec::new();
        let mut t: usize = 0;
        while t < mid
            invariant
                mid <= sorted@.len(),
                t <= mid,
                left_in@.len() == t,
                forall|u: int| 0 <= u < t ==> #[trigger] left_in@[u] == (sorted@[u]).index,
            decreases mid - t,
        {
            left_in.push(sorted[t].index);
            t = t + 1;
        }
        let mut u: usize = mid;
        while u < n
            invariant
                n == sorted@.len(),
                mid <= u <= n,
                right_in@.len() == u - mid,
                forall|w: int| 0 <= w < u - mid
                    ==> #[trigger] right_in@[w] == (sorted@[mid + w]).index,
            decreases n - u,
        {
            right_in.push(sorted[u].index);
            u = u + 1;
        }
        proof {
            lemma_kd_split(
                idxs@, items@, sorted@, left_in@, right_in@, pts, axis as int, mid as int,
                points@.len() as int,
            );
        }
        let left = build_kd_node(points, d, leaf_size, left_in);
        let right = build_kd_node(points, d, leaf_size, right_in);
        let ghost left_set = index_set(left.idxs());
        let ghost right_set = index_set(right.idxs());
        let node = KdNode {
            lo,
            hi,
            kind: KdKind::Internal {
                axis,
                threshold,
                left: Box::new(left),
                right: Box::new(right),
            },
        };
        proof {
            lemma_index_set_concat(left.idxs(), right.idxs());
            assert(node.idxs() == left.idxs() + right.idxs());
            assert(index_set(node.idxs()) =~= index_set(idxs@));
            // distinctness of the concatenation: each side is distinct, and
            // their index sets are disjoint
            assert forall|i: int, j: int| 0 <= i < j < node.idxs().len()
                implies node.idxs()[i] != node.idxs()[j] by {
                let li = left.idxs();
                let ri = right.idxs();
                if i < li.len() && j >= li.len() {
                    assert(node.idxs()[i] == li[i] && node.idxs()[j] == ri[j - li.len()]);
                    if li[i] == ri[j - li.len()] {
                        assert(left_set.contains(li[i] as int));
                        assert(right_set.contains(ri[j - li.len()] as int));
                    }
                } else if i < li.len() {
                    assert(node.idxs()[i] == li[i] && node.idxs()[j] == li[j]);
                } else {
                    assert(node.idxs()[i] == ri[i - li.len()] && node.idxs()[j] == ri[j - li.len()]);
                }
            }
            // the box covers the node's points
            assert forall|p: int| #[trigger] index_set(node.idxs()).contains(p)
                implies 0 <= p < pts.len() && in_box(pts[p], node.lo@, node.hi@) by {
                assert(index_set(idxs@).contains(p));
            }
            // threshold separation, inherited from the sorted order
            assert forall|p: int| #[trigger] left_set.contains(p)
                implies pts[p][axis as int] <= threshold by {
                let w = choose|w: int| 0 <= w < left_in@.len() && left_in@[w] == p;
                assert(sorted@[w].index == p);
                assert(entry_coord_ok(sorted@[w], pts, axis as int));
                assert(entry_coord_ok(sorted@[mid - 1], pts, axis as int));
                if w < mid - 1 {
                    assert(crate::heap::lex_lt(sorted@[w], sorted@[mid - 1]));
                }
            }
            assert forall|p: int| #[trigger] right_set.contains(p)
                implies pts[p][axis as int] >= threshold by {
                let w = choose|w: int| 0 <= w < right_in@.len() && right_in@[w] == p;
                assert(sorted@[mid + w].index == p);
                assert(entry_coord_ok(sorted@[mid + w], pts, axis as int));
                assert(entry_coord_ok(sorted@[mid - 1], pts, axis as int));
                assert(crate::heap::lex_lt(sorted@[mid - 1], sorted@[mid + w]));
            }
        }
        node
    }
}

/// An entry's distance slot carries its point's coordinate along `axis`.
pub open spec fn entry_coord_ok(e: HeapItem, pts: Seq<Seq<i64>>, axis: int) -> bool {
    &&& 0 <= (e.index as int) < pts.len()
    &&& e.distance == pts[e.index as int][axis]
}

/// The split of the sorted order covers the original subset exactly: the two
/// sides are distinct, disjoint, valid, and together carry the same index
/// set.
pub proof fn lemma_kd_split(
    idxs: Seq<usize>,
    items: Seq<HeapItem>,
    sorted: Seq<HeapItem>,
    left_in: Seq<usize>,
    right_in: Seq<usize>,
    pts: Seq<Seq<i64>>,
    axis: int,
    mid: int,
    n_pts: int,
)
    requires
        items.len() == idxs.len(),
        forall|t: int| 0 <= t < idxs.len() ==> (#[trigger] items[t]).index == idxs[t],
        forall|t: int, u: int| 0 <= t < u < idxs.len() ==> idxs[t] != idxs[u],
        forall|t: int| 0 <= t < idxs.len() ==> (#[trigger] idxs[t] as int) < n_pts,
        sorted.len() == items.len(),
        forall|x: HeapItem| sorted.contains(x) <==> items.contains(x),
        forall|i: int, j: int| 0 <= i < j < sorted.len()
            ==> (#[trigger] sorted[i]).index != (#[trigger] sorted[j]).index,
        0 < mid <= sorted.len(),
        left_in.len() == mid,
        right_in.len() == sorted.len() - mid,
        forall|u: int| 0 <= u < mid ==> #[trigger] left_in[u] == (sorted[u]).index,
        forall|w: int| 0 <= w < sorted.len() - mid
            ==> #[trigger] right_in[w] == (sorted[mid + w]).index,
    ensures
        forall|i: int, j: int| 0 <= i < j < left_in.len() ==> left_in[i] != left_in[j],
        forall|i: int, j: int| 0 <= i < j < right_in.len() ==> right_in[i] != right_in[j],
        forall|j: int| 0 <= j < left_in.len() ==> (#[trigger] left_in[j] as int) < n_pts,
        forall|j: int| 0 <= j < right_in.len() ==> (#[trigger] right_in[j] as int) < n_pts,
        index_set(left_in).union(index_set(right_in)) == index_set(idxs),
        index_set(left_in).disjoint(index_set(right_in)),
{
    assert forall|j: int| 0 <= j < left_in.len() implies (#[trigger] left_in[j] as int) < n_pts by {
        assert(sorted.contains(sorted[j])) by {
            assert(sorted[j] == sorted[j]);
        }
        let w = choose|w: int| 0 <= w < items.len() && items[w] == sorted[j];
    }
    assert forall|j: int| 0 <= j < right_in.len() implies (#[trigger] right_in[j] as int) < n_pts by {
        assert(sorted.contains(sorted[mid + j])) by {
            assert(sorted[mid + j] == sorted[mid + j]);
        }
        let w = choose|w: int| 0 <= w < items.len() && items[w] == sorted[mid + j];
    }
    assert forall|p: int| index_set(left_in).union(index_set(right_in)).contains(p)
        implies index_set(idxs).contains(p) by {
        if index_set(left_in).contains(p) {
            let w = choose|w: int| 0 <= w < left_in.len() && left_in[w] == p;
            assert(sorted.contains(sorted[w])) by {
                assert(sorted[w] == sorted[w]);
            }
            let v = choose|v: int| 0 <= v < items.len() && items[v] == sorted[w];
            assert(idxs[v] == p);
        } else {
            let w = choose|w: int| 0 <= w < right_in.len() && right_in[w] == p;
            assert(sorted.contains(sorted[mid + w])) by {
                assert(sorted[mid + w] == sorted[mid + w]);
            }
            let v = choose|v: int| 0 <= v < items.len() && items[v] == sorted[mid + w];
            assert(idxs[v] == p);
        }
    }
    assert forall|p: int| index_set(idxs).contains(p)
        implies index_set(left_in).union(index_set(right_in)).contains(p) by {
        let j = choose|j: int| 0 <= j < idxs.len() && idxs[j] == p;
        assert(items[j].index == p);
        assert(items.contains(items[j])) by {
            assert(items[j] == items[j]);
        }
        assert(sorted.contains(items[j]));
        let w = choose|w: int| 0 <= w < sorted.len() && sorted[w] == items[j];
        if w < mid {
            assert(left_in[w] == p);
            assert(index_set(left_in).contains(p));
        } else {
            assert(right_in[w - mid] == p);
            assert(index_set(right_in).contains(p));
        }
    }
    assert(index_set(left_in).union(index_set(right_in)) =~= index_set(idxs));
    assert forall|p: int| !(index_set(left_in).contains(p) && index_set(right_in).contains(p)) by {
        if index_set(left_in).contains(p) && index_set(right_in).contains(p) {
            let w = choose|w: int| 0 <= w < left_in.len() && left_in[w] == p;
            let v = choose|v: int| 0 <= v < right_in.len() && right_in[v] == p;
            assert(sorted[w].index == sorted[mid + v].index);
        }
    }
    assert(index_set(left_in).disjoint(index_set(right_in)));
}

/// One step of a k-nearest traversal below `node`: offers every point of the
/// subtree to the candidate set.
fn kd_knn_node(
    points: &Vec<Vec<i64>>,
    m: DistanceMetric,
    query: &Vec<i64>,
    node: &KdNode,
    d: usize,
    leaf_size: usize,
    k: usize,
    cs: &mut CandidateSet,
    Ghost(seen): Ghost<Set<int>>,
) -> (gs: Ghost<Set<int>>)
    requires
        metric_ok(m),
        pts_ok(rows_view(points@), d as int),
        bounded_row(query@),
        query@.len() == d,
        node.wf(rows_view(points@), d as int, leaf_size as int),
        seen.finite(),
        forall|t: int| 0 <= t < node.idxs().len()
            ==> !seen.contains(#[trigger] node.idxs()[t] as int),
        old(cs).cap_spec() == k as int,
        old(cs)@.len() <= k as int,
        is_candidates(old(cs)@, seen, k as int, rows_view(points@), m, query@),
    ensures
        gs@ == seen.union(index_set(node.idxs())),
        gs@.finite(),
        final(cs).cap_spec() == k as int,
        final(cs)@.len() <= k as int,
        is_candidates(final(cs)@, gs@, k as int, rows_view(points@), m, query@),
    decreases *node, 0int,
{
    let ghost pts = rows_view(points@);
    match &node.kind {
        KdKind::Leaf { bucket } => {
            proof {
                assert(node.idxs() == bucket@);
            }
            let n_b = bucket.len();
            let ghost mut cur = seen;
            let mut j: usize = 0;
            proof {
                assert(bucket@.take(0) =~= Seq::<usize>::empty());
                assert(index_set(bucket@.take(0)) =~= Set::<int>::empty());
                assert(cur =~= seen.union(index_set(bucket@.take(0))));
            }
            while j < n_b
                invariant
                    metric_ok(m),
                    pts_ok(pts, d as int),
                    pts == rows_view(points@),
                    bounded_row(query@),
                    query@.len() == d,
                    node.wf(pts, d as int, leaf_size as int),
                    node.idxs() == bucket@,
                    n_b == bucket@.len(),
                    j <= n_b,
                    seen.finite(),
                    cur.finite(),
                    cur == seen.union(index_set(bucket@.take(j as int))),
                    forall|t: int| 0 <= t < bucket@.len()
                        ==> !seen.contains(#[trigger] bucket@[t] as int),
                    cs.cap_spec() == k as int,
                    cs@.len() <= k as int,
                    is_candidates(cs@, cur, k as int, pts, m, query@),
                decreases n_b - j,
            {
                let p = bucket[j];
                proof {
                    assert(index_set(node.idxs()).contains(p as int)) by {
                        assert(bucket@[j as int] == p);
                    }
                    assert(pts[p as int] == points@[p as int]@);
                }
                let dk = match distance(m, query, &points[p]) {
                    Ok(dk) => dk,
                    Err(_) => {
                        proof {
                            assert(false);
                        }
                        0
                    },
                };
                let e = HeapItem { distance: dk, index: p };
                proof {
                    assert(entry_ok(e, pts, m, query@));
                    assert(!cur.contains(p as int)) by {
                        if cur.contains(p as int) {
                            if index_set(bucket@.take(j as int)).contains(p as int) {
                                let w = choose|w: int|
                                    0 <= w < j && bucket@.take(j as int)[w] == p;
                                assert(bucket@[w] == bucket@[j as int]);
                            }
                        }
                    }
                    assert(forall|t: int| 0 <= t < cs@.len()
                        ==> cur.contains((#[trigger] cs@[t]).index as int));
                    assert(forall|t: int| 0 <= t < cs@.len() ==> #[trigger] cs@[t] != e);
                    lemma_candidates_insert(cs@, cur, k as int, pts, m, query@, e);
                }
                cs.insert(e);
                proof {
                    lemma_index_set_take_step(bucket@, j as int);
                    cur = cur.insert(p as int);
                    assert(cur =~= seen.union(index_set(bucket@.take(j + 1))));
                }
                j = j + 1;
            }
            proof {
                assert(bucket@.take(n_b as int) =~= bucket@);
            }
            Ghost(seen.union(index_set(bucket@)))
        },
        KdKind::Internal { axis: _, threshold: _, left, right } => {
            let ghost li = (**left).idxs();
            let ghost ri = (**right).idxs();
            proof {
                assert((**left).wf(pts, d as int, leaf_size as int));
                assert((**right).wf(pts, d as int, leaf_size as int));
                assert(node.idxs() == li + ri);
                assert(forall|t: int| 0 <= t < li.len() ==> #[trigger] li[t] == node.idxs()[t]);
                assert(forall|t: int| 0 <= t < ri.len()
                    ==> #[trigger] ri[t] == node.idxs()[li.len() + t]);
                lemma_index_set_finite(li);
                lemma_index_set_finite(ri);
                lemma_index_set_concat(li, ri);
            }
            let cl = clamp_point(query, &left.lo, &left.hi);
            let bl = match distance(m, query, &cl) {
                Ok(v) => v,
                Err(_) => {
                    proof {
                        assert(false);
                    }
                    0
                },
            };
            let cr = clamp_point(query, &right.lo, &right.hi);
            let br = match distance(m, query, &cr) {
                Ok(v) => v,
                Err(_) => {
                    proof {
                        assert(false);
                    }
                    0
                },
            };
            if bl <= br {
                let gs1 = kd_knn_child(points, m, query, left, d, leaf_size, k, bl, cs, Ghost(seen));
                proof {
                    assert forall|t: int| 0 <= t < ri.len()
                        implies !gs1@.contains(#[trigger] ri[t] as int) by {
                        if index_set(li).contains(ri[t] as int) {
                            let w = choose|w: int| 0 <= w < li.len() && li[w] == ri[t];
                            assert(node.idxs()[w] == node.idxs()[li.len() + t]);
                        }
                    }
                }
                let gs2 = kd_knn_child(points, m, query, right, d, leaf_size, k, br, cs, Ghost(gs1@));
                proof {
                    assert(gs2@ =~= seen.union(index_set(node.idxs())));
                }
                Ghost(seen.union(index_set(node.idxs())))
            } else {
                let gs1 = kd_knn_child(points, m, query, right, d, leaf_size, k, br, cs, Ghost(seen));
                proof {
                    assert forall|t: int| 0 <= t < li.len()
                        implies !gs1@.contains(#[trigger] li[t] as int) by {
                        if index_set(ri).contains(li[t] as int) {
                            let w = choose|w: int| 0 <= w < ri.len() && ri[w] == li[t];
                            assert(node.idxs()[t] == node.idxs()[li.len() + w]);
                        }
                    }
                }
                let gs2 = kd_knn_child(points, m, query, left, d, leaf_size, k, bl, cs, Ghost(gs1@));
                proof {
                    assert(gs2@ =~= seen.union(index_set(node.idxs())));
                }
                Ghost(seen.union(index_set(node.idxs())))
            }
        },
    }
}

/// Visits one child during a k-nearest traversal: prunes it when the box
/// lower bound already exceeds the retained worst distance, else descends.
fn kd_knn_child(
    points: &Vec<Vec<i64>>,
    m: DistanceMetric,
    query: &Vec<i64>,
    child: &KdNode,
    d: usize,
    leaf_size: usize,
    k: usize,
    bound: i128,
    cs: &mut CandidateSet,
    Ghost(seen): Ghost<Set<int>>,
) -> (gs: Ghost<Set<int>>)
    requires
        metric_ok(m),
        pts_ok(rows_view(points@), d as int),
        bounded_row(query@),
        query@.len() == d,
        child.wf(rows_view(points@), d as int, leaf_size as int),
        bound == dist(m, query@, clamp_row(query@, child.lo@, child.hi@)),
        seen.finite(),
        forall|t: int| 0 <= t < child.idxs().len()
            ==> !seen.contains(#[trigger] child.idxs()[t] as int),
        old(cs).cap_spec() == k as int,
        old(cs)@.len() <= k as int,
        is_candidates(old(cs)@, seen, k as int, rows_view(points@), m, query@),
    ensures
        gs@ == seen.union(index_set(child.idxs())),
        gs@.finite(),
        final(cs).cap_spec() == k as int,
        final(cs)@.len() <= k as int,
        is_candidates(final(cs)@, gs@, k as int, rows_view(points@), m, query@),
    decreases *child, 1int,
{
    let ghost pts = rows_view(points@);
    let mut prune = false;
    if k > 0 && cs.is_full() {
        match cs.worst() {
            Some(w) => {
                if w.distance < bound {
                    prune = true;
                }
            },
            None => {},
        }
    }
    if prune {
        proof {
            lemma_index_set_finite(child.idxs());
            assert(cs@.len() == k as int);
            assert forall|t: int| 0 <= t < child.idxs().len()
                implies (#[trigger] child.idxs()[t] as int) < pts.len() by {
                assert(index_set(child.idxs()).contains(child.idxs()[t] as int)) by {
                    assert(child.idxs()[t] == child.idxs()[t]);
                }
            }
            assert forall|t: int| 0 <= t < child.idxs().len()
                implies (cs@[k as int - 1].distance as int)
                    < dist(m, query@, pts[#[trigger] child.idxs()[t] as int]) by {
                let p = child.idxs()[t] as int;
                assert(index_set(child.idxs()).contains(p)) by {
                    assert(child.idxs()[t] == child.idxs()[t]);
                }
                assert(in_box(pts[p], child.lo@, child.hi@));
                lemma_box_bound(m, query@, child.lo@, child.hi@, pts[p]);
            }
            lemma_candidates_skip_all(cs@, seen, k as int, pts, m, query@, child.idxs());
        }
        Ghost(seen.union(index_set(child.idxs())))
    } else {
        kd_knn_node(points, m, query, child, d, leaf_size, k, cs, Ghost(seen))
    }
}

/// One step of a radius traversal below `node`: collects every subtree point
/// within the bound.
fn kd_radius_node(
    points: &Vec<Vec<i64>>,
    m: DistanceMetric,
    query: &Vec<i64>,
    node: &KdNode,
    d: usize,
    leaf_size: usize,
    rad: i128,
    out: &mut Vec<HeapItem>,
    Ghost(seen): Ghost<Set<int>>,
) -> (gs: Ghost<Set<int>>)
    requires
        metric_ok(m),
        pts_ok(rows_view(points@), d as int),
        bounded_row(query@),
        query@.len() == d,
        node.wf(rows_view(points@), d as int, leaf_size as int),
        seen.finite(),
        forall|t: int| 0 <= t < node.idxs().len()
            ==> !seen.contains(#[trigger] node.idxs()[t] as int),
        radius_acc(old(out)@, seen, rows_view(points@), m, query@, rad as int),
    ensures
        gs@ == seen.union(index_set(node.idxs())),
        gs@.finite(),
        radius_acc(final(out)@, gs@, rows_view(points@), m, query@, rad as int),
    decreases *node, 0int,
{
    let ghost pts = rows_view(points@);
    match &node.kind {
        KdKind::Leaf { bucket } => {
            proof {
                assert(node.idxs() == bucket@);
            }
            let n_b = bucket.len();
            let ghost mut cur = seen;
            let mut j: usize = 0;
            proof {
                assert(bucket@.take(0) =~= Seq::<usize>::empty());
                assert(index_set(bucket@.take(0)) =~= Set::<int>::empty());
                assert(cur =~= seen.union(index_set(bucket@.take(0))));
            }
            while j < n_b
                invariant
                    metric_ok(m),
                    pts_ok(pts, d as int),
                    pts == rows_view(points@),
                    bounded_row(query@),
                    query@.len() == d,
                    node.wf(pts, d as int, leaf_size as int),
                    node.idxs() == bucket@,
                    n_b == bucket@.len(),
                    j <= n_b,
                    seen.finite(),
                    cur.finite(),
                    cur == seen.union(index_set(bucket@.take(j as int))),
                    forall|t: int| 0 <= t < bucket@.len()
                        ==> !seen.contains(#[trigger] bucket@[t] as int),
                    radius_acc(out@, cur, pts, m, query@, rad as int),
                decreases n_b - j,
            {
                let p = bucket[j];
                proof {
                    assert(index_set(node.idxs()).contains(p as int)) by {
                        assert(bucket@[j as int] == p);
                    }
                    assert(pts[p as int] == points@[p as int]@);
                    assert(!cur.contains(p as int)) by {
                        if cur.contains(p as int) {
                            if index_set(bucket@.take(j as int)).contains(p as int) {
                                let w = choose|w: int|
                                    0 <= w < j && bucket@.take(j as int)[w] == p;
                                assert(bucket@[w] == bucket@[j as int]);
                            }
                        }
                    }
                }
                let dk = match distance(m, query, &points[p]) {
                    Ok(dk) => dk,
                    Err(_) => {
                        proof {
                            assert(false);
                        }
                        0
                    },
                };
                let ghost out0 = out@;
                if dk <= rad {
                    out.push(HeapItem { distance: dk, index: p });
                }
                proof {
                    lemma_index_set_take_step(bucket@, j as int);
                    cur = cur.insert(p as int);
                    assert(cur =~= seen.union(index_set(bucket@.take(j + 1))));
                    assert forall|t: int, u: int| 0 <= t < u < out@.len()
                        implies (#[trigger] out@[t]).index != (#[trigger] out@[u]).index by {
                        if u == out0.len() {
                            assert(out@[u].index == p);
                        }
                    }
                    assert forall|x: int| #[trigger] cur.contains(x)
                        && dist(m, query@, pts[x]) <= rad as int
                        implies has_index(out@, x) by {
                        if x == p as int {
                            if dk <= rad {
                                assert(out@[out0.len() as int].index == p);
                            }
                        } else {
                            assert(has_index(out0, x));
                            let w = choose|w: int| 0 <= w < out0.len()
                                && (#[trigger] out0[w]).index == x;
                            assert(out@[w].index == x);
                        }
                    }
                }
                j = j + 1;
            }
            proof {
                assert(bucket@.take(n_b as int) =~= bucket@);
            }
            Ghost(seen.union(index_set(bucket@)))
        },
        KdKind::Internal { axis: _, threshold: _, left, right } => {
            let ghost li = (**left).idxs();
            let ghost ri = (**right).idxs();
            proof {
                assert((**left).wf(pts, d as int, leaf_size as int));
                assert((**right).wf(pts, d as int, leaf_size as int));
                assert(node.idxs() == li + ri);
                assert(forall|t: int| 0 <= t < li.len() ==> #[trigger] li[t] == node.idxs()[t]);
                assert(forall|t: int| 0 <= t < ri.len()
                    ==> #[trigger] ri[t] == node.idxs()[li.len() + t]);
                lemma_index_set_finite(li);
                lemma_index_set_finite(ri);
                lemma_index_set_concat(li, ri);
            }
            let gs1 = kd_radius_child(points, m, query, left, d, leaf_size, rad, out, Ghost(seen));
            proof {
                assert forall|t: int| 0 <= t < ri.len()
                    implies !gs1@.contains(#[trigger] ri[t] as int) by {
                    if index_set(li).contains(ri[t] as int) {
                        let w = choose|w: int| 0 <= w < li.len() && li[w] == ri[t];
                        assert(node.idxs()[w] == node.idxs()[li.len() + t]);
                    }
                }
            }
            let gs2 = kd_radius_child(points, m, query, right, d, leaf_size, rad, out, Ghost(gs1@));
            proof {
                assert(gs2@ =~= seen.union(index_set(node.idxs())));
            }
            Ghost(seen.union(index_set(node.idxs())))
        },
    }
}

/// Visits one child during a radius traversal: prunes it when the box lower
/// bound exceeds the radius, else descends.
fn kd_radius_child(
    points: &Vec<Vec<i64>>,
    m: DistanceMetric,
    query: &Vec<i64>,
    child: &KdNode,
    d: usize,
    leaf_size: usize,
    rad: i128,
    out: &mut Vec<HeapItem>,
    Ghost(seen): Ghost<Set<int>>,
) -> (gs: Ghost<Set<int>>)
    requires
        metric_ok(m),
        pts_ok(rows_view(points@), d as int),
        bounded_row(query@),
        query@.len() == d,
        child.wf(rows_view(points@), d as int, leaf_size as int),
        seen.finite(),
        forall|t: int| 0 <= t < child.idxs().len()
            ==> !seen.contains(#[trigger] child.idxs()[t] as int),
        radius_acc(old(out)@, seen, rows_view(points@), m, query@, rad as int),
    ensures
        gs@ == seen.union(index_set(child.idxs())),
        gs@.finite(),
        radius_acc(final(out)@, gs@, rows_view(points@), m, query@, rad as int),
    decreases *child, 1int,
{
    let ghost pts = rows_view(points@);
    let c = clamp_point(query, &child.lo, &child.hi);
    let bound = match distance(m, query, &c) {
        Ok(v) => v,
        Err(_) => {
            proof {
                assert(false);
            }
            0
        },
    };
    if bound > rad {
        proof {
            lemma_index_set_finite(child.idxs());
            let cur = seen.union(index_set(child.idxs()));
            assert forall|x: int| #[trigger] cur.contains(x)
                implies 0 <= x < pts.len() by {
                if index_set(child.idxs()).contains(x) {
                }
            }
            assert forall|x: int| #[trigger] cur.contains(x)
                && dist(m, query@, pts[x]) <= rad as int
                implies has_index(out@, x) by {
                if seen.contains(x) {
                } else {
                    assert(index_set(child.idxs()).contains(x));
                    assert(in_box(pts[x], child.lo@, child.hi@));
                    lemma_box_bound(m, query@, child.lo@, child.hi@, pts[x]);
                }
            }
        }
        Ghost(seen.union(index_set(child.idxs())))
    } else {
        kd_radius_node(points, m, query, child, d, leaf_size, rad, out, Ghost(seen))
    }
}

/// A KD-tree over an owned copy of the point rows.
#[derive(Debug)]
pub struct KDTree {
    points: Vec<Vec<i64>>,
    metric: DistanceMetric,
    leaf_size: usize,
    dim: usize,
    root: KdNode,
}

impl KDTree {
    /// Builds a KD-tree. A zero `leaf_size` or an out-of-range Minkowski
    /// exponent is rejected as `InvalidConfiguration`; rows of unequal
    /// dimension as `DimensionMismatch`. Zero points build an empty tree
    /// whose every query returns an empty answer.
    pub fn build(points: Vec<Vec<i64>>, metric: DistanceMetric, leaf_size: usize) -> (r: Result<
        KDTree,
        SpatialError,
    >)
        requires
            rows_bounded(rows_view(points@)),
        ensures
            match r {
                Ok(t) => leaf_size >= 1 && metric_ok(metric)
                    && uniform_dims(rows_view(points@)) && t.inv()
                    && t.pts() == rows_view(points@) && t.metric() == metric
                    && t.dim() == expected_dim(rows_view(points@)),
                Err(e) => (e == SpatialError::InvalidConfiguration
                    && (leaf_size == 0 || !metric_ok(metric)))
                    || (e == SpatialError::DimensionMismatch && leaf_size >= 1
                        && metric_ok(metric) && !uniform_dims(rows_view(points@))),
            },
    {
        let ghost pts = rows_view(points@);
        if leaf_size == 0 || !metric.check() {
            return Err(SpatialError::InvalidConfiguration);
        }
        let n = points.len();
        let d: usize = if n == 0 {
            0
        } else {
            points[0].len()
        };
        let mut i: usize = 0;
        while i < n
            invariant
                pts == rows_view(points@),
                n == points@.len(),
                n > 0 ==> d == pts[0].len(),
                i <= n,
                leaf_size >= 1,
                metric_ok(metric),
                forall|t: int| 0 <= t < i ==> (#[trigger] pts[t]).len() == d,
            decreases n - i,
        {
            proof {
                assert(pts[i as int] == points@[i as int]@);
            }
            if points[i].len() != d {
                proof {
                    assert(pts[i as int].len() != pts[0].len());
                    assert(!uniform_dims(pts));
                }
                return Err(SpatialError::DimensionMismatch);
            }
            i = i + 1;
        }
        proof {
            assert(uniform_dims(pts));
            assert(pts_ok(pts, d as int));
        }
        let mut idxs: Vec<usize> = Vec::new();
        let mut j: usize = 0;
        while j < n
            invariant
                j <= n,
                idxs@.len() == j,
                forall|t: int| 0 <= t < j ==> #[trigger] idxs@[t] == t,
            decreases n - j,
        {
            idxs.push(j);
            j = j + 1;
        }
        let root = if n == 0 {
            KdNode { lo: Vec::new(), hi: Vec::new(), kind: KdKind::Leaf { bucket: Vec::new() } }
        } else {
            build_kd_node(&points, d, leaf_size, idxs)
        };
        proof {
            if n == 0 {
                assert(root.idxs() =~= Seq::<usize>::empty());
                assert(index_set(root.idxs()) =~= range_set(0));
            } else {
                let idv = idxs@;
                assert forall|p: int| index_set(idv).contains(p)
                    implies range_set(n as int).contains(p) by {
                    let w = choose|w: int| 0 <= w < idv.len() && idv[w] == p;
                    assert(idv[w] == w);
                }
                assert forall|p: int| range_set(n as int).contains(p)
                    implies index_set(idv).contains(p) by {
                    assert(idv[p] == p);
                }
                assert(index_set(idv) =~= range_set(n as int));
            }
        }
        Ok(KDTree { points, metric, leaf_size, dim: d, root })
    }

    /// The indices stored across the leaves, left to right.
    pub closed spec fn leaf_indices(&self) -> Seq<usize> {
        self.root.idxs()
    }

    /// Partition totality: every input index appears in exactly one leaf
    /// bucket — the leaves carry pairwise distinct indices whose set is
    /// exactly `0 .. n`.
    pub proof fn lemma_partition_totality(&self)
        requires
            self.inv(),
        ensures
            index_set(self.leaf_indices()) == range_set(self.pts().len() as int),
            self.leaf_indices().len() == self.pts().len(),
            forall|i: int, j: int| 0 <= i < j < self.leaf_indices().len()
                ==> self.leaf_indices()[i] != self.leaf_indices()[j],
    {
    }
}

impl SpatialQuery for KDTree {
    closed spec fn pts(&self) -> Seq<Seq<i64>> {
        rows_view(self.points@)
    }

    closed spec fn metric(&self) -> DistanceMetric {
        self.metric
    }

    closed spec fn dim(&self) -> int {
        self.dim as int
    }

    closed spec fn inv(&self) -> bool {
        &&& metric_ok(self.metric)
        &&& pts_ok(rows_view(self.points@), self.dim as int)
        &&& self.leaf_size >= 1
        &&& self.root.wf(rows_view(self.points@), self.dim as int, self.leaf_size as int)
        &&& index_set(self.root.idxs()) == range_set(self.points@.len() as int)
        &&& self.root.idxs().len() == self.points@.len()
    }

    fn k_nearest(&self, query: &Vec<i64>, k: usize) -> (r: Result<Vec<HeapItem>, SpatialError>) {
        let ghost pts = rows_view(self.points@);
        let n = self.points.len();
        if n > 0 && query.len() != self.dim {
            return Err(SpatialError::DimensionMismatch);
        }
        let mut cs = CandidateSet::new(k);
        if n == 0 {
            proof {
                lemma_range_set(0);
                assert(range_set(pts.len() as int) =~= Set::<int>::empty());
                assert(is_knn(cs@, pts, self.metric, query@, k as int));
            }
            return Ok(cs.into_items());
        }
        proof {
            lemma_range_set(0);
            assert(Set::<int>::empty() =~= range_set(0));
            assert(is_candidates(cs@, Set::<int>::empty(), k as int, pts, self.metric, query@));
        }
        let gs = kd_knn_node(
            &self.points,
            self.metric,
            query,
            &self.root,
            self.dim,
            self.leaf_size,
            k,
            &mut cs,
            Ghost(Set::<int>::empty()),
        );
        proof {
            assert(gs@ =~= range_set(pts.len() as int));
        }
        Ok(cs.into_items())
    }

    fn radius(&self, query: &Vec<i64>, radius: i64) -> (r: Result<Vec<HeapItem>, SpatialError>) {
        let ghost pts = rows_view(self.points@);
        if radius < 0 {
            return Err(SpatialError::InvalidQuery);
        }
        let n = self.points.len();
        if n > 0 && query.len() != self.dim {
            return Err(SpatialError::DimensionMismatch);
        }
        let mut out: Vec<HeapItem> = Vec::new();
        if n == 0 {
            proof {
                assert(is_radius_result(out@, pts, self.metric, query@, radius as int));
            }
            return Ok(out);
        }
        proof {
            assert(radius_acc(out@, Set::<int>::empty(), pts, self.metric, query@, radius as int));
        }
        let gs = kd_radius_node(
            &self.points,
            self.metric,
            query,
            &self.root,
            self.dim,
            self.leaf_size,
            radius as i128,
            &mut out,
            Ghost(Set::<int>::empty()),
        );
        proof {
            assert(gs@ =~= range_set(pts.len() as int));
        }
        let sorted = sort_items(out);
        proof {
            lemma_radius_sorted(out@, sorted@, pts, self.metric, query@, radius as int);
        }
        Ok(sorted)
    }
}

} // verus!
