//! Vantage-point tree: recursive partition by distance from a chosen
//! vantage point — an inner shell within the median distance and an outer
//! shell beyond it. Pivot selection draws from the caller's deterministic
//! generator, either uniformly or by a maximum-spread heuristic over a
//! random sample. Pruning rests on the triangle inequality, so under the
//! squared Euclidean and powered Minkowski keys traversal descends without
//! pruning and stays exact.

use vstd::prelude::*;

use crate::generator::Generator;
use crate::heap::{
    CandidateSet, HeapItem, entry_ok, has_index, index_set, is_candidates,
    lemma_candidates_insert, lemma_candidates_skip_all, lemma_index_set_concat,
    lemma_index_set_finite, lemma_index_set_take_step, sort_items,
};
use crate::metric::{
    DistanceMetric, KEY_LIMIT, SpatialError, bounded_row, dist, distance, lemma_dist_bound,
    lemma_dist_symmetric, lemma_triangle, metric_ok, triangle_ok,
};
use crate::spatial_query::{
    SpatialQuery, expected_dim, is_knn, is_radius_result, lemma_radius_sorted, lemma_range_set,
    pts_ok, radius_acc, range_set, rows_bounded, rows_view, uniform_dims,
};

verus! {

broadcast use vstd::set::group_set_axioms;

/// How the build picks each vantage point.
#[derive(Clone, Copy, Debug, PartialEq, Eq, Structural)]
pub enum VantagePointSelection {
    /// Uniformly at random from the current subset.
    Random,
    /// The subset point with the largest sum of distances to a random
    /// sample of the subset.
    MaxSpread,
}

/// Soundness of shell pruning: under a triangle-inequality metric, a point
/// within `mu` of the vantage point is at least `d(q, vp) - mu` from the
/// query, and a point beyond `mu` is at least `mu + 1 - d(q, vp)` from it.
pub proof fn lemma_vp_bound(
    m: DistanceMetric,
    q: Seq<i64>,
    vpv: Seq<i64>,
    mu: int,
    row: Seq<i64>,
)
    requires
        triangle_ok(m),
        q.len() == vpv.len(),
        vpv.len() == row.len(),
    ensures
        dist(m, vpv, row) <= mu ==> dist(m, q, row) >= dist(m, q, vpv) - mu,
        dist(m, vpv, row) > mu ==> dist(m, q, row) >= mu + 1 - dist(m, q, vpv),
{
    lemma_triangle(m, q, row, vpv);
    lemma_dist_symmetric(m, row, vpv);
    lemma_triangle(m, vpv, q, row);
    lemma_dist_symmetric(m, vpv, q);
}

/// A draw from `[low, high)`, or `InvalidConfiguration` exactly when the
/// range is empty.
pub fn rand_index(gen: &mut Generator, low: usize, high: usize) -> (r: Result<usize, SpatialError>)
    ensures
        match r {
            Ok(v) => low < high && low <= v < high,
            Err(e) => e == SpatialError::InvalidConfiguration && low >= high,
        },
{
    if low >= high {
        return Err(SpatialError::InvalidConfiguration);
    }
    let w = gen.next_u64();
    let span = (high - low) as u64;
    let off = (w % span) as usize;
    Ok(low + off)
}

/// A draw from `[0, bound)`.
fn rand_below(gen: &mut Generator, bound: usize) -> (r: usize)
    requires
        bound >= 1,
    ensures
        r < bound,
{
    let w = gen.next_u64();
    (w % (bound as u64)) as usize
}

/// A vantage-point node: a bucket, or a vantage point with its median
/// distance and the inner and outer shells.
#[derive(Debug)]
pub enum VpNode {
    /// A bucket of at most `leaf_size` point indices.
    Leaf { bucket: Vec<usize> },
    /// A vantage point, the median distance `mu`, the shell of points
    /// within `mu`, and the shell beyond it.
    Internal { vp: usize, mu: i128, inner: Box<VpNode>, outer: Box<VpNode> },
}

impl VpNode {
    /// All point indices stored below this node, the vantage point first.
    pub open spec fn idxs(self) -> Seq<usize>
        decreases self,
    {
        match self {
            VpNode::Leaf { bucket } => bucket@,
            VpNode::Internal { vp, inner, outer, .. } => seq![vp] + (*inner).idxs() + (*outer).idxs(),
        }
    }

    /// Structural soundness: distinct valid indices, buckets respect
    /// `leaf_size`, and each shell lies on its side of the median distance
    /// from the vantage point.
    pub open spec fn wf(self, pts: Seq<Seq<i64>>, m: DistanceMetric, leaf_size: int) -> bool
        decreases self,
    {
        &&& (forall|p: int| #[trigger] index_set(self.idxs()).contains(p) ==> 0 <= p < pts.len())
        &&& (forall|i: int, j: int| 0 <= i < j < self.idxs().len()
            ==> self.idxs()[i] != self.idxs()[j])
        &&& match self {
            VpNode::Leaf { bucket } => bucket@.len() <= leaf_size,
            VpNode::Internal { vp, mu, inner, outer } => {
                &&& (vp as int) < pts.len()
                &&& 0 <= mu <= KEY_LIMIT
                &&& (*inner).wf(pts, m, leaf_size)
                &&& (*outer).wf(pts, m, leaf_size)
                &&& (forall|p: int| #[trigger] index_set((*inner).idxs()).contains(p)
                    ==> dist(m, pts[vp as int], pts[p]) <= mu as int)
                &&& (forall|p: int| #[trigger] index_set((*outer).idxs()).contains(p)
                    ==> dist(m, pts[vp as int], pts[p]) > mu as int)
            },
        }
    }
}

/// The subset position whose point has the largest summed distance to a
/// random sample of the subset.
fn max_spread_pos(
    points: &Vec<Vec<i64>>,
    m: DistanceMetric,
    gen: &mut Generator,
    idxs: &Vec<usize>,
    d: usize,
) -> (r: usize)
    requires
        metric_ok(m),
        pts_ok(rows_view(points@), d as int),
        idxs@.len() >= 1,
        forall|j: int| 0 <= j < idxs@.len() ==> (#[trigger] idxs@[j] as int) < points@.len(),
    ensures
        r < idxs@.len(),
{
    let ghost pts = rows_view(points@);
    let n = idxs.len();
    let sample_size: usize = if n < 10 {
        n
    } else {
        10
    };
    let mut sample: Vec<usize> = Vec::new();
    let mut s: usize = 0;
    while s < sample_size
        invariant
            n >= 1,
            n == idxs@.len(),
            forall|j: int| 0 <= j < idxs@.len() ==> (#[trigger] idxs@[j] as int) < points@.len(),
            sample@.len() == s,
            s <= sample_size,
            forall|t: int| 0 <= t < s ==> (#[trigger] sample@[t] as int) < points@.len(),
        decreases sample_size - s,
    {
        let pos = rand_below(gen, n);
        sample.push(idxs[pos]);
        s = s + 1;
    }
    let mut best_pos: usize = 0;
    let mut best_score: i128 = -1;
    let mut j: usize = 0;
    while j < n
        invariant
            metric_ok(m),
            pts_ok(pts, d as int),
            pts == rows_view(points@),
            n >= 1,
            n == idxs@.len(),
            forall|t: int| 0 <= t < idxs@.len() ==> (#[trigger] idxs@[t] as int) < points@.len(),
            sample@.len() <= 10,
            forall|t: int| 0 <= t < sample@.len()
                ==> (#[trigger] sample@[t] as int) < points@.len(),
            j <= n,
            best_pos < n,
        decreases n - j,
    {
        let p = idxs[j];
        proof {
            assert(pts[p as int] == points@[p as int]@);
        }
        let mut score: i128 = 0;
        let mut t: usize = 0;
        while t < sample.len()
            invariant
                metric_ok(m),
                pts_ok(pts, d as int),
                pts == rows_view(points@),
                (p as int) < points@.len(),
                pts[p as int] == points@[p as int]@,
                sample@.len() <= 10,
                forall|u: int| 0 <= u < sample@.len()
                    ==> (#[trigger] sample@[u] as int) < points@.len(),
                t <= sample@.len(),
                0 <= score <= (t as int) * (KEY_LIMIT as int),
            decreases sample@.len() - t,
        {
            let q = sample[t];
            proof {
                assert(pts[q as int] == points@[q as int]@);
            }
            let dk = match distance(m, &points[p], &points[q]) {
                Ok(v) => v,
                Err(_) => {
                    proof {
                        assert(false);
                    }
                    0
                },
            };
            proof {
                assert((t as int) * (KEY_LIMIT as int) + (KEY_LIMIT as int)
                    == (t + 1) * (KEY_LIMIT as int)) by (nonlinear_arith);
                assert((t + 1) * (KEY_LIMIT as int) <= 10 * (KEY_LIMIT as int))
                    by (nonlinear_arith)
                    requires t + 1 <= 10;
            }
            score = score + dk;
            t = t + 1;
        }
        if score > best_score {
            best_score = score;
            best_pos = j;
        }
        j = j + 1;
    }
    best_pos
}

/// An entry whose distance slot is its point's distance key from the
/// vantage point.
pub open spec fn entry_vp_ok(e: HeapItem, pts: Seq<Seq<i64>>, m: DistanceMetric, vp: int) -> bool {
    &&& 0 <= (e.index as int) < pts.len()
    &&& e.distance as int == dist(m, pts[vp], pts[e.index as int])
}

/// Recursive vantage-point build over a non-empty index subset.
fn build_vp_node(
    points: &Vec<Vec<i64>>,
    m: DistanceMetric,
    d: usize,
    leaf_size: usize,
    sel: VantagePointSelection,
    gen: &mut Generator,
    idxs: Vec<usize>,
) -> (node: VpNode)
    requires
        metric_ok(m),
        pts_ok(rows_view(points@), d as int),
        leaf_size >= 1,
        idxs@.len() >= 1,
        forall|j: int| 0 <= j < idxs@.len() ==> (#[trigger] idxs@[j] as int) < points@.len(),
        forall|i: int, j: int| 0 <= i < j < idxs@.len() ==> idxs@[i] != idxs@[j],
    ensures
        node.wf(rows_view(points@), m, leaf_size as int),
        index_set(node.idxs()) == index_set(idxs@),
        node.idxs().len() == idxs@.len(),
    decreases idxs@.len(),
{
    let ghost pts = rows_view(points@);
    let n = idxs.len();
    if n <= leaf_size {
        let node = VpNode::Leaf { bucket: idxs };
        proof {
            assert(node.idxs() == idxs@);
            assert forall|p: int| #[trigger] index_set(node.idxs()).contains(p)
                implies 0 <= p < pts.len() by {
                let w = choose|w: int| 0 <= w < node.idxs().len() && node.idxs()[w] == p;
            }
        }
        node
    } else {
        let vp_pos = match sel {
            VantagePointSelection::Random => rand_below(gen, n),
            VantagePointSelection::MaxSpread => max_spread_pos(points, m, gen, &idxs, d),
        };
        let vp = idxs[vp_pos];
        proof {
            assert(pts[vp as int] == points@[vp as int]@);
        }
        // the rest of the subset, with its distance key from the vantage point
        let mut items: Vec<HeapItem> = Vec::new();
        let mut rest: Vec<usize> = Vec::new();
        let mut j: usize = 0;
        while j < n
            invariant
                metric_ok(m),
                pts_ok(pts, d as int),
                pts == rows_view(points@),
                n == idxs@.len(),
                vp_pos < n,
                vp == idxs@[vp_pos as int],
                (vp as int) < points@.len(),
                pts[vp as int] == points@[vp as int]@,
                forall|t: int| 0 <= t < idxs@.len() ==> (#[trigger] idxs@[t] as int) < points@.len(),
                forall|t: int, u: int| 0 <= t < u < idxs@.len() ==> idxs@[t] != idxs@[u],
                j <= n,
                rest@.len() == items@.len(),
                rest@.len() == (if j <= vp_pos {
                    j as int
                } else {
                    j - 1
                }),
                forall|t: int| 0 <= t < rest@.len()
                    ==> #[trigger] rest@[t] == idxs@[(if t < vp_pos { t } else { t + 1 })],
                forall|t: int| 0 <= t < items@.len() ==> (#[trigger] items@[t]).index == rest@[t],
                forall|t: int| 0 <= t < items@.len()
                    ==> entry_vp_ok(#[trigger] items@[t], pts, m, vp as int),
            decreases n - j,
        {
            if j != vp_pos {
                let p = idxs[j];
                proof {
                    assert(pts[p as int] == points@[p as int]@);
                }
                let dk = match distance(m, &points[vp], &points[p]) {
                    Ok(v) => v,
                    Err(_) => {
                        proof {
                            assert(false);
                        }
                        0
                    },
                };
                items.push(HeapItem { distance: dk, index: p });
                rest.push(p);
            }
            j = j + 1;
        }
        proof {
            assert forall|t: int, u: int| 0 <= t < u < rest@.len()
                implies rest@[t] != rest@[u] by {
                let a: int = if t < vp_pos {
                    t
                } else {
                    t + 1
                };
                let b: int = if u < vp_pos {
                    u
                } else {
                    u + 1
                };
                assert(rest@[t] == idxs@[a] && rest@[u] == idxs@[b]);
            }
            assert forall|t: int, u: int| 0 <= t < u < items@.len()
                implies (#[trigger] items@[t]).index != (#[trigger] items@[u]).index by {
                assert(items@[t].index == rest@[t] && items@[u].index == rest@[u]);
            }
            assert(forall|t: int| 0 <= t < rest@.len()
                ==> (#[trigger] rest@[t] as int) < points@.len());
        }
        let sorted = sort_items(items);
        let n_rest = rest.len();
        proof {
            assert forall|t: int| 0 <= t < sorted@.len()
                implies entry_vp_ok(#[trigger] sorted@[t], pts, m, vp as int) by {
                assert(sorted@.contains(sorted@[t])) by {
                    assert(sorted@[t] == sorted@[t]);
                }
                let w = choose|w: int| 0 <= w < items@.len() && items@[w] == sorted@[t];
            }
        }
        let mu = sorted[(n_rest - 1) / 2].distance;
        proof {
            assert(entry_vp_ok(sorted@[(n_rest - 1) / 2], pts, m, vp as int));
            lemma_dist_bound(m, pts[vp as int], pts[sorted@[(n_rest - 1) / 2].index as int]);
        }
        // the inner shell: every entry with key at most mu; nonempty since
        // the median entry itself qualifies
        let mut c: usize = 0;
        while c < n_rest
            invariant
                n_rest == sorted@.len(),
                c <= n_rest,
                forall|t: int| 0 <= t < c ==> (#[trigger] sorted@[t]).distance <= mu,
            ensures
                c <= n_rest,
                forall|t: int| 0 <= t < c ==> (#[trigger] sorted@[t]).distance <= mu,
                c < n_rest ==> sorted@[c as int].distance > mu,
            decreases n_rest - c,
        {
            if sorted[c].distance > mu {
                break;
            }
            c = c + 1;
        }
        proof {
            crate::heap::lemma_sorted_take(sorted@, c as int);
        }
        let mut inner_in: Vec<usize> = Vec::new();
        let mut outer_in: Vec<usize> = Vec::new();
        let mut t: usize = 0;
        while t < c
            invariant
                c <= sorted@.len(),
                t <= c,
                inner_in@.len() == t,
                forall|u: int| 0 <= u < t ==> #[trigger] inner_in@[u] == (sorted@[u]).index,
            decreases c - t,
        {
            inner_in.push(sorted[t].index);
            t = t + 1;
        }
        let mut u: usize = c;
        while u < n_rest
            invariant
                n_rest == sorted@.len(),
                c <= u <= n_rest,
                outer_in@.len() == u - c,
                forall|w: int| 0 <= w < u - c
                    ==> #[trigger] outer_in@[w] == (sorted@[c + w]).index,
            decreases n_rest - u,
        {
            outer_in.push(sorted[u].index);
            u = u + 1;
        }
        proof {
            assert(c >= 1) by {
                if c == 0 {
                    assert(sorted@[0].distance > mu);
                    assert(crate::heap::lex_lt(sorted@[0], sorted@[(n_rest - 1) / 2])
                        || 0 == (n_rest - 1) / 2);
                }
            }
            crate::kd_tree::lemma_kd_split(
                rest@, items@, sorted@, inner_in@, outer_in@, pts, 0, c as int,
                points@.len() as int,
            );
        }
        let ghost inner_in_v = inner_in@;
        let ghost outer_in_v = outer_in@;
        let inner_node = build_vp_node(points, m, d, leaf_size, sel, gen, inner_in);
        let outer_node = if outer_in.len() == 0 {
            VpNode::Leaf { bucket: Vec::new() }
        } else {
            build_vp_node(points, m, d, leaf_size, sel, gen, outer_in)
        };
        proof {
            if outer_in_v.len() == 0 {
                assert(outer_node.idxs() =~= Seq::<usize>::empty());
                assert(index_set(outer_node.idxs()) =~= index_set(outer_in_v));
                assert forall|p: int| #[trigger] index_set(outer_node.idxs()).contains(p)
                    implies 0 <= p < pts.len() by {
                    let w = choose|w: int|
                        0 <= w < outer_node.idxs().len() && outer_node.idxs()[w] == p;
                }
                assert(outer_node.wf(pts, m, leaf_size as int));
            }
        }
        let ghost inner_set = index_set(inner_node.idxs());
        let ghost outer_set = index_set(outer_node.idxs());
        let node = VpNode::Internal {
            vp,
            mu,
            inner: Box::new(inner_node),
            outer: Box::new(outer_node),
        };
        proof {
            let li = inner_node.idxs();
            let oi = outer_node.idxs();
            assert(node.idxs() == seq![vp] + li + oi);
            lemma_index_set_concat(seq![vp] + li, oi);
            lemma_index_set_concat(seq![vp], li);
            assert((seq![vp] + li) + oi =~= seq![vp] + li + oi);
            assert forall|p: int| index_set(seq![vp]).contains(p) implies p == vp as int by {
                let w = choose|w: int| 0 <= w < 1 && seq![vp][w] == p;
            }
            assert(index_set(seq![vp]).contains(vp as int)) by {
                assert(seq![vp][0] == vp);
            }
            // the node's index set is the original subset
            assert forall|p: int| index_set(node.idxs()).contains(p)
                implies index_set(idxs@).contains(p) by {
                if p == vp as int {
                    assert(idxs@[vp_pos as int] == vp);
                } else if inner_set.contains(p) || outer_set.contains(p) {
                    assert(index_set(rest@).contains(p));
                    let w = choose|w: int| 0 <= w < rest@.len() && rest@[w] == p;
                    if w < vp_pos {
                        assert(idxs@[w] == p);
                    } else {
                        assert(idxs@[w + 1] == p);
                    }
                }
            }
            assert forall|p: int| index_set(idxs@).contains(p)
                implies index_set(node.idxs()).contains(p) by {
                let w = choose|w: int| 0 <= w < idxs@.len() && idxs@[w] == p;
                if w == vp_pos {
                    assert(p == vp as int);
                } else {
                    let t2: int = if w < vp_pos {
                        w
                    } else {
                        w - 1
                    };
                    assert(rest@[t2] == p);
                    assert(index_set(rest@).contains(p));
                }
            }
            assert(index_set(node.idxs()) =~= index_set(idxs@));
            // distinctness: vp is outside the rest, and the shells are
            // disjoint distinct subsets of the rest
            assert(!index_set(rest@).contains(vp as int)) by {
                if index_set(rest@).contains(vp as int) {
                    let w = choose|w: int| 0 <= w < rest@.len() && rest@[w] == vp;
                    if w < vp_pos {
                        assert(idxs@[w] == idxs@[vp_pos as int]);
                    } else {
                        assert(idxs@[w + 1] == idxs@[vp_pos as int]);
                    }
                }
            }
            assert forall|i: int, j2: int| 0 <= i < j2 < node.idxs().len()
                implies node.idxs()[i] != node.idxs()[j2] by {
                let s = node.idxs();
                assert(s[0] == vp);
                assert(forall|t2: int| 0 <= t2 < li.len() ==> #[trigger] s[1 + t2] == li[t2]);
                assert(forall|t2: int| 0 <= t2 < oi.len()
                    ==> #[trigger] s[1 + li.len() + t2] == oi[t2]);
                if i == 0 {
                    if j2 <= li.len() {
                        assert(s[j2] == li[j2 - 1]);
                        if s[j2] == vp {
                            assert(inner_set.contains(vp as int));
                        }
                    } else {
                        assert(s[j2] == oi[j2 - 1 - li.len()]);
                        if s[j2] == vp {
                            assert(outer_set.contains(vp as int));
                        }
                    }
                } else if i <= li.len() && j2 <= li.len() {
                    assert(s[i] == li[i - 1] && s[j2] == li[j2 - 1]);
                } else if i <= li.len() {
                    assert(s[i] == li[i - 1] && s[j2] == oi[j2 - 1 - li.len()]);
                    if s[i] == s[j2] {
                        assert(inner_set.contains(li[i - 1] as int));
                        assert(outer_set.contains(oi[j2 - 1 - li.len()] as int));
                    }
                } else {
                    assert(s[i] == oi[i - 1 - li.len()] && s[j2] == oi[j2 - 1 - li.len()]);
                }
            }
            // shell distance facts from the sorted order
            assert forall|p: int| #[trigger] inner_set.contains(p)
                implies dist(m, pts[vp as int], pts[p]) <= mu as int by {
                assert(index_set(inner_in_v).contains(p));
                let w = choose|w: int| 0 <= w < inner_in_v.len() && inner_in_v[w] == p;
                assert(sorted@[w].index == p);
                assert(entry_vp_ok(sorted@[w], pts, m, vp as int));
                assert(sorted@[w].distance <= mu);
            }
            assert forall|p: int| #[trigger] outer_set.contains(p)
                implies dist(m, pts[vp as int], pts[p]) > mu as int by {
                assert(index_set(outer_in_v).contains(p));
                let w = choose|w: int| 0 <= w < outer_in_v.len() && outer_in_v[w] == p;
                assert(sorted@[c + w].index == p);
                assert(entry_vp_ok(sorted@[c + w], pts, m, vp as int));
                assert(sorted@[c as int].distance > mu);
                if w > 0 {
                    assert(crate::heap::lex_lt(sorted@[c as int], sorted@[c + w]));
                }
            }
            // validity of every index below the node
            assert forall|p: int| #[trigger] index_set(node.idxs()).contains(p)
                implies 0 <= p < pts.len() by {
                assert(index_set(idxs@).contains(p));
                let w = choose|w: int| 0 <= w < idxs@.len() && idxs@[w] == p;
            }
        }
        node
    }
}

/// One step of a k-nearest traversal below `node`: the vantage point is
/// offered first, then the shells, nearer side first.
#[verifier::rlimit(80)]
fn vp_knn_node(
    points: &Vec<Vec<i64>>,
    m: DistanceMetric,
    query: &Vec<i64>,
    node: &VpNode,
    d: usize,
    leaf_size: usize,
    k: usize,
    cs: &mut CandidateSet,
    Ghost(seen): Ghost<Set<int>>,
) -> (gs: Ghost<Set<int>>)
    requires
        metric_ok(m),
        pts_ok(rows_view(points@), d as int),
        bounded_row(query@),
        query@.len() == d,
        node.wf(rows_view(points@), m, leaf_size as int),
        seen.finite(),
        forall|t: int| 0 <= t < node.idxs().len()
            ==> !seen.contains(#[trigger] node.idxs()[t] as int),
        old(cs).cap_spec() == k as int,
        old(cs)@.len() <= k as int,
        is_candidates(old(cs)@, seen, k as int, rows_view(points@), m, query@),
    ensures
        gs@ == seen.union(index_set(node.idxs())),
        gs@.finite(),
        final(cs).cap_spec() == k as int,
        final(cs)@.len() <= k as int,
        is_candidates(final(cs)@, gs@, k as int, rows_view(points@), m, query@),
    decreases *node, 0int,
{
    let ghost pts = rows_view(points@);
    match node {
        VpNode::Leaf { bucket } => {
            proof {
                assert(node.idxs() == bucket@);
            }
            let n_b = bucket.len();
            let ghost mut cur = seen;
            let mut j: usize = 0;
            proof {
                assert(bucket@.take(0) =~= Seq::<usize>::empty());
                assert(index_set(bucket@.take(0)) =~= Set::<int>::empty());
                assert(cur =~= seen.union(index_set(bucket@.take(0))));
            }
            while j < n_b
                invariant
                    metric_ok(m),
                    pts_ok(pts, d as int),
                    pts == rows_view(points@),
                    bounded_row(query@),
                    query@.len() == d,
                    node.wf(pts, m, leaf_size as int),
                    node.idxs() == bucket@,
                    n_b == bucket@.len(),
                    j <= n_b,
                    seen.finite(),
                    cur.finite(),
                    cur == seen.union(index_set(bucket@.take(j as int))),
                    forall|t: int| 0 <= t < bucket@.len()
                        ==> !seen.contains(#[trigger] bucket@[t] as int),
                    cs.cap_spec() == k as int,
                    cs@.len() <= k as int,
                    is_candidates(cs@, cur, k as int, pts, m, query@),
                decreases n_b - j,
            {
                let p = bucket[j];
                proof {
                    assert(index_set(node.idxs()).contains(p as int)) by {
                        assert(bucket@[j as int] == p);
                    }
                    assert(pts[p as int] == points@[p as int]@);
                }
                let dk = match distance(m, query, &points[p]) {
                    Ok(dk) => dk,
                    Err(_) => {
                        proof {
                            assert(false);
                        }
                        0
                    },
                };
                let e = HeapItem { distance: dk, index: p };
                proof {
                    assert(entry_ok(e, pts, m, query@));
                    assert(!cur.contains(p as int)) by {
                        if cur.contains(p as int) {
                            if index_set(bucket@.take(j as int)).contains(p as int) {
                                let w = choose|w: int|
                                    0 <= w < j && bucket@.take(j as int)[w] == p;
                                assert(bucket@[w] == bucket@[j as int]);
                            }
                        }
                    }
                    assert(forall|t: int| 0 <= t < cs@.len()
                        ==> cur.contains((#[trigger] cs@[t]).index as int));
                    assert(forall|t: int| 0 <= t < cs@.len() ==> #[trigger] cs@[t] != e);
                    lemma_candidates_insert(cs@, cur, k as int, pts, m, query@, e);
                }
                cs.insert(e);
                proof {
                    lemma_index_set_take_step(bucket@, j as int);
                    cur = cur.insert(p as int);
                    assert(cur =~= seen.union(index_set(bucket@.take(j + 1))));
                }
                j = j + 1;
            }
            proof {
                assert(bucket@.take(n_b as int) =~= bucket@);
            }
            Ghost(seen.union(index_set(bucket@)))
        },
        VpNode::Internal { vp, mu, inner, outer } => {
            let ghost li = (**inner).idxs();
            let ghost oi = (**outer).idxs();
            proof {
                assert((**inner).wf(pts, m, leaf_size as int));
                assert((**outer).wf(pts, m, leaf_size as int));
                assert(node.idxs() == seq![*vp] + li + oi);
                assert(node.idxs()[0] == *vp);
                assert(forall|t: int| 0 <= t < li.len() ==> #[trigger] li[t] == node.idxs()[1 + t]);
                assert(forall|t: int| 0 <= t < oi.len()
                    ==> #[trigger] oi[t] == node.idxs()[1 + li.len() + t]);
                lemma_index_set_finite(li);
                lemma_index_set_finite(oi);
                assert(pts[*vp as int] == points@[*vp as int]@);
            }
            // the vantage point itself is a candidate
            let dv = match distance(m, query, &points[*vp]) {
                Ok(v) => v,
                Err(_) => {
                    proof {
                        assert(false);
                    }
                    0
                },
            };
            let e = HeapItem { distance: dv, index: *vp };
            proof {
                assert(entry_ok(e, pts, m, query@));
                assert(!seen.contains(*vp as int));
                assert(forall|t: int| 0 <= t < cs@.len()
                    ==> seen.contains((#[trigger] cs@[t]).index as int));
                assert(forall|t: int| 0 <= t < cs@.len() ==> #[trigger] cs@[t] != e);
                lemma_candidates_insert(cs@, seen, k as int, pts, m, query@, e);
            }
            cs.insert(e);
            let ghost seen1 = seen.insert(*vp as int);
            // lower bounds for the two shells
            let tri = m.has_triangle();
            let b_in: i128 = if tri {
                dv - *mu
            } else {
                0
            };
            let b_out: i128 = if tri {
                *mu + 1 - dv
            } else {
                0
            };
            proof {
                assert forall|t: int| 0 <= t < li.len()
                    implies (b_in as int) <= dist(m, query@, pts[#[trigger] li[t] as int]) by {
                    let p = li[t] as int;
                    assert(index_set(li).contains(p)) by {
                        assert(li[t] == li[t]);
                    }
                    assert(0 <= p < pts.len());
                    lemma_dist_bound(m, query@, pts[p]);
                    if tri {
                        assert(dist(m, pts[*vp as int], pts[p]) <= *mu as int);
                        lemma_vp_bound(m, query@, pts[*vp as int], *mu as int, pts[p]);
                    }
                }
                assert forall|t: int| 0 <= t < oi.len()
                    implies (b_out as int) <= dist(m, query@, pts[#[trigger] oi[t] as int]) by {
                    let p = oi[t] as int;
                    assert(index_set(oi).contains(p)) by {
                        assert(oi[t] == oi[t]);
                    }
                    assert(0 <= p < pts.len());
                    lemma_dist_bound(m, query@, pts[p]);
                    if tri {
                        assert(dist(m, pts[*vp as int], pts[p]) > *mu as int);
                        lemma_vp_bound(m, query@, pts[*vp as int], *mu as int, pts[p]);
                    }
                }
                assert forall|t: int| 0 <= t < li.len()
                    implies !seen1.contains(#[trigger] li[t] as int) by {
                    if li[t] as int == *vp as int {
                        assert(node.idxs()[1 + t] == node.idxs()[0]);
                    }
                }
            }
            let (gs2, gs3): (Ghost<Set<int>>, Ghost<Set<int>>) = if dv <= *mu {
                let gs2 = vp_knn_child(points, m, query, inner, d, leaf_size, k, b_in, cs, Ghost(seen1));
                proof {
                    assert forall|t: int| 0 <= t < oi.len()
                        implies !gs2@.contains(#[trigger] oi[t] as int) by {
                        if oi[t] as int == *vp as int {
                            assert(node.idxs()[1 + li.len() + t] == node.idxs()[0]);
                        }
                        if index_set(li).contains(oi[t] as int) {
                            let w = choose|w: int| 0 <= w < li.len() && li[w] == oi[t];
                            assert(node.idxs()[1 + w] == node.idxs()[1 + li.len() + t]);
                        }
                    }
                }
                let gs3 = vp_knn_child(points, m, query, outer, d, leaf_size, k, b_out, cs, Ghost(gs2@));
                (gs2, gs3)
            } else {
                proof {
                    assert forall|t: int| 0 <= t < oi.len()
                        implies !seen1.contains(#[trigger] oi[t] as int) by {
                        if oi[t] as int == *vp as int {
                            assert(node.idxs()[1 + li.len() + t] == node.idxs()[0]);
                        }
                    }
                }
                let gs2 = vp_knn_child(points, m, query, outer, d, leaf_size, k, b_out, cs, Ghost(seen1));
                proof {
                    assert forall|t: int| 0 <= t < li.len()
                        implies !gs2@.contains(#[trigger] li[t] as int) by {
                        if index_set(oi).contains(li[t] as int) {
                            let w = choose|w: int| 0 <= w < oi.len() && oi[w] == li[t];
                            assert(node.idxs()[1 + t] == node.idxs()[1 + li.len() + w]);
                        }
                    }
                }
                let gs3 = vp_knn_child(points, m, query, inner, d, leaf_size, k, b_in, cs, Ghost(gs2@));
                (gs2, gs3)
            };
            proof {
                lemma_index_set_concat(seq![*vp] + li, oi);
                lemma_index_set_concat(seq![*vp], li);
                assert((seq![*vp] + li) + oi =~= seq![*vp] + li + oi);
                assert(index_set(seq![*vp]) =~= Set::<int>::empty().insert(*vp as int)) by {
                    assert forall|p: int| index_set(seq![*vp]).contains(p)
                        implies p == *vp as int by {
                        let w = choose|w: int| 0 <= w < 1 && seq![*vp][w] == p;
                    }
                    assert(seq![*vp][0] == *vp);
                }
                assert(gs3@ =~= seen.union(index_set(node.idxs())));
            }
            Ghost(seen.union(index_set(node.idxs())))
        },
    }
}

/// Visits one shell during a k-nearest traversal: prunes it when a proven
/// lower bound on the distance to every shell point already exceeds the
/// retained worst, else descends.
fn vp_knn_child(
    points: &Vec<Vec<i64>>,
    m: DistanceMetric,
    query: &Vec<i64>,
    child: &VpNode,
    d: usize,
    leaf_size: usize,
    k: usize,
    bound: i128,
    cs: &mut CandidateSet,
    Ghost(seen): Ghost<Set<int>>,
) -> (gs: Ghost<Set<int>>)
    requires
        metric_ok(m),
        pts_ok(rows_view(points@), d as int),
        bounded_row(query@),
        query@.len() == d,
        child.wf(rows_view(points@), m, leaf_size as int),
        forall|t: int| 0 <= t < child.idxs().len()
            ==> (bound as int) <= dist(m, query@, rows_view(points@)[#[trigger] child.idxs()[t] as int]),
        seen.finite(),
        forall|t: int| 0 <= t < child.idxs().len()
            ==> !seen.contains(#[trigger] child.idxs()[t] as int),
        old(cs).cap_spec() == k as int,
        old(cs)@.len() <= k as int,
        is_candidates(old(cs)@, seen, k as int, rows_view(points@), m, query@),
    ensures
        gs@ == seen.union(index_set(child.idxs())),
        gs@.finite(),
        final(cs).cap_spec() == k as int,
        final(cs)@.len() <= k as int,
        is_candidates(final(cs)@, gs@, k as int, rows_view(points@), m, query@),
    decreases *child, 1int,
{
    let ghost pts = rows_view(points@);
    let mut prune = false;
    if k > 0 && cs.is_full() {
        match cs.worst() {
            Some(w) => {
                if w.distance < bound {
                    prune = true;
                }
            },
            None => {},
        }
    }
    if prune {
        proof {
            lemma_index_set_finite(child.idxs());
            assert(cs@.len() == k as int);
            assert forall|t: int| 0 <= t < child.idxs().len()
                implies (#[trigger] child.idxs()[t] as int) < pts.len() by {
                assert(index_set(child.idxs()).contains(child.idxs()[t] as int)) by {
                    assert(child.idxs()[t] == child.idxs()[t]);
                }
            }
            lemma_candidates_skip_all(cs@, seen, k as int, pts, m, query@, child.idxs());
        }
        Ghost(seen.union(index_set(child.idxs())))
    } else {
        vp_knn_node(points, m, query, child, d, leaf_size, k, cs, Ghost(seen))
    }
}

/// One step of a radius traversal below `node`.
#[verifier::rlimit(80)]
fn vp_radius_node(
    points: &Vec<Vec<i64>>,
    m: DistanceMetric,
    query: &Vec<i64>,
    node: &VpNode,
    d: usize,
    leaf_size: usize,
    rad: i128,
    out: &mut Vec<HeapItem>,
    Ghost(seen): Ghost<Set<int>>,
) -> (gs: Ghost<Set<int>>)
    requires
        metric_ok(m),
        pts_ok(rows_view(points@), d as int),
        bounded_row(query@),
        query@.len() == d,
        node.wf(rows_view(points@), m, leaf_size as int),
        seen.finite(),
        forall|t: int| 0 <= t < node.idxs().len()
            ==> !seen.contains(#[trigger] node.idxs()[t] as int),
        radius_acc(old(out)@, seen, rows_view(points@), m, query@, rad as int),
    ensures
        gs@ == seen.union(index_set(node.idxs())),
        gs@.finite(),
        radius_acc(final(out)@, gs@, rows_view(points@), m, query@, rad as int),
    decreases *node, 0int,
{
    let ghost pts = rows_view(points@);
    match node {
        VpNode::Leaf { bucket } => {
            proof {
                assert(node.idxs() == bucket@);
            }
            let n_b = bucket.len();
            let ghost mut cur = seen;
            let mut j: usize = 0;
            proof {
                assert(bucket@.take(0) =~= Seq::<usize>::empty());
                assert(index_set(bucket@.take(0)) =~= Set::<int>::empty());
                assert(cur =~= seen.union(index_set(bucket@.take(0))));
            }
            while j < n_b
                invariant
                    metric_ok(m),
                    pts_ok(pts, d as int),
                    pts == rows_view(points@),
                    bounded_row(query@),
                    query@.len() == d,
                    node.wf(pts, m, leaf_size as int),
                    node.idxs() == bucket@,
                    n_b == bucket@.len(),
                    j <= n_b,
                    seen.finite(),
                    cur.finite(),
                    cur == seen.union(index_set(bucket@.take(j as int))),
                    forall|t: int| 0 <= t < bucket@.len()
                        ==> !seen.contains(#[trigger] bucket@[t] as int),
                    radius_acc(out@, cur, pts, m, query@, rad as int),
                decreases n_b - j,
            {
                let p = bucket[j];
                proof {
                    assert(index_set(node.idxs()).contains(p as int)) by {
                        assert(bucket@[j as int] == p);
                    }
                    assert(pts[p as int] == points@[p as int]@);
                    assert(!cur.contains(p as int)) by {
                        if cur.contains(p as int) {
                            if index_set(bucket@.take(j as int)).contains(p as int) {
                                let w = choose|w: int|
                                    0 <= w < j && bucket@.take(j as int)[w] == p;
                                assert(bucket@[w] == bucket@[j as int]);
                            }
                        }
                    }
                }
                let dk = match distance(m, query, &points[p]) {
                    Ok(dk) => dk,
                    Err(_) => {
                        proof {
                            assert(false);
                        }
                        0
                    },
                };
                let ghost out0 = out@;
                if dk <= rad {
                    out.push(HeapItem { distance: dk, index: p });
                }
                proof {
                    lemma_index_set_take_step(bucket@, j as int);
                    cur = cur.insert(p as int);
                    assert(cur =~= seen.union(index_set(bucket@.take(j + 1))));
                    assert forall|t: int, u: int| 0 <= t < u < out@.len()
                        implies (#[trigger] out@[t]).index != (#[trigger] out@[u]).index by {
                        if u == out0.len() {
                            assert(out@[u].index == p);
                        }
                    }
                    assert forall|x: int| #[trigger] cur.contains(x)
                        && dist(m, query@, pts[x]) <= rad as int
                        implies has_index(out@, x) by {
                        if x == p as int {
                            if dk <= rad {
                                assert(out@[out0.len() as int].index == p);
                            }
                        } else {
                            assert(has_index(out0, x));
                            let w = choose|w: int| 0 <= w < out0.len()
                                && (#[trigger] out0[w]).index == x;
                            assert(out@[w].index == x);
                        }
                    }
                }
                j = j + 1;
            }
            proof {
                assert(bucket@.take(n_b as int) =~= bucket@);
            }
            Ghost(seen.union(index_set(bucket@)))
        },
        VpNode::Internal { vp, mu, inner, outer } => {
            let ghost li = (**inner).idxs();
            let ghost oi = (**outer).idxs();
            proof {
                assert((**inner).wf(pts, m, leaf_size as int));
                assert((**outer).wf(pts, m, leaf_size as int));
                assert(node.idxs() == seq![*vp] + li + oi);
                assert(node.idxs()[0] == *vp);
                assert(forall|t: int| 0 <= t < li.len() ==> #[trigger] li[t] == node.idxs()[1 + t]);
                assert(forall|t: int| 0 <= t < oi.len()
                    ==> #[trigger] oi[t] == node.idxs()[1 + li.len() + t]);
                lemma_index_set_finite(li);
                lemma_index_set_finite(oi);
                assert(pts[*vp as int] == points@[*vp as int]@);
            }
            let dv = match distance(m, query, &points[*vp]) {
                Ok(v) => v,
                Err(_) => {
                    proof {
                        assert(false);
                    }
                    0
                },
            };
            let ghost out0 = out@;
            if dv <= rad {
                out.push(HeapItem { distance: dv, index: *vp });
            }
            let ghost seen1 = seen.insert(*vp as int);
            proof {
                assert(!seen.contains(*vp as int));
                assert forall|t: int, u: int| 0 <= t < u < out@.len()
                    implies (#[trigger] out@[t]).index != (#[trigger] out@[u]).index by {
                    if u == out0.len() {
                        assert(out@[u].index == *vp);
                    }
                }
                assert forall|x: int| #[trigger] seen1.contains(x)
                    && dist(m, query@, pts[x]) <= rad as int
                    implies has_index(out@, x) by {
                    if x == *vp as int {
                        if dv <= rad {
                            assert(out@[out0.len() as int].index == *vp);
                        }
                    } else {
                        assert(has_index(out0, x));
                        let w = choose|w: int| 0 <= w < out0.len()
                            && (#[trigger] out0[w]).index == x;
                        assert(out@[w].index == x);
                    }
                }
                assert(radius_acc(out@, seen1, pts, m, query@, rad as int));
            }
            let tri = m.has_triangle();
            let b_in: i128 = if tri {
                dv - *mu
            } else {
                0
            };
            let b_out: i128 = if tri {
                *mu + 1 - dv
            } else {
                0
            };
            proof {
                assert forall|t: int| 0 <= t < li.len()
                    implies (b_in as int) <= dist(m, query@, pts[#[trigger] li[t] as int]) by {
                    let p = li[t] as int;
                    assert(index_set(li).contains(p)) by {
                        assert(li[t] == li[t]);
                    }
                    assert(0 <= p < pts.len());
                    lemma_dist_bound(m, query@, pts[p]);
                    if tri {
                        assert(dist(m, pts[*vp as int], pts[p]) <= *mu as int);
                        lemma_vp_bound(m, query@, pts[*vp as int], *mu as int, pts[p]);
                    }
                }
                assert forall|t: int| 0 <= t < oi.len()
                    implies (b_out as int) <= dist(m, query@, pts[#[trigger] oi[t] as int]) by {
                    let p = oi[t] as int;
                    assert(index_set(oi).contains(p)) by {
                        assert(oi[t] == oi[t]);
                    }
                    assert(0 <= p < pts.len());
                    lemma_dist_bound(m, query@, pts[p]);
                    if tri {
                        assert(dist(m, pts[*vp as int], pts[p]) > *mu as int);
                        lemma_vp_bound(m, query@, pts[*vp as int], *mu as int, pts[p]);
                    }
                }
                assert forall|t: int| 0 <= t < li.len()
                    implies !seen1.contains(#[trigger] li[t] as int) by {
                    if li[t] as int == *vp as int {
                        assert(node.idxs()[1 + t] == node.idxs()[0]);
                    }
                }
            }
            let gs2 = vp_radius_child(points, m, query, inner, d, leaf_size, rad, b_in, out, Ghost(seen1));
            proof {
                assert forall|t: int| 0 <= t < oi.len()
                    implies !gs2@.contains(#[trigger] oi[t] as int) by {
                    if oi[t] as int == *vp as int {
                        assert(node.idxs()[1 + li.len() + t] == node.idxs()[0]);
                    }
                    if index_set(li).contains(oi[t] as int) {
                        let w = choose|w: int| 0 <= w < li.len() && li[w] == oi[t];
                        assert(node.idxs()[1 + w] == node.idxs()[1 + li.len() + t]);
                    }
                }
            }
            let gs3 = vp_radius_child(points, m, query, outer, d, leaf_size, rad, b_out, out, Ghost(gs2@));
            proof {
                lemma_index_set_concat(seq![*vp] + li, oi);
                lemma_index_set_concat(seq![*vp], li);
                assert((seq![*vp] + li) + oi =~= seq![*vp] + li + oi);
                assert(index_set(seq![*vp]) =~= Set::<int>::empty().insert(*vp as int)) by {
                    assert forall|p: int| index_set(seq![*vp]).contains(p)
                        implies p == *vp as int by {
                        let w = choose|w: int| 0 <= w < 1 && seq![*vp][w] == p;
                    }
                    assert(seq![*vp][0] == *vp);
                }
                assert(gs3@ =~= seen.union(index_set(node.idxs())));
            }
            Ghost(seen.union(index_set(node.idxs())))
        },
    }
}

/// Visits one shell during a radius traversal: prunes it when the proven
/// lower bound exceeds the radius, else descends.
fn vp_radius_child(
    points: &Vec<Vec<i64>>,
    m: DistanceMetric,
    query: &Vec<i64>,
    child: &VpNode,
    d: usize,
    leaf_size: usize,
    rad: i128,
    bound: i128,
    out: &mut Vec<HeapItem>,
    Ghost(seen): Ghost<Set<int>>,
) -> (gs: Ghost<Set<int>>)
    requires
        metric_ok(m),
        pts_ok(rows_view(points@), d as int),
        bounded_row(query@),
        query@.len() == d,
        child.wf(rows_view(points@), m, leaf_size as int),
        forall|t: int| 0 <= t < child.idxs().len()
            ==> (bound as int) <= dist(m, query@, rows_view(points@)[#[trigger] child.idxs()[t] as int]),
        seen.finite(),
        forall|t: int| 0 <= t < child.idxs().len()
            ==> !seen.contains(#[trigger] child.idxs()[t] as int),
        radius_acc(old(out)@, seen, rows_view(points@), m, query@, rad as int),
    ensures
        gs@ == seen.union(index_set(child.idxs())),
        gs@.finite(),
        radius_acc(final(out)@, gs@, rows_view(points@), m, query@, rad as int),
    decreases *child, 1int,
{
    let ghost pts = rows_view(points@);
    if bound > rad {
        proof {
            lemma_index_set_finite(child.idxs());
            let cur = seen.union(index_set(child.idxs()));
            assert forall|x: int| #[trigger] cur.contains(x)
                implies 0 <= x < pts.len() by {
                if index_set(child.idxs()).contains(x) {
                }
            }
            assert forall|x: int| #[trigger] cur.contains(x)
                && dist(m, query@, pts[x]) <= rad as int
                implies has_index(out@, x) by {
                if seen.contains(x) {
                } else {
                    assert(index_set(child.idxs()).contains(x));
                    let w = choose|w: int| 0 <= w < child.idxs().len() && child.idxs()[w] == x;
                }
            }
        }
        Ghost(seen.union(index_set(child.idxs())))
    } else {
        vp_radius_node(points, m, query, child, d, leaf_size, rad, out, Ghost(seen))
    }
}

/// A vantage-point tree over an owned copy of the point rows.
#[derive(Debug)]
pub struct VPTree {
    points: Vec<Vec<i64>>,
    metric: DistanceMetric,
    leaf_size: usize,
    dim: usize,
    selection: VantagePointSelection,
    root: VpNode,
}

impl VPTree {
    /// Builds a vantage-point tree, drawing pivots from the caller's
    /// generator; validation mirrors the KD build. The same seed, point set
    /// and configuration draw the same pivots and build the same tree.
    pub fn build(
        points: Vec<Vec<i64>>,
        metric: DistanceMetric,
        leaf_size: usize,
        selection: VantagePointSelection,
        gen: &mut Generator,
    ) -> (r: Result<VPTree, SpatialError>)
        requires
            rows_bounded(rows_view(points@)),
        ensures
            match r {
                Ok(t) => leaf_size >= 1 && metric_ok(metric)
                    && uniform_dims(rows_view(points@)) && t.inv()
                    && t.pts() == rows_view(points@) && t.metric() == metric
                    && t.dim() == expected_dim(rows_view(points@)),
                Err(e) => (e == SpatialError::InvalidConfiguration
                    && (leaf_size == 0 || !metric_ok(metric)))
                    || (e == SpatialError::DimensionMismatch && leaf_size >= 1
                        && metric_ok(metric) && !uniform_dims(rows_view(points@))),
            },
    {
        let ghost pts = rows_view(points@);
        if leaf_size == 0 || !metric.check() {
            return Err(SpatialError::InvalidConfiguration);
        }
        let n = points.len();
        let d: usize = if n == 0 {
            0
        } else {
            points[0].len()
        };
        let mut i: usize = 0;
        while i < n
            invariant
                pts == rows_view(points@),
                n == points@.len(),
                n > 0 ==> d == pts[0].len(),
                i <= n,
                leaf_size >= 1,
                metric_ok(metric),
                forall|t: int| 0 <= t < i ==> (#[trigger] pts[t]).len() == d,
            decreases n - i,
        {
            proof {
                assert(pts[i as int] == points@[i as int]@);
            }
            if points[i].len() != d {
                proof {
                    assert(pts[i as int].len() != pts[0].len());
                    assert(!uniform_dims(pts));
                }
                return Err(SpatialError::DimensionMismatch);
            }
            i = i + 1;
        }
        proof {
            assert(uniform_dims(pts));
            assert(pts_ok(pts, d as int));
        }
        let mut idxs: Vec<usize> = Vec::new();
        let mut j: usize = 0;
        while j < n
            invariant
                j <= n,
                idxs@.len() == j,
                forall|t: int| 0 <= t < j ==> #[trigger] idxs@[t] == t,
            decreases n - j,
        {
            idxs.push(j);
            j = j + 1;
        }
        let root = if n == 0 {
            VpNode::Leaf { bucket: Vec::new() }
        } else {
            build_vp_node(&points, metric, d, leaf_size, selection, gen, idxs)
        };
        proof {
            if n == 0 {
                assert(root.idxs() =~= Seq::<usize>::empty());
                assert(index_set(root.idxs()) =~= range_set(0));
            } else {
                let idv = idxs@;
                assert forall|p: int| index_set(idv).contains(p)
                    implies range_set(n as int).contains(p) by {
                    let w = choose|w: int| 0 <= w < idv.len() && idv[w] == p;
                    assert(idv[w] == w);
                }
                assert forall|p: int| range_set(n as int).contains(p)
                    implies index_set(idv).contains(p) by {
                    assert(idv[p] == p);
                }
                assert(index_set(idv) =~= range_set(n as int));
            }
        }
        Ok(VPTree { points, metric, leaf_size, dim: d, selection, root })
    }

    /// The indices stored across the leaves and vantage points.
    pub closed spec fn leaf_indices(&self) -> Seq<usize> {
        self.root.idxs()
    }

    /// Partition totality for the vantage-point tree.
    pub proof fn lemma_partition_totality(&self)
        requires
            self.inv(),
        ensures
            index_set(self.leaf_indices()) == range_set(self.pts().len() as int),
            self.leaf_indices().len() == self.pts().len(),
            forall|i: int, j: int| 0 <= i < j < self.leaf_indices().len()
                ==> self.leaf_indices()[i] != self.leaf_indices()[j],
    {
    }
}

impl SpatialQuery for VPTree {
    closed spec fn pts(&self) -> Seq<Seq<i64>> {
        rows_view(self.points@)
    }

    closed spec fn metric(&self) -> DistanceMetric {
        self.metric
    }

    closed spec fn dim(&self) -> int {
        self.dim as int
    }

    closed spec fn inv(&self) -> bool {
        &&& metric_ok(self.metric)
        &&& pts_ok(rows_view(self.points@), self.dim as int)
        &&& self.leaf_size >= 1
        &&& self.root.wf(rows_view(self.points@), self.metric, self.leaf_size as int)
        &&& index_set(self.root.idxs()) == range_set(self.points@.len() as int)
        &&& self.root.idxs().len() == self.points@.len()
    }

    fn k_nearest(&self, query: &Vec<i64>, k: usize) -> (r: Result<Vec<HeapItem>, SpatialError>) {
        let ghost pts = rows_view(self.points@);
        let n = self.points.len();
        if n > 0 && query.len() != self.dim {
            return Err(SpatialError::DimensionMismatch);
        }
        let mut cs = CandidateSet::new(k);
        if n == 0 {
            proof {
                lemma_range_set(0);
                assert(range_set(pts.len() as int) =~= Set::<int>::empty());
                assert(is_knn(cs@, pts, self.metric, query@, k as int));
            }
            return Ok(cs.into_items());
        }
        proof {
            lemma_range_set(0);
            assert(Set::<int>::empty() =~= range_set(0));
            assert(is_candidates(cs@, Set::<int>::empty(), k as int, pts, self.metric, query@));
        }
        let gs = vp_knn_node(
            &self.points,
            self.metric,
            query,
            &self.root,
            self.dim,
            self.leaf_size,
            k,
            &mut cs,
            Ghost(Set::<int>::empty()),
        );
        proof {
            assert(gs@ =~= range_set(pts.len() as int));
        }
        Ok(cs.into_items())
    }

    fn radius(&self, query: &Vec<i64>, radius: i64) -> (r: Result<Vec<HeapItem>, SpatialError>) {
        let ghost pts = rows_view(self.points@);
        if radius < 0 {
            return Err(SpatialError::InvalidQuery);
        }
        let n = self.points.len();
        if n > 0 && query.len() != self.dim {
            return Err(SpatialError::DimensionMismatch);
        }
        let mut out: Vec<HeapItem> = Vec::new();
        if n == 0 {
            proof {
                assert(is_radius_result(out@, pts, self.metric, query@, radius as int));
            }
            return Ok(out);
        }
        proof {
            assert(radius_acc(out@, Set::<int>::empty(), pts, self.metric, query@, radius as int));
        }
        let gs = vp_radius_node(
            &self.points,
            self.metric,
            query,
            &self.root,
            self.dim,
            self.leaf_size,
            radius as i128,
            &mut out,
            Ghost(Set::<int>::empty()),
        );
        proof {
            assert(gs@ =~= range_set(pts.len() as int));
        }
        let sorted = sort_items(out);
        proof {
            lemma_radius_sorted(out@, sorted@, pts, self.metric, query@, radius as int);
        }
        Ok(sorted)
    }
}

} // verus!
