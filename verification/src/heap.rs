//! The bounded candidate set used by every k-nearest traversal: an ordered
//! buffer that keeps the `k` best `(distance, index)` pairs seen so far,
//! ordered by distance and, on ties, by index, evicting the current worst on
//! overflow.

use vstd::prelude::*;

use crate::metric::{DistanceMetric, dist};

verus! {

broadcast use vstd::set::group_set_axioms;

/// A query candidate: the exact distance key from the query to the point at
/// `index`.
#[derive(Clone, Copy, Debug, PartialEq, Eq, Structural)]
pub struct HeapItem {
    /// The distance key from the query point.
    pub distance: i128,
    /// The point's original index in the input set.
    pub index: usize,
}

/// Strict candidate order: primarily by distance, on ties by index.
pub open spec fn lex_lt(x: HeapItem, y: HeapItem) -> bool {
    x.distance < y.distance || (x.distance == y.distance && x.index < y.index)
}

/// Strictly ascending in candidate order.
pub open spec fn sorted_strict(s: Seq<HeapItem>) -> bool {
    forall|i: int, j: int| 0 <= i < j < s.len() ==> lex_lt(#[trigger] s[i], #[trigger] s[j])
}

/// Some entry of `s` carries the point index `p`.
pub open spec fn has_index(s: Seq<HeapItem>, p: int) -> bool {
    exists|i: int| 0 <= i < s.len() && (#[trigger] s[i]).index == p
}

/// `e` placed at its ordered position in `s`.
pub open spec fn insert_sorted(s: Seq<HeapItem>, e: HeapItem) -> Seq<HeapItem>
    decreases s.len(),
{
    if s.len() == 0 {
        seq![e]
    } else if lex_lt(e, s[0]) {
        seq![e] + s
    } else {
        seq![s[0]] + insert_sorted(s.skip(1), e)
    }
}

/// `e` placed at its ordered position, then truncated to the `cap` best.
pub open spec fn bounded_insert(s: Seq<HeapItem>, e: HeapItem, cap: int) -> Seq<HeapItem> {
    let r = insert_sorted(s, e);
    if r.len() <= cap {
        r
    } else {
        r.take(cap)
    }
}

/// What ordered insertion guarantees: one element longer, still strictly
/// sorted when `e` collides with no existing entry, the new entry present,
/// the old entries kept, nothing else introduced, and no entry growing
/// smaller positionwise.
pub proof fn lemma_insert_sorted(s: Seq<HeapItem>, e: HeapItem)
    requires
        sorted_strict(s),
        forall|i: int| 0 <= i < s.len() ==> #[trigger] s[i] != e,
    ensures
        insert_sorted(s, e).len() == s.len() + 1,
        sorted_strict(insert_sorted(s, e)),
        insert_sorted(s, e).contains(e),
        forall|i: int| 0 <= i < s.len() ==> insert_sorted(s, e).contains(#[trigger] s[i]),
        forall|i: int| 0 <= i < s.len() + 1
            ==> (#[trigger] insert_sorted(s, e)[i] == e || s.contains(insert_sorted(s, e)[i])),
        forall|i: int| 0 <= i < s.len() ==> !lex_lt(#[trigger] s[i], insert_sorted(s, e)[i]),
    decreases s.len(),
{
    let r = insert_sorted(s, e);
    if s.len() == 0 {
        assert(r =~= seq![e]);
        assert(r.contains(e)) by {
            assert(r[0] == e);
        }
    } else if lex_lt(e, s[0]) {
        assert(r =~= seq![e] + s);
        assert(r[0] == e);
        assert(r.contains(e));
        assert forall|i: int| 0 <= i < s.len() implies r.contains(#[trigger] s[i]) by {
            assert(r[i + 1] == s[i]);
        }
        assert forall|i: int, j: int| 0 <= i < j < r.len() implies lex_lt(r[i], r[j]) by {
            if i == 0 {
                if j == 1 {
                    assert(r[j] == s[0]);
                } else {
                    assert(r[j] == s[j - 1]);
                    assert(lex_lt(s[0], s[j - 1]));
                }
            } else {
                assert(r[i] == s[i - 1] && r[j] == s[j - 1]);
            }
        }
        assert forall|i: int| 0 <= i < s.len() implies !lex_lt(#[trigger] s[i], r[i]) by {
            if i == 0 {
                assert(r[0] == e);
            } else {
                assert(r[i] == s[i - 1]);
                assert(lex_lt(s[i - 1], s[i]));
            }
        }
    } else {
        let tail = s.skip(1);
        assert(sorted_strict(tail)) by {
            assert(forall|i: int, j: int| 0 <= i < j < tail.len()
                ==> lex_lt(#[trigger] tail[i], #[trigger] tail[j]) == lex_lt(s[i + 1], s[j + 1]));
        }
        assert(forall|i: int| 0 <= i < tail.len() ==> #[trigger] tail[i] != e) by {
            assert(forall|i: int| 0 <= i < tail.len() ==> #[trigger] tail[i] == s[i + 1]);
        }
        lemma_insert_sorted(tail, e);
        let rt = insert_sorted(tail, e);
        assert(r =~= seq![s[0]] + rt);
        assert(r[0] == s[0]);
        // e is not smaller than s[0], and differs from it, so s[0] < e
        assert(lex_lt(s[0], e) || s[0] == e || lex_lt(e, s[0])) by {
            assert(s[0].distance < e.distance || s[0].distance == e.distance
                || s[0].distance > e.distance);
            if s[0].distance == e.distance {
                assert(s[0].index < e.index || s[0].index == e.index || s[0].index > e.index);
                if s[0].index == e.index {
                    assert(s[0] == e);
                }
            }
        }
        assert(lex_lt(s[0], e));
        // everything in the inserted tail is either e or a later entry of s,
        // hence strictly above s[0]
        assert forall|i: int| 0 <= i < rt.len() implies lex_lt(s[0], rt[i]) by {
            if rt[i] == e {
            } else {
                assert(tail.contains(rt[i]));
                let w = choose|w: int| 0 <= w < tail.len() && tail[w] == rt[i];
                assert(s[w + 1] == rt[i]);
                assert(lex_lt(s[0], s[w + 1]));
            }
        }
        assert forall|i: int, j: int| 0 <= i < j < r.len() implies lex_lt(r[i], r[j]) by {
            if i == 0 {
                assert(r[j] == rt[j - 1]);
                assert(lex_lt(s[0], rt[j - 1]));
            } else {
                assert(r[i] == rt[i - 1] && r[j] == rt[j - 1]);
                assert(lex_lt(rt[i - 1], rt[j - 1]));
            }
        }
        assert(r.contains(e)) by {
            assert(rt.contains(e));
            let w = choose|w: int| 0 <= w < rt.len() && rt[w] == e;
            assert(r[w + 1] == e);
        }
        assert forall|i: int| 0 <= i < s.len() implies r.contains(#[trigger] s[i]) by {
            if i == 0 {
                assert(r[0] == s[0]);
            } else {
                assert(tail[i - 1] == s[i]);
                assert(rt.contains(tail[i - 1]));
                let w = choose|w: int| 0 <= w < rt.len() && rt[w] == tail[i - 1];
                assert(r[w + 1] == s[i]);
            }
        }
        assert forall|i: int| 0 <= i < s.len() + 1 implies
            (#[trigger] r[i] == e || s.contains(r[i])) by {
            if i == 0 {
                assert(s.contains(r[0])) by {
                    assert(r[0] == s[0]);
                }
            } else {
                assert(r[i] == rt[i - 1]);
                if rt[i - 1] == e {
                } else {
                    assert(tail.contains(rt[i - 1]));
                    let w = choose|w: int| 0 <= w < tail.len() && tail[w] == rt[i - 1];
                    assert(s[w + 1] == rt[i - 1]);
                }
            }
        }
        assert forall|i: int| 0 <= i < s.len() implies !lex_lt(#[trigger] s[i], r[i]) by {
            if i > 0 {
                assert(r[i] == rt[i - 1]);
                assert(tail[i - 1] == s[i]);
                assert(!lex_lt(tail[i - 1], rt[i - 1]));
            }
        }
    }
}

/// The bounded candidate set: at most `cap` items, kept strictly sorted by
/// distance then index.
#[derive(Debug)]
pub struct CandidateSet {
    items: Vec<HeapItem>,
    cap: usize,
}

impl View for CandidateSet {
    type V = Seq<HeapItem>;

    closed spec fn view(&self) -> Seq<HeapItem> {
        self.items@
    }
}

impl CandidateSet {
    /// The capacity the set was created with.
    pub closed spec fn cap_spec(&self) -> int {
        self.cap as int
    }

    /// An empty candidate set that will retain the `cap` best items.
    pub fn new(cap: usize) -> (c: Self)
        ensures
            c@ =~= Seq::<HeapItem>::empty(),
            c.cap_spec() == cap,
    {
        CandidateSet { items: Vec::new(), cap }
    }

    /// Number of items currently held.
    pub fn len(&self) -> (n: usize)
        ensures
            n == self@.len(),
    {
        self.items.len()
    }

    /// The currently worst retained candidate (the last, since the buffer is
    /// ascending), or `None` while the buffer is empty.
    pub fn worst(&self) -> (r: Option<HeapItem>)
        ensures
            match r {
                Some(w) => self@.len() > 0 && w == self@.last(),
                None => self@.len() == 0,
            },
    {
        if self.items.len() > 0 {
            Some(self.items[self.items.len() - 1])
        } else {
            None
        }
    }

    /// Whether the buffer holds `cap` items already.
    pub fn is_full(&self) -> (r: bool)
        ensures
            r == (self@.len() >= self.cap_spec()),
    {
        self.items.len() >= self.cap
    }

    /// Offers a candidate: it is placed in order and, if the buffer then
    /// exceeds its capacity, the worst item is evicted.
    pub fn insert(&mut self, e: HeapItem) -> (kept: bool)
        requires
            sorted_strict(old(self)@),
            old(self)@.len() <= old(self).cap_spec(),
            forall|i: int| 0 <= i < old(self)@.len() ==> #[trigger] old(self)@[i] != e,
        ensures
            final(self)@ == bounded_insert(old(self)@, e, old(self).cap_spec()),
            final(self).cap_spec() == old(self).cap_spec(),
            final(self)@.len() <= final(self).cap_spec(),
            sorted_strict(final(self)@),
    {
        proof {
            lemma_insert_sorted(self@, e);
        }
        let ghost s = self@;
        let n = self.items.len();
        let mut pos: usize = 0;
        while pos < n
            invariant
                n == self@.len(),
                pos <= n,
                s == self@,
                forall|i: int| 0 <= i < pos ==> lex_lt(#[trigger] self@[i], e),
            ensures
                n == self@.len(),
                pos <= n,
                s == self@,
                forall|i: int| 0 <= i < pos ==> lex_lt(#[trigger] self@[i], e),
                pos < n ==> !lex_lt(self@[pos as int], e),
            decreases n - pos,
        {
            let it = self.items[pos];
            if !(it.distance < e.distance || (it.distance == e.distance && it.index < e.index)) {
                break;
            }
            pos = pos + 1;
        }
        proof {
            lemma_insert_at_position(s, e, pos as int);
        }
        self.items.insert(pos, e);
        if self.items.len() > self.cap {
            self.items.pop();
            proof {
                assert(self.items@ =~= insert_sorted(s, e).take(self.cap as int));
            }
        }
        proof {
            if insert_sorted(s, e).len() <= self.cap as int {
                assert(self.items@ =~= insert_sorted(s, e));
            }
            lemma_insert_sorted(s, e);
            if insert_sorted(s, e).len() > self.cap as int {
                lemma_sorted_take(insert_sorted(s, e), self.cap as int);
            }
        }
        true
    }

    /// Hands the retained candidates over, ascending by distance then index.
    pub fn into_items(self) -> (r: Vec<HeapItem>)
        ensures
            r@ == self@,
    {
        let CandidateSet { items, cap: _ } = self;
        items
    }
}

/// A prefix of a strictly sorted sequence is strictly sorted.
pub proof fn lemma_sorted_take(s: Seq<HeapItem>, n: int)
    requires
        sorted_strict(s),
        0 <= n <= s.len(),
    ensures
        sorted_strict(s.take(n)),
{
    assert(forall|i: int| 0 <= i < n ==> #[trigger] s.take(n)[i] == s[i]);
}

/// When everything before `pos` is below `e` and nothing at or after `pos`
/// is, ordered insertion puts `e` exactly at `pos`.
pub proof fn lemma_insert_at_position(s: Seq<HeapItem>, e: HeapItem, pos: int)
    requires
        sorted_strict(s),
        0 <= pos <= s.len(),
        forall|i: int| 0 <= i < s.len() ==> #[trigger] s[i] != e,
        forall|i: int| 0 <= i < pos ==> lex_lt(#[trigger] s[i], e),
        pos < s.len() ==> !lex_lt(s[pos], e),
    ensures
        insert_sorted(s, e) == s.insert(pos, e),
    decreases s.len(),
{
    if s.len() == 0 {
        assert(insert_sorted(s, e) =~= s.insert(0, e));
    } else if lex_lt(e, s[0]) {
        assert(pos == 0) by {
            if pos > 0 {
                assert(lex_lt(s[0], e));
            }
        }
        assert(insert_sorted(s, e) =~= s.insert(0, e));
    } else {
        assert(pos > 0) by {
            if pos == 0 {
                // then neither is below the other in a total strict order,
                // so the two would be equal, which distinctness rules out
                assert(!lex_lt(s[0], e));
                assert(!lex_lt(e, s[0]));
                assert(s[0] == e);
            }
        }
        let tail = s.skip(1);
        assert(sorted_strict(tail)) by {
            assert(forall|i: int, j: int| 0 <= i < j < tail.len()
                ==> lex_lt(#[trigger] tail[i], #[trigger] tail[j]) == lex_lt(s[i + 1], s[j + 1]));
        }
        assert(forall|i: int| 0 <= i < tail.len() ==> #[trigger] tail[i] == s[i + 1]);
        assert(forall|i: int| 0 <= i < pos - 1 ==> lex_lt(#[trigger] tail[i], e));
        assert(forall|i: int| 0 <= i < tail.len() ==> #[trigger] tail[i] != e);
        assert(pos - 1 < tail.len() ==> !lex_lt(tail[pos - 1], e)) by {
            if pos - 1 < tail.len() {
                assert(tail[pos - 1] == s[pos]);
            }
        }
        lemma_insert_at_position(tail, e, pos - 1);
        assert(insert_sorted(s, e) =~= seq![s[0]] + insert_sorted(tail, e));
        assert(seq![s[0]] + tail.insert(pos - 1, e) =~= s.insert(pos, e));
    }
}

/// The smaller of two integers.
pub open spec fn min_int(a: int, b: int) -> int {
    if a <= b {
        a
    } else {
        b
    }
}

/// The set of point indices carried by a sequence.
pub open spec fn index_set(idxs: Seq<usize>) -> Set<int> {
    Set::new(|p: int| exists|i: int| 0 <= i < idxs.len() && idxs[i] == p)
}

/// An index sequence's set is finite and no larger than the sequence.
pub proof fn lemma_index_set_finite(idxs: Seq<usize>)
    ensures
        index_set(idxs).finite(),
        index_set(idxs).len() <= idxs.len(),
    decreases idxs.len(),
{
    if idxs.len() == 0 {
        assert(index_set(idxs) =~= Set::<int>::empty());
    } else {
        let rest = idxs.drop_last();
        lemma_index_set_finite(rest);
        assert forall|p: int| index_set(idxs).contains(p)
            implies index_set(rest).insert(idxs.last() as int).contains(p) by {
            let i = choose|i: int| 0 <= i < idxs.len() && idxs[i] == p;
            if i < idxs.len() - 1 {
                assert(rest[i] == p);
                assert(index_set(rest).contains(p));
            }
        }
        assert forall|p: int| index_set(rest).insert(idxs.last() as int).contains(p)
            implies index_set(idxs).contains(p) by {
            if index_set(rest).contains(p) {
                let i = choose|i: int| 0 <= i < rest.len() && rest[i] == p;
                assert(idxs[i] == p);
            } else {
                assert(idxs[idxs.len() - 1] == p);
            }
        }
        assert(index_set(idxs) =~= index_set(rest).insert(idxs.last() as int));
    }
}

/// An entry a traversal may retain: a real point of the set, carrying its
/// exact distance key from the query.
pub open spec fn entry_ok(e: HeapItem, pts: Seq<Seq<i64>>, m: DistanceMetric, q: Seq<i64>) -> bool {
    &&& 0 <= (e.index as int) < pts.len()
    &&& e.distance as int == dist(m, q, pts[e.index as int])
}

/// Entry `e` strictly precedes point `p` in the result order (smaller
/// distance key, or an equal key and a smaller index).
pub open spec fn beats(e: HeapItem, pts: Seq<Seq<i64>>, m: DistanceMetric, q: Seq<i64>, p: int) -> bool {
    (e.distance as int) < dist(m, q, pts[p])
        || ((e.distance as int) == dist(m, q, pts[p]) && (e.index as int) < p)
}

/// `s` holds exactly the `k` best candidates among the points of `seen`:
/// strictly ascending by distance then index, every entry a `seen` point with
/// its exact key, as many entries as `seen` allows up to `k`, and every
/// `seen` point left out strictly worse than the retained worst.
pub open spec fn is_candidates(
    s: Seq<HeapItem>,
    seen: Set<int>,
    k: int,
    pts: Seq<Seq<i64>>,
    m: DistanceMetric,
    q: Seq<i64>,
) -> bool {
    &&& sorted_strict(s)
    &&& forall|i: int| 0 <= i < s.len()
        ==> entry_ok(#[trigger] s[i], pts, m, q) && seen.contains(s[i].index as int)
    &&& forall|p: int| #[trigger] seen.contains(p) ==> 0 <= p < pts.len()
    &&& s.len() == min_int(k, seen.len() as int)
    &&& forall|p: int| #[trigger] seen.contains(p) && !has_index(s, p)
        ==> s.len() == k && (k <= 0 || beats(s[k - 1], pts, m, q, p))
}

/// Two entries that satisfy `entry_ok` and carry the same index are the same
/// entry, so a strictly sorted candidate buffer has pairwise distinct
/// indices.
pub proof fn lemma_entry_index_unique(
    s: Seq<HeapItem>,
    pts: Seq<Seq<i64>>,
    m: DistanceMetric,
    q: Seq<i64>,
)
    requires
        sorted_strict(s),
        forall|i: int| 0 <= i < s.len() ==> entry_ok(#[trigger] s[i], pts, m, q),
    ensures
        forall|i: int, j: int| 0 <= i < s.len() && 0 <= j < s.len() && i != j
            ==> (#[trigger] s[i]).index != (#[trigger] s[j]).index,
{
    assert forall|i: int, j: int| 0 <= i < s.len() && 0 <= j < s.len() && i != j
        implies (#[trigger] s[i]).index != (#[trigger] s[j]).index by {
        if s[i].index == s[j].index {
            assert(s[i].distance == s[j].distance);
            if i < j {
                assert(lex_lt(s[i], s[j]));
            } else {
                assert(lex_lt(s[j], s[i]));
            }
        }
    }
}

/// Offering a fresh point to a candidate buffer keeps it the exact top-`k`
/// of the enlarged seen set.
pub proof fn lemma_candidates_insert(
    s: Seq<HeapItem>,
    seen: Set<int>,
    k: int,
    pts: Seq<Seq<i64>>,
    m: DistanceMetric,
    q: Seq<i64>,
    e: HeapItem,
)
    requires
        is_candidates(s, seen, k, pts, m, q),
        seen.finite(),
        k >= 0,
        entry_ok(e, pts, m, q),
        !seen.contains(e.index as int),
    ensures
        is_candidates(bounded_insert(s, e, k), seen.insert(e.index as int), k, pts, m, q),
        seen.insert(e.index as int).finite(),
{
    let p = e.index as int;
    let seen2 = seen.insert(p);
    assert(forall|i: int| 0 <= i < s.len() ==> #[trigger] s[i] != e) by {
        assert(forall|i: int| 0 <= i < s.len() ==> seen.contains((#[trigger] s[i]).index as int));
    }
    lemma_insert_sorted(s, e);
    let full = insert_sorted(s, e);
    let r = bounded_insert(s, e, k);
    assert(seen2.len() == seen.len() + 1);
    // every entry of the full insertion is a valid entry over the new seen set
    assert forall|i: int| 0 <= i < full.len()
        implies entry_ok(#[trigger] full[i], pts, m, q) && seen2.contains(full[i].index as int) by {
        if full[i] == e {
        } else {
            assert(s.contains(full[i]));
            let w = choose|w: int| 0 <= w < s.len() && s[w] == full[i];
            assert(entry_ok(s[w], pts, m, q));
        }
    }
    if full.len() <= k {
        assert(r == full);
        // nothing was missing before (the buffer was not full), and e joins
        assert(s.len() < k);
        assert(s.len() == seen.len());
        assert forall|x: int| #[trigger] seen2.contains(x) && !has_index(r, x)
            implies r.len() == k && (k <= 0 || beats(r[k - 1], pts, m, q, x)) by {
            if x == p {
                assert(full.contains(e));
                let w = choose|w: int| 0 <= w < full.len() && full[w] == e;
                assert(has_index(r, x));
            } else {
                assert(seen.contains(x));
                if !has_index(s, x) {
                    assert(s.len() == k);
                } else {
                    let w = choose|w: int| 0 <= w < s.len() && s[w].index == x;
                    assert(full.contains(s[w]));
                    let w2 = choose|w2: int| 0 <= w2 < full.len() && full[w2] == s[w];
                    assert(has_index(r, x));
                }
            }
        }
        assert(r.len() == min_int(k, seen2.len() as int));
    } else if k == 0 {
        assert(r =~= full.take(0));
        assert(r.len() == 0);
        assert(min_int(k, seen2.len() as int) == 0);
    } else {
        assert(s.len() == k && k > 0);
        assert(r == full.take(k));
        assert(r.len() == k);
        assert(min_int(k, seen2.len() as int) == k) by {
            assert(seen.len() >= k);
        }
        assert forall|i: int| 0 <= i < r.len()
            implies entry_ok(#[trigger] r[i], pts, m, q) && seen2.contains(r[i].index as int) by {
            assert(r[i] == full[i]);
        }
        lemma_sorted_take(full, k);
        let dropped = full[k as int];
        lemma_entry_index_unique(full, pts, m, q);
        assert forall|x: int| #[trigger] seen2.contains(x) && !has_index(r, x)
            implies r.len() == k && (k <= 0 || beats(r[k - 1], pts, m, q, x)) by {
            assert(r[k - 1] == full[k - 1]);
            assert(lex_lt(full[k - 1], dropped));
            if x == p {
                assert(full.contains(e));
                let w = choose|w: int| 0 <= w < full.len() && full[w] == e;
                if w < k {
                    assert(r[w] == e);
                    assert(has_index(r, x));
                }
                assert(w == k);
                assert(dropped == e);
                assert(beats(r[k - 1], pts, m, q, x));
            } else {
                assert(seen.contains(x));
                if has_index(s, x) {
                    let w = choose|w: int| 0 <= w < s.len() && s[w].index == x;
                    assert(full.contains(s[w]));
                    let w2 = choose|w2: int| 0 <= w2 < full.len() && full[w2] == s[w];
                    if w2 < k {
                        assert(r[w2] == s[w]);
                        assert(has_index(r, x));
                    }
                    assert(w2 == k);
                    assert(dropped == s[w]);
                    assert(entry_ok(dropped, pts, m, q));
                    assert(beats(r[k - 1], pts, m, q, x));
                } else {
                    // already missing before: the old worst beat it, and the
                    // new worst is no worse than the old worst
                    assert(beats(s[k - 1], pts, m, q, x));
                    assert(!lex_lt(s[k - 1], full[k - 1]));
                    assert(beats(r[k - 1], pts, m, q, x));
                }
            }
        }
    }
}

/// A point strictly farther than a full buffer's worst retained distance can
/// be marked seen without touching the buffer.
pub proof fn lemma_candidates_skip(
    s: Seq<HeapItem>,
    seen: Set<int>,
    k: int,
    pts: Seq<Seq<i64>>,
    m: DistanceMetric,
    q: Seq<i64>,
    p: int,
)
    requires
        is_candidates(s, seen, k, pts, m, q),
        seen.finite(),
        !seen.contains(p),
        0 <= p < pts.len(),
        s.len() == k,
        k > 0,
        (s[k - 1].distance as int) < dist(m, q, pts[p]),
    ensures
        is_candidates(s, seen.insert(p), k, pts, m, q),
        seen.insert(p).finite(),
{
    let seen2 = seen.insert(p);
    assert(seen2.len() == seen.len() + 1);
    assert(min_int(k, seen2.len() as int) == k) by {
        assert(seen.len() >= k);
    }
    assert forall|x: int| #[trigger] seen2.contains(x) && !has_index(s, x)
        implies s.len() == k && (k <= 0 || beats(s[k - 1], pts, m, q, x)) by {
        if x == p {
            assert(beats(s[k - 1], pts, m, q, p));
        }
    }
}

/// A whole batch of fresh points, each strictly farther than the worst
/// retained distance, can be marked seen without touching the buffer. This is
/// exactly what pruning a subtree does.
pub proof fn lemma_candidates_skip_all(
    s: Seq<HeapItem>,
    seen: Set<int>,
    k: int,
    pts: Seq<Seq<i64>>,
    m: DistanceMetric,
    q: Seq<i64>,
    idxs: Seq<usize>,
)
    requires
        is_candidates(s, seen, k, pts, m, q),
        seen.finite(),
        forall|i: int| 0 <= i < idxs.len() ==> !seen.contains(#[trigger] idxs[i] as int),
        forall|i: int, j: int| 0 <= i < j < idxs.len() ==> idxs[i] != idxs[j],
        forall|i: int| 0 <= i < idxs.len() ==> (#[trigger] idxs[i] as int) < pts.len(),
        s.len() == k,
        k > 0,
        forall|i: int| 0 <= i < idxs.len()
            ==> (s[k - 1].distance as int) < dist(m, q, pts[#[trigger] idxs[i] as int]),
    ensures
        is_candidates(s, seen.union(index_set(idxs)), k, pts, m, q),
        seen.union(index_set(idxs)).finite(),
    decreases idxs.len(),
{
    lemma_index_set_finite(idxs);
    if idxs.len() == 0 {
        assert(seen.union(index_set(idxs)) =~= seen);
    } else {
        let p = idxs[0] as int;
        let rest = idxs.skip(1);
        assert(forall|i: int| 0 <= i < rest.len() ==> #[trigger] rest[i] == idxs[i + 1]);
        lemma_candidates_skip(s, seen, k, pts, m, q, p);
        let seen1 = seen.insert(p);
        lemma_candidates_skip_all(s, seen1, k, pts, m, q, rest);
        assert forall|x: int| seen1.union(index_set(rest)).contains(x)
            implies seen.union(index_set(idxs)).contains(x) by {
            if x == p {
                assert(index_set(idxs).contains(p)) by {
                    assert(idxs[0] == p);
                }
            } else if index_set(rest).contains(x) {
                let i = choose|i: int| 0 <= i < rest.len() && rest[i] == x;
                assert(idxs[i + 1] == x);
                assert(index_set(idxs).contains(x));
            }
        }
        assert forall|x: int| seen.union(index_set(idxs)).contains(x)
            implies seen1.union(index_set(rest)).contains(x) by {
            if index_set(idxs).contains(x) {
                let i = choose|i: int| 0 <= i < idxs.len() && idxs[i] == x;
                if i == 0 {
                } else {
                    assert(rest[i - 1] == x);
                    assert(index_set(rest).contains(x));
                }
            }
        }
        assert(seen1.union(index_set(rest)) =~= seen.union(index_set(idxs)));
    }
}

/// Strictly sorted sequences with the same members are the same sequence.
pub proof fn lemma_sorted_strict_unique(s1: Seq<HeapItem>, s2: Seq<HeapItem>)
    requires
        sorted_strict(s1),
        sorted_strict(s2),
        s1.len() == s2.len(),
        forall|x: HeapItem| s1.contains(x) <==> s2.contains(x),
    ensures
        s1 == s2,
    decreases s1.len(),
{
    if s1.len() == 0 {
        assert(s1 =~= s2);
    } else {
        // the heads are each sequence's strict minimum, so they agree
        assert(s1.contains(s1[0]));
        assert(s2.contains(s1[0]));
        let j = choose|j: int| 0 <= j < s2.len() && s2[j] == s1[0];
        assert(s2.contains(s2[0]));
        assert(s1.contains(s2[0]));
        let i = choose|i: int| 0 <= i < s1.len() && s1[i] == s2[0];
        assert(s1[0] == s2[0]) by {
            if j > 0 {
                assert(lex_lt(s2[0], s2[j]));
                if i > 0 {
                    assert(lex_lt(s1[0], s1[i]));
                }
            }
        }
        let t1 = s1.skip(1);
        let t2 = s2.skip(1);
        assert(forall|a: int| 0 <= a < t1.len() ==> #[trigger] t1[a] == s1[a + 1]);
        assert(forall|a: int| 0 <= a < t2.len() ==> #[trigger] t2[a] == s2[a + 1]);
        assert(sorted_strict(t1));
        assert(sorted_strict(t2));
        assert forall|x: HeapItem| t1.contains(x) implies t2.contains(x) by {
            let a = choose|a: int| 0 <= a < t1.len() && t1[a] == x;
            assert(s1[a + 1] == x);
            assert(lex_lt(s1[0], x));
            assert(s2.contains(x));
            let b = choose|b: int| 0 <= b < s2.len() && s2[b] == x;
            assert(b > 0) by {
                if b == 0 {
                    assert(x == s2[0]);
                }
            }
            assert(t2[b - 1] == x);
        }
        assert forall|x: HeapItem| t2.contains(x) implies t1.contains(x) by {
            let a = choose|a: int| 0 <= a < t2.len() && t2[a] == x;
            assert(s2[a + 1] == x);
            assert(lex_lt(s2[0], x));
            assert(s1.contains(x));
            let b = choose|b: int| 0 <= b < s1.len() && s1[b] == x;
            assert(b > 0) by {
                if b == 0 {
                    assert(x == s1[0]);
                }
            }
            assert(t1[b - 1] == x);
        }
        lemma_sorted_strict_unique(t1, t2);
        assert(s1 =~= s2) by {
            assert(forall|a: int| 1 <= a < s1.len() ==> s1[a] == t1[a - 1] && s2[a] == t2[a - 1]);
        }
    }
}

/// The exact top-`k` of a seen set is unique: any two candidate buffers that
/// both satisfy the characterization are equal.
pub proof fn lemma_candidates_unique(
    s1: Seq<HeapItem>,
    s2: Seq<HeapItem>,
    seen: Set<int>,
    k: int,
    pts: Seq<Seq<i64>>,
    m: DistanceMetric,
    q: Seq<i64>,
)
    requires
        is_candidates(s1, seen, k, pts, m, q),
        is_candidates(s2, seen, k, pts, m, q),
        seen.finite(),
    ensures
        s1 == s2,
{
    lemma_entry_index_unique(s1, pts, m, q);
    lemma_entry_index_unique(s2, pts, m, q);
    assert forall|x: HeapItem| s1.contains(x) implies s2.contains(x) by {
        let a = choose|a: int| 0 <= a < s1.len() && s1[a] == x;
        let p = x.index as int;
        assert(seen.contains(p));
        if !has_index(s2, p) {
            // then the worst of s2 beats p, yet every entry of s2 either sits
            // in s1 (impossible for all of them, x occupies a slot) or is
            // beaten by x itself
            assert(s2.len() == k && k > 0);
            assert(beats(s2[k - 1], pts, m, q, p));
            assert(s1.len() == k);
            // not every index of s2 can appear in s1: s1 has k entries, one
            // of which is x, whose index is outside s2's indices
            if forall|b: int| 0 <= b < s2.len() ==> has_index(s1, (#[trigger] s2[b]).index as int) {
                // map each s2 entry to its position in s1; all k s1 slots are
                // hit injectively, so every s1 index is an s2 index, contradicting x
                lemma_index_cover(s1, s2, pts, m, q);
                assert(has_index(s2, p));
            } else {
                let b = choose|b: int| 0 <= b < s2.len()
                    && !has_index(s1, (#[trigger] s2[b]).index as int);
                let y = s2[b];
                assert(seen.contains(y.index as int));
                assert(beats(s1[k - 1], pts, m, q, y.index as int));
                // x is in s1, so x is at most the worst of s1
                assert(!lex_lt(s1[k - 1], x) || a == k - 1 || lex_lt(x, s1[k - 1]));
                assert(!lex_lt(s1[k - 1], x)) by {
                    if a < k - 1 {
                        assert(lex_lt(s1[a], s1[k - 1]));
                    }
                }
                // chain: s1 worst beats y, y is at most s2 worst, s2 worst beats p == x.index
                assert(entry_ok(y, pts, m, q));
                assert(lex_lt(s1[k - 1], y) || s1[k - 1] == y) by {
                    assert(beats(s1[k - 1], pts, m, q, y.index as int));
                }
                assert(!lex_lt(s2[k - 1], y)) by {
                    if b < k - 1 {
                        assert(lex_lt(s2[b], s2[k - 1]));
                    }
                }
                assert(entry_ok(x, pts, m, q));
                assert(lex_lt(s2[k - 1], x)) by {
                    assert(beats(s2[k - 1], pts, m, q, p));
                }
                assert(lex_lt(s1[k - 1], x) && !lex_lt(s1[k - 1], x));
            }
        }
        let b2 = choose|b2: int| 0 <= b2 < s2.len() && (#[trigger] s2[b2]).index == p;
        assert(entry_ok(s2[b2], pts, m, q));
        assert(s2[b2] == x);
    }
    assert forall|x: HeapItem| s2.contains(x) implies s1.contains(x) by {
        lemma_candidates_half(s1, s2, seen, k, pts, m, q, x);
    }
    lemma_sorted_strict_unique(s1, s2);
}

/// Helper: every index retained by `s2` is also retained by `s1` when both
/// characterize the same seen set (the symmetric half of uniqueness).
pub proof fn lemma_candidates_half(
    s1: Seq<HeapItem>,
    s2: Seq<HeapItem>,
    seen: Set<int>,
    k: int,
    pts: Seq<Seq<i64>>,
    m: DistanceMetric,
    q: Seq<i64>,
    x: HeapItem,
)
    requires
        is_candidates(s1, seen, k, pts, m, q),
        is_candidates(s2, seen, k, pts, m, q),
        seen.finite(),
        s2.contains(x),
    ensures
        s1.contains(x),
{
    lemma_entry_index_unique(s1, pts, m, q);
    lemma_entry_index_unique(s2, pts, m, q);
    let a = choose|a: int| 0 <= a < s2.len() && s2[a] == x;
    let p = x.index as int;
    assert(seen.contains(p));
    if !has_index(s1, p) {
        assert(s1.len() == k && k > 0);
        assert(beats(s1[k - 1], pts, m, q, p));
        assert(s2.len() == k);
        if forall|b: int| 0 <= b < s1.len() ==> has_index(s2, (#[trigger] s1[b]).index as int) {
            lemma_index_cover(s2, s1, pts, m, q);
            assert(has_index(s1, p));
        } else {
            let b = choose|b: int| 0 <= b < s1.len()
                && !has_index(s2, (#[trigger] s1[b]).index as int);
            let y = s1[b];
            assert(seen.contains(y.index as int));
            assert(beats(s2[k - 1], pts, m, q, y.index as int));
            assert(!lex_lt(s2[k - 1], x)) by {
                if a < k - 1 {
                    assert(lex_lt(s2[a], s2[k - 1]));
                }
            }
            assert(entry_ok(y, pts, m, q));
            assert(lex_lt(s2[k - 1], y) || s2[k - 1] == y) by {
                assert(beats(s2[k - 1], pts, m, q, y.index as int));
            }
            assert(!lex_lt(s1[k - 1], y)) by {
                if b < k - 1 {
                    assert(lex_lt(s1[b], s1[k - 1]));
                }
            }
            assert(entry_ok(x, pts, m, q));
            assert(lex_lt(s1[k - 1], x)) by {
                assert(beats(s1[k - 1], pts, m, q, p));
            }
            assert(lex_lt(s2[k - 1], x) && !lex_lt(s2[k - 1], x));
        }
    }
    let b2 = choose|b2: int| 0 <= b2 < s1.len() && (#[trigger] s1[b2]).index == p;
    assert(entry_ok(s1[b2], pts, m, q));
    assert(s1[b2] == x);
}

/// Helper: when every index of `t` appears in `s`, both strictly sorted with
/// exact entries and equally long, every index of `s` appears in `t` too.
pub proof fn lemma_index_cover(
    s: Seq<HeapItem>,
    t: Seq<HeapItem>,
    pts: Seq<Seq<i64>>,
    m: DistanceMetric,
    q: Seq<i64>,
)
    requires
        sorted_strict(s),
        sorted_strict(t),
        s.len() == t.len(),
        forall|i: int| 0 <= i < s.len() ==> entry_ok(#[trigger] s[i], pts, m, q),
        forall|i: int| 0 <= i < t.len() ==> entry_ok(#[trigger] t[i], pts, m, q),
        forall|b: int| 0 <= b < t.len() ==> has_index(s, (#[trigger] t[b]).index as int),
    ensures
        forall|b: int| 0 <= b < s.len() ==> has_index(t, (#[trigger] s[b]).index as int),
{
    lemma_entry_index_unique(s, pts, m, q);
    lemma_entry_index_unique(t, pts, m, q);
    // each t entry maps to the s entry with the same index; exact entries
    // make the map pointwise equal, so t's members sit inside s; two strictly
    // sorted sequences of the same length with one containing the other are equal
    assert forall|b: int| 0 <= b < t.len() implies s.contains(#[trigger] t[b]) by {
        let w = choose|w: int| 0 <= w < s.len() && (#[trigger] s[w]).index == t[b].index;
        assert(entry_ok(s[w], pts, m, q) && entry_ok(t[b], pts, m, q));
        assert(s[w] == t[b]);
    }
    lemma_sorted_subset_equal(t, s);
    assert forall|b: int| 0 <= b < s.len() implies has_index(t, (#[trigger] s[b]).index as int) by {
        assert(t.contains(s[b]));
        let w = choose|w: int| 0 <= w < t.len() && t[w] == s[b];
    }
}

/// The members of a sequence, as a set.
pub open spec fn item_set(s: Seq<HeapItem>) -> Set<HeapItem> {
    Set::new(|x: HeapItem| s.contains(x))
}

/// A strictly sorted sequence has as many distinct members as entries.
pub proof fn lemma_item_set_len(s: Seq<HeapItem>)
    requires
        sorted_strict(s),
    ensures
        item_set(s).finite(),
        item_set(s).len() == s.len(),
    decreases s.len(),
{
    if s.len() == 0 {
        assert(item_set(s) =~= Set::<HeapItem>::empty());
    } else {
        let s1 = s.drop_last();
        assert(forall|c: int| 0 <= c < s1.len() ==> #[trigger] s1[c] == s[c]);
        assert(sorted_strict(s1));
        lemma_item_set_len(s1);
        assert(!item_set(s1).contains(s.last())) by {
            if s1.contains(s.last()) {
                let w = choose|w: int| 0 <= w < s1.len() && s1[w] == s.last();
                assert(lex_lt(s[w], s[s.len() - 1]));
            }
        }
        assert forall|x: HeapItem| item_set(s).contains(x)
            implies item_set(s1).insert(s.last()).contains(x) by {
            let w = choose|w: int| 0 <= w < s.len() && s[w] == x;
            if w < s.len() - 1 {
                assert(s1[w] == x);
                assert(s1.contains(x));
            }
        }
        assert forall|x: HeapItem| item_set(s1).insert(s.last()).contains(x)
            implies item_set(s).contains(x) by {
            if item_set(s1).contains(x) {
                let w = choose|w: int| 0 <= w < s1.len() && s1[w] == x;
                assert(s[w] == x);
            } else {
                assert(s[s.len() - 1] == x);
            }
        }
        assert(item_set(s) =~= item_set(s1).insert(s.last()));
    }
}

/// A strictly sorted sequence whose members all occur in an equally long
/// strictly sorted sequence is that sequence.
pub proof fn lemma_sorted_subset_equal(t: Seq<HeapItem>, s: Seq<HeapItem>)
    requires
        sorted_strict(t),
        sorted_strict(s),
        t.len() == s.len(),
        forall|b: int| 0 <= b < t.len() ==> s.contains(#[trigger] t[b]),
    ensures
        t == s,
        forall|b: int| 0 <= b < s.len() ==> t.contains(#[trigger] s[b]),
{
    lemma_item_set_len(t);
    lemma_item_set_len(s);
    assert(item_set(t).subset_of(item_set(s))) by {
        assert forall|x: HeapItem| item_set(t).contains(x) implies item_set(s).contains(x) by {
            let w = choose|w: int| 0 <= w < t.len() && t[w] == x;
        }
    }
    vstd::set_lib::lemma_subset_equality(item_set(t), item_set(s));
    assert forall|x: HeapItem| s.contains(x) implies t.contains(x) by {
        assert(item_set(s).contains(x));
        assert(item_set(t).contains(x));
    }
    assert forall|x: HeapItem| t.contains(x) implies s.contains(x) by {
        let w = choose|w: int| 0 <= w < t.len() && t[w] == x;
    }
    lemma_sorted_strict_unique(t, s);
    assert forall|b: int| 0 <= b < s.len() implies t.contains(#[trigger] s[b]) by {
        assert(s.contains(s[b]));
    }
}

/// The index set of a concatenation is the union of the index sets.
pub proof fn lemma_index_set_concat(a: Seq<usize>, b: Seq<usize>)
    ensures
        index_set(a + b) == index_set(a).union(index_set(b)),
{
    assert forall|p: int| index_set(a + b).contains(p)
        implies index_set(a).union(index_set(b)).contains(p) by {
        let i = choose|i: int| 0 <= i < (a + b).len() && (a + b)[i] == p;
        if i < a.len() {
            assert(a[i] == p);
        } else {
            assert(b[i - a.len()] == p);
        }
    }
    assert forall|p: int| index_set(a).union(index_set(b)).contains(p)
        implies index_set(a + b).contains(p) by {
        if index_set(a).contains(p) {
            let i = choose|i: int| 0 <= i < a.len() && a[i] == p;
            assert((a + b)[i] == p);
        } else {
            let i = choose|i: int| 0 <= i < b.len() && b[i] == p;
            assert((a + b)[a.len() + i] == p);
        }
    }
    assert(index_set(a + b) =~= index_set(a).union(index_set(b)));
}

/// Extending a prefix by one element inserts that element's index.
pub proof fn lemma_index_set_take_step(idxs: Seq<usize>, j: int)
    requires
        0 <= j < idxs.len(),
    ensures
        index_set(idxs.take(j + 1)) == index_set(idxs.take(j)).insert(idxs[j] as int),
{
    let a = idxs.take(j);
    let b = idxs.take(j + 1);
    assert(forall|i: int| 0 <= i < j ==> #[trigger] b[i] == a[i]);
    assert(b[j] == idxs[j]);
    assert forall|p: int| index_set(b).contains(p)
        implies index_set(a).insert(idxs[j] as int).contains(p) by {
        let i = choose|i: int| 0 <= i < b.len() && b[i] == p;
        if i < j {
            assert(a[i] == p);
        }
    }
    assert forall|p: int| index_set(a).insert(idxs[j] as int).contains(p)
        implies index_set(b).contains(p) by {
        if index_set(a).contains(p) {
            let i = choose|i: int| 0 <= i < a.len() && a[i] == p;
            assert(b[i] == p);
        } else {
            assert(b[j] == p);
        }
    }
    assert(index_set(b) =~= index_set(a).insert(idxs[j] as int));
}

/// Sorts candidates ascending by distance then index. The input entries must
/// carry pairwise distinct indices; the output is the same collection in
/// ascending order.
pub fn sort_items(items: Vec<HeapItem>) -> (r: Vec<HeapItem>)
    requires
        forall|i: int, j: int| 0 <= i < j < items@.len()
            ==> (#[trigger] items@[i]).index != (#[trigger] items@[j]).index,
    ensures
        sorted_strict(r@),
        r@.len() == items@.len(),
        forall|x: HeapItem| r@.contains(x) <==> items@.contains(x),
        forall|i: int, j: int| 0 <= i < j < r@.len()
            ==> (#[trigger] r@[i]).index != (#[trigger] r@[j]).index,
{
    let n = items.len();
    let mut cs = CandidateSet::new(n);
    let mut i: usize = 0;
    while i < n
        invariant
            n == items@.len(),
            i <= n,
            cs.cap_spec() == n as int,
            cs@.len() == i,
            sorted_strict(cs@),
            forall|a: int, b: int| 0 <= a < b < items@.len()
                ==> (#[trigger] items@[a]).index != (#[trigger] items@[b]).index,
            forall|x: HeapItem| cs@.contains(x) ==> exists|j: int| 0 <= j < i && items@[j] == x,
            forall|j: int| 0 <= j < i ==> cs@.contains(#[trigger] items@[j]),
        decreases n - i,
    {
        let e = items[i];
        proof {
            assert forall|t: int| 0 <= t < cs@.len() implies #[trigger] cs@[t] != e by {
                if cs@[t] == e {
                    assert(cs@.contains(cs@[t])) by {
                        assert(cs@[t] == cs@[t]);
                    }
                    let j = choose|j: int| 0 <= j < i && items@[j] == cs@[t];
                    assert(items@[j].index == items@[i as int].index);
                }
            }
            lemma_insert_sorted(cs@, e);
        }
        let ghost before = cs@;
        cs.insert(e);
        proof {
            assert(cs@ == insert_sorted(before, e));
            assert forall|j: int| 0 <= j < i + 1 implies cs@.contains(#[trigger] items@[j]) by {
                if j < i {
                    assert(before.contains(items@[j]));
                    let w = choose|w: int| 0 <= w < before.len() && before[w] == items@[j];
                } else {
                    assert(cs@.contains(e));
                }
            }
            assert forall|x: HeapItem| cs@.contains(x)
                implies exists|j: int| 0 <= j < i + 1 && items@[j] == x by {
                let w = choose|w: int| 0 <= w < cs@.len() && cs@[w] == x;
                if cs@[w] == e {
                    assert(items@[i as int] == x);
                } else {
                    assert(before.contains(cs@[w]));
                    let j = choose|j: int| 0 <= j < i && items@[j] == x;
                }
            }
        }
        i = i + 1;
    }
    proof {
        assert forall|a: int, b: int| 0 <= a < b < cs@.len()
            implies (#[trigger] cs@[a]).index != (#[trigger] cs@[b]).index by {
            if cs@[a].index == cs@[b].index {
                assert(cs@.contains(cs@[a]) && cs@.contains(cs@[b])) by {
                    assert(cs@[a] == cs@[a] && cs@[b] == cs@[b]);
                }
                let ja = choose|ja: int| 0 <= ja < n && items@[ja] == cs@[a];
                let jb = choose|jb: int| 0 <= jb < n && items@[jb] == cs@[b];
                assert(ja == jb) by {
                    if ja != jb {
                        assert(items@[ja].index != items@[jb].index);
                    }
                }
                assert(lex_lt(cs@[a], cs@[b]));
            }
        }
    }
    cs.into_items()
}


} // verus!
