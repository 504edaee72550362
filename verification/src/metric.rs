//! Distance metrics over integer coordinate vectors.
//!
//! Coordinates are bounded integers and every metric is evaluated as an exact
//! integer comparison key: Manhattan and Chebyshev distances are themselves
//! integers, the Euclidean key is the squared distance, and the Minkowski key
//! is the sum of `p`-th powers of coordinate differences. Keys order point
//! pairs exactly as the corresponding real-valued distances do, so nearest
//! and radius queries over keys return exactly the points the real metric
//! would.

use vstd::prelude::*;

verus! {

/// Largest coordinate magnitude the spatial structures accept. The bound
/// keeps every distance key within `i128` without rounding.
pub const COORD_LIMIT: i64 = 1_000_000;

/// Largest dimension count the spatial structures accept.
pub const DIM_LIMIT: usize = 100_000;

/// Largest value one coordinate axis can contribute to a distance key:
/// `(2 * COORD_LIMIT) ^ 5`, the worst Minkowski term.
pub const TERM_LIMIT: i128 = 32_000_000_000_000_000_000_000_000_000_000;

/// Largest distance key: `DIM_LIMIT * TERM_LIMIT`.
pub const KEY_LIMIT: i128 = 3_200_000_000_000_000_000_000_000_000_000_000_000;

/// Largest admitted Minkowski exponent; higher powers would overflow the
/// exact key arithmetic.
pub const MAX_MINKOWSKI_EXPONENT: u32 = 5;

/// Why a build or query was rejected.
#[derive(Clone, Copy, Debug, PartialEq, Eq, Structural)]
pub enum SpatialError {
    /// Two coordinate vectors (a point and a query, or two points) differ in
    /// dimension.
    DimensionMismatch,
    /// A build was requested over zero points.
    EmptyPointSet,
    /// A configuration value is out of range: a zero leaf size, a
    /// non-positive kernel bandwidth, an out-of-range Minkowski exponent, or
    /// an empty range handed to a randomized helper.
    InvalidConfiguration,
    /// A query parameter is out of range: a negative radius.
    InvalidQuery,
}

/// The closed set of supported distance metrics.
#[derive(Clone, Copy, Debug, PartialEq, Eq, Structural)]
pub enum DistanceMetric {
    /// Straight-line distance; its key is the squared distance.
    Euclidean,
    /// Sum of absolute coordinate differences.
    Manhattan,
    /// Maximum absolute coordinate difference.
    Chebyshev,
    /// Sum of `p`-th powers of absolute coordinate differences (the key of
    /// the order-`p` Minkowski distance).
    Minkowski(u32),
}

/// Absolute difference of two integers.
pub open spec fn abs_diff(a: int, b: int) -> int {
    if a >= b {
        a - b
    } else {
        b - a
    }
}

/// `base` to the power `e`.
pub open spec fn pow_nat(base: int, e: nat) -> int
    decreases e,
{
    if e == 0 {
        1
    } else {
        base * pow_nat(base, (e - 1) as nat)
    }
}

/// The metric carries an exponent the exact arithmetic supports.
pub open spec fn metric_ok(m: DistanceMetric) -> bool {
    match m {
        DistanceMetric::Minkowski(p) => 1 <= p <= MAX_MINKOWSKI_EXPONENT,
        _ => true,
    }
}

/// What one axis contributes to a summed distance key.
pub open spec fn axis_term(m: DistanceMetric, a: int, b: int) -> int {
    match m {
        DistanceMetric::Euclidean => (a - b) * (a - b),
        DistanceMetric::Manhattan => abs_diff(a, b),
        DistanceMetric::Chebyshev => abs_diff(a, b),
        DistanceMetric::Minkowski(p) => pow_nat(abs_diff(a, b), p as nat),
    }
}

/// Sum of the first `i` axis terms.
pub open spec fn dist_sum(m: DistanceMetric, a: Seq<i64>, b: Seq<i64>, i: int) -> int
    decreases i,
{
    if i <= 0 {
        0
    } else {
        dist_sum(m, a, b, i - 1) + axis_term(m, a[i - 1] as int, b[i - 1] as int)
    }
}

/// Maximum of the first `i` absolute coordinate differences.
pub open spec fn dist_cheb(a: Seq<i64>, b: Seq<i64>, i: int) -> int
    decreases i,
{
    if i <= 0 {
        0
    } else {
        let rest = dist_cheb(a, b, i - 1);
        let t = abs_diff(a[i - 1] as int, b[i - 1] as int);
        if t >= rest {
            t
        } else {
            rest
        }
    }
}

/// The exact distance key between two coordinate vectors of equal dimension.
pub open spec fn dist(m: DistanceMetric, a: Seq<i64>, b: Seq<i64>) -> int {
    match m {
        DistanceMetric::Chebyshev => dist_cheb(a, b, a.len() as int),
        _ => dist_sum(m, a, b, a.len() as int),
    }
}

/// One coordinate within the accepted magnitude bound.
pub open spec fn bounded_val(x: int) -> bool {
    -(COORD_LIMIT as int) <= x <= COORD_LIMIT as int
}

/// A coordinate vector the spatial structures accept: bounded dimension and
/// bounded coordinates.
pub open spec fn bounded_row(a: Seq<i64>) -> bool {
    &&& a.len() <= DIM_LIMIT
    &&& forall|i: int| 0 <= i < a.len() ==> bounded_val(#[trigger] a[i] as int)
}

/// The worst single-axis contribution evaluates to `TERM_LIMIT`.
pub proof fn lemma_term_limit_value()
    ensures
        pow_nat(2_000_000, 5) == TERM_LIMIT as int,
{
    assert(pow_nat(2_000_000, 0) == 1);
    assert(pow_nat(2_000_000, 1) == 2_000_000 * pow_nat(2_000_000, 0));
    assert(pow_nat(2_000_000, 2) == 2_000_000 * pow_nat(2_000_000, 1));
    assert(pow_nat(2_000_000, 3) == 2_000_000 * pow_nat(2_000_000, 2));
    assert(pow_nat(2_000_000, 4) == 2_000_000 * pow_nat(2_000_000, 3));
    assert(pow_nat(2_000_000, 5) == 2_000_000 * pow_nat(2_000_000, 4));
}

/// Powers of a non-negative base are non-negative.
pub proof fn lemma_pow_nonneg(base: int, e: nat)
    requires
        base >= 0,
    ensures
        pow_nat(base, e) >= 0,
    decreases e,
{
    if e > 0 {
        lemma_pow_nonneg(base, (e - 1) as nat);
        assert(base * pow_nat(base, (e - 1) as nat) >= 0) by (nonlinear_arith)
            requires base >= 0 && pow_nat(base, (e - 1) as nat) >= 0;
    }
}

/// Powers are monotone in the base.
pub proof fn lemma_pow_le(x: int, y: int, e: nat)
    requires
        0 <= x <= y,
    ensures
        pow_nat(x, e) <= pow_nat(y, e),
    decreases e,
{
    if e > 0 {
        lemma_pow_le(x, y, (e - 1) as nat);
        lemma_pow_nonneg(x, (e - 1) as nat);
        assert(x * pow_nat(x, (e - 1) as nat) <= y * pow_nat(y, (e - 1) as nat)) by (nonlinear_arith)
            requires
                0 <= x <= y,
                0 <= pow_nat(x, (e - 1) as nat) <= pow_nat(y, (e - 1) as nat);
    }
}

/// Powers of a base at least one are monotone in the exponent.
pub proof fn lemma_pow_exp_le(base: int, e1: nat, e2: nat)
    requires
        base >= 1,
        e1 <= e2,
    ensures
        pow_nat(base, e1) <= pow_nat(base, e2),
    decreases e2,
{
    if e1 < e2 {
        lemma_pow_exp_le(base, e1, (e2 - 1) as nat);
        lemma_pow_nonneg(base, (e2 - 1) as nat);
        assert(pow_nat(base, (e2 - 1) as nat) <= base * pow_nat(base, (e2 - 1) as nat))
            by (nonlinear_arith)
            requires base >= 1 && pow_nat(base, (e2 - 1) as nat) >= 0;
    }
}

/// One axis term of an accepted metric over bounded coordinates is
/// non-negative and at most `TERM_LIMIT`.
pub proof fn lemma_axis_term_bound(m: DistanceMetric, a: int, b: int)
    requires
        metric_ok(m),
        bounded_val(a),
        bounded_val(b),
    ensures
        0 <= axis_term(m, a, b) <= TERM_LIMIT as int,
{
    let d = abs_diff(a, b);
    assert(0 <= d <= 2_000_000);
    lemma_term_limit_value();
    match m {
        DistanceMetric::Euclidean => {
            assert((a - b) * (a - b) == d * d) by (nonlinear_arith)
                requires d == a - b || d == b - a;
            assert(0 <= d * d <= 2_000_000 * 2_000_000) by (nonlinear_arith)
                requires 0 <= d <= 2_000_000;
        },
        DistanceMetric::Manhattan => {},
        DistanceMetric::Chebyshev => {},
        DistanceMetric::Minkowski(p) => {
            lemma_pow_nonneg(d, p as nat);
            lemma_pow_le(d, 2_000_000, p as nat);
            lemma_pow_exp_le(2_000_000, p as nat, 5);
        },
    }
}

/// A whole distance key of an accepted metric over bounded vectors is
/// non-negative and at most `KEY_LIMIT`.
pub proof fn lemma_dist_bound(m: DistanceMetric, a: Seq<i64>, b: Seq<i64>)
    requires
        metric_ok(m),
        bounded_row(a),
        bounded_row(b),
        a.len() == b.len(),
    ensures
        0 <= dist(m, a, b) <= KEY_LIMIT as int,
{
    lemma_dist_partial_bound(m, a, b, a.len() as int);
    assert((DIM_LIMIT as int) * (TERM_LIMIT as int) == KEY_LIMIT as int);
    match m {
        DistanceMetric::Chebyshev => {},
        _ => {
            assert((a.len() as int) * (TERM_LIMIT as int) <= (DIM_LIMIT as int) * (TERM_LIMIT as int))
                by (nonlinear_arith)
                requires a.len() <= DIM_LIMIT as int && TERM_LIMIT as int >= 0;
        },
    }
}

/// Bound on a partial distance key: a `Chebyshev` maximum stays within one
/// axis term; a summed key stays within `i` axis terms.
pub proof fn lemma_dist_partial_bound(m: DistanceMetric, a: Seq<i64>, b: Seq<i64>, i: int)
    requires
        metric_ok(m),
        bounded_row(a),
        bounded_row(b),
        a.len() == b.len(),
        0 <= i <= a.len(),
    ensures
        0 <= dist_sum(m, a, b, i) <= i * (TERM_LIMIT as int),
        0 <= dist_cheb(a, b, i) <= TERM_LIMIT as int,
    decreases i,
{
    if i > 0 {
        lemma_dist_partial_bound(m, a, b, i - 1);
        lemma_axis_term_bound(m, a[i - 1] as int, b[i - 1] as int);
        lemma_axis_term_bound(DistanceMetric::Manhattan, a[i - 1] as int, b[i - 1] as int);
    }
}

/// Distance keys are symmetric in their two vectors.
pub proof fn lemma_dist_symmetric(m: DistanceMetric, a: Seq<i64>, b: Seq<i64>)
    requires
        a.len() == b.len(),
    ensures
        dist(m, a, b) == dist(m, b, a),
{
    lemma_dist_partial_symmetric(m, a, b, a.len() as int);
}

/// Partial distance keys are symmetric in their two vectors.
pub proof fn lemma_dist_partial_symmetric(m: DistanceMetric, a: Seq<i64>, b: Seq<i64>, i: int)
    requires
        a.len() == b.len(),
        i <= a.len(),
    ensures
        dist_sum(m, a, b, i) == dist_sum(m, b, a, i),
        dist_cheb(a, b, i) == dist_cheb(b, a, i),
    decreases i,
{
    if i > 0 {
        lemma_dist_partial_symmetric(m, a, b, i - 1);
        if i - 1 < a.len() {
            assert(axis_term(m, a[i - 1] as int, b[i - 1] as int)
                == axis_term(m, b[i - 1] as int, a[i - 1] as int)) by {
                assert(abs_diff(a[i - 1] as int, b[i - 1] as int)
                    == abs_diff(b[i - 1] as int, a[i - 1] as int));
                assert((a[i - 1] - b[i - 1]) * (a[i - 1] - b[i - 1])
                    == (b[i - 1] - a[i - 1]) * (b[i - 1] - a[i - 1])) by (nonlinear_arith);
            }
        }
    }
}

/// The metrics whose keys satisfy the triangle inequality outright, which is
/// what sphere- and vantage-point-based pruning relies on. The squared
/// Euclidean and powered Minkowski keys order distances correctly but are not
/// themselves subadditive, so those trees traverse without pruning.
pub open spec fn triangle_ok(m: DistanceMetric) -> bool {
    m == DistanceMetric::Manhattan || m == DistanceMetric::Chebyshev
}

/// Triangle inequality for the Manhattan and Chebyshev keys: the key from
/// `a` to `c` is at most the key from `a` to `b` plus the key from `b` to
/// `c`.
pub proof fn lemma_triangle(m: DistanceMetric, a: Seq<i64>, b: Seq<i64>, c: Seq<i64>)
    requires
        triangle_ok(m),
        a.len() == b.len(),
        b.len() == c.len(),
    ensures
        dist(m, a, c) <= dist(m, a, b) + dist(m, b, c),
{
    lemma_triangle_partial(m, a, b, c, a.len() as int);
}

/// Triangle inequality for partial Manhattan and Chebyshev keys.
pub proof fn lemma_triangle_partial(m: DistanceMetric, a: Seq<i64>, b: Seq<i64>, c: Seq<i64>, i: int)
    requires
        triangle_ok(m),
        a.len() == b.len(),
        b.len() == c.len(),
        i <= a.len(),
    ensures
        dist_sum(DistanceMetric::Manhattan, a, c, i)
            <= dist_sum(DistanceMetric::Manhattan, a, b, i) + dist_sum(DistanceMetric::Manhattan, b, c, i),
        dist_cheb(a, c, i) <= dist_cheb(a, b, i) + dist_cheb(b, c, i),
        dist_cheb(a, b, i) >= 0,
        dist_cheb(b, c, i) >= 0,
    decreases i,
{
    if i > 0 {
        lemma_triangle_partial(m, a, b, c, i - 1);
        if i - 1 < a.len() {
            assert(abs_diff(a[i - 1] as int, c[i - 1] as int)
                <= abs_diff(a[i - 1] as int, b[i - 1] as int)
                    + abs_diff(b[i - 1] as int, c[i - 1] as int));
        }
    }
}

/// The coordinate of the box `[lo, hi]` closest to `q` along one axis.
pub open spec fn clamped(q: int, lo: int, hi: int) -> int {
    if q < lo {
        lo
    } else if q > hi {
        hi
    } else {
        q
    }
}

/// Clamping to an interval that contains `p` can only shrink an axis term:
/// the clamped coordinate is at least as close to `q` as `p` is.
pub proof fn lemma_axis_term_clamp(m: DistanceMetric, q: int, p: int, lo: int, hi: int)
    requires
        lo <= p <= hi,
    ensures
        axis_term(m, q, clamped(q, lo, hi)) <= axis_term(m, q, p),
        abs_diff(q, clamped(q, lo, hi)) <= abs_diff(q, p),
{
    let c = clamped(q, lo, hi);
    assert(abs_diff(q, c) <= abs_diff(q, p));
    match m {
        DistanceMetric::Euclidean => {
            assert((q - c) * (q - c) == abs_diff(q, c) * abs_diff(q, c)) by (nonlinear_arith);
            assert((q - p) * (q - p) == abs_diff(q, p) * abs_diff(q, p)) by (nonlinear_arith);
            assert(abs_diff(q, c) * abs_diff(q, c) <= abs_diff(q, p) * abs_diff(q, p))
                by (nonlinear_arith)
                requires 0 <= abs_diff(q, c) <= abs_diff(q, p);
        },
        DistanceMetric::Manhattan => {},
        DistanceMetric::Chebyshev => {},
        DistanceMetric::Minkowski(pw) => {
            lemma_pow_le(abs_diff(q, c), abs_diff(q, p), pw as nat);
        },
    }
}

impl DistanceMetric {
    /// Whether this metric's key satisfies the triangle inequality, which is
    /// what sphere and vantage-point pruning need.
    pub fn has_triangle(&self) -> (r: bool)
        ensures
            r == triangle_ok(*self),
    {
        match self {
            DistanceMetric::Manhattan => true,
            DistanceMetric::Chebyshev => true,
            _ => false,
        }
    }

    /// The metric's exponent is within what the exact arithmetic supports.
    pub fn check(&self) -> (r: bool)
        ensures
            r == metric_ok(*self),
    {
        match self {
            DistanceMetric::Minkowski(p) => 1 <= *p && *p <= MAX_MINKOWSKI_EXPONENT,
            _ => true,
        }
    }
}

/// The exact distance key between two coordinate vectors, or a
/// `DimensionMismatch` error exactly when their lengths differ.
pub fn distance(m: DistanceMetric, a: &Vec<i64>, b: &Vec<i64>) -> (r: Result<i128, SpatialError>)
    requires
        metric_ok(m),
        bounded_row(a@),
        bounded_row(b@),
    ensures
        match r {
            Ok(k) => a@.len() == b@.len() && k == dist(m, a@, b@) && 0 <= k <= KEY_LIMIT,
            Err(e) => a@.len() != b@.len() && e == SpatialError::DimensionMismatch,
        },
{
    if a.len() != b.len() {
        return Err(SpatialError::DimensionMismatch);
    }
    proof {
        lemma_dist_bound(m, a@, b@);
    }
    let n = a.len();
    let mut acc: i128 = 0;
    let mut i: usize = 0;
    while i < n
        invariant
            metric_ok(m),
            bounded_row(a@),
            bounded_row(b@),
            a@.len() == b@.len(),
            n == a@.len(),
            i <= n,
            match m {
                DistanceMetric::Chebyshev => acc == dist_cheb(a@, b@, i as int),
                _ => acc == dist_sum(m, a@, b@, i as int),
            },
        decreases n - i,
    {
        let ai = a[i];
        let bi = b[i];
        let d: i128 = if ai >= bi {
            (ai as i128) - (bi as i128)
        } else {
            (bi as i128) - (ai as i128)
        };
        proof {
            let x = a@[i as int] as int;
            let y = b@[i as int] as int;
            lemma_dist_partial_bound(m, a@, b@, i as int);
            lemma_dist_partial_bound(m, a@, b@, i + 1);
            lemma_axis_term_bound(m, x, y);
            lemma_term_limit_value();
            assert(d == abs_diff(x, y));
            assert((x - y) * (x - y) == d * d) by (nonlinear_arith)
                requires d == x - y || d == y - x;
            assert((i + 1) * (TERM_LIMIT as int) <= (DIM_LIMIT as int) * (TERM_LIMIT as int))
                by (nonlinear_arith)
                requires i + 1 <= DIM_LIMIT as int && TERM_LIMIT as int >= 0;
            assert((DIM_LIMIT as int) * (TERM_LIMIT as int) == KEY_LIMIT as int);
        }
        match m {
            DistanceMetric::Euclidean => {
                acc = acc + d * d;
            },
            DistanceMetric::Manhattan => {
                acc = acc + d;
            },
            DistanceMetric::Chebyshev => {
                if d > acc {
                    acc = d;
                }
            },
            DistanceMetric::Minkowski(p) => {
                let mut term: i128 = 1;
                let mut e: u32 = 0;
                while e < p
                    invariant
                        0 <= d <= 2_000_000,
                        e <= p,
                        p <= MAX_MINKOWSKI_EXPONENT,
                        term == pow_nat(d as int, e as nat),
                        term <= pow_nat(2_000_000, e as nat),
                        term >= 0,
                    decreases p - e,
                {
                    proof {
                        lemma_pow_nonneg(d as int, e as nat);
                        lemma_pow_le(d as int, 2_000_000, (e + 1) as nat);
                        lemma_pow_exp_le(2_000_000, (e + 1) as nat, 5);
                        lemma_term_limit_value();
                        assert(pow_nat(d as int, (e + 1) as nat) == (d as int) * pow_nat(d as int, e as nat));
                        assert(pow_nat(2_000_000, (e + 1) as nat) == 2_000_000 * pow_nat(2_000_000, e as nat));
                        assert((d as int) * pow_nat(d as int, e as nat)
                            <= 2_000_000 * pow_nat(2_000_000, e as nat)) by (nonlinear_arith)
                            requires
                                0 <= d as int <= 2_000_000,
                                0 <= pow_nat(d as int, e as nat) <= pow_nat(2_000_000, e as nat);
                    }
                    term = term * d;
                    e = e + 1;
                }
                proof {
                    lemma_pow_exp_le(2_000_000, p as nat, 5);
                    lemma_term_limit_value();
                    assert(term == axis_term(m, a@[i as int] as int, b@[i as int] as int));
                }
                acc = acc + term;
            },
        }
        i = i + 1;
    }
    proof {
        lemma_dist_partial_bound(m, a@, b@, n as int);
    }
    Ok(acc)
}

} // verus!
