//! Kernel primitives: weighting a non-negative distance key into a
//! non-negative weight, monotonically non-increasing in distance, and zero
//! beyond the bandwidth for the compact-support kernels. The compact
//! kernels' weights are exact rationals; the Gaussian's value is
//! transcendental and is left to the caller's floating-point layer.

use vstd::prelude::*;

use crate::metric::{KEY_LIMIT, SpatialError};

verus! {

/// The closed set of supported kernels, each with a bandwidth in distance
/// key units.
#[derive(Clone, Copy, Debug, PartialEq, Eq, Structural)]
pub enum KernelType {
    /// Exponential fall-off; its weight is transcendental, so the exact
    /// layer only validates it and reports its support as unbounded.
    Gaussian(i64),
    /// `1 - (d/h)^2` within the bandwidth.
    Epanechnikov(i64),
    /// A constant weight within the bandwidth.
    Uniform(i64),
    /// `1 - d/h` within the bandwidth.
    Triangular(i64),
}

/// The kernel's bandwidth.
pub open spec fn bandwidth_of(kind: KernelType) -> int {
    match kind {
        KernelType::Gaussian(h) => h as int,
        KernelType::Epanechnikov(h) => h as int,
        KernelType::Uniform(h) => h as int,
        KernelType::Triangular(h) => h as int,
    }
}

/// The numerator of the exact weight of a compact kernel at distance `d`.
pub open spec fn kernel_num(kind: KernelType, d: int) -> int {
    match kind {
        KernelType::Gaussian(_) => 0,
        KernelType::Epanechnikov(h) => if d <= h {
            (h as int) * (h as int) - d * d
        } else {
            0
        },
        KernelType::Uniform(h) => if d <= h {
            1
        } else {
            0
        },
        KernelType::Triangular(h) => if d <= h {
            (h as int) - d
        } else {
            0
        },
    }
}

/// The denominator of the exact weight of a compact kernel.
pub open spec fn kernel_den(kind: KernelType) -> int {
    match kind {
        KernelType::Gaussian(_) => 1,
        KernelType::Epanechnikov(h) => (h as int) * (h as int),
        KernelType::Uniform(_) => 1,
        KernelType::Triangular(h) => h as int,
    }
}

/// An exact non-negative rational kernel weight.
#[derive(Clone, Copy, Debug, PartialEq, Eq, Structural)]
pub struct KernelWeight {
    /// Weight numerator.
    pub num: i128,
    /// Weight denominator, positive.
    pub den: i128,
}

/// Kernel weights behave as the data model asks: they are non-negative,
/// non-increasing in distance, and zero beyond the bandwidth.
pub proof fn lemma_kernel_shape(kind: KernelType, d1: int, d2: int)
    requires
        bandwidth_of(kind) > 0,
        0 <= d1 <= d2,
    ensures
        kernel_den(kind) > 0,
        kernel_num(kind, d1) >= 0,
        kernel_num(kind, d1) >= kernel_num(kind, d2),
        d1 > bandwidth_of(kind) ==> kernel_num(kind, d1) == 0,
{
    match kind {
        KernelType::Gaussian(_) => {},
        KernelType::Epanechnikov(h) => {
            assert((h as int) * (h as int) > 0) by (nonlinear_arith)
                requires h as int > 0;
            if d2 <= h as int {
                assert(d1 * d1 <= d2 * d2) by (nonlinear_arith)
                    requires 0 <= d1 <= d2;
            }
            if d1 <= h as int {
                assert(d1 * d1 <= (h as int) * (h as int)) by (nonlinear_arith)
                    requires 0 <= d1 <= h as int;
            }
        },
        KernelType::Uniform(_) => {},
        KernelType::Triangular(_) => {},
    }
}

/// The exact kernel weight of a non-negative distance key: an error exactly
/// when the bandwidth is not positive, `None` exactly for the valid
/// Gaussian (whose value the floating-point layer computes), and the exact
/// rational weight for the compact kernels.
pub fn kernel(kind: KernelType, d: i128) -> (r: Result<Option<KernelWeight>, SpatialError>)
    requires
        0 <= d <= KEY_LIMIT,
    ensures
        match r {
            Ok(w) => bandwidth_of(kind) > 0 && match w {
                Some(w) => !(kind is Gaussian) && w.num == kernel_num(kind, d as int)
                    && w.den == kernel_den(kind) && w.den > 0 && w.num >= 0,
                None => kind is Gaussian,
            },
            Err(e) => e == SpatialError::InvalidConfiguration && bandwidth_of(kind) <= 0,
        },
{
    match kind {
        KernelType::Gaussian(h) => {
            if h <= 0 {
                Err(SpatialError::InvalidConfiguration)
            } else {
                Ok(None)
            }
        },
        KernelType::Epanechnikov(h) => {
            if h <= 0 {
                Err(SpatialError::InvalidConfiguration)
            } else {
                proof {
                    lemma_kernel_shape(kind, d as int, d as int);
                }
                let hw = h as i128;
                if d <= hw {
                    proof {
                        assert(d * d <= hw * hw) by (nonlinear_arith)
                            requires 0 <= d <= hw;
                        assert(hw * hw <= 0x7fffffffffffffff0000000000000000i128 as int)
                            by (nonlinear_arith)
                            requires 0 < hw <= i64::MAX as int;
                    }
                    Ok(Some(KernelWeight { num: hw * hw - d * d, den: hw * hw }))
                } else {
                    proof {
                        assert(hw * hw > 0) by (nonlinear_arith)
                            requires hw > 0;
                        assert(hw * hw <= 0x7fffffffffffffff0000000000000000i128 as int)
                            by (nonlinear_arith)
                            requires 0 < hw <= i64::MAX as int;
                    }
                    Ok(Some(KernelWeight { num: 0, den: hw * hw }))
                }
            }
        },
        KernelType::Uniform(h) => {
            if h <= 0 {
                Err(SpatialError::InvalidConfiguration)
            } else {
                let num: i128 = if d <= h as i128 {
                    1
                } else {
                    0
                };
                Ok(Some(KernelWeight { num, den: 1 }))
            }
        },
        KernelType::Triangular(h) => {
            if h <= 0 {
                Err(SpatialError::InvalidConfiguration)
            } else {
                let hw = h as i128;
                let num: i128 = if d <= hw {
                    hw - d
                } else {
                    0
                };
                Ok(Some(KernelWeight { num, den: hw }))
            }
        },
    }
}

} // verus!
