//! Binary and multi-bit vector quantization with error-bounded distance
//! estimation for approximate nearest-neighbor search.
//!
//! Vectors are held as fixed-point coordinates (`i64` values at a scale the
//! caller chooses); all arithmetic is exact integer arithmetic, so every
//! numeric claim in the contracts below is exact rather than a floating-point
//! approximation. The pipeline is:
//!
//! * a [`rotator::Rotator`] applies a seeded, exactly norm-preserving signed
//!   permutation to a vector, redistributing coordinate mass;
//! * the quantizer (`quantize_full_single`, `quantize_split_single`) turns a
//!   rotated vector into a compact code plus calibration scalars;
//! * the estimators (`SingleEstimator`, `BatchEstimator`) reconstruct
//!   calibrated distance estimates, including a proved lower bound, from
//!   those codes.

use vstd::prelude::*;

pub mod intmath;
pub mod rng;
pub mod bytes;
pub mod codes;
pub mod estimator;
pub mod quantizer;
pub mod rotator;

pub use estimator::{select_excode_ipfunc, BatchEstimator, ExCodeIpFunc, SingleEstimator};
pub use quantizer::{
    quantize_full_single, quantize_split_single, reconstruct_vec, MetricType, RabitqConfig,
};
pub use rotator::Rotator;

verus! {

/// Every coordinate dimension handled by the library is padded to a multiple
/// of this alignment.
pub const ALIGNED_DIM: usize = 16;

/// Largest padded dimension the library accepts; keeps all the integer
/// arithmetic below comfortably inside `i128`.
pub const MAX_PADDED_DIM: usize = 65536;

/// Bound on the magnitude of a fixed-point coordinate accepted by the
/// numeric entry points. A machine limit: it guarantees that squared
/// distances over `MAX_PADDED_DIM` coordinates cannot overflow.
pub const MAX_COORD: i64 = 1048576;

/// Largest residual bit width for which an inner-product kernel exists.
pub const MAX_EX_BITS: usize = 8;

/// Failures surfaced by the library.
#[derive(Clone, Copy, Debug, PartialEq, Eq, Structural)]
pub enum RabitqError {
    /// A persisted rotation state is corrupt or encodes a different
    /// dimension than the rotator it is loaded into.
    FormatError,
    /// A code buffer's length does not match the size implied by the
    /// padded dimension and bit width in force.
    LengthMismatch,
    /// A requested bit width is outside the supported set.
    UnsupportedParameter,
    /// An invalid dimension combination was given to a constructor.
    ConstructionFailure,
}

} // verus!
