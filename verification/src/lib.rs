//! Fixed-point arithmetic with verified overflow safety and bit-shift
//! consistency.
//!
//! A fixed-point number stores a raw integer together with three dimensions:
//! `bits`, the number of low-order raw bits that may vary; `shift`, the
//! position of the binary point (the logical value is the raw value divided
//! by two to the power `shift`); and the signedness inherited from the raw
//! storage.  Every arithmetic operation produces a value whose dimensions
//! are derived from the operands with enough headroom that the underlying
//! native operation provably cannot overflow; the proofs of that headroom
//! are checked here once and for all, so no operation performs a runtime
//! overflow check.
//!
//! Dimension mismatches (wrong shift, too few result bits, incompatible
//! signedness, more bits than the storage holds) are `requires` clauses:
//! callers must establish them statically, mirroring a compile-time failure.
//! Out-of-range values at a checked constructor or a checked narrowing are
//! the one recoverable failure, reported as [`RangeError`].

use vstd::prelude::*;

mod storage;
mod num;
mod mul_div;
mod float_bits;

pub use storage::Raw;
pub use storage::valid_width;
pub use storage::min_val;
pub use storage::max_val;
pub use num::Num;
pub use num::lemma_min_zero_max;
pub use num::lemma_add_in_range;
pub use num::lemma_sub_in_range;
pub use mul_div::div_trunc;
pub use mul_div::lemma_mul_in_range;
pub use mul_div::lemma_div_in_range;
pub use float_bits::FloatFmt;
pub use float_bits::f32_spec;
pub use float_bits::f64_spec;
pub use float_bits::f32_fmt;
pub use float_bits::f64_fmt;
pub use float_bits::float_lsb_bits;
pub use float_bits::f32_lsb_bits;
pub use float_bits::f64_lsb_bits;
pub use float_bits::into_float_ok;
pub use float_bits::into_f32_ok;
pub use float_bits::into_f64_ok;
pub use float_bits::fixed_scale;
pub use float_bits::from_float_bits;
pub use float_bits::from_f32_bits;
pub use float_bits::from_f64_bits;
pub use float_bits::lemma_float_round_trip;

verus! {

/// A candidate raw or logical value falls outside the `[MIN, MAX]` range of
/// the target fixed-point type.
#[derive(Clone, Copy, Debug, PartialEq, Eq, Structural)]
pub enum RangeError {
    /// The value is below the target type's minimum.
    TooSmall,
    /// The value is above the target type's maximum.
    TooLarge,
}

} // verus!
