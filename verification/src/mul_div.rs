//! Multiplication and division with statically derived output dimensions.
//!
//! A product takes the sum of the operands' bits and shifts; the storage
//! must be wide enough for that sum, and with that headroom the raw
//! product is exact — never truncated.  A quotient keeps the dividend's
//! bits, plus one extra bit when the divisor is signed (the one overflow
//! edge case is the minimum divided by minus one), and subtracts the
//! shifts.  Mixing signedness promotes the unsigned operand into the
//! signed family, so a mixed result is always signed.

use vstd::prelude::*;

use crate::storage::Raw;
use crate::storage::min_val;
use crate::storage::max_val;
use crate::storage::i128_mag;
use crate::storage::i128_from_mag;
use crate::storage::lemma_fits_storage;
use crate::num::Num;
use crate::num::lemma_min_zero_max;

verus! {

use vstd::arithmetic::power2::pow2;
use vstd::arithmetic::power2::lemma_pow2_pos;
use vstd::arithmetic::power2::lemma_pow2_adds;
use vstd::arithmetic::power2::lemma2_to64;
use vstd::arithmetic::mul::lemma_mul_basics;
use vstd::arithmetic::mul::lemma_mul_unary_negation;
use vstd::arithmetic::mul::lemma_mul_cancels_negatives;
use vstd::arithmetic::div_mod::lemma_div_pos_is_pos;
use vstd::arithmetic::div_mod::lemma_div_nonincreasing;
use vstd::math::abs;

/// Native truncating division: the quotient of the magnitudes, negated
/// when exactly one operand is negative.  This rounds toward zero.
pub open spec fn div_trunc(a: int, b: int) -> int {
    if (a < 0) == (b < 0) {
        abs(a) as int / abs(b) as int
    } else {
        -(abs(a) as int / abs(b) as int)
    }
}

/// The product of a value in range for `b0` bits and a value in range
/// for `b1` bits lies in range for `b0 + b1` bits of the combined
/// signedness — the derived dimensions leave no room for overflow.
pub proof fn lemma_mul_in_range(b0: u32, b1: u32, s0: bool, s1: bool, a: int, b: int)
    requires
        b0 + b1 <= 128,
        min_val(b0, s0) <= a <= max_val(b0, s0),
        min_val(b1, s1) <= b <= max_val(b1, s1),
    ensures
        min_val((b0 + b1) as u32, s0 || s1) <= a * b <= max_val((b0 + b1) as u32, s0 || s1),
{
    let bo: u32 = (b0 + b1) as u32;
    let so: bool = s0 || s1;
    lemma_min_zero_max(bo, so);
    if b0 == 0 || b1 == 0 {
        lemma_mul_basics(a);
        lemma_mul_basics(b);
    } else if !s0 && !s1 {
        let p0: int = pow2(b0 as nat) as int;
        let p1: int = pow2(b1 as nat) as int;
        lemma_pow2_pos(b0 as nat);
        lemma_pow2_pos(b1 as nat);
        lemma_pow2_adds(b0 as nat, b1 as nat);
        assert(0 <= a * b && a * b <= p0 * p1 - p0 - p1 + 1) by (nonlinear_arith)
            requires
                0 <= a <= p0 - 1,
                0 <= b <= p1 - 1,
                1 <= p0,
                1 <= p1,
        ;
    } else if s0 && s1 {
        let p0: int = pow2((b0 - 1) as nat) as int;
        let p1: int = pow2((b1 - 1) as nat) as int;
        lemma_pow2_pos((b0 - 1) as nat);
        lemma_pow2_pos((b1 - 1) as nat);
        lemma_pow2_adds((b0 - 1) as nat, (b1 - 1) as nat);
        lemma_pow2_adds((b0 + b1 - 2) as nat, 1);
        lemma2_to64();
        assert(-(p0 * p1) <= a * b && a * b <= p0 * p1) by (nonlinear_arith)
            requires
                -p0 <= a <= p0 - 1,
                -p1 <= b <= p1 - 1,
                1 <= p0,
                1 <= p1,
        ;
    } else if !s0 && s1 {
        let p0: int = pow2(b0 as nat) as int;
        let p1: int = pow2((b1 - 1) as nat) as int;
        lemma_pow2_pos(b0 as nat);
        lemma_pow2_pos((b1 - 1) as nat);
        lemma_pow2_adds(b0 as nat, (b1 - 1) as nat);
        assert(-(p0 * p1) <= a * b && a * b <= p0 * p1 - 1) by (nonlinear_arith)
            requires
                0 <= a <= p0 - 1,
                -p1 <= b <= p1 - 1,
                1 <= p0,
                1 <= p1,
        ;
    } else {
        let p0: int = pow2((b0 - 1) as nat) as int;
        let p1: int = pow2(b1 as nat) as int;
        lemma_pow2_pos((b0 - 1) as nat);
        lemma_pow2_pos(b1 as nat);
        lemma_pow2_adds((b0 - 1) as nat, b1 as nat);
        assert(-(p0 * p1) <= a * b && a * b <= p0 * p1 - 1) by (nonlinear_arith)
            requires
                -p0 <= a <= p0 - 1,
                0 <= b <= p1 - 1,
                1 <= p0,
                1 <= p1,
        ;
    }
}

/// A truncating quotient never grows past the dividend's magnitude, so
/// it lies in range for the dividend's bits plus one extra bit when the
/// divisor is signed, in the combined signedness.
pub proof fn lemma_div_in_range(b0: u32, s0: bool, s1: bool, a: int, b: int)
    requires
        b0 + (if s1 { 1int } else { 0 }) <= 128,
        min_val(b0, s0) <= a <= max_val(b0, s0),
        b != 0,
        !s1 ==> b > 0,
    ensures
        min_val((b0 + if s1 { 1u32 } else { 0u32 }) as u32, s0 || s1) <= div_trunc(a, b),
        div_trunc(a, b) <= max_val((b0 + if s1 { 1u32 } else { 0u32 }) as u32, s0 || s1),
{
    let bo: u32 = (b0 + if s1 { 1u32 } else { 0u32 }) as u32;
    let so: bool = s0 || s1;
    lemma_min_zero_max(bo, so);
    lemma_min_zero_max(b0, s0);
    lemma_div_pos_is_pos(abs(a) as int, abs(b) as int);
    lemma_div_nonincreasing(abs(a) as int, abs(b) as int);
    if b0 > 0 && s0 && s1 {
        lemma_pow2_pos((b0 - 1) as nat);
        lemma_pow2_adds((b0 - 1) as nat, 1);
        lemma2_to64();
    }
}

impl Num {
    /// Multiplies two values of the same storage width.  The output has
    /// the sum of the bits, the sum of the shifts, and the combined
    /// signedness; the storage must be wide enough for the summed bits,
    /// and the raw result is then exactly the product of the raw
    /// operands, with no truncation.
    pub fn mul(self, other: Num) -> (r: Num)
        requires
            self.wf(),
            other.wf(),
            other.width == self.width,
            self.bits + other.bits <= self.width,
            i32::MIN <= self.shift + other.shift <= i32::MAX,
        ensures
            r.wf(),
            r.width == self.width,
            r.bits == self.bits + other.bits,
            r.shift == self.shift + other.shift,
            r.is_signed() == (self.is_signed() || other.is_signed()),
            r.raw_int() == self.raw_int() * other.raw_int(),
    {
        proof {
            lemma_mul_in_range(
                self.bits,
                other.bits,
                self.is_signed(),
                other.is_signed(),
                self.raw_int(),
                other.raw_int(),
            );
            lemma_fits_storage(
                (self.bits + other.bits) as u32,
                self.is_signed() || other.is_signed(),
                self.raw_int() * other.raw_int(),
            );
        }
        let bits: u32 = self.bits + other.bits;
        let shift: i32 = self.shift + other.shift;
        let raw: Raw = match (self.raw, other.raw) {
            (Raw::U(x), Raw::U(y)) => Raw::U(x * y),
            (Raw::I(x), Raw::I(y)) => {
                let neg: bool = (x < 0) != (y < 0);
                proof {
                    lemma_mul_unary_negation(x as int, abs(y as int) as int);
                    lemma_mul_unary_negation(abs(x as int) as int, y as int);
                    lemma_mul_cancels_negatives(x as int, y as int);
                }
                Raw::I(i128_from_mag(neg, i128_mag(x) * i128_mag(y)))
            },
            (Raw::I(x), Raw::U(y)) => {
                let neg: bool = x < 0;
                proof {
                    lemma_mul_unary_negation(abs(x as int) as int, y as int);
                }
                Raw::I(i128_from_mag(neg, i128_mag(x) * y))
            },
            (Raw::U(x), Raw::I(y)) => {
                let neg: bool = y < 0;
                proof {
                    lemma_mul_unary_negation(x as int, abs(y as int) as int);
                }
                Raw::I(i128_from_mag(neg, x * i128_mag(y)))
            },
        };
        Num { width: self.width, bits, shift, raw }
    }

    /// Divides two values of the same storage width, truncating toward
    /// zero exactly as native integer division does.  The output keeps
    /// the dividend's bits plus one extra bit when the divisor is signed
    /// (covering the minimum divided by minus one), subtracts the shifts,
    /// and has the combined signedness.  A divisor whose raw value is
    /// zero is a fatal condition and is excluded by precondition.
    pub fn div(self, other: Num) -> (r: Num)
        requires
            self.wf(),
            other.wf(),
            other.width == self.width,
            other.raw_int() != 0,
            self.bits + (if other.is_signed() { 1int } else { 0 }) <= self.width,
            i32::MIN <= self.shift - other.shift <= i32::MAX,
        ensures
            r.wf(),
            r.width == self.width,
            r.bits == self.bits + (if other.is_signed() { 1int } else { 0 }),
            r.shift == self.shift - other.shift,
            r.is_signed() == (self.is_signed() || other.is_signed()),
            r.raw_int() == div_trunc(self.raw_int(), other.raw_int()),
    {
        proof {
            lemma_div_in_range(
                self.bits,
                self.is_signed(),
                other.is_signed(),
                self.raw_int(),
                other.raw_int(),
            );
            lemma_fits_storage(
                (self.bits + if other.is_signed() { 1u32 } else { 0u32 }) as u32,
                self.is_signed() || other.is_signed(),
                div_trunc(self.raw_int(), other.raw_int()),
            );
        }
        let extra: u32 = if other.raw.is_signed_exec() {
            1
        } else {
            0
        };
        let bits: u32 = self.bits + extra;
        let shift: i32 = self.shift - other.shift;
        let raw: Raw = match (self.raw, other.raw) {
            (Raw::U(x), Raw::U(y)) => Raw::U(x / y),
            (Raw::I(x), Raw::I(y)) => {
                let neg: bool = (x < 0) != (y < 0);
                Raw::I(i128_from_mag(neg, i128_mag(x) / i128_mag(y)))
            },
            (Raw::I(x), Raw::U(y)) => {
                let neg: bool = x < 0;
                Raw::I(i128_from_mag(neg, i128_mag(x) / y))
            },
            (Raw::U(x), Raw::I(y)) => {
                let neg: bool = y < 0;
                Raw::I(i128_from_mag(neg, x / i128_mag(y)))
            },
        };
        Num { width: self.width, bits, shift, raw }
    }
}

} // verus!
