//! The fixed-point value type and its construction, validation and
//! dimension operations.
//!
//! A [`Num`] wraps one raw storage value together with its dimensions:
//! the storage width, the number of significant low-order bits, and the
//! binary-point shift.  The well-formedness invariant keeps the raw value
//! inside the `[min_val, max_val]` range of its `bits`-wide field; every
//! constructor establishes it and every operation preserves it.  The
//! dimension side conditions that the storage types enforce at compile
//! time (equal shifts, enough result bits, compatible signedness) appear
//! here as `requires` clauses.

use vstd::prelude::*;

use crate::RangeError;
use crate::storage::Raw;
use crate::storage::valid_width;
use crate::storage::min_val;
use crate::storage::max_val;
use crate::storage::raw_min;
use crate::storage::raw_max;
use crate::storage::raw_lt;
use crate::storage::pow2_u128;
use crate::storage::i128_mag;
use crate::storage::i128_from_mag;
use crate::storage::lemma_pow2_le;
use crate::storage::lemma_range_widens;
use crate::storage::lemma_fits_storage;
use crate::storage::lemma_pow2_extremes;

verus! {

use vstd::arithmetic::power2::pow2;
use vstd::arithmetic::power2::lemma_pow2_pos;
use vstd::arithmetic::power2::lemma_pow2_adds;
use vstd::arithmetic::power2::lemma_pow2_strictly_increases;
use vstd::arithmetic::power2::lemma2_to64;
use vstd::arithmetic::mul::lemma_mul_basics;
use vstd::arithmetic::mul::lemma_mul_inequality;
use vstd::arithmetic::mul::lemma_mul_nonnegative;
use vstd::arithmetic::mul::lemma_mul_unary_negation;
use vstd::arithmetic::mul::lemma_mul_is_commutative;
use vstd::arithmetic::mul::lemma_mul_is_distributive_sub_other_way;
use vstd::arithmetic::mul::lemma_mul_is_distributive_add_other_way;
use vstd::arithmetic::div_mod::lemma_fundamental_div_mod;
use vstd::arithmetic::div_mod::lemma_fundamental_div_mod_converse;
use vstd::arithmetic::div_mod::lemma_div_is_ordered;
use vstd::arithmetic::div_mod::lemma_div_is_ordered_by_denominator;
use vstd::arithmetic::div_mod::lemma_div_pos_is_pos;
use vstd::arithmetic::div_mod::lemma_div_nonincreasing;
use vstd::arithmetic::div_mod::lemma_div_of0;
use vstd::arithmetic::div_mod::lemma_multiply_divide_lt;

/// A fixed-point number: a raw storage value of which only the `bits`
/// low-order bits may vary, whose logical value is the raw value divided
/// by two to the power `shift`.
#[derive(Clone, Copy, Debug, PartialEq, Eq, Structural)]
pub struct Num {
    /// Width of the native storage integer backing this value.
    pub width: u32,
    /// Number of least-significant raw bits permitted to vary.
    pub bits: u32,
    /// Binary-point position: positive means fractional bits, negative
    /// means trailing integer zero-bits.
    pub shift: i32,
    /// The stored raw value; its variant is the storage signedness.
    pub raw: Raw,
}

impl Num {
    /// Whether the storage (and therefore the value) is signed.
    pub open spec fn is_signed(self) -> bool {
        self.raw.is_signed()
    }

    /// The raw value as a mathematical integer.
    pub open spec fn raw_int(self) -> int {
        self.raw.as_int()
    }

    /// The dimensions are consistent and the raw value lies inside the
    /// `[min_val, max_val]` range of its `bits`-wide field.
    pub open spec fn wf(self) -> bool {
        &&& valid_width(self.width)
        &&& self.bits <= self.width
        &&& min_val(self.bits, self.is_signed()) <= self.raw_int()
        &&& self.raw_int() <= max_val(self.bits, self.is_signed())
    }

    /// The value has the given dimensions, with signedness taken from the
    /// raw storage variant.
    pub open spec fn has_dims(self, width: u32, bits: u32, shift: i32, signed: bool) -> bool {
        &&& self.width == width
        &&& self.bits == bits
        &&& self.shift == shift
        &&& self.is_signed() == signed
    }

    /// Interprets `val` as a fixed-point number of the given dimensions,
    /// or reports in which direction it falls out of range.
    pub fn new(width: u32, bits: u32, shift: i32, val: Raw) -> (r: Result<Num, RangeError>)
        requires
            valid_width(width),
            bits <= width,
        ensures
            (r matches Err(e) && e == RangeError::TooSmall) <==> val.as_int() < min_val(
                bits,
                val.is_signed(),
            ),
            (r matches Err(e) && e == RangeError::TooLarge) <==> val.as_int() > max_val(
                bits,
                val.is_signed(),
            ),
            r matches Ok(n) ==> n.wf() && n.has_dims(width, bits, shift, val.is_signed())
                && n.raw == val,
            min_val(bits, val.is_signed()) <= val.as_int() <= max_val(bits, val.is_signed())
                ==> (r matches Ok(n) && n.raw == val),
    {
        let lo: Raw = raw_min(bits, val.is_signed_exec());
        let hi: Raw = raw_max(bits, val.is_signed_exec());
        if raw_lt(val, lo) {
            Err(RangeError::TooSmall)
        } else if raw_lt(hi, val) {
            Err(RangeError::TooLarge)
        } else {
            Ok(Num { width, bits, shift, raw: val })
        }
    }

    /// Interprets `val` as a fixed-point number of the given dimensions
    /// without a range check; the caller must have proven that `val` lies
    /// between the target's minimum and maximum.
    pub fn new_unchecked(width: u32, bits: u32, shift: i32, val: Raw) -> (r: Num)
        requires
            valid_width(width),
            bits <= width,
            min_val(bits, val.is_signed()) <= val.as_int() <= max_val(bits, val.is_signed()),
        ensures
            r.wf(),
            r.has_dims(width, bits, shift, val.is_signed()),
            r.raw == val,
    {
        Num { width, bits, shift, raw: val }
    }

    /// The raw storage value that internally represents this number.
    pub fn raw(self) -> (r: Raw)
        ensures
            r == self.raw,
    {
        self.raw
    }

    /// The zero value of the given dimensions.
    pub fn zero(width: u32, bits: u32, shift: i32, signed: bool) -> (r: Num)
        requires
            valid_width(width),
            bits <= width,
        ensures
            r.wf(),
            r.has_dims(width, bits, shift, signed),
            r.raw_int() == 0,
    {
        proof {
            lemma_min_zero_max(bits, signed);
        }
        if signed {
            Num { width, bits, shift, raw: Raw::I(0) }
        } else {
            Num { width, bits, shift, raw: Raw::U(0) }
        }
    }

    /// The minimum value of the given dimensions.
    pub fn min_value(width: u32, bits: u32, shift: i32, signed: bool) -> (r: Num)
        requires
            valid_width(width),
            bits <= width,
        ensures
            r.wf(),
            r.has_dims(width, bits, shift, signed),
            r.raw_int() == min_val(bits, signed),
    {
        proof {
            lemma_min_zero_max(bits, signed);
        }
        Num { width, bits, shift, raw: raw_min(bits, signed) }
    }

    /// The maximum value of the given dimensions.
    pub fn max_value(width: u32, bits: u32, shift: i32, signed: bool) -> (r: Num)
        requires
            valid_width(width),
            bits <= width,
        ensures
            r.wf(),
            r.has_dims(width, bits, shift, signed),
            r.raw_int() == max_val(bits, signed),
    {
        proof {
            lemma_min_zero_max(bits, signed);
        }
        Num { width, bits, shift, raw: raw_max(bits, signed) }
    }

    /// Converts `val` to the given storage width, field width and
    /// signedness while keeping the raw (and therefore the logical) value
    /// and the shift.  The target must have at least as many bits, and the
    /// same signedness unless it promotes unsigned to signed, which needs
    /// at least one extra bit.
    pub fn from_fp(val: Num, width: u32, bits: u32, signed: bool) -> (r: Num)
        requires
            val.wf(),
            valid_width(width),
            bits <= width,
            bits >= val.bits,
            !signed ==> !val.is_signed(),
            signed && !val.is_signed() ==> bits > val.bits,
        ensures
            r.wf(),
            r.has_dims(width, bits, val.shift, signed),
            r.raw_int() == val.raw_int(),
    {
        proof {
            lemma_range_widens(val.bits, bits, signed);
            lemma_min_zero_max(val.bits, val.is_signed());
            if signed && !val.is_signed() {
                lemma_range_widens((val.bits + 1) as u32, bits, true);
                if val.bits > 0 {
                    lemma_pow2_le(val.bits as nat, (bits - 1) as nat);
                } else {
                    lemma_pow2_pos((bits - 1) as nat);
                }
                lemma_fits_storage(bits, true, val.raw_int());
            }
        }
        let raw: Raw = match val.raw {
            Raw::I(x) => Raw::I(x),
            Raw::U(x) => {
                if signed {
                    Raw::I(x as i128)
                } else {
                    Raw::U(x)
                }
            },
        };
        Num { width, bits, shift: val.shift, raw }
    }

    /// Converts this value to the given storage width, field width and
    /// signedness, under the same conditions as [`Num::from_fp`].
    pub fn into_fp(self, width: u32, bits: u32, signed: bool) -> (r: Num)
        requires
            self.wf(),
            valid_width(width),
            bits <= width,
            bits >= self.bits,
            !signed ==> !self.is_signed(),
            signed && !self.is_signed() ==> bits > self.bits,
        ensures
            r.wf(),
            r.has_dims(width, bits, self.shift, signed),
            r.raw_int() == self.raw_int(),
    {
        Num::from_fp(self, width, bits, signed)
    }

    /// An 8-bit unsigned integer as a fixed-point value: full width,
    /// zero shift.
    pub fn from_u8(x: u8) -> (r: Num)
        ensures
            r.wf(),
            r.has_dims(8, 8, 0, false),
            r.raw_int() == x,
    {
        proof {
            lemma2_to64();
        }
        Num { width: 8, bits: 8, shift: 0, raw: Raw::U(x as u128) }
    }

    /// An 8-bit signed integer as a fixed-point value.
    pub fn from_i8(x: i8) -> (r: Num)
        ensures
            r.wf(),
            r.has_dims(8, 8, 0, true),
            r.raw_int() == x,
    {
        proof {
            lemma2_to64();
        }
        Num { width: 8, bits: 8, shift: 0, raw: Raw::I(x as i128) }
    }

    /// A 16-bit unsigned integer as a fixed-point value.
    pub fn from_u16(x: u16) -> (r: Num)
        ensures
            r.wf(),
            r.has_dims(16, 16, 0, false),
            r.raw_int() == x,
    {
        proof {
            lemma2_to64();
        }
        Num { width: 16, bits: 16, shift: 0, raw: Raw::U(x as u128) }
    }

    /// A 16-bit signed integer as a fixed-point value.
    pub fn from_i16(x: i16) -> (r: Num)
        ensures
            r.wf(),
            r.has_dims(16, 16, 0, true),
            r.raw_int() == x,
    {
        proof {
            lemma2_to64();
        }
        Num { width: 16, bits: 16, shift: 0, raw: Raw::I(x as i128) }
    }

    /// A 32-bit unsigned integer as a fixed-point value.
    pub fn from_u32(x: u32) -> (r: Num)
        ensures
            r.wf(),
            r.has_dims(32, 32, 0, false),
            r.raw_int() == x,
    {
        proof {
            lemma2_to64();
        }
        Num { width: 32, bits: 32, shift: 0, raw: Raw::U(x as u128) }
    }

    /// A 32-bit signed integer as a fixed-point value.
    pub fn from_i32(x: i32) -> (r: Num)
        ensures
            r.wf(),
            r.has_dims(32, 32, 0, true),
            r.raw_int() == x,
    {
        proof {
            lemma2_to64();
        }
        Num { width: 32, bits: 32, shift: 0, raw: Raw::I(x as i128) }
    }

    /// A 64-bit unsigned integer as a fixed-point value.
    pub fn from_u64(x: u64) -> (r: Num)
        ensures
            r.wf(),
            r.has_dims(64, 64, 0, false),
            r.raw_int() == x,
    {
        proof {
            lemma2_to64();
        }
        Num { width: 64, bits: 64, shift: 0, raw: Raw::U(x as u128) }
    }

    /// A 64-bit signed integer as a fixed-point value.
    pub fn from_i64(x: i64) -> (r: Num)
        ensures
            r.wf(),
            r.has_dims(64, 64, 0, true),
            r.raw_int() == x,
    {
        proof {
            lemma2_to64();
            lemma_pow2_extremes();
        }
        Num { width: 64, bits: 64, shift: 0, raw: Raw::I(x as i128) }
    }

    /// A 128-bit unsigned integer as a fixed-point value.
    pub fn from_u128(x: u128) -> (r: Num)
        ensures
            r.wf(),
            r.has_dims(128, 128, 0, false),
            r.raw_int() == x,
    {
        proof {
            lemma_pow2_extremes();
        }
        Num { width: 128, bits: 128, shift: 0, raw: Raw::U(x) }
    }

    /// A 128-bit signed integer as a fixed-point value.
    pub fn from_i128(x: i128) -> (r: Num)
        ensures
            r.wf(),
            r.has_dims(128, 128, 0, true),
            r.raw_int() == x,
    {
        proof {
            lemma_pow2_extremes();
        }
        Num { width: 128, bits: 128, shift: 0, raw: Raw::I(x) }
    }

    /// Promotes an unsigned value into the signed family of the same
    /// storage width, which takes one extra bit.
    pub fn into_signed(self) -> (r: Num)
        requires
            self.wf(),
            !self.is_signed(),
            self.bits + 1 <= self.width,
        ensures
            r.wf(),
            r.has_dims(self.width, (self.bits + 1) as u32, self.shift, true),
            r.raw_int() == self.raw_int(),
    {
        self.into_fp(self.width, self.bits + 1, true)
    }

    /// Reinterprets a signed value in the unsigned family of the same
    /// storage width, with one bit fewer, without a sign check; the
    /// caller must have proven the value non-negative.
    pub fn into_unsigned_unchecked(self) -> (r: Num)
        requires
            self.wf(),
            self.is_signed(),
            self.bits >= 1,
            self.raw_int() >= 0,
        ensures
            r.wf(),
            r.has_dims(self.width, (self.bits - 1) as u32, self.shift, false),
            r.raw_int() == self.raw_int(),
    {
        proof {
            lemma2_to64();
        }
        let raw: Raw = match self.raw {
            Raw::I(x) => Raw::U(x as u128),
            Raw::U(x) => Raw::U(x),
        };
        Num { width: self.width, bits: self.bits - 1, shift: self.shift, raw }
    }

    /// Reinterprets a signed value in the unsigned family of the same
    /// storage width, with one bit fewer, when it is non-negative;
    /// a negative value yields nothing.
    pub fn into_unsigned(self) -> (r: Option<Num>)
        requires
            self.wf(),
            self.is_signed(),
            self.bits >= 1,
        ensures
            (r matches Some(_)) <==> self.raw_int() >= 0,
            r matches Some(n) ==> n.wf() && n.has_dims(
                self.width,
                (self.bits - 1) as u32,
                self.shift,
                false,
            ) && n.raw_int() == self.raw_int(),
    {
        match self.raw {
            Raw::I(x) => {
                if x >= 0 {
                    Some(self.into_unsigned_unchecked())
                } else {
                    None
                }
            },
            Raw::U(_) => None,
        }
    }

    /// Widens the field: the raw and logical values are unchanged, only
    /// the number of bits permitted to vary grows.  The new field must
    /// still fit the storage width.
    pub fn add_bits(self, bits: u32) -> (r: Num)
        requires
            self.wf(),
            self.bits <= bits <= self.width,
        ensures
            r.wf(),
            r.has_dims(self.width, bits, self.shift, self.is_signed()),
            r.raw == self.raw,
    {
        proof {
            lemma_range_widens(self.bits, bits, self.is_signed());
        }
        Num { width: self.width, bits, shift: self.shift, raw: self.raw }
    }

    /// Reinterprets the same raw value under a different number of bits,
    /// checking at runtime that it lies in the new field's range.
    pub fn set_bits(self, bits: u32) -> (r: Result<Num, RangeError>)
        requires
            self.wf(),
            bits <= self.width,
        ensures
            (r matches Err(e) && e == RangeError::TooSmall) <==> self.raw_int() < min_val(
                bits,
                self.is_signed(),
            ),
            (r matches Err(e) && e == RangeError::TooLarge) <==> self.raw_int() > max_val(
                bits,
                self.is_signed(),
            ),
            r matches Ok(n) ==> n.wf() && n.has_dims(self.width, bits, self.shift, self.is_signed())
                && n.raw == self.raw,
            min_val(bits, self.is_signed()) <= self.raw_int() <= max_val(bits, self.is_signed())
                ==> (r matches Ok(n) && n.raw == self.raw),
    {
        Num::new(self.width, bits, self.shift, self.raw)
    }

    /// Reinterprets the same raw value under a different number of bits
    /// without a range check; the caller must have proven that the value
    /// fits the new field.
    pub fn set_bits_unchecked(self, bits: u32) -> (r: Num)
        requires
            self.wf(),
            bits <= self.width,
            min_val(bits, self.is_signed()) <= self.raw_int() <= max_val(bits, self.is_signed()),
        ensures
            r.wf(),
            r.has_dims(self.width, bits, self.shift, self.is_signed()),
            r.raw == self.raw,
    {
        Num { width: self.width, bits, shift: self.shift, raw: self.raw }
    }

    /// Reinterprets the same raw value under a different number of bits,
    /// clamping to the new field's minimum or maximum when the value falls
    /// out of range.  A value already in range is returned with its raw
    /// value unchanged.
    pub fn saturate(self, bits: u32) -> (r: Num)
        requires
            self.wf(),
            bits <= self.width,
        ensures
            r.wf(),
            r.has_dims(self.width, bits, self.shift, self.is_signed()),
            min_val(bits, self.is_signed()) <= r.raw_int() <= max_val(bits, self.is_signed()),
            self.raw_int() < min_val(bits, self.is_signed()) ==> r.raw_int() == min_val(
                bits,
                self.is_signed(),
            ),
            self.raw_int() > max_val(bits, self.is_signed()) ==> r.raw_int() == max_val(
                bits,
                self.is_signed(),
            ),
            min_val(bits, self.is_signed()) <= self.raw_int() <= max_val(bits, self.is_signed())
                ==> r.raw == self.raw,
    {
        let signed: bool = self.raw.is_signed_exec();
        match self.set_bits(bits) {
            Err(RangeError::TooSmall) => Num::min_value(self.width, bits, self.shift, signed),
            Err(RangeError::TooLarge) => Num::max_value(self.width, bits, self.shift, signed),
            Ok(val) => val,
        }
    }

    /// Shifts the logical value left by `n` binary places (a negative `n`
    /// shifts right).  Only the shift dimension changes: the raw value is
    /// untouched and the logical value is multiplied by two to the power
    /// `n`.
    pub fn logical_shl(self, n: i32, bits: u32) -> (r: Num)
        requires
            self.wf(),
            self.bits <= bits <= self.width,
            i32::MIN <= self.shift - n <= i32::MAX,
        ensures
            r.wf(),
            r.width == self.width,
            r.bits == bits,
            r.is_signed() == self.is_signed(),
            r.shift == self.shift - n,
            r.raw == self.raw,
    {
        proof {
            lemma_range_widens(self.bits, bits, self.is_signed());
        }
        Num { width: self.width, bits, shift: self.shift - n, raw: self.raw }
    }

    /// Shifts the logical value right by `n` binary places (a negative
    /// `n` shifts left).  Only the shift dimension changes: the raw value
    /// is untouched and the logical value is divided by two to the power
    /// `n`.
    pub fn logical_shr(self, n: i32, bits: u32) -> (r: Num)
        requires
            self.wf(),
            self.bits <= bits <= self.width,
            i32::MIN <= self.shift + n <= i32::MAX,
        ensures
            r.wf(),
            r.width == self.width,
            r.bits == bits,
            r.is_signed() == self.is_signed(),
            r.shift == self.shift + n,
            r.raw == self.raw,
    {
        proof {
            lemma_range_widens(self.bits, bits, self.is_signed());
        }
        Num { width: self.width, bits, shift: self.shift + n, raw: self.raw }
    }

    /// Shifts the raw value left by `n` bits; the field and the shift
    /// both grow by at least `n`, so the logical value is unchanged and
    /// the shift cannot drop significant bits.
    pub fn raw_shl(self, n: u32, bits: u32) -> (r: Num)
        requires
            self.wf(),
            bits <= self.width,
            self.bits + n <= bits,
            self.shift + n <= i32::MAX,
        ensures
            r.wf(),
            r.width == self.width,
            r.bits == bits,
            r.is_signed() == self.is_signed(),
            r.shift == self.shift + n,
            r.raw_int() == self.raw_int() * pow2(n as nat),
    {
        proof {
            lemma_shl_in_range(self.bits, bits, n, self.is_signed(), self.raw_int());
            lemma_fits_storage(bits, self.is_signed(), self.raw_int() * pow2(n as nat));
        }
        let shift_new: i32 = self.shift + (n as i32);
        if n == 128 {
            // Only a zero-bit value can shift this far; its raw value is zero.
            proof {
                lemma_mul_basics(pow2(n as nat) as int);
            }
            return Num { width: self.width, bits, shift: shift_new, raw: self.raw };
        }
        let p: u128 = pow2_u128(n);
        let raw: Raw = match self.raw {
            Raw::U(x) => Raw::U(x * p),
            Raw::I(x) => {
                let neg: bool = x < 0;
                let m: u128 = i128_mag(x);
                proof {
                    lemma_mul_unary_negation(m as int, p as int);
                }
                Raw::I(i128_from_mag(neg, m * p))
            },
        };
        Num { width: self.width, bits, shift: shift_new, raw }
    }

    /// Shifts the raw value right by `n` bits; the field and the shift
    /// both drop by at most `n`.  The logical value is unchanged except
    /// for truncation of the `n` least-significant raw bits, which
    /// rounds the raw value toward minus infinity as an arithmetic shift
    /// does.  A signed value narrowed to a zero-bit field must already be
    /// non-negative, since that field only holds zero.
    pub fn raw_shr(self, n: u32, bits: u32) -> (r: Num)
        requires
            self.wf(),
            bits <= self.bits,
            self.bits - bits <= n,
            n < self.width,
            i32::MIN <= self.shift - n,
            bits == 0 && self.is_signed() ==> self.raw_int() >= 0,
        ensures
            r.wf(),
            r.width == self.width,
            r.bits == bits,
            r.is_signed() == self.is_signed(),
            r.shift == self.shift - n,
            r.raw_int() == self.raw_int() / (pow2(n as nat) as int),
    {
        proof {
            lemma_pow2_pos(n as nat);
            lemma_shr_in_range(self.bits, bits, n, self.is_signed(), self.raw_int());
            lemma_fits_storage(bits, self.is_signed(), self.raw_int() / (pow2(n as nat) as int));
        }
        let shift_new: i32 = self.shift - (n as i32);
        let p: u128 = pow2_u128(n);
        let raw: Raw = match self.raw {
            Raw::U(x) => Raw::U(x / p),
            Raw::I(x) => {
                if x >= 0 {
                    let q: u128 = (x as u128) / p;
                    proof {
                        lemma_div_pos_is_pos(x as int, p as int);
                        lemma_div_nonincreasing(x as int, p as int);
                    }
                    Raw::I(q as i128)
                } else {
                    let m: u128 = i128_mag(x);
                    let q: u128 = m / p;
                    let rem: u128 = m % p;
                    proof {
                        lemma_fundamental_div_mod(m as int, p as int);
                        lemma_neg_div(m as int, p as int, q as int, rem as int);
                        lemma_div_nonincreasing(m as int, p as int);
                        lemma_pow2_extremes();
                        if rem > 0 {
                            lemma_div_is_ordered_by_denominator(m as int, 2, p as int);
                        }
                    }
                    let qq: u128 = if rem > 0 {
                        q + 1
                    } else {
                        q
                    };
                    Raw::I(i128_from_mag(true, qq))
                }
            },
        };
        Num { width: self.width, bits, shift: shift_new, raw }
    }

    /// Adds two values of the same shift and signedness.  The output
    /// field is strictly wider than either operand's, which is exactly
    /// the headroom that makes the native addition incapable of
    /// overflowing; no runtime check is performed.
    pub fn add(self, other: Num, bits: u32) -> (r: Num)
        requires
            self.wf(),
            other.wf(),
            other.width == self.width,
            other.is_signed() == self.is_signed(),
            other.shift == self.shift,
            self.bits < bits,
            other.bits < bits,
            bits <= self.width,
        ensures
            r.wf(),
            r.has_dims(self.width, bits, self.shift, self.is_signed()),
            r.raw_int() == self.raw_int() + other.raw_int(),
    {
        proof {
            lemma_add_in_range(
                self.bits,
                other.bits,
                bits,
                self.is_signed(),
                self.raw_int(),
                other.raw_int(),
            );
            lemma_fits_storage(bits, self.is_signed(), self.raw_int() + other.raw_int());
        }
        let raw: Raw = match (self.raw, other.raw) {
            (Raw::I(x), Raw::I(y)) => Raw::I(x + y),
            (Raw::U(x), Raw::U(y)) => Raw::U(x + y),
            (Raw::I(x), Raw::U(_)) => Raw::I(x),
            (Raw::U(x), Raw::I(_)) => Raw::U(x),
        };
        Num { width: self.width, bits, shift: self.shift, raw }
    }

    /// Subtracts two values of the same shift and signedness.  Both raw
    /// values are first promoted to the signed companion storage, since
    /// a difference may cross zero even when both operands are unsigned;
    /// the output is therefore always signed, with strictly more bits
    /// than either operand so the native subtraction cannot overflow.
    pub fn sub(self, other: Num, bits: u32) -> (r: Num)
        requires
            self.wf(),
            other.wf(),
            other.width == self.width,
            other.is_signed() == self.is_signed(),
            other.shift == self.shift,
            self.bits < bits,
            other.bits < bits,
            bits <= self.width,
        ensures
            r.wf(),
            r.has_dims(self.width, bits, self.shift, true),
            r.raw_int() == self.raw_int() - other.raw_int(),
    {
        proof {
            lemma_sub_in_range(
                self.bits,
                other.bits,
                bits,
                self.is_signed(),
                self.raw_int(),
                other.raw_int(),
            );
            lemma_fits_storage(bits, true, self.raw_int() - other.raw_int());
            if !self.is_signed() {
                lemma_range_widens(self.bits, 127, false);
                lemma_range_widens(other.bits, 127, false);
                lemma_pow2_extremes();
            }
        }
        let raw: Raw = match (self.raw, other.raw) {
            (Raw::I(x), Raw::I(y)) => Raw::I(x - y),
            (Raw::U(x), Raw::U(y)) => Raw::I((x as i128) - (y as i128)),
            (Raw::I(x), Raw::U(_)) => Raw::I(x),
            (Raw::U(_), Raw::I(y)) => Raw::I(y),
        };
        Num { width: self.width, bits, shift: self.shift, raw }
    }
}

impl Raw {
    /// Whether the storage type is signed, decided at runtime.
    pub fn is_signed_exec(self) -> (r: bool)
        ensures
            r == self.is_signed(),
    {
        match self {
            Raw::I(_) => true,
            Raw::U(_) => false,
        }
    }
}

/// For every combination of significant bits and signedness, the minimum
/// is at most zero and the maximum at least zero, and both collapse to
/// zero when there are no significant bits.
pub proof fn lemma_min_zero_max(bits: u32, signed: bool)
    ensures
        min_val(bits, signed) <= 0 <= max_val(bits, signed),
        bits == 0 ==> min_val(bits, signed) == 0 && max_val(bits, signed) == 0,
{
    if bits > 0 {
        lemma_pow2_pos((bits - 1) as nat);
        lemma_pow2_pos(bits as nat);
    }
}

/// An output field strictly wider than both operands' fields holds every
/// possible sum of their values: the sum of two values in range for `b0`
/// and `b1` bits lies in range for `bo` bits whenever `bo` exceeds both.
pub proof fn lemma_add_in_range(b0: u32, b1: u32, bo: u32, signed: bool, a: int, b: int)
    requires
        b0 < bo,
        b1 < bo,
        min_val(b0, signed) <= a <= max_val(b0, signed),
        min_val(b1, signed) <= b <= max_val(b1, signed),
    ensures
        min_val(bo, signed) <= a + b <= max_val(bo, signed),
{
    let bm: u32 = (bo - 1) as u32;
    lemma_range_widens(b0, bm, signed);
    lemma_range_widens(b1, bm, signed);
    lemma_min_zero_max(bo, signed);
    if bm > 0 {
        lemma_pow2_adds((bm - 1) as nat, 1);
        lemma_pow2_adds(bm as nat, 1);
        lemma2_to64();
    }
}

/// A signed output field strictly wider than both operands' fields holds
/// every possible difference of their values, whether the operands are
/// signed or unsigned.
pub proof fn lemma_sub_in_range(b0: u32, b1: u32, bo: u32, signed: bool, a: int, b: int)
    requires
        b0 < bo,
        b1 < bo,
        min_val(b0, signed) <= a <= max_val(b0, signed),
        min_val(b1, signed) <= b <= max_val(b1, signed),
    ensures
        min_val(bo, true) <= a - b <= max_val(bo, true),
{
    let bm: u32 = (bo - 1) as u32;
    lemma_range_widens(b0, bm, signed);
    lemma_range_widens(b1, bm, signed);
    lemma_min_zero_max(bo, true);
    if bm > 0 {
        lemma_pow2_pos(bm as nat);
        if bm > 1 {
            lemma_pow2_adds((bm - 1) as nat, 1);
        }
        lemma_pow2_adds(bm as nat, 1);
        lemma2_to64();
    }
}

/// Multiplying a value in range for `b0` bits by two to the power `n`
/// keeps it in range for any field of at least `b0 + n` bits.
pub proof fn lemma_shl_in_range(b0: u32, bo: u32, n: u32, signed: bool, a: int)
    requires
        b0 + n <= bo,
        min_val(b0, signed) <= a <= max_val(b0, signed),
    ensures
        min_val(bo, signed) <= a * pow2(n as nat) <= max_val(bo, signed),
{
    let p: int = pow2(n as nat) as int;
    lemma_pow2_pos(n as nat);
    lemma_min_zero_max(bo, signed);
    if b0 == 0 {
        lemma_mul_basics(p);
    } else if signed {
        let e0: nat = (b0 - 1) as nat;
        let eo: nat = (bo - 1) as nat;
        lemma_mul_inequality(-(pow2(e0) as int), a, p);
        lemma_mul_inequality(a, pow2(e0) - 1, p);
        lemma_mul_unary_negation(pow2(e0) as int, p);
        lemma_mul_is_distributive_sub_other_way(p, pow2(e0) as int, 1);
        lemma_mul_basics(p);
        lemma_pow2_adds(e0, n as nat);
        lemma_pow2_le((e0 + n) as nat, eo);
    } else {
        lemma_mul_nonnegative(a, p);
        lemma_mul_inequality(a, pow2(b0 as nat) - 1, p);
        lemma_mul_is_distributive_sub_other_way(p, pow2(b0 as nat) as int, 1);
        lemma_mul_basics(p);
        lemma_pow2_adds(b0 as nat, n as nat);
        lemma_pow2_le((b0 + n) as nat, bo as nat);
    }
}

/// Dividing a value in range for `b0` bits by two to the power `n`,
/// rounding toward minus infinity, keeps it in range for any field of at
/// least `b0 - n` bits — except that a zero-bit signed field requires the
/// value to be non-negative, since a negative value rounds to minus one.
pub proof fn lemma_shr_in_range(b0: u32, bt: u32, n: u32, signed: bool, a: int)
    requires
        bt <= b0,
        b0 - bt <= n,
        min_val(b0, signed) <= a <= max_val(b0, signed),
        bt == 0 && signed ==> a >= 0,
    ensures
        min_val(bt, signed) <= a / (pow2(n as nat) as int) <= max_val(bt, signed),
{
    let p: int = pow2(n as nat) as int;
    lemma_pow2_pos(n as nat);
    lemma_min_zero_max(bt, signed);
    lemma_min_zero_max(b0, signed);
    if a >= 0 {
        lemma_div_pos_is_pos(a, p);
        let hi: int = max_val(bt, signed) + 1;
        if signed {
            if bt == 0 {
                if b0 > 0 {
                    lemma_pow2_le((b0 - 1) as nat, n as nat);
                }
                lemma_mul_basics(p);
            } else {
                lemma_pow2_adds((bt - 1) as nat, n as nat);
                lemma_pow2_le((b0 - 1) as nat, (bt - 1 + n) as nat);
                lemma_mul_is_commutative(pow2((bt - 1) as nat) as int, p);
            }
        } else {
            if bt == 0 {
                lemma_pow2_le(b0 as nat, n as nat);
                lemma_mul_basics(p);
            } else {
                lemma_pow2_adds(bt as nat, n as nat);
                lemma_pow2_le(b0 as nat, (bt + n) as nat);
                lemma_mul_is_commutative(pow2(bt as nat) as int, p);
            }
        }
        lemma_multiply_divide_lt(a, p, hi);
    } else {
        lemma_div_is_ordered(a, 0, p);
        lemma_div_of0(p);
        let e0: nat = (b0 - 1) as nat;
        lemma_div_is_ordered(-(pow2(e0) as int), a, p);
        if n <= b0 - 1 {
            let ed: nat = (b0 - 1 - n) as nat;
            lemma_pow2_adds(ed, n as nat);
            lemma_mul_unary_negation(pow2(ed) as int, p);
            lemma_fundamental_div_mod_converse(
                -(pow2(e0) as int),
                p,
                -(pow2(ed) as int),
                0,
            );
            lemma_pow2_le(ed, (bt - 1) as nat);
        } else {
            lemma_pow2_strictly_increases(e0, n as nat);
            lemma_mul_basics(p);
            lemma_mul_unary_negation(1, p);
            lemma_fundamental_div_mod_converse(-(pow2(e0) as int), p, -1, p - pow2(e0));
            lemma_pow2_pos((bt - 1) as nat);
        }
    }
}

/// Negating the dividend of an exact or inexact division by a positive
/// divisor: the quotient rounds toward minus infinity.
proof fn lemma_neg_div(m: int, p: int, q: int, rem: int)
    requires
        p > 0,
        m >= 0,
        q == m / p,
        rem == m % p,
    ensures
        rem == 0 ==> (-m) / p == -q,
        rem > 0 ==> (-m) / p == -(q + 1),
{
    lemma_fundamental_div_mod(m, p);
    lemma_mul_is_commutative(p, q);
    if rem == 0 {
        lemma_mul_unary_negation(q, p);
        lemma_fundamental_div_mod_converse(-m, p, -q, 0);
    } else {
        lemma_mul_is_distributive_add_other_way(p, q, 1);
        lemma_mul_basics(p);
        lemma_mul_unary_negation(q + 1, p);
        lemma_fundamental_div_mod_converse(-m, p, -(q + 1), p - rem);
    }
}

} // verus!
