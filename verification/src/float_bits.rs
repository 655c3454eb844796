//! The exact float bridge, carried out on IEEE bit patterns.
//!
//! A finite binary floating-point value is a sign, an exponent field and
//! a fraction field; its value times two to the power [`FloatFmt::scale`]
//! is an integer, which is how this module states float values exactly
//! without any floating-point arithmetic.  The scale-factor engine
//! constructs the bit pattern of two to the power `-shift` directly from
//! those fields — including subnormal results, which an approximate
//! power routine may round to zero — and the fixed-point constructor
//! range-checks and truncates a float's exact value toward zero using
//! only integer shifts of its fields.

use vstd::prelude::*;

use crate::RangeError;
use crate::storage::Raw;
use crate::storage::valid_width;
use crate::storage::min_val;
use crate::storage::max_val;
use crate::storage::raw_min;
use crate::storage::raw_max;
use crate::storage::pow2_u128;
use crate::storage::i128_mag;
use crate::storage::i128_from_mag;
use crate::storage::lemma_pow2_le;
use crate::storage::lemma_fits_storage;
use crate::storage::lemma_pow2_extremes;
use crate::num::Num;
use crate::num::lemma_min_zero_max;

verus! {

use vstd::arithmetic::power2::pow2;
use vstd::arithmetic::power2::lemma_pow2_pos;
use vstd::arithmetic::power2::lemma_pow2_adds;
use vstd::arithmetic::power2::lemma_pow2_strictly_increases;
use vstd::arithmetic::power2::lemma2_to64;
use vstd::arithmetic::power2::lemma2_to64_rest;
use vstd::arithmetic::mul::lemma_mul_basics;
use vstd::arithmetic::mul::lemma_mul_inequality;
use vstd::arithmetic::mul::lemma_mul_strict_inequality;
use vstd::arithmetic::mul::lemma_mul_upper_bound;
use vstd::arithmetic::mul::lemma_mul_strictly_positive;
use vstd::arithmetic::mul::lemma_mul_is_distributive_sub_other_way;
use vstd::arithmetic::mul::lemma_mul_unary_negation;
use vstd::arithmetic::mul::lemma_mul_is_commutative;
use vstd::arithmetic::mul::lemma_mul_is_associative;
use vstd::arithmetic::mul::lemma_mul_nonnegative;
use vstd::arithmetic::div_mod::lemma_div_basics;
use vstd::arithmetic::div_mod::lemma_basic_div;
use vstd::arithmetic::div_mod::lemma_div_is_ordered;
use vstd::arithmetic::div_mod::lemma_div_pos_is_pos;
use vstd::arithmetic::div_mod::lemma_div_denominator;
use vstd::arithmetic::div_mod::lemma_div_multiples_vanish;
use vstd::arithmetic::div_mod::lemma_mod_multiples_basic;
use vstd::arithmetic::div_mod::lemma_small_mod;
use crate::mul_div::div_trunc;

/// A binary floating-point format, given by the width of its exponent
/// field and its number of mantissa digits (the implicit leading digit
/// included).  Single precision has 8 exponent bits and 24 mantissa
/// digits; double precision has 11 and 53.
#[derive(Clone, Copy, Debug, PartialEq, Eq, Structural)]
pub struct FloatFmt {
    /// Width of the exponent field in bits.
    pub ebits: u32,
    /// Mantissa digits, counting the implicit leading one.
    pub mant: u32,
}

impl FloatFmt {
    /// The format is one of the two supported precisions.
    pub open spec fn wf(self) -> bool {
        (self.ebits == 8 && self.mant == 24) || (self.ebits == 11 && self.mant == 53)
    }

    /// Total width of the format's bit pattern.
    pub open spec fn total_bits(self) -> nat {
        (self.ebits + self.mant) as nat
    }

    /// The exponent bias: 127 for single, 1023 for double precision.
    pub open spec fn bias(self) -> int {
        pow2((self.ebits - 1) as nat) - 1
    }

    /// The scaling exponent: every finite value of the format times two
    /// to this power is an integer.  149 for single, 1074 for double
    /// precision; a shift above it would underflow the scale factor.
    pub open spec fn scale(self) -> nat {
        (self.mant + self.bias() - 2) as nat
    }

    /// One above the largest binary exponent: 128 for single, 1024 for
    /// double precision; more integer bits than this overflow to
    /// infinity.
    pub open spec fn max_exp(self) -> int {
        self.bias() + 1
    }

    /// The fraction field of a bit pattern: its `mant - 1` low bits.
    pub open spec fn frac_field(self, fb: u64) -> int {
        fb as int % (pow2((self.mant - 1) as nat) as int)
    }

    /// The exponent field of a bit pattern: the `ebits` bits above the
    /// fraction.
    pub open spec fn exp_field(self, fb: u64) -> int {
        (fb as int / (pow2((self.mant - 1) as nat) as int)) % (pow2(self.ebits as nat) as int)
    }

    /// The sign bit of a bit pattern.
    pub open spec fn sign_field(self, fb: u64) -> bool {
        (fb as int / (pow2((self.mant - 1 + self.ebits) as nat) as int)) % 2 == 1
    }

    /// The pattern encodes a finite value: its exponent field is not all
    /// ones.
    pub open spec fn is_finite(self, fb: u64) -> bool {
        self.exp_field(fb) < pow2(self.ebits as nat) - 1
    }

    /// The exact value a finite bit pattern encodes, times two to the
    /// power [`FloatFmt::scale`]: a zero exponent field means a
    /// subnormal, whose value is the bare fraction at the smallest
    /// scale; otherwise the implicit leading one joins the fraction and
    /// the exponent field sets the binary point.
    pub open spec fn val_scaled(self, fb: u64) -> int {
        let m = self.frac_field(fb);
        let e = self.exp_field(fb);
        let mag = if e == 0 {
            m
        } else {
            (pow2((self.mant - 1) as nat) + m) * pow2((e - 1) as nat)
        };
        if self.sign_field(fb) {
            -mag
        } else {
            mag
        }
    }

    /// The exponent bias, computed at runtime.
    pub fn bias_exec(&self) -> (r: i32)
        requires
            self.wf(),
        ensures
            r == self.bias(),
    {
        proof {
            lemma2_to64();
        }
        if self.ebits == 8 {
            127
        } else {
            1023
        }
    }

    /// The scaling exponent, computed at runtime.
    pub fn scale_exec(&self) -> (r: i32)
        requires
            self.wf(),
        ensures
            r == self.scale(),
    {
        proof {
            lemma2_to64();
        }
        if self.ebits == 8 {
            149
        } else {
            1074
        }
    }
}

/// The single-precision format.
pub open spec fn f32_spec() -> FloatFmt {
    FloatFmt { ebits: 8, mant: 24 }
}

/// The double-precision format.
pub open spec fn f64_spec() -> FloatFmt {
    FloatFmt { ebits: 11, mant: 53 }
}

/// The single-precision format, constructed at runtime.
pub fn f32_fmt() -> (r: FloatFmt)
    ensures
        r == f32_spec(),
        r.wf(),
{
    FloatFmt { ebits: 8, mant: 24 }
}

/// The double-precision format, constructed at runtime.
pub fn f64_fmt() -> (r: FloatFmt)
    ensures
        r == f64_spec(),
        r.wf(),
{
    FloatFmt { ebits: 11, mant: 53 }
}

/// The bit pattern of the exact value of two to the power `-shift` in
/// the given format: the scale factor of a fixed-point type with that
/// shift.  Built directly from the exponent and fraction fields so that
/// subnormal scale factors (a `shift` beyond the normal range) come out
/// exact rather than rounded to zero.
pub fn float_lsb_bits(fmt: FloatFmt, shift: i32) -> (r: u64)
    requires
        fmt.wf(),
        -fmt.bias() <= shift <= fmt.scale(),
    ensures
        fmt.is_finite(r),
        !fmt.sign_field(r),
        fmt.val_scaled(r) == pow2((fmt.scale() - shift) as nat),
        r < pow2(fmt.total_bits()),
{
    proof {
        lemma2_to64();
        lemma2_to64_rest();
    }
    let pm: u64 = pow2_u128(fmt.mant - 1) as u64;
    let ghost pmi: int = pow2((fmt.mant - 1) as nat) as int;
    let ghost pei: int = pow2(fmt.ebits as nat) as int;
    let exp: i32 = fmt.bias_exec() - shift;
    if exp > 0 {
        // A normal scale factor: fraction zero, exponent field `exp`.
        proof {
            lemma_mul_nonnegative(exp as int, pm as int);
            lemma_mul_upper_bound(exp as int, 2046, pm as int, 0x10000000000000);
        }
        let r: u64 = (exp as u64) * pm;
        proof {
            let e: int = exp as int;
            lemma_mod_multiples_basic(e, pmi);
            lemma_div_multiples_vanish(e, pmi);
            lemma_mul_is_commutative(e, pmi);
            lemma_small_mod(e as nat, pei as nat);
            lemma_pow2_adds((fmt.mant - 1) as nat, fmt.ebits as nat);
            lemma_div_denominator(r as int, pmi, pei);
            lemma_basic_div(e, pei);
            lemma_small_mod(0, 2);
            lemma_pow2_adds((fmt.mant - 1) as nat, (exp - 1) as nat);
            lemma_mul_strict_inequality(e, pei, pmi);
            lemma_mul_is_commutative(pei, pmi);
            assert(fmt.val_scaled(r) == (pmi + 0) * pow2((e - 1) as nat));
            lemma_mul_basics(pow2((e - 1) as nat) as int);
        }
        r
    } else {
        // A subnormal scale factor: a single fraction bit at the right
        // weight.
        let k: i32 = fmt.scale_exec() - shift;
        let r: u64 = pow2_u128(k as u32) as u64;
        proof {
            lemma_pow2_strictly_increases(k as nat, (fmt.mant - 1) as nat);
            lemma_small_mod(pow2(k as nat), pow2((fmt.mant - 1) as nat));
            lemma_basic_div(r as int, pmi);
            lemma_pow2_adds((fmt.mant - 1) as nat, fmt.ebits as nat);
            lemma_pow2_strictly_increases(k as nat, (fmt.mant - 1 + fmt.ebits) as nat);
            lemma_basic_div(r as int, pow2((fmt.mant - 1 + fmt.ebits) as nat) as int);
            lemma_small_mod(0, pei as nat);
            lemma_small_mod(0, 2);
            lemma_pow2_strictly_increases(k as nat, fmt.total_bits());
        }
        r
    }
}

/// The bit pattern of the exact single-precision value of two to the
/// power `-shift`.
pub fn f32_lsb_bits(shift: i32) -> (r: u32)
    requires
        -127 <= shift <= 149,
    ensures
        f32_spec().is_finite(r as u64),
        !f32_spec().sign_field(r as u64),
        f32_spec().val_scaled(r as u64) == pow2((149 - shift) as nat),
{
    proof {
        lemma2_to64();
    }
    let b: u64 = float_lsb_bits(f32_fmt(), shift);
    b as u32
}

/// The bit pattern of the exact double-precision value of two to the
/// power `-shift`.
pub fn f64_lsb_bits(shift: i32) -> (r: u64)
    requires
        -1023 <= shift <= 1074,
    ensures
        f64_spec().is_finite(r),
        !f64_spec().sign_field(r),
        f64_spec().val_scaled(r) == pow2((1074 - shift) as nat),
{
    proof {
        lemma2_to64();
    }
    float_lsb_bits(f64_fmt(), shift)
}

/// Whether a fixed-point type of the given dimensions converts to the
/// given float format losslessly: its bits must fit the mantissa (no
/// truncation), its shift must not underflow the scale factor, and its
/// integer part must not overflow to infinity.
pub fn into_float_ok(fmt: FloatFmt, bits: u32, shift: i32) -> (r: bool)
    requires
        fmt.wf(),
    ensures
        r == (bits <= fmt.mant && shift <= fmt.scale() && bits as int - shift <= fmt.max_exp()),
{
    proof {
        lemma2_to64();
    }
    let max_e: i64 = (fmt.bias_exec() as i64) + 1;
    bits <= fmt.mant && shift <= fmt.scale_exec() && (bits as i64) - (shift as i64) <= max_e
}

/// Whether a fixed-point type of the given dimensions converts to
/// single precision losslessly.
pub fn into_f32_ok(bits: u32, shift: i32) -> (r: bool)
    ensures
        r == (bits <= 24 && shift <= 149 && bits as int - shift <= 128),
{
    proof {
        lemma2_to64();
    }
    into_float_ok(f32_fmt(), bits, shift)
}

/// Whether a fixed-point type of the given dimensions converts to
/// double precision losslessly.
pub fn into_f64_ok(bits: u32, shift: i32) -> (r: bool)
    ensures
        r == (bits <= 53 && shift <= 1074 && bits as int - shift <= 1024),
{
    proof {
        lemma2_to64();
    }
    into_float_ok(f64_fmt(), bits, shift)
}

/// The scale factor of a fixed-point type with the given shift, times
/// two to the power of the format's scaling exponent: the denominator
/// that turns a scaled float value back into a raw fixed-point value.
pub open spec fn fixed_scale(fmt: FloatFmt, shift: i32) -> int {
    pow2((fmt.scale() - shift) as nat) as int
}

/// Whether a magnitude `ms` times two to the power `t` exceeds `bound`:
/// an exact comparison, stated on whichever side of the binary point `t`
/// falls so that both sides are integers.
spec fn scaled_gt(ms: int, t: int, bound: int) -> bool {
    if t >= 0 {
        ms * pow2(t as nat) > bound
    } else {
        ms > bound * pow2((-t) as nat)
    }
}

/// The comparison of `ms` times two to the power `ke - dd` with `bound`
/// is the comparison of `ms` times two to the power `ke` with `bound`
/// times two to the power `dd`.
proof fn lemma_scaled_gt_iff(ms: int, ke: nat, dd: nat, bound: int)
    requires
        ms >= 0,
        bound >= 0,
    ensures
        scaled_gt(ms, ke - dd, bound) <==> ms * pow2(ke) > bound * pow2(dd),
{
    let t: int = ke - dd;
    lemma_pow2_pos(ke);
    lemma_pow2_pos(dd);
    if t >= 0 {
        lemma_pow2_adds(t as nat, dd);
        lemma_mul_is_associative(ms, pow2(t as nat) as int, pow2(dd) as int);
        let x: int = ms * pow2(t as nat);
        if x > bound {
            lemma_mul_strict_inequality(bound, x, pow2(dd) as int);
        }
        if x <= bound {
            lemma_mul_inequality(x, bound, pow2(dd) as int);
        }
    } else {
        let j: nat = (dd - ke) as nat;
        lemma_pow2_adds(j, ke);
        lemma_mul_is_associative(bound, pow2(j) as int, pow2(ke) as int);
        let y: int = bound * pow2(j);
        if ms > y {
            lemma_mul_strict_inequality(y, ms, pow2(ke) as int);
        }
        if ms <= y {
            lemma_mul_inequality(ms, y, pow2(ke) as int);
        }
    }
}

/// Decides whether `ms` times two to the power `t` exceeds `bound`,
/// without ever forming a value above the 128-bit range.
fn mag_exceeds(ms: u64, t: i64, bound: u128) -> (r: bool)
    requires
        -0x200000000 <= t <= 0x200000000,
    ensures
        r == scaled_gt(ms as int, t as int, bound as int),
{
    if t >= 128 {
        proof {
            if ms >= 1 {
                lemma_pow2_le(128, t as nat);
                lemma_mul_inequality(1, ms as int, pow2(t as nat) as int);
                lemma_mul_basics(pow2(t as nat) as int);
                lemma_pow2_extremes();
            } else {
                lemma_mul_basics(pow2(t as nat) as int);
            }
        }
        ms > 0
    } else if t > 0 {
        let lim: u128 = pow2_u128((128 - t) as u32);
        proof {
            lemma_pow2_adds((128 - t) as nat, t as nat);
            lemma_pow2_pos(t as nat);
            lemma_pow2_extremes();
        }
        if (ms as u128) >= lim {
            proof {
                lemma_mul_inequality(lim as int, ms as int, pow2(t as nat) as int);
            }
            true
        } else {
            proof {
                lemma_mul_inequality(ms as int, lim as int - 1, pow2(t as nat) as int);
                lemma_mul_is_distributive_sub_other_way(pow2(t as nat) as int, lim as int, 1);
                lemma_mul_basics(pow2(t as nat) as int);
            }
            (ms as u128) * pow2_u128(t as u32) > bound
        }
    } else if t == 0 {
        proof {
            lemma_mul_basics(ms as int);
            lemma2_to64();
        }
        (ms as u128) > bound
    } else {
        let j: i64 = -t;
        if j >= 128 {
            proof {
                if bound >= 1 {
                    lemma_pow2_le(128, j as nat);
                    lemma_mul_inequality(1, bound as int, pow2(j as nat) as int);
                    lemma_mul_basics(pow2(j as nat) as int);
                    lemma_pow2_extremes();
                } else {
                    lemma_mul_basics(pow2(j as nat) as int);
                }
            }
            bound == 0 && ms > 0
        } else {
            let lim: u128 = pow2_u128((128 - j) as u32);
            proof {
                lemma_pow2_adds((128 - j) as nat, j as nat);
                lemma_pow2_pos(j as nat);
                lemma_pow2_extremes();
            }
            if bound >= lim {
                proof {
                    lemma_mul_inequality(lim as int, bound as int, pow2(j as nat) as int);
                }
                false
            } else {
                proof {
                    lemma_mul_inequality(bound as int, lim as int - 1, pow2(j as nat) as int);
                    lemma_mul_is_distributive_sub_other_way(pow2(j as nat) as int, lim as int, 1);
                    lemma_mul_basics(pow2(j as nat) as int);
                }
                (ms as u128) > bound * pow2_u128(j as u32)
            }
        }
    }
}

/// Builds the fixed-point number of the given dimensions whose logical
/// value equals the finite float encoded by `fb`, range-checking the
/// exact (pre-truncation) value against the target's minimum and maximum
/// and then truncating toward zero, exactly as an unchecked
/// float-to-integer conversion of the scaled value would.  Non-finite
/// input is a fatal condition and is excluded by precondition, as are
/// target dimensions whose extremes the format cannot represent.
pub fn from_float_bits(
    fmt: FloatFmt,
    fb: u64,
    width: u32,
    bits: u32,
    shift: i32,
    signed: bool,
) -> (r: Result<Num, RangeError>)
    requires
        fmt.wf(),
        fmt.is_finite(fb),
        valid_width(width),
        bits <= width,
        bits <= fmt.mant,
        shift <= fmt.scale(),
        bits as int - shift <= fmt.max_exp(),
    ensures
        (r matches Err(e) && e == RangeError::TooSmall) <==> fmt.val_scaled(fb) < min_val(
            bits,
            signed,
        ) * fixed_scale(fmt, shift),
        (r matches Err(e) && e == RangeError::TooLarge) <==> fmt.val_scaled(fb) > max_val(
            bits,
            signed,
        ) * fixed_scale(fmt, shift),
        r matches Ok(n) ==> n.wf() && n.has_dims(width, bits, shift, signed) && n.raw_int()
            == div_trunc(fmt.val_scaled(fb), fixed_scale(fmt, shift)),
{
    proof {
        lemma2_to64();
        lemma2_to64_rest();
        lemma_pow2_pos((fmt.scale() - shift) as nat);
    }
    let ghost v: int = fmt.val_scaled(fb);
    let ghost dd: nat = (fmt.scale() - shift) as nat;
    let ghost dnm: int = fixed_scale(fmt, shift);

    // Split the pattern into its fraction, exponent and sign fields.
    let pm: u64 = pow2_u128(fmt.mant - 1) as u64;
    let pe: u64 = pow2_u128(fmt.ebits) as u64;
    let m: u64 = fb % pm;
    let e: u64 = (fb / pm) % pe;
    proof {
        lemma_pow2_adds((fmt.mant - 1) as nat, fmt.ebits as nat);
        lemma_div_denominator(fb as int, pm as int, pe as int);
    }
    let sign: bool = ((fb / pm) / pe) % 2 == 1;

    // The encoded magnitude is ms times two to the power ke, scaled.
    let ms: u64 = if e == 0 {
        m
    } else {
        pm + m
    };
    let ke: u32 = if e == 0 {
        0
    } else {
        (e - 1) as u32
    };
    let ghost mag: int = if fmt.sign_field(fb) {
        -v
    } else {
        v
    };
    proof {
        if e == 0 {
            lemma_mul_basics(ms as int);
        }
        assert(mag == (ms as int) * pow2(ke as nat));
        lemma_mul_nonnegative(ms as int, pow2(ke as nat) as int);
    }
    let t: i64 = (ke as i64) + (shift as i64) - (fmt.scale_exec() as i64);

    // The target's extremes, as magnitudes.
    let lo_raw: Raw = raw_min(bits, signed);
    let hi_raw: Raw = raw_max(bits, signed);
    let lo_mag: u128 = match lo_raw {
        Raw::U(_) => 0u128,
        Raw::I(x) => i128_mag(x),
    };
    let hi_mag: u128 = match hi_raw {
        Raw::U(x) => x,
        Raw::I(x) => {
            proof {
                lemma_min_zero_max(bits, signed);
            }
            x as u128
        },
    };
    proof {
        lemma_min_zero_max(bits, signed);
        lemma_mul_nonnegative(lo_mag as int, dnm);
        lemma_mul_nonnegative(hi_mag as int, dnm);
        lemma_mul_unary_negation(lo_mag as int, dnm);
    }

    if ms == 0 {
        // An encoded zero (of either sign) is always in range.
        proof {
            lemma_div_basics(dnm);
        }
        return Ok(Num::zero(width, bits, shift, signed));
    }
    proof {
        lemma_scaled_gt_iff(ms as int, ke as nat, dd, lo_mag as int);
        lemma_scaled_gt_iff(ms as int, ke as nat, dd, hi_mag as int);
        lemma_mul_strictly_positive(ms as int, pow2(ke as nat) as int);
    }
    if sign {
        if mag_exceeds(ms, t, lo_mag) {
            return Err(RangeError::TooSmall);
        }
    } else {
        if mag_exceeds(ms, t, hi_mag) {
            return Err(RangeError::TooLarge);
        }
    }

    // An unsigned target rejects every negative value above, its minimum
    // being zero.
    proof {
        if sign && !signed {
            if t >= 0 {
                lemma_mul_strictly_positive(ms as int, pow2(t as nat) as int);
            } else {
                lemma_mul_basics(pow2((-(t as int)) as nat) as int);
            }
        }
        lemma_fits_storage_mags(bits, signed, lo_mag as int, hi_mag as int);
    }

    // Truncate the scaled magnitude toward zero.
    let q: u128 = if t >= 0 {
        proof {
            if t >= 128 {
                lemma_pow2_le(128, t as nat);
                lemma_mul_inequality(1, ms as int, pow2(t as nat) as int);
                lemma_mul_basics(pow2(t as nat) as int);
                lemma_pow2_extremes();
            }
            lemma_pow2_adds(t as nat, dd);
            lemma_mul_is_associative(ms as int, pow2(t as nat) as int, pow2(dd) as int);
            lemma_mul_is_commutative((ms as int) * (pow2(t as nat) as int), dnm);
            lemma_div_multiples_vanish((ms as int) * (pow2(t as nat) as int), dnm);
        }
        (ms as u128) * pow2_u128(t as u32)
    } else {
        let j: i64 = -t;
        proof {
            let jn: nat = j as nat;
            lemma_pow2_pos(jn);
            lemma_pow2_pos(ke as nat);
            lemma_pow2_adds(ke as nat, jn);
            lemma_div_denominator(mag, pow2(ke as nat) as int, pow2(jn) as int);
            lemma_mul_is_commutative(ms as int, pow2(ke as nat) as int);
            lemma_div_multiples_vanish(ms as int, pow2(ke as nat) as int);
            // The magnitude quotient stays at or below the checked bound.
            let bnd: int = if sign {
                lo_mag as int
            } else {
                hi_mag as int
            };
            lemma_div_is_ordered(ms as int, bnd * pow2(jn), pow2(jn) as int);
            lemma_mul_is_commutative(bnd, pow2(jn) as int);
            lemma_div_multiples_vanish(bnd, pow2(jn) as int);
            lemma_div_pos_is_pos(ms as int, pow2(jn) as int);
        }
        if j >= 64 {
            proof {
                lemma_pow2_le(64, j as nat);
                lemma_basic_div(ms as int, pow2(j as nat) as int);
            }
            0u128
        } else {
            (ms as u128) / pow2_u128(j as u32)
        }
    };

    let rawv: Raw = if signed {
        Raw::I(i128_from_mag(sign, q))
    } else {
        Raw::U(q)
    };
    Ok(Num { width, bits, shift, raw: rawv })
}

/// The extreme magnitudes of a field of at most 128 bits fit the signed
/// or unsigned 128-bit storage.
proof fn lemma_fits_storage_mags(bits: u32, signed: bool, lo_mag: int, hi_mag: int)
    requires
        bits <= 128,
        lo_mag == -min_val(bits, signed),
        hi_mag == max_val(bits, signed),
    ensures
        signed ==> lo_mag <= 0x80000000000000000000000000000000,
        signed ==> hi_mag <= 0x7fffffffffffffffffffffffffffffff,
        !signed ==> lo_mag == 0,
{
    lemma_min_zero_max(bits, signed);
    lemma_fits_storage(bits, signed, min_val(bits, signed));
    lemma_fits_storage(bits, signed, max_val(bits, signed));
    lemma_pow2_extremes();
}

/// Builds the fixed-point number of the given dimensions from the bit
/// pattern of a finite single-precision float, range-checking the exact
/// value and truncating toward zero.
pub fn from_f32_bits(fb: u32, width: u32, bits: u32, shift: i32, signed: bool) -> (r: Result<
    Num,
    RangeError,
>)
    requires
        f32_spec().is_finite(fb as u64),
        valid_width(width),
        bits <= width,
        bits <= 24,
        shift <= 149,
        bits as int - shift <= 128,
    ensures
        (r matches Err(e) && e == RangeError::TooSmall) <==> f32_spec().val_scaled(fb as u64)
            < min_val(bits, signed) * fixed_scale(f32_spec(), shift),
        (r matches Err(e) && e == RangeError::TooLarge) <==> f32_spec().val_scaled(fb as u64)
            > max_val(bits, signed) * fixed_scale(f32_spec(), shift),
        r matches Ok(n) ==> n.wf() && n.has_dims(width, bits, shift, signed) && n.raw_int()
            == div_trunc(f32_spec().val_scaled(fb as u64), fixed_scale(f32_spec(), shift)),
{
    proof {
        lemma2_to64();
    }
    from_float_bits(f32_fmt(), fb as u64, width, bits, shift, signed)
}

/// Builds the fixed-point number of the given dimensions from the bit
/// pattern of a finite double-precision float, range-checking the exact
/// value and truncating toward zero.
pub fn from_f64_bits(fb: u64, width: u32, bits: u32, shift: i32, signed: bool) -> (r: Result<
    Num,
    RangeError,
>)
    requires
        f64_spec().is_finite(fb),
        valid_width(width),
        bits <= width,
        bits <= 53,
        shift <= 1074,
        bits as int - shift <= 1024,
    ensures
        (r matches Err(e) && e == RangeError::TooSmall) <==> f64_spec().val_scaled(fb) < min_val(
            bits,
            signed,
        ) * fixed_scale(f64_spec(), shift),
        (r matches Err(e) && e == RangeError::TooLarge) <==> f64_spec().val_scaled(fb) > max_val(
            bits,
            signed,
        ) * fixed_scale(f64_spec(), shift),
        r matches Ok(n) ==> n.wf() && n.has_dims(width, bits, shift, signed) && n.raw_int()
            == div_trunc(f64_spec().val_scaled(fb), fixed_scale(f64_spec(), shift)),
{
    proof {
        lemma2_to64();
    }
    from_float_bits(f64_fmt(), fb, width, bits, shift, signed)
}

/// Round-trip law: a raw value in range whose exact float form exists —
/// a pattern whose scaled value is the raw value times the fixed-point
/// scale factor — passes the range check and truncates back to exactly
/// the same raw value.
pub proof fn lemma_float_round_trip(
    fmt: FloatFmt,
    fb: u64,
    bits: u32,
    shift: i32,
    signed: bool,
    raw: int,
)
    requires
        fmt.wf(),
        shift <= fmt.scale(),
        min_val(bits, signed) <= raw <= max_val(bits, signed),
        fmt.val_scaled(fb) == raw * fixed_scale(fmt, shift),
    ensures
        min_val(bits, signed) * fixed_scale(fmt, shift) <= fmt.val_scaled(fb),
        fmt.val_scaled(fb) <= max_val(bits, signed) * fixed_scale(fmt, shift),
        div_trunc(fmt.val_scaled(fb), fixed_scale(fmt, shift)) == raw,
{
    let d: int = fixed_scale(fmt, shift);
    lemma_pow2_pos((fmt.scale() - shift) as nat);
    lemma_mul_inequality(min_val(bits, signed), raw, d);
    lemma_mul_inequality(raw, max_val(bits, signed), d);
    if raw >= 0 {
        lemma_mul_nonnegative(raw, d);
        lemma_mul_is_commutative(raw, d);
        lemma_div_multiples_vanish(raw, d);
    } else {
        lemma_mul_unary_negation(raw, d);
        lemma_mul_nonnegative(-raw, d);
        lemma_mul_is_commutative(-raw, d);
        lemma_div_multiples_vanish(-raw, d);
        lemma_mul_inequality(raw, -1, d);
        lemma_mul_basics(d);
        lemma_mul_unary_negation(1, d);
    }
}

} // verus!
