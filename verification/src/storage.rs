//! The storage integer abstraction: a raw value is one native integer,
//! signed or unsigned, of width 8 to 128.  For verification all signed
//! storages are carried in an `i128` and all unsigned ones in a `u128`;
//! the declared storage width travels with the value as a dimension and
//! caps the number of significant bits.  The extreme raw values of a
//! `bits`-wide field are those of a full native integer of that many
//! bits: arithmetically shifting the full-width storage extremes right
//! by the spare high-order bits yields exactly these bounds.

use vstd::prelude::*;

verus! {

use vstd::arithmetic::power2::pow2;
use vstd::arithmetic::power2::lemma_pow2_adds;
use vstd::arithmetic::power2::lemma_pow2_pos;
use vstd::arithmetic::power2::lemma_pow2_strictly_increases;
use vstd::arithmetic::power2::lemma2_to64;
use vstd::arithmetic::power2::lemma2_to64_rest;
use vstd::math::abs;

/// The native integer widths that may store a fixed-point value.
pub open spec fn valid_width(width: u32) -> bool {
    width == 8 || width == 16 || width == 32 || width == 64 || width == 128
}

/// A raw storage value: the bit pattern of one native integer.  The
/// variant records whether the storage type is signed; the signed
/// companion of an unsigned storage is the signed storage of the same
/// width, used when an operation must cross zero.
#[derive(Clone, Copy, Debug, PartialEq, Eq, Structural)]
pub enum Raw {
    /// A value of a signed storage type.
    I(i128),
    /// A value of an unsigned storage type.
    U(u128),
}

impl Raw {
    /// The mathematical integer this raw value stores.
    pub open spec fn as_int(self) -> int {
        match self {
            Raw::I(x) => x as int,
            Raw::U(x) => x as int,
        }
    }

    /// Whether the storage type is signed.
    pub open spec fn is_signed(self) -> bool {
        match self {
            Raw::I(_) => true,
            Raw::U(_) => false,
        }
    }
}

/// The smallest raw value of a field of `bits` significant bits: zero for
/// unsigned storage, minus two to the power `bits - 1` for signed storage,
/// and zero when there are no significant bits at all.
pub open spec fn min_val(bits: u32, signed: bool) -> int {
    if bits == 0 {
        0
    } else if signed {
        -(pow2((bits - 1) as nat) as int)
    } else {
        0
    }
}

/// The largest raw value of a field of `bits` significant bits: two to the
/// power `bits` minus one for unsigned storage, two to the power `bits - 1`
/// minus one for signed storage, and zero when there are no significant
/// bits at all.
pub open spec fn max_val(bits: u32, signed: bool) -> int {
    if bits == 0 {
        0
    } else if signed {
        pow2((bits - 1) as nat) - 1
    } else {
        pow2(bits as nat) - 1
    }
}

/// Concrete values of the powers of two at the storage-width boundaries.
pub proof fn lemma_pow2_extremes()
    ensures
        pow2(63) == 0x8000000000000000,
        pow2(64) == 0x10000000000000000,
        pow2(126) == 0x40000000000000000000000000000000,
        pow2(127) == 0x80000000000000000000000000000000,
        pow2(128) == 0x100000000000000000000000000000000,
{
    lemma2_to64();
    lemma2_to64_rest();
    lemma_pow2_adds(64, 62);
    lemma_pow2_adds(64, 63);
    lemma_pow2_adds(64, 64);
}

/// Powers of two are monotone in the exponent.
pub proof fn lemma_pow2_le(e0: nat, e1: nat)
    requires
        e0 <= e1,
    ensures
        pow2(e0) <= pow2(e1),
{
    if e0 < e1 {
        lemma_pow2_strictly_increases(e0, e1);
    }
}

/// Widening the field keeps every raw value representable: a wider field
/// has a minimum no larger and a maximum no smaller.
pub proof fn lemma_range_widens(b0: u32, b1: u32, signed: bool)
    requires
        b0 <= b1,
    ensures
        min_val(b1, signed) <= min_val(b0, signed),
        max_val(b0, signed) <= max_val(b1, signed),
{
    if b0 == 0 {
        if b1 > 0 {
            lemma_pow2_pos((b1 - 1) as nat);
            lemma_pow2_pos(b1 as nat);
        }
    } else {
        lemma_pow2_le((b0 - 1) as nat, (b1 - 1) as nat);
        lemma_pow2_le(b0 as nat, b1 as nat);
    }
}

/// A raw value inside the range of a field of at most 128 bits fits the
/// native 128-bit storage of the matching signedness.
pub proof fn lemma_fits_storage(bits: u32, signed: bool, a: int)
    requires
        bits <= 128,
        min_val(bits, signed) <= a <= max_val(bits, signed),
    ensures
        signed ==> i128::MIN <= a <= i128::MAX,
        !signed ==> 0 <= a <= u128::MAX,
{
    lemma_range_widens(bits, 128, signed);
    lemma_pow2_extremes();
}

/// Two to the power `n`, computed in unsigned 128-bit storage.
pub fn pow2_u128(n: u32) -> (r: u128)
    requires
        n < 128,
    ensures
        r == pow2(n as nat),
{
    proof {
        lemma2_to64();
    }
    let mut r: u128 = 1;
    let mut i: u32 = 0;
    while i < n
        invariant
            i <= n,
            n < 128,
            r == pow2(i as nat),
        decreases n - i,
    {
        proof {
            lemma_pow2_adds(i as nat, 1);
            lemma2_to64();
            if i + 1 < 128 {
                lemma_pow2_strictly_increases((i + 1) as nat, 128);
            }
            lemma_pow2_extremes();
        }
        r = r * 2;
        i = i + 1;
    }
    r
}

/// The smallest raw value of a `bits`-wide field, as a raw storage value
/// of the requested signedness.
pub fn raw_min(bits: u32, signed: bool) -> (r: Raw)
    requires
        bits <= 128,
    ensures
        r.is_signed() == signed,
        r.as_int() == min_val(bits, signed),
{
    if !signed {
        Raw::U(0)
    } else if bits == 0 {
        Raw::I(0)
    } else if bits == 128 {
        proof {
            lemma_pow2_extremes();
        }
        Raw::I(i128::MIN)
    } else {
        let m: u128 = pow2_u128(bits - 1);
        proof {
            lemma_pow2_strictly_increases((bits - 1) as nat, 127);
            lemma_pow2_extremes();
        }
        Raw::I(-(m as i128))
    }
}

/// The largest raw value of a `bits`-wide field, as a raw storage value
/// of the requested signedness.
pub fn raw_max(bits: u32, signed: bool) -> (r: Raw)
    requires
        bits <= 128,
    ensures
        r.is_signed() == signed,
        r.as_int() == max_val(bits, signed),
{
    if bits == 0 {
        if signed {
            Raw::I(0)
        } else {
            Raw::U(0)
        }
    } else if signed {
        let m: u128 = pow2_u128(bits - 1);
        proof {
            lemma_pow2_pos((bits - 1) as nat);
            if bits < 128 {
                lemma_pow2_strictly_increases((bits - 1) as nat, 127);
            }
            lemma_pow2_extremes();
        }
        Raw::I((m - 1) as i128)
    } else if bits == 128 {
        proof {
            lemma_pow2_extremes();
        }
        Raw::U(u128::MAX)
    } else {
        let m: u128 = pow2_u128(bits);
        proof {
            lemma_pow2_pos(bits as nat);
        }
        Raw::U(m - 1)
    }
}

/// Compares two raw values of the same storage signedness.
pub fn raw_lt(a: Raw, b: Raw) -> (r: bool)
    requires
        a.is_signed() == b.is_signed(),
    ensures
        r == (a.as_int() < b.as_int()),
{
    match (a, b) {
        (Raw::I(x), Raw::I(y)) => x < y,
        (Raw::U(x), Raw::U(y)) => x < y,
        (Raw::I(_), Raw::U(_)) => false,
        (Raw::U(_), Raw::I(_)) => false,
    }
}

/// The magnitude of a signed storage value, in the unsigned companion
/// storage of the same width.
pub fn i128_mag(x: i128) -> (m: u128)
    ensures
        m == abs(x as int),
{
    if x >= 0 {
        x as u128
    } else if x == i128::MIN {
        proof {
            lemma_pow2_extremes();
        }
        0x80000000000000000000000000000000u128
    } else {
        (-x) as u128
    }
}

/// Rebuilds a signed storage value from a sign and a magnitude.
pub fn i128_from_mag(neg: bool, m: u128) -> (r: i128)
    requires
        neg ==> m <= 0x80000000000000000000000000000000u128,
        !neg ==> m <= 0x7fffffffffffffffffffffffffffffffu128,
    ensures
        r as int == if neg {
            -(m as int)
        } else {
            m as int
        },
{
    if neg {
        if m == 0x80000000000000000000000000000000u128 {
            i128::MIN
        } else {
            -(m as i128)
        }
    } else {
        m as i128
    }
}

} // verus!
