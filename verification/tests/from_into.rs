use fp::Num;
use fp::Raw;
use fp::RangeError;

#[test]
fn good_conversions() {
    // A 6-bit signed value widens to 7 bits in a narrower storage.
    let a = Num::new(32, 6, 0, Raw::I(5)).unwrap().into_fp(16, 7, true);
    assert_eq!(a.raw(), Raw::I(5));
    assert_eq!(a.bits, 7);
    assert_eq!(a.width, 16);
    assert_eq!(a.shift, 0);

    // A full-width 8-bit signed integer moves into wider storage.
    let b = Num::from_fp(Num::from_i8(125), 32, 8, true);
    assert_eq!(b.raw(), Raw::I(125));
    assert_eq!(b.bits, 8);
    assert_eq!(b.width, 32);

    // A 16-bit unsigned value narrows its storage at equal bits.
    let c = Num::new(32, 16, 0, Raw::U(5)).unwrap().into_fp(16, 16, false);
    assert_eq!(c.raw(), Raw::U(5));
    assert_eq!(c.width, 16);
}

#[test]
fn unsigned_to_signed_needs_extra_bit() {
    // Promoting unsigned to signed with one extra bit keeps the raw value.
    let v = Num::new(32, 8, 0, Raw::U(255)).unwrap().into_fp(32, 9, true);
    assert_eq!(v.raw(), Raw::I(255));
    assert_eq!(v.bits, 9);
}

#[test]
fn signed_unsigned_conversions() {
    let u = Num::new(32, 8, 2, Raw::U(255)).unwrap();
    let s = u.into_signed();
    assert_eq!(s.raw(), Raw::I(255));
    assert_eq!(s.bits, 9);
    let back = s.into_unsigned().unwrap();
    assert_eq!(back.raw(), Raw::U(255));
    assert_eq!(back.bits, 8);

    let neg = Num::new(32, 9, 2, Raw::I(-1)).unwrap();
    assert!(neg.into_unsigned().is_none());
    let z = Num::new(32, 1, 0, Raw::I(0)).unwrap();
    assert_eq!(z.into_unsigned().unwrap().raw(), Raw::U(0));
    assert_eq!(z.into_unsigned_unchecked().bits, 0);
}

#[test]
fn checked_construction_range() {
    // A 4-bit unsigned type's maximum is 15; raw 16 is one too many.
    assert_eq!(Num::max_value(8, 4, 0, false).raw(), Raw::U(15));
    let too_large = Num::new(8, 4, 0, Raw::U(16));
    assert!(matches!(too_large, Err(RangeError::TooLarge)));
    let ok = Num::new(8, 4, 0, Raw::U(15)).unwrap();
    assert_eq!(ok.raw(), Raw::U(15));

    // A 4-bit signed type spans [-8, 7].
    assert!(matches!(Num::new(8, 4, 0, Raw::I(-9)), Err(RangeError::TooSmall)));
    assert!(matches!(Num::new(8, 4, 0, Raw::I(8)), Err(RangeError::TooLarge)));
    assert_eq!(Num::new(8, 4, 0, Raw::I(-8)).unwrap().raw(), Raw::I(-8));
}

#[test]
fn min_zero_max_all_dims() {
    // MIN <= ZERO <= MAX for every signedness, including the extremes.
    let cases: Vec<(u32, u32)> = vec![(8, 0), (8, 1), (8, 8), (32, 17), (64, 64), (128, 0), (128, 127), (128, 128)];
    for (width, bits) in cases {
        for signed in [false, true] {
            let lo = Num::min_value(width, bits, 3, signed);
            let zero = Num::zero(width, bits, 3, signed);
            let hi = Num::max_value(width, bits, 3, signed);
            assert!(raw_le(lo.raw(), zero.raw()));
            assert!(raw_le(zero.raw(), hi.raw()));
            if bits == 0 {
                assert_eq!(lo.raw(), zero.raw());
                assert_eq!(hi.raw(), zero.raw());
            }
        }
    }
    // Full-width extremes match the native storage extremes.
    assert_eq!(Num::max_value(128, 128, 0, false).raw(), Raw::U(u128::MAX));
    assert_eq!(Num::min_value(128, 128, 0, true).raw(), Raw::I(i128::MIN));
    assert_eq!(Num::max_value(128, 128, 0, true).raw(), Raw::I(i128::MAX));
    assert_eq!(Num::min_value(8, 8, 0, true).raw(), Raw::I(-128));
    assert_eq!(Num::max_value(8, 8, 0, false).raw(), Raw::U(255));
}

#[test]
fn set_bits_checked() {
    let v = Num::new(32, 12, 2, Raw::I(100)).unwrap();
    let narrowed = v.set_bits(8).unwrap();
    assert_eq!(narrowed.raw(), Raw::I(100));
    assert_eq!(narrowed.bits, 8);
    assert_eq!(narrowed.shift, 2);
    // 100 does not fit 7 signed bits ([-64, 63]).
    assert!(matches!(v.set_bits(7), Err(RangeError::TooLarge)));
    let w = Num::new(32, 12, 2, Raw::I(-100)).unwrap();
    assert!(matches!(w.set_bits(7), Err(RangeError::TooSmall)));
    assert_eq!(v.set_bits_unchecked(8).raw(), Raw::I(100));
}

#[test]
fn add_bits_widens() {
    let v = Num::new(16, 5, -3, Raw::U(31)).unwrap();
    let w = v.add_bits(9);
    assert_eq!(w.raw(), Raw::U(31));
    assert_eq!(w.bits, 9);
    assert_eq!(w.shift, -3);
}

#[test]
fn saturate_clamps_and_preserves() {
    // In range: pure reinterpretation, raw unchanged.
    let v = Num::new(32, 12, 0, Raw::I(100)).unwrap();
    assert_eq!(v.saturate(8).raw(), Raw::I(100));
    // Too large: clamps to the destination maximum.
    assert_eq!(v.saturate(7).raw(), Raw::I(63));
    // Too small: clamps to the destination minimum.
    let w = Num::new(32, 12, 0, Raw::I(-100)).unwrap();
    assert_eq!(w.saturate(7).raw(), Raw::I(-64));
    // Unsigned clamping.
    let u = Num::new(32, 12, 0, Raw::U(300)).unwrap();
    assert_eq!(u.saturate(8).raw(), Raw::U(255));
    assert_eq!(u.saturate(0).raw(), Raw::U(0));
}

fn raw_le(a: Raw, b: Raw) -> bool {
    match (a, b) {
        (Raw::I(x), Raw::I(y)) => x <= y,
        (Raw::U(x), Raw::U(y)) => x <= y,
        _ => false,
    }
}
