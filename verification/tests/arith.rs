use fp::Num;
use fp::Raw;

#[test]
fn add_sums_raw_values() {
    let a = Num::new(32, 10, 4, Raw::I(511)).unwrap();
    let b = Num::new(32, 8, 4, Raw::I(-128)).unwrap();
    let s = a.add(b, 11);
    assert_eq!(s.raw(), Raw::I(383));
    assert_eq!(s.bits, 11);
    assert_eq!(s.shift, 4);

    // The extremes of both operands stay inside the headroom.
    let lo = Num::min_value(32, 10, 4, true);
    let lo2 = Num::min_value(32, 10, 4, true);
    let s2 = lo.add(lo2, 11);
    assert_eq!(s2.raw(), Raw::I(-1024));

    let u = Num::max_value(16, 8, 0, false);
    let w = Num::max_value(16, 8, 0, false);
    let s3 = u.add(w, 9);
    assert_eq!(s3.raw(), Raw::U(510));
}

#[test]
fn sub_promotes_to_signed() {
    // An unsigned difference may cross zero: the result is signed.
    let a = Num::new(32, 8, 0, Raw::U(5)).unwrap();
    let b = Num::new(32, 8, 0, Raw::U(250)).unwrap();
    let d = a.sub(b, 9);
    assert_eq!(d.raw(), Raw::I(-245));
    assert_eq!(d.bits, 9);

    let x = Num::new(64, 20, 7, Raw::I(-1234)).unwrap();
    let y = Num::new(64, 20, 7, Raw::I(4321)).unwrap();
    assert_eq!(x.sub(y, 21).raw(), Raw::I(-5555));
}

#[test]
fn logical_shifts_keep_raw() {
    let v = Num::new(32, 10, 5, Raw::I(-100)).unwrap();
    let l = v.logical_shl(3, 10);
    assert_eq!(l.raw(), Raw::I(-100));
    assert_eq!(l.shift, 2);
    let r = v.logical_shr(3, 12);
    assert_eq!(r.raw(), Raw::I(-100));
    assert_eq!(r.shift, 8);
    assert_eq!(r.bits, 12);
}

#[test]
fn raw_shl_scales_raw() {
    let v = Num::new(32, 10, 5, Raw::I(-100)).unwrap();
    let l = v.raw_shl(4, 14);
    assert_eq!(l.raw(), Raw::I(-1600));
    assert_eq!(l.bits, 14);
    assert_eq!(l.shift, 9);

    let u = Num::new(128, 100, 0, Raw::U(1)).unwrap();
    let big = u.raw_shl(27, 127);
    assert_eq!(big.raw(), Raw::U(1u128 << 27));
}

#[test]
fn zero_bit_boundaries() {
    // A zero-bit value only ever holds raw zero and combines cleanly.
    let z = Num::zero(8, 0, 3, true);
    let o = Num::new(8, 4, 3, Raw::I(5)).unwrap();
    assert_eq!(z.add(o, 5).raw(), Raw::I(5));
    assert_eq!(o.sub(z, 5).raw(), Raw::I(5));
    let p = z.mul(o);
    assert_eq!(p.raw(), Raw::I(0));
    assert_eq!(p.bits, 4);
    let u = Num::zero(8, 0, 0, false);
    assert_eq!(u.raw_shl(8, 8).raw(), Raw::U(0));
    let w = Num::new(8, 4, 0, Raw::U(15)).unwrap();
    let narrowed = w.raw_shr(4, 0);
    assert_eq!(narrowed.raw(), Raw::U(0));
    assert_eq!(narrowed.bits, 0);
}

#[test]
fn full_width_boundaries() {
    // Operands one bit under the widest storage sum into its full width.
    let top = Num::max_value(128, 127, 0, true);
    let bottom = Num::min_value(128, 127, 0, true);
    assert_eq!(top.add(bottom, 128).raw(), Raw::I(-1));
    let c = Num::max_value(128, 127, 0, false);
    assert_eq!(c.add(c, 128).raw(), Raw::U(u128::MAX - 1));
    assert_eq!(bottom.sub(top, 128).raw(), Raw::I(i128::MIN + 1));

    // Full-width division, and the minimum divided by minus one.
    let all = Num::max_value(128, 128, 0, false);
    let one = Num::new(128, 1, 0, Raw::U(1)).unwrap();
    let q = all.div(one);
    assert_eq!(q.raw(), Raw::U(u128::MAX));
    assert_eq!(q.bits, 128);
    let neg_one = Num::new(128, 1, 0, Raw::I(-1)).unwrap();
    let flipped = bottom.div(neg_one);
    assert_eq!(flipped.raw(), Raw::I(1i128 << 126));
    assert_eq!(flipped.bits, 128);
}

#[test]
fn raw_shr_rounds_like_arithmetic_shift() {
    // A raw right shift truncates low bits, rounding toward minus
    // infinity exactly as an arithmetic shift does.
    let v = Num::new(32, 10, 5, Raw::I(-101)).unwrap();
    let r = v.raw_shr(2, 8);
    assert_eq!(r.raw(), Raw::I(-101i128 >> 2));
    assert_eq!(r.raw(), Raw::I(-26));
    assert_eq!(r.shift, 3);
    assert_eq!(r.bits, 8);

    let u = Num::new(32, 10, 5, Raw::U(1023)).unwrap();
    assert_eq!(u.raw_shr(4, 6).raw(), Raw::U(63));

    let w = Num::new(32, 10, 5, Raw::I(101)).unwrap();
    assert_eq!(w.raw_shr(2, 8).raw(), Raw::I(25));
}
