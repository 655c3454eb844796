use fp::Num;
use fp::Raw;

fn raw_le(a: Raw, b: Raw) -> bool {
    match (a, b) {
        (Raw::I(x), Raw::I(y)) => x <= y,
        (Raw::U(x), Raw::U(y)) => x <= y,
        _ => false,
    }
}

fn validate_mul(a_dims: (u32, u32, bool), b_dims: (u32, u32, bool), c_dims: (u32, u32, bool)) {
    let (aw, ab, asg) = a_dims;
    let (bw, bb, bsg) = b_dims;
    let (cw, cb, csg) = c_dims;
    let a_ends = [Num::min_value(aw, ab, 0, asg), Num::max_value(aw, ab, 0, asg)];
    let b_ends = [Num::min_value(bw, bb, 0, bsg), Num::max_value(bw, bb, 0, bsg)];
    let c_min = Num::min_value(cw, cb, 0, csg);
    let c_max = Num::max_value(cw, cb, 0, csg);
    for a in a_ends {
        for b in b_ends {
            let p = a.mul(b);
            assert_eq!(p.bits, cb);
            assert!(raw_le(c_min.raw(), p.raw()));
            assert!(raw_le(p.raw(), c_max.raw()));
        }
    }
}

#[test]
fn mul_limits() {
    validate_mul((32, 4, true), (32, 5, true), (32, 9, true));
    validate_mul((32, 4, true), (32, 5, false), (32, 9, true));
    validate_mul((32, 4, false), (32, 5, true), (32, 9, true));
    validate_mul((32, 4, false), (32, 5, false), (32, 9, false));
}

#[test]
fn mul_exact_products() {
    // The raw result is exactly the product of the raw operands.
    let a = Num::new(32, 11, 2, Raw::I(-1000)).unwrap();
    let b = Num::new(32, 11, 3, Raw::I(1023)).unwrap();
    let p = a.mul(b);
    assert_eq!(p.raw(), Raw::I(-1000 * 1023));
    assert_eq!(p.bits, 22);
    assert_eq!(p.shift, 5);

    let c = Num::new(64, 30, -4, Raw::U(999_999_937)).unwrap();
    let d = Num::new(64, 30, 10, Raw::U(999_999_893)).unwrap();
    let q = c.mul(d);
    assert_eq!(q.raw(), Raw::U(999_999_937u128 * 999_999_893u128));
    assert_eq!(q.bits, 60);
    assert_eq!(q.shift, 6);

    // Full-width corner: the most negative operands multiply exactly.
    let e = Num::min_value(128, 64, 0, true);
    let f = Num::min_value(128, 64, 0, true);
    let g = e.mul(f);
    assert_eq!(g.raw(), Raw::I(1i128 << 126));
    assert_eq!(g.bits, 128);
}

#[test]
fn mul_mixed_sign_is_signed() {
    let a = Num::new(32, 8, 0, Raw::U(255)).unwrap();
    let b = Num::new(32, 8, 0, Raw::I(-128)).unwrap();
    let p = a.mul(b);
    assert_eq!(p.raw(), Raw::I(-32640));
    assert_eq!(p.bits, 16);
}

#[test]
fn div_truncates_toward_zero() {
    // Quotients truncate toward zero on every sign combination, exactly
    // as native integer division does.
    let seven = Num::new(32, 4, 0, Raw::I(7)).unwrap();
    let neg_seven = Num::new(32, 4, 0, Raw::I(-7)).unwrap();
    let two = Num::new(32, 3, 0, Raw::I(2)).unwrap();
    let neg_two = Num::new(32, 3, 0, Raw::I(-2)).unwrap();
    assert_eq!(seven.div(two).raw(), Raw::I(7i128 / 2));
    assert_eq!(neg_seven.div(two).raw(), Raw::I(-7i128 / 2));
    assert_eq!(seven.div(neg_two).raw(), Raw::I(7i128 / -2));
    assert_eq!(neg_seven.div(neg_two).raw(), Raw::I(-7i128 / -2));
    assert_eq!(neg_seven.div(two).raw(), Raw::I(-3));

    let u = Num::new(32, 6, 0, Raw::U(63)).unwrap();
    let four = Num::new(32, 4, 0, Raw::U(4)).unwrap();
    let q = u.div(four);
    assert_eq!(q.raw(), Raw::U(15));
    assert_eq!(q.bits, 6);
}

#[test]
fn div_dimensions() {
    // A signed divisor grants one extra bit: the minimum divided by
    // minus one needs it.
    let min = Num::min_value(32, 8, 4, true);
    let neg_one = Num::new(32, 2, 1, Raw::I(-1)).unwrap();
    let q = min.div(neg_one);
    assert_eq!(q.raw(), Raw::I(128));
    assert_eq!(q.bits, 9);
    assert_eq!(q.shift, 3);

    // An unsigned divisor adds no bit; the result keeps the dividend's
    // signedness family.
    let v = Num::new(32, 8, 4, Raw::I(-100)).unwrap();
    let three = Num::new(32, 3, 2, Raw::U(3)).unwrap();
    let r = v.div(three);
    assert_eq!(r.bits, 8);
    assert_eq!(r.shift, 2);
    assert_eq!(r.raw(), Raw::I(-33));

    // Unsigned divided by signed is signed with the extra bit.
    let w = Num::new(32, 8, 0, Raw::U(255)).unwrap();
    let s = w.div(neg_one);
    assert_eq!(s.bits, 9);
    assert_eq!(s.raw(), Raw::I(-255));
}
