use mini_stark::field::modulus_u256;
use mini_stark::u256::U256;

#[test]
fn u256_adds() {
    let a = U256 { high: 0, low: 10 };
    let b = U256 { high: 0, low: 10 };

    assert_eq!(a.add(b), U256::from(20u32));
}

#[test]
fn u256_overflowing_add() {
    let a = U256 {
        high: u128::MAX,
        low: u128::MAX,
    };
    let b = U256 { high: 1, low: 10 };

    assert_eq!(a.add(b), U256 { high: 1, low: 9 });
}

#[test]
fn u256_overflowing_mul() {
    assert_eq!(
        U256::zero().sub(modulus_u256()),
        U256 {
            high: 0,
            low: 0x1000003d1
        }
    );
}

#[test]
fn u256_displays_correctly() {
    assert_eq!(
        modulus_u256().to_decimal_string(),
        "115792089237316195423570985008687907853269984665640564039457584007908834671663"
    );
}

#[test]
fn u256_sub() {
    assert_eq!(U256::zero().sub(U256::one()), U256::max_value());
}

#[test]
fn overflowing_add() {
    let a = U256::max_value();
    let b = U256::one();
    assert_eq!(a.overflowing_add(b), (U256::zero(), true));
}

#[test]
fn u128_overflowing_add() {
    let a = U256 {
        high: 0,
        low: u128::MAX,
    };
    let b = U256::one();
    assert_eq!(a.overflowing_add(b), (U256 { high: 1, low: 0 }, false));
}

#[test]
fn u128_multiply() {
    let a = U256 {
        high: 0,
        low: u128::MAX,
    };
    assert_eq!(
        a.mul(a),
        U256 {
            high: 0xfffffffffffffffffffffffffffffffe,
            low: 0x00000000000000000000000000000001
        }
    );
}

#[test]
fn add_zero_keeps_value() {
    let a = U256 { high: 123, low: 456 };
    assert_eq!(a.add(U256::zero()), a);
}

#[test]
fn sub_self_is_zero() {
    let a = U256 { high: 0xdead, low: 0xbeef };
    assert!(a.sub(a).is_zero());
}

#[test]
fn add_then_sub_wraps_back() {
    let a = U256::max_value();
    let b = U256 { high: 7, low: 9 };
    assert_eq!(a.add(b).sub(b), a);
}

#[test]
fn shifts_by_zero_and_by_width() {
    let a = U256 { high: 3, low: 5 };
    assert_eq!(a.shl(U256::zero()), a);
    assert_eq!(a.shr(U256::zero()), a);
    assert_eq!(a.shl(U256::from(256u32)), U256::zero());
    assert_eq!(a.shr(U256::from(300u32)), U256::zero());
}

#[test]
fn shifts_across_limbs() {
    let one = U256::one();
    assert_eq!(one.shl(U256::from(128u32)), U256 { high: 1, low: 0 });
    assert_eq!(one.shl(U256::from(255u32)), U256 { high: 1u128 << 127, low: 0 });
    let a = U256 { high: 1, low: 0 };
    assert_eq!(a.shr(U256::from(1u32)), U256 { high: 0, low: 1u128 << 127 });
    assert_eq!(a.shr(U256::from(128u32)), one);
    let b = U256 { high: 0, low: 0xff };
    assert_eq!(b.shl(U256::from(124u32)), U256 { high: 0xf, low: 0xf << 124 });
}

#[test]
fn bit_and_is_limb_wise() {
    let a = U256 { high: 0b1100, low: 0b1010 };
    let b = U256 { high: 0b1010, low: 0b0110 };
    assert_eq!(a.bit_and(b), U256 { high: 0b1000, low: 0b0010 });
    assert!(U256 { high: 4, low: 7 }.is_odd());
}

#[test]
fn comparisons_need_both_limbs() {
    let a = U256 { high: 1, low: 5 };
    let b = U256 { high: 1, low: 6 };
    let c = U256 { high: 2, low: 5 };
    assert!(!a.eq(b));
    assert!(!a.eq(c));
    assert!(a.eq(a));
    assert!(a.lt(b) && b.lt(c) && c.gt(a));
}

#[test]
fn divides_with_small_divisor() {
    let (q, r) = U256::from(100u32).div_rem(U256::from(7u32));
    assert_eq!((q, r), (U256::from(14u32), U256::from(2u32)));
    let (q, r) = U256::from(3u32).div_rem(U256::from(7u32));
    assert_eq!((q, r), (U256::zero(), U256::from(3u32)));
}

#[test]
fn divides_with_large_divisor() {
    let a = U256 { high: 5, low: 7 };
    let d = U256 { high: 1, low: 3 };
    let (q, r) = a.div_rem(d);
    assert_eq!(q, U256::from(4u32));
    assert_eq!(r, U256 { high: 0, low: 0xfffffffffffffffffffffffffffffffb });
    assert_eq!(d.mul(q).add(r), a);
    assert!(r.lt(d));
}

#[test]
fn divides_the_largest_value() {
    let a = U256::max_value();
    let d = U256 { high: u128::MAX, low: 0 };
    let (q, r) = a.div_rem(d);
    assert_eq!(q, U256::one());
    assert_eq!(r, U256 { high: 0, low: u128::MAX });
}

#[test]
fn decimal_of_small_values() {
    assert_eq!(U256::zero().to_decimal_string(), "0");
    assert_eq!(U256::from(1234567890u64).to_decimal_string(), "1234567890");
}

#[test]
fn full_product_of_two_values() {
    let a = U256::max_value();
    let (lo, hi) = mini_stark::u256::widening_mul(a, a);
    assert_eq!(lo, U256::one());
    assert_eq!(hi, U256 { high: u128::MAX, low: u128::MAX - 1 });
}
