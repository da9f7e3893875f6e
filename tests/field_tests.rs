use mini_stark::field::{batch_inverse, modulus_u256, BaseFelt};
use mini_stark::u256::U256;

fn felt(v: u32) -> BaseFelt {
    BaseFelt::new(U256::from(v))
}

#[test]
fn adds_small_numbers() {
    let a = BaseFelt::new(U256::from(5u32));
    assert_eq!(a.add(a).as_integer(), U256::from(10u32));
}

#[test]
fn adds_large_numbers() {
    let n = modulus_u256();
    let a = BaseFelt::new(n.sub(U256::from(1u32)));
    assert_eq!(a.add(a).as_integer(), n.sub(U256::from(2u32)));
}

#[test]
fn test_batch_inverses() {
    let values = vec![
        BaseFelt::new(U256::from(1u32)),
        BaseFelt::new(U256::from(2u32)),
        BaseFelt::new(U256::from(3u32)),
    ];

    let batch_inversed = batch_inverse(&values);

    assert_eq!(
        batch_inversed[0].unwrap().as_integer(),
        values[0].inverse().unwrap().as_integer()
    );
    assert_eq!(
        batch_inversed[1].unwrap().as_integer(),
        values[1].inverse().unwrap().as_integer()
    );
    assert_eq!(
        batch_inversed[2].unwrap().as_integer(),
        values[2].inverse().unwrap().as_integer()
    );
}

#[test]
fn multiplication_multiplies_large_numbers() {
    // Large compared to u128::MAX
    let a = BaseFelt::new(modulus_u256().sub(U256::from(2u32)));

    assert_eq!(a.mul(a).as_integer(), U256::from(4u32));
}

#[test]
fn multiplication_multiplies_odd_numbers() {
    // Large compared to u128::MAX
    let a = BaseFelt::new(modulus_u256().sub(U256::from(1u32)));
    let b = BaseFelt::new(modulus_u256().sub(U256::from(2u32)));

    assert_eq!(a.mul(b).as_integer(), U256::from(2u32));
}

#[test]
fn subtraction_subtracts() {
    let a = BaseFelt::new(U256::from(1u32));
    let b = BaseFelt::new(U256::from(2u32));

    assert_eq!(a.sub(b).as_integer(), modulus_u256().sub(U256::from(1u32)));
}

#[test]
fn division_divides() {
    let two = BaseFelt::new(U256::from(2u32));

    assert_eq!(two.div(two).as_integer(), U256::from(1u32));
}

#[test]
fn converts_to_montgomery_form() {
    println!("{:?}", BaseFelt::new(U256 { high: 1, low: 2 }));
    println!("{:?}", BaseFelt::new(U256 { high: 0, low: 4 }));
    assert_eq!(
        BaseFelt::new(U256 { high: 0, low: 2 }).as_integer(),
        U256::from(2u32)
    );
}

#[test]
fn new_reduces_modulo_the_modulus() {
    let n = modulus_u256();
    assert!(BaseFelt::new(n).is_zero());
    assert_eq!(BaseFelt::new(n.add(U256::from(5u32))).as_integer(), U256::from(5u32));
    assert_eq!(BaseFelt::new(U256 { high: 1, low: 2 }).as_integer(), U256 { high: 1, low: 2 });
}

#[test]
fn element_times_inverse_is_one() {
    for v in [1u32, 2, 3, 7, 1000, 65537] {
        let a = felt(v);
        let inv = a.inverse().unwrap();
        assert!(a.mul(inv).is_one());
    }
    let big = BaseFelt::new(modulus_u256().sub(U256::from(12345u32)));
    assert!(big.mul(big.inverse().unwrap()).is_one());
}

#[test]
fn inverse_of_three() {
    let inv = felt(3).inverse().unwrap();
    assert_eq!(
        inv.as_integer().to_decimal_string(),
        "77194726158210796949047323339125271902179989777093709359638389338605889781109"
    );
}

#[test]
fn zero_has_no_inverse() {
    assert!(BaseFelt::zero().inverse().is_none());
    let mut z = BaseFelt::zero();
    assert!(!z.inverse_in_place());
    assert!(z.is_zero());
    let mut t = felt(2);
    assert!(t.inverse_in_place());
    assert!(t.mul(felt(2)).is_one());
}

#[test]
fn element_plus_negation_is_zero() {
    for v in [0u32, 1, 2, 99] {
        let a = felt(v);
        assert!(a.add(a.neg()).is_zero());
    }
    assert!(BaseFelt::zero().neg().is_zero());
    assert_eq!(felt(1).neg().as_integer(), modulus_u256().sub(U256::one()));
}

#[test]
fn double_is_sum() {
    let n = modulus_u256();
    for a in [felt(0), felt(21), BaseFelt::new(n.sub(U256::one())), BaseFelt::new(n.shr(U256::one()))] {
        assert_eq!(a.double(), a.add(a));
    }
    assert_eq!(felt(21).double().as_integer(), U256::from(42u32));
}

#[test]
fn integer_round_trip() {
    let v = U256 { high: 0xabc, low: 0xdef };
    assert_eq!(BaseFelt::new(v).as_integer(), v);
    let top = modulus_u256().sub(U256::one());
    assert_eq!(BaseFelt::new(top).as_integer(), top);
}

#[test]
fn powers_multiply() {
    let a = felt(2);
    assert_eq!(a.pow(U256::from(10u32)).as_integer(), U256::from(1024u32));
    assert!(a.pow(U256::zero()).is_one());
    assert!(BaseFelt::zero().pow(U256::from(5u32)).is_zero());
    let b = felt(12345);
    let p = U256::from(77u32);
    let q = U256::from(1000u32);
    assert_eq!(b.pow(p).mul(b.pow(q)), b.pow(p.add(q)));
}

#[test]
fn fermat_little_theorem() {
    let exponent = modulus_u256().sub(U256::one());
    for v in [1u32, 2, 3, 5, 123456789] {
        assert!(felt(v).pow(exponent).is_one());
    }
    let big = BaseFelt::new(modulus_u256().sub(U256::from(2u32)));
    assert!(big.pow(exponent).is_one());
}

#[test]
fn batch_inverse_skips_zero() {
    let values = vec![felt(4), BaseFelt::zero(), felt(9)];
    let inverses = batch_inverse(&values);
    assert_eq!(inverses.len(), 3);
    assert_eq!(inverses[0], values[0].inverse());
    assert_eq!(inverses[1], None);
    assert_eq!(inverses[2], values[2].inverse());
    assert!(inverses[2].unwrap().mul(felt(9)).is_one());
}

#[test]
fn division_by_element() {
    let a = felt(10);
    let b = felt(4);
    let q = a.div(b);
    assert_eq!(q.mul(b), a);
}

#[test]
fn square_of_element() {
    assert_eq!(felt(12).square().as_integer(), U256::from(144u32));
}
