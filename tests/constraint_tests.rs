use mini_stark::constraint::{Column, Constraint, Element, Term, Variables};
use mini_stark::field::BaseFelt;
use mini_stark::helper::{are_eq, is_binary, is_one, is_zero};
use mini_stark::u256::U256;

fn felt(v: u32) -> BaseFelt {
    BaseFelt::new(U256::from(v))
}

fn same(a: &Constraint, b: &Constraint) -> bool {
    format!("{:?}", a) == format!("{:?}", b)
}

#[test]
fn addition_commutes() {
    let x = 0usize.curr();
    let y = 1usize.next().mul_scalar(felt(3)).add_scalar(felt(5));
    assert!(same(&x.add(&y), &y.add(&x)));
    assert_eq!(x.add(&y).0.len(), 3);
}

#[test]
fn addition_associates() {
    let x = 0usize.curr();
    let y = 1usize.curr().mul_scalar(felt(2));
    let z = x.mul(&y).add_scalar(felt(7));
    let left = x.add(&y).add(&z);
    let right = x.add(&y.add(&z));
    assert!(same(&left, &right));
}

#[test]
fn adding_zero_and_multiplying_by_one() {
    let x = 0usize.curr().mul(&1usize.next()).add_scalar(felt(4));
    assert!(same(&x.add(&Constraint::zero()), &x));
    let one = Constraint::constant(BaseFelt::one());
    assert!(same(&x.mul(&one), &x));
}

#[test]
fn terms_cancel() {
    let x = 0usize.curr();
    assert!(x.sub(&x).is_zero());
    assert!(are_eq(&x, &x).is_zero());
    assert!(x.add(&x.neg()).is_zero());
    assert!(x.mul_scalar(BaseFelt::zero()).is_zero());
}

#[test]
fn degree_of_products() {
    let x = 0usize.curr();
    let y = 1usize.curr();
    assert_eq!(Constraint::zero().degree(), 0);
    assert_eq!(x.degree(), 1);
    let xy = x.mul(&y);
    assert_eq!(xy.degree(), 2);
    let cubic = xy.mul(&x.add(&y).add_scalar(felt(1)));
    assert_eq!(cubic.degree(), 3);
    assert_eq!(cubic.degree(), xy.degree() + x.degree());
    assert!(x.mul(&Constraint::zero()).is_zero());
}

#[test]
fn squares_merge_exponents() {
    let x = 2usize.next();
    let sq = x.mul(&x);
    assert_eq!(sq.0.len(), 1);
    assert_eq!((sq.0[0].1).0, vec![(Element::Next(2), 2usize)]);
}

#[test]
fn binary_vanishes_on_zero_and_one() {
    let x = 0usize.curr();
    let b = is_binary(&x);
    let none: Vec<BaseFelt> = vec![];
    assert!(b.evaluate(&vec![felt(0)], &none).is_zero());
    assert!(b.evaluate(&vec![felt(1)], &none).is_zero());
    assert_eq!(b.evaluate(&vec![felt(2)], &none).as_integer(), U256::from(2u32));
    assert_eq!(b.evaluate(&vec![felt(5)], &none).as_integer(), U256::from(20u32));
}

#[test]
fn helpers_vanish_on_their_condition() {
    let x = 0usize.curr();
    let y = 0usize.next();
    let curr = vec![felt(1)];
    let next = vec![felt(1)];
    assert!(is_one(&x).evaluate(&curr, &next).is_zero());
    assert!(are_eq(&x, &y).evaluate(&curr, &next).is_zero());
    assert!(!is_zero(&x).evaluate(&curr, &next).is_zero());
    assert!(!are_eq(&x, &y).evaluate(&curr, &vec![felt(3)]).is_zero());
}

#[test]
fn evaluates_on_rows() {
    // 3 * x0^2 * x1' + 5
    let x = 0usize.curr();
    let y = 1usize.next();
    let c = x.mul(&x).mul(&y).mul_scalar(felt(3)).add_scalar(felt(5));
    let v = c.evaluate(&vec![felt(2), felt(100)], &vec![felt(100), felt(7)]);
    assert_eq!(v.as_integer(), U256::from(89u32));
}

#[test]
fn variables_are_normalised() {
    let v = Variables::new(vec![
        (Element::Next(1), 2),
        (Element::Curr(3), 0),
        (Element::Curr(0), 1),
        (Element::Next(1), 1),
        (Element::Curr(0), 4),
    ]);
    assert_eq!(v.0, vec![(Element::Curr(0), 5), (Element::Next(1), 3)]);
    assert_eq!(v.degree(), 8);
}

#[test]
fn variables_order_by_degree_then_lower_column() {
    let x0 = Variables::single(Element::Curr(0));
    let x1 = Variables::single(Element::Curr(1));
    let x0sq = x0.mul(&x0);
    assert_eq!(x1.compare(&x0), std::cmp::Ordering::Less);
    assert_eq!(x0.compare(&x0sq), std::cmp::Ordering::Less);
    assert_eq!(x0.compare(&x0.copy()), std::cmp::Ordering::Equal);
    let x0x1 = x0.mul(&x1);
    assert_eq!(x0x1.compare(&x0sq), std::cmp::Ordering::Less);
}

#[test]
fn new_sorts_merges_and_drops_zeros() {
    let terms = vec![
        Term(felt(2), Variables::single(Element::Curr(1))),
        Term(felt(4), Variables::empty()),
        Term(felt(3), Variables::single(Element::Curr(1))),
        Term(felt(1), Variables::single(Element::Curr(0))),
        Term(felt(1), Variables::single(Element::Curr(0)).mul(&Variables::single(Element::Curr(0)))),
        Term(BaseFelt::zero(), Variables::single(Element::Next(0))),
    ];
    let c = Constraint::new(terms);
    assert_eq!(c.0.len(), 4);
    assert_eq!(c.0[0].0, felt(4));
    assert_eq!((c.0[1].1).0, vec![(Element::Curr(1), 1)]);
    assert_eq!(c.0[1].0, felt(5));
    assert_eq!((c.0[2].1).0, vec![(Element::Curr(0), 1)]);
    assert_eq!(c.degree(), 2);
}

#[test]
fn scalar_subtraction_is_a_constant_term() {
    let x = 0usize.curr();
    let c = x.sub_scalar(felt(3));
    assert_eq!(c.evaluate(&vec![felt(3)], &vec![]).as_integer(), U256::zero());
    assert_eq!(c.evaluate(&vec![felt(10)], &vec![]).as_integer(), U256::from(7u32));
    assert!(same(&is_zero(&c), &c));
}

#[test]
fn evaluation_respects_the_algebra() {
    let x = 0usize.curr();
    let y = 1usize.next();
    let a = x.mul(&y).add_scalar(felt(3));
    let b = y.mul(&y).sub(&x);
    let curr = vec![felt(4), felt(0)];
    let next = vec![felt(0), felt(6)];
    let va = a.evaluate(&curr, &next);
    let vb = b.evaluate(&curr, &next);
    assert_eq!(va.as_integer(), U256::from(27u32));
    assert_eq!(vb.as_integer(), U256::from(32u32));
    assert_eq!(a.add(&b).evaluate(&curr, &next), va.add(vb));
    assert_eq!(a.mul(&b).evaluate(&curr, &next), va.mul(vb));
    assert_eq!(a.sub(&b).evaluate(&curr, &next), va.sub(vb));
    assert_eq!(a.neg().evaluate(&curr, &next), va.neg());
}

#[test]
fn term_degree_is_its_monomial_degree() {
    let v = Variables::new(vec![(Element::Curr(0), 2), (Element::Next(3), 1)]);
    let t = Term::new(felt(9), v);
    assert_eq!(t.degree(), 3);
    assert_eq!(t.0, felt(9));
}
