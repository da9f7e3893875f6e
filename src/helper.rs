//! Constraints that vanish exactly when a condition holds: the vocabulary
//! in which transition constraints are written.

use crate::constraint::{
    coeff, lemma_poly_value_bound, max_degree, poly_value, product_coeff, Constraint, Element,
};
use crate::field::{lemma_binary_values, lemma_constants, modulus, modulus_is_prime, BaseFelt};
use vstd::prelude::*;

verus! {

/// Zero exactly when `a == b`: the difference.
pub fn are_eq(a: &Constraint, b: &Constraint) -> (r: Constraint)
    requires
        a.wf(),
        b.wf(),
    ensures
        r.wf(),
        forall|k: Seq<(Element, usize)>|
            #[trigger] coeff(r@, k) == (coeff(a@, k) + modulus() - coeff(b@, k)) % (modulus() as int),
        forall|curr: Seq<BaseFelt>, next: Seq<BaseFelt>|
            (#[trigger] poly_value(r@, curr, next) == 0) == (poly_value(a@, curr, next) == poly_value(b@, curr, next)),
{
    let r = a.sub(b);
    proof {
        lemma_constants();
        assert forall|curr: Seq<BaseFelt>, next: Seq<BaseFelt>|
            (#[trigger] poly_value(r@, curr, next) == 0) == (poly_value(a@, curr, next) == poly_value(b@, curr, next)) by {
            lemma_poly_value_bound(a@, curr, next);
            lemma_poly_value_bound(b@, curr, next);
            lemma_vanishes_when_equal(poly_value(a@, curr, next) as int, poly_value(b@, curr, next) as int);
        }
    }
    r
}

/// `x + N - y` is a multiple of `N` exactly when `x == y`, for `x`, `y` below
/// `N`.
proof fn lemma_vanishes_when_equal(x: int, y: int)
    requires
        0 <= x < modulus(),
        0 <= y < modulus(),
    ensures
        ((x + modulus() - y) % (modulus() as int) == 0) == (x == y),
{
    let p = modulus() as int;
    lemma_constants();
    if x == y {
        vstd::arithmetic::div_mod::lemma_mod_self_0(p);
    } else if x > y {
        vstd::arithmetic::div_mod::lemma_mod_multiples_vanish(1, x - y, p);
        vstd::arithmetic::div_mod::lemma_small_mod((x - y) as nat, p as nat);
    } else {
        vstd::arithmetic::div_mod::lemma_small_mod((x + p - y) as nat, p as nat);
    }
}

/// Zero exactly when `a` is: `a` itself.
pub fn is_zero(a: &Constraint) -> (r: Constraint)
    requires
        a.wf(),
    ensures
        r.wf(),
        r@ == a@,
{
    a.copy()
}

/// Zero exactly when `a == 1`: `a - 1`.
pub fn is_one(a: &Constraint) -> (r: Constraint)
    requires
        a.wf(),
    ensures
        r.wf(),
        forall|k: Seq<(Element, usize)>|
            #[trigger] coeff(r@, k) == (coeff(a@, k) + if k == Seq::<(Element, usize)>::empty() {
                (modulus() - 1) % (modulus() as int)
            } else {
                0
            }) % (modulus() as int),
        forall|curr: Seq<BaseFelt>, next: Seq<BaseFelt>|
            (#[trigger] poly_value(r@, curr, next) == 0) == (poly_value(a@, curr, next) == 1),
{
    let one = BaseFelt::one();
    let r = a.sub_scalar(one);
    proof {
        lemma_constants();
        assert forall|curr: Seq<BaseFelt>, next: Seq<BaseFelt>|
            (#[trigger] poly_value(r@, curr, next) == 0) == (poly_value(a@, curr, next) == 1) by {
            let p = modulus() as int;
            lemma_poly_value_bound(a@, curr, next);
            vstd::arithmetic::div_mod::lemma_small_mod((modulus() - 1) as nat, modulus());
            lemma_vanishes_when_equal(poly_value(a@, curr, next) as int, 1);
        }
    }
    r
}

/// Zero exactly when `a` is 0 or 1: `a * a - a`.
pub fn is_binary(a: &Constraint) -> (r: Constraint)
    requires
        a.wf(),
        2 * max_degree(a@) <= usize::MAX,
    ensures
        r.wf(),
        forall|k: Seq<(Element, usize)>|
            #[trigger] coeff(r@, k) == (product_coeff(a@, a@, k) + modulus() - coeff(a@, k)) % (modulus() as int),
        forall|curr: Seq<BaseFelt>, next: Seq<BaseFelt>|
            modulus_is_prime() ==> ((#[trigger] poly_value(r@, curr, next) == 0) == (poly_value(a@, curr, next) == 0
                || poly_value(a@, curr, next) == 1)),
{
    let square = a.mul(a);
    let r = square.sub(a);
    proof {
        assert forall|k: Seq<(Element, usize)>|
            #[trigger] coeff(r@, k) == (product_coeff(a@, a@, k) + modulus() - coeff(a@, k)) % (modulus() as int) by {
            assert(coeff(square@, k) == product_coeff(a@, a@, k));
        }
        assert forall|curr: Seq<BaseFelt>, next: Seq<BaseFelt>|
            modulus_is_prime() implies ((#[trigger] poly_value(r@, curr, next) == 0) == (poly_value(a@, curr, next)
                == 0 || poly_value(a@, curr, next) == 1)) by {
            let p = modulus() as int;
            let v = poly_value(a@, curr, next);
            let vi = v as int;
            lemma_constants();
            lemma_poly_value_bound(a@, curr, next);
            assert(poly_value(square@, curr, next) == (v * v) % modulus());
            vstd::arithmetic::div_mod::lemma_add_mod_noop_right(p - vi, vi * vi, p);
            assert((vi * vi) % p + p - vi == (p - vi) + (vi * vi) % p);
            assert((p - vi) + vi * vi == vi * vi + p - vi);
            lemma_binary_values(v);
        }
    }
    r
}

} // verus!
