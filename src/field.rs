//! The prime field of order `N = 2^256 - 2^32 - 977`, with elements held in
//! Montgomery form relative to `R = 2^256`.

use crate::u256::{lemma_bases_are_powers, lemma_limb_order, lemma_view_bounds, lemma_word_base, limb_base, widening_mul, word_base, U256};
use vstd::arithmetic::div_mod::*;
use vstd::arithmetic::mul::*;
use vstd::arithmetic::power::{lemma1_pow, lemma_pow_distributes, lemma_pow_positive, lemma0_pow, lemma_pow0, lemma_pow1, lemma_pow_adds, lemma_pow_mod_noop, lemma_pow_multiplies, lemma_square_is_pow2, pow};
use vstd::arithmetic::power2::{lemma_pow2, lemma2_to64, lemma_pow2_adds, lemma_pow2_pos, lemma_pow2_strictly_increases, pow2};
use vstd::prelude::*;

verus! {

pub const MODULUS_HIGH: u128 = 0xFFFF_FFFF_FFFF_FFFF_FFFF_FFFF_FFFF_FFFF;

pub const MODULUS_LOW: u128 = 0xFFFF_FFFF_FFFF_FFFF_FFFF_FFFE_FFFF_FC2F;

/// `R^2 mod N`, which lifts an integer into Montgomery form.
pub const R_SQUARED_LOW: u128 = 0x1_0000_07A2_000E_90A1;

/// `N'` with `N * N' == -1 (mod R)`.
pub const N_PRIME_HIGH: u128 = 0xC9BD_1905_1553_8399_9C46_C2C2_95F2_B761;

pub const N_PRIME_LOW: u128 = 0xBCB2_23FE_DC24_A059_D838_091D_D225_3531;

/// `R - N`, which corrects a sum that overflowed the container.
pub const R_MINUS_N_LOW: u128 = 0x1_0000_03D1;

/// The field modulus `N`.
pub open spec fn modulus() -> nat {
    MODULUS_HIGH as nat * limb_base() + MODULUS_LOW as nat
}

pub open spec fn n_prime() -> nat {
    N_PRIME_HIGH as nat * limb_base() + N_PRIME_LOW as nat
}

/// `R^-1 mod N`.
pub open spec fn r_inverse() -> nat {
    0xc9bd_1905_1553_8399_9c46_c2c2_95f2_b761u128 as nat * limb_base()
        + 0xbcb2_23fe_dc24_a059_d838_091d_0868_192au128 as nat
}

/// The integer that a Montgomery-form value stands for: `m * R^-1 mod N`.
pub open spec fn from_mont(m: nat) -> nat {
    (m * r_inverse()) % modulus()
}

/// `a == b (mod n)` carries over to `a * c == b * c (mod n)`.
pub proof fn lemma_mul_congruent(a: int, b: int, c: int, n: int)
    requires
        n > 0,
        a % n == b % n,
    ensures
        (a * c) % n == (b * c) % n,
{
    lemma_mul_mod_noop_left(a, c, n);
    lemma_mul_mod_noop_left(b, c, n);
}

/// `R * R^-1 == 1 (mod N)`, as it is used: `x * R * R^-1 == x (mod N)`.
pub proof fn lemma_cancel_r(x: int)
    ensures
        (x * word_base() * r_inverse()) % (modulus() as int) == x % (modulus() as int),
{
    let n = modulus() as int;
    lemma_constants();
    lemma_mul_is_associative(x, word_base() as int, r_inverse() as int);
    lemma_mul_mod_noop_right(x, (word_base() * r_inverse()) as int, n);
}

/// A Montgomery-form value is its integer times `R`: the correspondence is
/// one to one on `[0, N)`.
pub proof fn lemma_mont_round_trip(m: nat)
    requires
        m < modulus(),
    ensures
        m == (from_mont(m) * word_base()) % modulus(),
{
    let n = modulus() as int;
    lemma_constants();
    lemma_mod_twice((m * r_inverse()) as int, n);
    lemma_mul_congruent((m * r_inverse()) as int % n, (m * r_inverse()) as int, word_base() as int, n);
    lemma_mul_is_associative(m as int, r_inverse() as int, word_base() as int);
    lemma_mul_is_commutative(r_inverse() as int, word_base() as int);
    lemma_mul_is_associative(m as int, word_base() as int, r_inverse() as int);
    lemma_cancel_r(m as int);
    lemma_small_mod(m, modulus());
}

/// The facts about the field's constants that the arithmetic rests on.
pub proof fn lemma_constants()
    ensures
        modulus() < word_base(),
        modulus() > word_base() / 2,
        modulus() % 2 == 1,
        (word_base() * r_inverse()) % modulus() == 1,
        (modulus() * n_prime() + 1) % word_base() == 0,
        R_SQUARED_LOW as nat == (word_base() * word_base()) % modulus(),
        R_MINUS_N_LOW as nat == word_base() - modulus(),
        n_prime() < word_base(),
        r_inverse() < modulus(),
{
    lemma_word_base();
    let b = limb_base();
    let w = word_base();
    let n = modulus();
    let ri = r_inverse();
    let np = n_prime();
    assert(n < w && n > w / 2 && n % 2 == 1) by (nonlinear_arith)
        requires
            b == 0x1_0000_0000_0000_0000u128 as nat * 0x1_0000_0000_0000_0000u128 as nat,
            w == b * b,
            n == MODULUS_HIGH as nat * b + MODULUS_LOW as nat,
            MODULUS_HIGH == 0xFFFF_FFFF_FFFF_FFFF_FFFF_FFFF_FFFF_FFFF,
            MODULUS_LOW == 0xFFFF_FFFF_FFFF_FFFF_FFFF_FFFE_FFFF_FC2F,
    ;
    assert((w * ri) % n == 1) by (nonlinear_arith)
        requires
            b == 0x1_0000_0000_0000_0000u128 as nat * 0x1_0000_0000_0000_0000u128 as nat,
            w == b * b,
            n == MODULUS_HIGH as nat * b + MODULUS_LOW as nat,
            MODULUS_HIGH == 0xFFFF_FFFF_FFFF_FFFF_FFFF_FFFF_FFFF_FFFF,
            MODULUS_LOW == 0xFFFF_FFFF_FFFF_FFFF_FFFF_FFFE_FFFF_FC2F,
            ri == 0xc9bd_1905_1553_8399_9c46_c2c2_95f2_b761u128 as nat * b
                + 0xbcb2_23fe_dc24_a059_d838_091d_0868_192au128 as nat,
    ;
    assert((n * np + 1) % w == 0 && np < w) by (nonlinear_arith)
        requires
            b == 0x1_0000_0000_0000_0000u128 as nat * 0x1_0000_0000_0000_0000u128 as nat,
            w == b * b,
            n == MODULUS_HIGH as nat * b + MODULUS_LOW as nat,
            MODULUS_HIGH == 0xFFFF_FFFF_FFFF_FFFF_FFFF_FFFF_FFFF_FFFF,
            MODULUS_LOW == 0xFFFF_FFFF_FFFF_FFFF_FFFF_FFFE_FFFF_FC2F,
            np == N_PRIME_HIGH as nat * b + N_PRIME_LOW as nat,
            N_PRIME_HIGH == 0xC9BD_1905_1553_8399_9C46_C2C2_95F2_B761,
            N_PRIME_LOW == 0xBCB2_23FE_DC24_A059_D838_091D_D225_3531,
    ;
    assert(R_SQUARED_LOW as nat == (w * w) % n && R_MINUS_N_LOW as nat == w - n) by (nonlinear_arith)
        requires
            b == 0x1_0000_0000_0000_0000u128 as nat * 0x1_0000_0000_0000_0000u128 as nat,
            w == b * b,
            n == MODULUS_HIGH as nat * b + MODULUS_LOW as nat,
            MODULUS_HIGH == 0xFFFF_FFFF_FFFF_FFFF_FFFF_FFFF_FFFF_FFFF,
            MODULUS_LOW == 0xFFFF_FFFF_FFFF_FFFF_FFFF_FFFE_FFFF_FC2F,
            R_SQUARED_LOW == 0x1_0000_07A2_000E_90A1,
            R_MINUS_N_LOW == 0x1_0000_03D1,
    ;
}

/// Modular addition of two values whose sum is below `2 * N`: the raw sum,
/// less `N` when it reaches `N`, corrected when it overflowed the container.
pub fn add(lhs: U256, rhs: U256) -> (r: U256)
    requires
        lhs@ + rhs@ < 2 * modulus(),
    ensures
        r@ < modulus(),
        r@ == (lhs@ + rhs@) % modulus(),
{
    let n = modulus_u256();
    let (sum, overflow) = lhs.overflowing_add(rhs);
    proof {
        lemma_constants();
        lemma_view_bounds(sum);
    }
    if overflow {
        proof {
            lemma_fundamental_div_mod_converse(
                (sum@ + R_MINUS_N_LOW) as int,
                word_base() as int,
                0,
                lhs@ + rhs@ - modulus(),
            );
            lemma_fundamental_div_mod_converse((lhs@ + rhs@) as int, modulus() as int, 1, lhs@ + rhs@ - modulus());
        }
        sum.add(U256 { high: 0, low: R_MINUS_N_LOW })
    } else if !sum.lt(n) {
        proof {
            lemma_small_mod((sum@ - modulus()) as nat, word_base());
            lemma_fundamental_div_mod_converse((lhs@ + rhs@) as int, modulus() as int, 1, lhs@ + rhs@ - modulus());
        }
        sum.sub(n)
    } else {
        proof {
            lemma_small_mod(sum@, modulus());
        }
        sum
    }
}

/// Modular subtraction: the sum with `N - rhs`.
pub fn sub(lhs: U256, rhs: U256) -> (r: U256)
    requires
        lhs@ < modulus(),
        rhs@ < modulus(),
    ensures
        r@ < modulus(),
        r@ == (lhs@ + modulus() - rhs@) % (modulus() as int),
{
    let n = modulus_u256();
    proof {
        lemma_constants();
        lemma_small_mod((modulus() - rhs@) as nat, word_base());
    }
    crate::field::add(lhs, n.sub(rhs))
}

/// The inverse of a Montgomery-form value, in Montgomery form, by the binary
/// extended GCD (Kaliski's almost-inverse followed by halving corrections).
/// `None` when the value shares a factor with `N` (zero does).
pub fn modular_inverse(b: U256) -> (r: Option<U256>)
    requires
        b@ < modulus(),
    ensures
        r matches Some(y) ==> y@ < modulus() && (b@ * y@) % modulus() == (word_base() * word_base()) % modulus(),
        r is None ==> shares_factor_with_modulus(b@),
{
    let a = modulus_u256();
    let one = U256::one();
    let ghost p = modulus() as int;
    let ghost x = b@ as int;
    let mut u = a;
    let mut v = b;
    let mut r = U256::zero();
    let mut s = U256::one();
    let mut k: u32 = 0;
    proof {
        lemma_constants();
        lemma2_to64();
        lemma_bases_are_powers();
        lemma_pow2_adds(256, 256);
        lemma_mod_self_0(p);
        lemma_small_mod(0, modulus());
        assert(x * 1 - x * 1 == 0);
        assert(0 * x + p * 1 == p);
        assert(p * x * 1 == p * x);
        assert(x * 0 == 0);
        assert(p * 1 == p);
        lemma_mod_multiples_basic(1, p);
    }
    // First phase: `a * r == -u * 2^k` and `a * s == v * 2^k` modulo `N`,
    // until `v` reaches zero and `u` holds the GCD.
    while v.gt(U256::zero())
        invariant
            a@ == p,
            p == modulus(),
            one@ == 1,
            x == b@,
            x < p,
            k <= 512,
            gcd_state(p, x, u@ as int, v@ as int, r@ as int, s@ as int, pow2(k as nat) as int),
            v@ == 0 ==> r@ < p,
        decreases u@ + v@,
    {
        let ghost (u0, v0, r0, s0, pk) = (u@ as int, v@ as int, r@ as int, s@ as int, pow2(k as nat) as int);
        proof {
            lemma_constants();
            lemma2_to64();
            lemma_bases_are_powers();
            lemma_gcd_bounds(p, x, u0, v0, r0, s0, pk);
            lemma_k_below_limit(p, x, u0, v0, pk, k as nat);
            lemma_pow2_adds(k as nat, 1);
        }
        if !u.is_odd() {
            proof {
                lemma_gcd_halve_u(p, x, u0, v0, r0, s0, pk);
                lemma_gcd_bounds(p, x, u0 / 2, v0, r0, 2 * s0, 2 * pk);
                lemma_small_mod((2 * s0) as nat, word_base());
            }
            u = u.shr(one);
            s = s.add(s);
        } else if !v.is_odd() {
            proof {
                lemma_gcd_halve_v(p, x, u0, v0, r0, s0, pk);
                lemma_gcd_bounds(p, x, u0, v0 / 2, 2 * r0, s0, 2 * pk);
                lemma_small_mod((2 * r0) as nat, word_base());
            }
            v = v.shr(one);
            r = r.add(r);
        } else if u.gt(v) {
            proof {
                lemma_gcd_reduce_u(p, x, u0, v0, r0, s0, pk);
                lemma_gcd_bounds(p, x, (u0 - v0) / 2, v0, r0 + s0, 2 * s0, 2 * pk);
                lemma_small_mod((2 * s0) as nat, word_base());
                lemma_small_mod((r0 + s0) as nat, word_base());
                lemma_small_mod((u0 - v0) as nat, word_base());
            }
            u = u.sub(v).shr(one);
            r = r.add(s);
            s = s.add(s);
        } else {
            let ghost h = (v0 - u0) / 2;
            proof {
                lemma_small_mod((v0 - u0) as nat, word_base());
                lemma_small_mod((s0 + r0) as nat, word_base());
                lemma_mod_twice(2 * r0, p);
                lemma_mod_decreases((2 * r0) as nat, p as nat);
                if h > 0 {
                    lemma_small_mod((2 * r0) as nat, p as nat);
                }
                lemma_gcd_reduce_v(p, x, u0, v0, r0, s0, pk, (2 * r0) % p);
                lemma_gcd_bounds(p, x, u0, h, (2 * r0) % p, s0 + r0, 2 * pk);
            }
            v = v.sub(u).shr(one);
            s = s.add(r);
            r = crate::field::add(r, r);
        }
        k = k + 1;
    }
    let ghost pk = pow2(k as nat) as int;
    proof {
        lemma_gcd_common_factor(p, x, u@ as int, r@ as int, s@ as int, pk);
        lemma_mul_basics(r@ as int);
        lemma_mul_basics(u@ as int);
    }
    // the GCD must be 1
    if !u.is_one() {
        proof {
            assert(shares_factor_with_modulus(b@)) by {
                assert(1 < u@ && modulus() % u@ == 0 && b@ % u@ == 0);
            }
        }
        return None;
    }
    if !r.lt(a) {
        r = r.sub(a);
    }
    proof {
        lemma_k_at_least_width(p, s@ as int, k as nat);
    }
    // Second phase: halve `r` modulo `N` until `a * r == -2^256`.
    let half = a.shr(one);
    let steps = k - 256;
    let mut i: u32 = 0;
    while i < steps
        invariant
            a@ == p,
            p == modulus(),
            one@ == 1,
            half@ == p / 2,
            x == b@,
            256 <= k <= 512,
            steps == k - 256,
            i <= steps,
            r@ < p,
            (x * r@ + pow2((k - i) as nat)) % p == 0,
        decreases steps - i,
    {
        let ghost r0 = r@ as int;
        proof {
            lemma_constants();
            lemma2_to64();
            lemma_bases_are_powers();
        }
        if !r.is_odd() {
            proof {
                lemma_small_mod((r0 / 2) as nat, word_base());
            }
            r = r.shr(one);
        } else {
            proof {
                lemma_small_mod((r0 / 2 + p / 2) as nat, word_base());
                lemma_small_mod((r0 / 2 + p / 2 + 1) as nat, word_base());
            }
            r = r.shr(one).add(half).add(one);
        }
        proof {
            assert(2 * r@ == r0 || 2 * r@ == r0 + p);
            lemma_halving_step_congruence(x, r0, r@ as int, (k - i - 1) as nat);
        }
        i = i + 1;
    }
    proof {
        lemma_constants();
        lemma_bases_are_powers();
        assert(k - i == 256);
        lemma_small_mod((p - r@) as nat, word_base());
        assert((p - r@) * R_SQUARED_LOW < word_base() * modulus()) by (nonlinear_arith)
            requires
                0 < p - r@ <= p,
                R_SQUARED_LOW < p,
                p < word_base(),
        ;
    }
    let y = crate::field::mul(a.sub(r), U256 { high: 0, low: R_SQUARED_LOW });
    proof {
        lemma_inverse_result(x, r@ as int, y@ as int);
    }
    Some(y)
}

/// The product `u * v * 2^k` bounds the step count while `v > 0`.
proof fn lemma_k_below_limit(p: int, a: int, u: int, v: int, pk: int, k: nat)
    requires
        p == modulus(),
        0 <= a < p,
        pk == pow2(k),
        v > 0 ==> u * v * pk <= p * a,
        u >= 1,
        v >= 1,
    ensures
        k < 512,
{
    lemma_constants();
    lemma_bases_are_powers();
    lemma_pow2_adds(256, 256);
    lemma_pow2_pos(k);
    assert(pk <= u * v * pk) by (nonlinear_arith)
        requires
            u >= 1,
            v >= 1,
            pk >= 0,
    ;
    assert(p * a < word_base() * word_base()) by (nonlinear_arith)
        requires
            0 <= a < p,
            p < word_base(),
    ;
    if k >= 512 {
        if k > 512 {
            lemma_pow2_strictly_increases(512, k);
        }
    }
}

/// At the end of the first phase `s == N <= 2^k`, so at least 256 steps ran.
proof fn lemma_k_at_least_width(p: int, s: int, k: nat)
    requires
        p == modulus(),
        s == p,
        s <= pow2(k),
    ensures
        k >= 256,
{
    lemma_constants();
    lemma_bases_are_powers();
    lemma_pow2_adds(255, 1);
    lemma2_to64();
    lemma_word_base();
    if k < 256 {
        if k < 255 {
            lemma_pow2_strictly_increases(k, 255);
        }
    }
}

/// One halving of `r` modulo `N` halves the power of two it balances.
proof fn lemma_halving_step_congruence(a: int, r0: int, r1: int, j: nat)
    requires
        (a * r0 + pow2(j + 1)) % (modulus() as int) == 0,
        2 * r1 == r0 || 2 * r1 == r0 + modulus(),
    ensures
        (a * r1 + pow2(j)) % (modulus() as int) == 0,
{
    let p = modulus() as int;
    lemma_constants();
    lemma_pow2_adds(j, 1);
    lemma2_to64();
    let c: int = if 2 * r1 == r0 { 0 } else { 1 };
    assert(2 * (a * r1 + pow2(j)) == (a * r0 + pow2(j + 1)) + (a * c) * p) by {
        assert(a * (2 * r1) == a * r0 + a * (c * p)) by {
            lemma_mul_is_distributive_add(a, r0, c * p);
        }
        lemma_mul_is_associative(a, c, p);
        lemma_mul_is_associative(a, 2, r1);
        lemma_mul_is_commutative(a, 2);
        lemma_mul_is_associative(2, a, r1);
    }
    lemma_mod_multiples_basic(a * c, p);
    lemma_multiple_comb(a * r0 + pow2(j + 1), (a * c) * p, p, 1, 1);
    lemma_halve_multiple(a * r1 + pow2(j), p);
}

/// Modular division of Montgomery-form values: `lhs` times the inverse of
/// `rhs`, which must have one.
pub fn div(lhs: U256, rhs: U256) -> (r: U256)
    requires
        lhs@ < modulus(),
        rhs@ < modulus(),
        !shares_factor_with_modulus(rhs@),
    ensures
        r@ < modulus(),
        (r@ * rhs@) % modulus() == (lhs@ * word_base()) % modulus(),
{
    let inv = modular_inverse(rhs);
    let y = inv.unwrap();
    proof {
        lemma_constants();
        assert(lhs@ * y@ < word_base() * modulus()) by (nonlinear_arith)
            requires
                lhs@ < modulus(),
                y@ < modulus(),
                modulus() < word_base(),
        ;
    }
    let r = crate::field::mul(lhs, y);
    proof {
        lemma_div_result(lhs@ as int, y@ as int, rhs@ as int, r@ as int);
    }
    r
}

/// `r = lhs * y * R^-1` with `rhs * y == R^2` gives `r * rhs == lhs * R`.
proof fn lemma_div_result(l: int, y: int, b: int, r: int)
    requires
        (b * y) % (modulus() as int) == ((word_base() * word_base()) as int) % (modulus() as int),
        r == (l * y * r_inverse()) % (modulus() as int),
    ensures
        (r * b) % (modulus() as int) == (l * word_base()) % (modulus() as int),
{
    let p = modulus() as int;
    let w = word_base() as int;
    let ri = r_inverse() as int;
    lemma_constants();
    lemma_mod_twice(l * y * ri, p);
    lemma_mul_congruent(r, l * y * ri, b, p);
    assert(l * y * ri * b == (l * ri) * (b * y)) by {
        broadcast use group_mul_properties;

    }
    lemma_mul_mod_noop_right(l * ri, b * y, p);
    lemma_mul_mod_noop_right(l * ri, w * w, p);
    assert((l * ri) * (w * w) == l * w * w * ri) by {
        broadcast use group_mul_properties;

    }
    lemma_cancel_r(l * w);
}

/// The modulus as a value.
pub fn modulus_u256() -> (r: U256)
    ensures
        r@ == modulus(),
{
    U256 { high: MODULUS_HIGH, low: MODULUS_LOW }
}

/// Montgomery multiplication (REDC): `lhs * rhs * R^-1 mod N`, for operands
/// whose product is below `R * N` (two Montgomery values qualify).
pub fn mul(lhs: U256, rhs: U256) -> (r: U256)
    requires
        lhs@ * rhs@ < word_base() * modulus(),
    ensures
        r@ < modulus(),
        r@ == (lhs@ * rhs@ * r_inverse()) % modulus(),
{
    let n = modulus_u256();
    let (t_low, t_high) = widening_mul(lhs, rhs);
    // m = (T mod R) * N' mod R
    let m = t_low.mul(U256 { high: N_PRIME_HIGH, low: N_PRIME_LOW });
    // T + m * N, which R divides
    let (mn_low, mn_high) = widening_mul(m, n);
    let (low_sum, carry_low) = t_low.overflowing_add(mn_low);
    let (t1, c2) = t_high.overflowing_add(mn_high);
    let carry = U256 { high: 0, low: if carry_low { 1 } else { 0 } };
    let (t, c3) = t1.overflowing_add(carry);
    let ghost whole = t@ + (if c2 || c3 { word_base() } else { 0 });
    proof {
        lemma_constants();
        lemma_view_bounds(m);
        lemma_view_bounds(t_low);
        lemma_view_bounds(mn_low);
        lemma_view_bounds(low_sum);
        lemma_view_bounds(t);
        lemma_redc_divides(t_low@, m@, mn_low@, mn_high@);
        lemma_fundamental_div_mod_converse(
            (t_low@ + mn_low@) as int,
            word_base() as int,
            if carry_low { 1 } else { 0 },
            low_sum@ as int,
        );
        assert(low_sum@ == 0);
        lemma_redc_sum(
            t_high@ as int,
            t_low@ as int,
            mn_high@ as int,
            mn_low@ as int,
            if carry_low { 1 } else { 0 },
            whole as int,
            word_base() as int,
        );
        lemma_redc_bound(lhs@ * rhs@, m@, whole);
        lemma_redc_value(lhs@ * rhs@, m@, whole);
    }
    if c2 || c3 {
        proof {
            lemma_fundamental_div_mod_converse(
                (t@ + R_MINUS_N_LOW) as int,
                word_base() as int,
                0,
                whole - modulus(),
            );
            lemma_fundamental_div_mod_converse(whole as int, modulus() as int, 1, whole - modulus());
        }
        t.add(U256 { high: 0, low: R_MINUS_N_LOW })
    } else if !t.lt(n) {
        proof {
            lemma_small_mod((t@ - modulus()) as nat, word_base());
            lemma_fundamental_div_mod_converse(whole as int, modulus() as int, 1, whole - modulus());
        }
        t.sub(n)
    } else {
        proof {
            lemma_small_mod(whole, modulus());
        }
        t
    }
}

proof fn lemma_redc_sum(th: int, tl: int, mnh: int, mnl: int, c: int, whole: int, w: int)
    requires
        tl + mnl == c * w,
        whole == th + mnh + c,
    ensures
        whole * w == (th * w + tl) + (mnh * w + mnl),
{
    lemma_mul_is_distributive_add_other_way(w, th + mnh, c);
    lemma_mul_is_distributive_add_other_way(w, th, mnh);
}

/// The low half of `T + m * N` vanishes modulo `R`.
proof fn lemma_redc_divides(t_low: nat, m: nat, mn_low: nat, mn_high: nat)
    requires
        m == (t_low * n_prime()) % word_base(),
        mn_high * word_base() + mn_low == m * modulus(),
        mn_low < word_base(),
    ensures
        (t_low + mn_low) % word_base() == 0,
{
    let w = word_base() as int;
    let n = modulus() as int;
    let np = n_prime() as int;
    let tl = t_low as int;
    lemma_constants();
    lemma_fundamental_div_mod_converse(m * n, w, mn_high as int, mn_low as int);
    assert(mn_low as int == (m * n) % w);
    // mn_low == t_low * N' * N (mod R)
    lemma_mul_mod_noop_left(tl * np, n, w);
    assert((m * n) % w == (tl * np * n) % w);
    lemma_add_mod_noop_right(tl, m * n, w);
    lemma_add_mod_noop_right(tl, tl * np * n, w);
    assert((tl + mn_low) % w == (tl + tl * np * n) % w);
    // t_low * (N * N' + 1) == 0 (mod R)
    assert(tl + tl * np * n == tl * (n * np + 1)) by {
        lemma_mul_is_associative(tl, np, n);
        lemma_mul_is_commutative(np, n);
        lemma_mul_is_distributive_add(tl, n * np, 1);
    }
    lemma_mul_mod_noop_right(tl, n * np + 1, w);
    assert((n * np + 1) % w == 0);
    lemma_mul_basics(tl);
}

/// `t = (T + m * N) / R` stays below `2 * N`.
proof fn lemma_redc_bound(prod: nat, m: nat, t: nat)
    requires
        prod < word_base() * modulus(),
        m < word_base(),
        t * word_base() == prod + m * modulus(),
    ensures
        t < 2 * modulus(),
{
    lemma_constants();
    lemma_mul_strict_inequality(m as int, word_base() as int, modulus() as int);
    lemma_mul_is_commutative(word_base() as int, modulus() as int);
    lemma_mul_is_commutative(2 * modulus() as int, word_base() as int);
    lemma_mul_is_associative(2, modulus() as int, word_base() as int);
    lemma_mul_strict_inequality_converse(t as int, 2 * modulus() as int, word_base() as int);
}

/// `t = (T + m * N) / R` is `T * R^-1` modulo `N`.
proof fn lemma_redc_value(prod: nat, m: nat, t: nat)
    requires
        t * word_base() == prod + m * modulus(),
    ensures
        t % modulus() == (prod * r_inverse()) % modulus(),
{
    let n = modulus() as int;
    lemma_constants();
    lemma_mul_is_commutative(m as int, n);
    lemma_mod_multiples_vanish(m as int, prod as int, n);
    lemma_mul_congruent((t * word_base()) as int, prod as int, r_inverse() as int, n);
    lemma_cancel_r(t as int);
}

/// The integer of a Montgomery product is the product of the integers.
pub proof fn lemma_from_mont_mul(a: nat, b: nat)
    ensures
        from_mont((a * b * r_inverse()) % modulus()) == (from_mont(a) * from_mont(b)) % modulus(),
{
    let n = modulus() as int;
    let ri = r_inverse() as int;
    lemma_constants();
    lemma_mul_mod_noop_left((a * b * ri) as int, ri, n);
    lemma_mul_mod_noop((a * ri) as int, (b * ri) as int, n);
    assert(a * b * ri * ri == (a * ri) * (b * ri)) by {
        broadcast use group_mul_properties;

    }
}

/// The integer of a sum is the sum of the integers.
pub proof fn lemma_from_mont_add(a: nat, b: nat)
    ensures
        from_mont((a + b) % modulus()) == (from_mont(a) + from_mont(b)) % modulus(),
{
    let n = modulus() as int;
    let ri = r_inverse() as int;
    lemma_constants();
    lemma_mul_mod_noop_left((a + b) as int, ri, n);
    lemma_mul_is_distributive_add_other_way(ri, a as int, b as int);
    lemma_add_mod_noop((a * ri) as int, (b * ri) as int, n);
}

/// The integer of a difference is the difference of the integers.
pub proof fn lemma_from_mont_sub(a: nat, b: nat)
    requires
        b <= modulus(),
    ensures
        from_mont(((a + modulus() - b) % (modulus() as int)) as nat)
            == ((from_mont(a) + modulus() - from_mont(b)) % (modulus() as int)),
{
    let n = modulus() as int;
    let ri = r_inverse() as int;
    lemma_constants();
    lemma_mul_mod_noop_left(a + n - b, ri, n);
    lemma_mul_is_distributive_sub_other_way(ri, a + n, b as int);
    lemma_mul_is_distributive_add_other_way(ri, a as int, n);
    // (a + n - b) * ri == a * ri - b * ri + n * ri
    lemma_mod_multiples_vanish(ri, a * ri - b * ri, n);
    lemma_mul_is_commutative(n, ri);
    lemma_sub_mod_noop(a * ri, b * ri, n);
    lemma_mod_multiples_vanish(1, (a * ri) % n - (b * ri) % n, n);
    lemma_mod_twice(a * ri, n);
}

/// The integer of a value that was lifted by `R^2` is the value itself.
pub proof fn lemma_from_mont_lift(v: nat)
    ensures
        from_mont((v * (R_SQUARED_LOW as nat) * r_inverse()) % modulus()) == v % modulus(),
{
    let n = modulus() as int;
    let ri = r_inverse() as int;
    let w = word_base() as int;
    lemma_constants();
    lemma_mul_mod_noop_left((v * R_SQUARED_LOW as nat * ri) as int, ri, n);
    lemma_mul_mod_noop_right(v as int, w * w, n);
    assert((v * R_SQUARED_LOW as nat) as int % n == (v * w * w) % n) by {
        lemma_mul_is_associative(v as int, w, w);
    }
    lemma_mul_congruent((v * R_SQUARED_LOW as nat) as int, v * w * w, ri, n);
    lemma_cancel_r(v * w);
    lemma_mul_congruent(v * w * w * ri, v * w, ri, n);
    lemma_mul_congruent((v * R_SQUARED_LOW as nat * ri) as int, v * w * w * ri, ri, n);
    lemma_cancel_r(v as int);
}

/// The state of the binary extended GCD between `N` and `a`, with
/// `pk = 2^k` after `k` steps:
/// `N == u*s + v*r`, `a*s == v*2^k` and `a*r == -u*2^k` modulo `N`.
pub open spec fn gcd_state(p: int, a: int, u: int, v: int, r: int, s: int, pk: int) -> bool {
    &&& u >= 1
    &&& s >= 1
    &&& r >= 0
    &&& v >= 0
    &&& p == u * s + v * r
    &&& (a * s - v * pk) % p == 0
    &&& (a * r + u * pk) % p == 0
    &&& s <= pk
    &&& r <= pk
    &&& (v > 0 ==> u * v * pk <= p * a)
}

/// `N` divides a combination of two of its multiples.
proof fn lemma_multiple_comb(x: int, y: int, p: int, c1: int, c2: int)
    requires
        p > 0,
        x % p == 0,
        y % p == 0,
    ensures
        (c1 * x + c2 * y) % p == 0,
{
    lemma_fundamental_div_mod(x, p);
    lemma_fundamental_div_mod(y, p);
    let qx = x / p;
    let qy = y / p;
    assert(c1 * x + c2 * y == (c1 * qx + c2 * qy) * p) by {
        broadcast use group_mul_properties;

    }
    lemma_mod_multiples_basic(c1 * qx + c2 * qy, p);
}

/// Halving an even `u` (and doubling `s`).
proof fn lemma_gcd_halve_u(p: int, a: int, u: int, v: int, r: int, s: int, pk: int)
    requires
        p > 0,
        gcd_state(p, a, u, v, r, s, pk),
        u % 2 == 0,
    ensures
        gcd_state(p, a, u / 2, v, r, 2 * s, 2 * pk),
{
    let h = u / 2;
    assert(h * (2 * s) == u * s) by (nonlinear_arith)
        requires
            u == 2 * h,
    ;
    assert(h * (2 * pk) == u * pk) by (nonlinear_arith)
        requires
            u == 2 * h,
    ;
    assert(a * (2 * s) - v * (2 * pk) == 2 * (a * s - v * pk)) by (nonlinear_arith);
    lemma_multiple_comb(a * s - v * pk, 0, p, 2, 0);
    assert(h * v * (2 * pk) == u * v * pk) by (nonlinear_arith)
        requires
            u == 2 * h,
    ;
    assert(h >= 1);
}

/// Halving an even `v` (and doubling `r`).
proof fn lemma_gcd_halve_v(p: int, a: int, u: int, v: int, r: int, s: int, pk: int)
    requires
        p > 0,
        gcd_state(p, a, u, v, r, s, pk),
        v % 2 == 0,
    ensures
        gcd_state(p, a, u, v / 2, 2 * r, s, 2 * pk),
{
    let h = v / 2;
    assert(h * (2 * r) == v * r) by (nonlinear_arith)
        requires
            v == 2 * h,
    ;
    assert(h * (2 * pk) == v * pk) by (nonlinear_arith)
        requires
            v == 2 * h,
    ;
    assert(a * (2 * r) + u * (2 * pk) == 2 * (a * r + u * pk)) by (nonlinear_arith);
    lemma_multiple_comb(a * r + u * pk, 0, p, 2, 0);
    assert(u * h * (2 * pk) == u * v * pk) by (nonlinear_arith)
        requires
            v == 2 * h,
    ;
}

/// `u > v`, both odd: `u = (u - v) / 2`, `r = r + s`, `s = 2 * s`.
proof fn lemma_gcd_reduce_u(p: int, a: int, u: int, v: int, r: int, s: int, pk: int)
    requires
        p > 0,
        gcd_state(p, a, u, v, r, s, pk),
        u % 2 == 1,
        v % 2 == 1,
        u > v,
    ensures
        gcd_state(p, a, (u - v) / 2, v, r + s, 2 * s, 2 * pk),
{
    let h = (u - v) / 2;
    assert(h * (2 * s) + v * (r + s) == u * s + v * r) by (nonlinear_arith)
        requires
            u - v == 2 * h,
    ;
    assert(a * (2 * s) - v * (2 * pk) == 2 * (a * s - v * pk)) by (nonlinear_arith);
    lemma_multiple_comb(a * s - v * pk, 0, p, 2, 0);
    assert(a * (r + s) + h * (2 * pk) == (a * r + u * pk) + (a * s - v * pk)) by (nonlinear_arith)
        requires
            u - v == 2 * h,
    ;
    lemma_multiple_comb(a * r + u * pk, a * s - v * pk, p, 1, 1);
    assert(h * v * (2 * pk) <= u * v * pk) by (nonlinear_arith)
        requires
            u - v == 2 * h,
            v >= 1,
            pk >= 0,
    ;
    assert(h >= 1);
}

/// `u <= v`, both odd: `v = (v - u) / 2`, `s = s + r`, `r = 2 * r`; the new
/// `r` may be reduced by `N` once `v` reaches zero.
proof fn lemma_gcd_reduce_v(p: int, a: int, u: int, v: int, r: int, s: int, pk: int, r2: int)
    requires
        p > 0,
        p % 2 == 1,
        gcd_state(p, a, u, v, r, s, pk),
        u % 2 == 1,
        v % 2 == 1,
        u <= v,
        r2 % p == (2 * r) % p,
        0 <= r2 <= 2 * r,
        (v - u) / 2 > 0 ==> r2 == 2 * r,
    ensures
        gcd_state(p, a, u, (v - u) / 2, r2, s + r, 2 * pk),
{
    let h = (v - u) / 2;
    assert(u * (s + r) + h * (2 * r) == u * s + v * r) by (nonlinear_arith)
        requires
            v - u == 2 * h,
    ;
    if h > 0 {
        assert(h * r2 == h * (2 * r));
    } else {
        lemma_mul_basics(r2);
        lemma_mul_basics(2 * r);
    }
    assert(a * (s + r) - h * (2 * pk) == (a * s - v * pk) + (a * r + u * pk)) by (nonlinear_arith)
        requires
            v - u == 2 * h,
    ;
    lemma_multiple_comb(a * s - v * pk, a * r + u * pk, p, 1, 1);
    // a * r2 == a * 2r (mod p)
    lemma_mul_congruent(r2, 2 * r, a, p);
    lemma_mul_is_commutative(r2, a);
    lemma_mul_is_commutative(2 * r, a);
    assert(a * (2 * r) + u * (2 * pk) == 2 * (a * r + u * pk)) by (nonlinear_arith);
    lemma_multiple_comb(a * r + u * pk, 0, p, 2, 0);
    lemma_add_mod_noop(a * r2, u * (2 * pk), p);
    lemma_add_mod_noop(a * (2 * r), u * (2 * pk), p);
    assert(u * h * (2 * pk) <= u * v * pk) by (nonlinear_arith)
        requires
            v - u == 2 * h,
            u >= 1,
            pk >= 0,
    ;
}

/// Some `d > 1` divides both `x` and `N`.
pub open spec fn shares_factor_with_modulus(x: nat) -> bool {
    exists|d: nat| 1 < d && #[trigger] (modulus() % d) == 0 && x % d == 0
}

/// No integer strictly between 1 and `N` divides `N`.
pub open spec fn modulus_is_prime() -> bool {
    forall|d: nat| 1 < d < modulus() ==> #[trigger] (modulus() % d) != 0
}

/// Some integer times `v` is 1 modulo `N`.
pub open spec fn invertible(v: nat) -> bool {
    exists|z: nat| #[trigger] ((v * z) % modulus()) == 1
}

proof fn lemma_gcd_bounds(p: int, a: int, u: int, v: int, r: int, s: int, pk: int)
    requires
        gcd_state(p, a, u, v, r, s, pk),
    ensures
        s <= p,
        v >= 1 ==> r + s <= p,
        v >= 3 ==> 2 * r < p,
{
    assert(u * s >= s) by (nonlinear_arith)
        requires
            u >= 1,
            s >= 1,
    ;
    if v >= 1 {
        assert(v * r >= r) by (nonlinear_arith)
            requires
                v >= 1,
                r >= 0,
        ;
    }
    if v >= 3 {
        assert(v * r >= 3 * r) by (nonlinear_arith)
            requires
                v >= 3,
                r >= 0,
        ;
    }
}

/// Once `v` is zero, `u` divides both `N` and `a`.
proof fn lemma_gcd_common_factor(p: int, a: int, u: int, r: int, s: int, pk: int)
    requires
        p > 0,
        a >= 0,
        gcd_state(p, a, u, 0, r, s, pk),
    ensures
        p % u == 0,
        a % u == 0,
{
    lemma_mul_basics(r);
    lemma_mul_basics(pk);
    lemma_fundamental_div_mod(a * s, p);
    let c = (a * s) / p;
    assert(a * s == (c * u) * s) by {
        lemma_mul_is_commutative(p, c);
        lemma_mul_is_associative(c, u, s);
    }
    lemma_mul_equality_converse_right(a, c * u, s);
    lemma_mod_multiples_basic(c, u);
    lemma_mod_multiples_basic(s, u);
    lemma_mul_is_commutative(s, u);
}

proof fn lemma_mul_equality_converse_right(x: int, y: int, z: int)
    requires
        z > 0,
        x * z == y * z,
    ensures
        x == y,
{
    if x < y {
        lemma_mul_strict_inequality(x, y, z);
    } else if x > y {
        lemma_mul_strict_inequality(y, x, z);
    }
}

/// With `N` odd, `N | 2x` gives `N | x`.
proof fn lemma_halve_multiple(x: int, p: int)
    requires
        p > 0,
        p % 2 == 1,
        (2 * x) % p == 0,
    ensures
        x % p == 0,
{
    lemma_fundamental_div_mod(2 * x, p);
    let c = (2 * x) / p;
    lemma_fundamental_div_mod(c, 2);
    let d = c / 2;
    if c % 2 == 1 {
        assert(p * c == 2 * (p * d) + p) by {
            lemma_mul_is_distributive_add(p, 2 * d, 1);
            lemma_mul_is_associative(p, 2, d);
            lemma_mul_is_commutative(p, 2);
            lemma_mul_is_associative(2, p, d);
        }
        assert(false);
    }
    assert(x == d * p) by {
        lemma_mul_is_associative(p, 2, d);
        lemma_mul_is_commutative(p, 2);
        lemma_mul_is_associative(2, p, d);
        lemma_mul_is_commutative(p, d);
    }
    lemma_mod_multiples_basic(d, p);
}

/// A value that shares a factor with `N` has no inverse modulo `N`.
proof fn lemma_common_factor_no_unit(x: int, t: int, d: int)
    requires
        d > 1,
        x % d == 0,
        (modulus() as int) % d == 0,
    ensures
        (x * t) % (modulus() as int) != 1,
{
    let p = modulus() as int;
    lemma_constants();
    if (x * t) % p == 1 {
        lemma_fundamental_div_mod(x * t, p);
        let q = (x * t) / p;
        lemma_fundamental_div_mod(x, d);
        lemma_fundamental_div_mod(p, d);
        let xd = x / d;
        let pd = p / d;
        let e = xd * t - q * pd;
        assert(x * t == d * (xd * t)) by {
            lemma_mul_is_associative(d, xd, t);
        }
        assert(p * q == d * (q * pd)) by {
            lemma_mul_is_associative(d, pd, q);
            lemma_mul_is_commutative(pd, q);
        }
        lemma_mul_is_distributive_sub(d, xd * t, q * pd);
        assert(d * e == 1);
        if e <= 0 {
            assert(d * e <= 0) by (nonlinear_arith)
                requires
                    d > 1,
                    e <= 0,
            ;
        } else {
            assert(d * e >= d) by (nonlinear_arith)
                requires
                    d > 1,
                    e >= 1,
            ;
        }
    }
}

/// The last step of the inversion: from `a * r == -R (mod N)`, the
/// Montgomery form of `N - r` times `a` is `R^2`.
proof fn lemma_inverse_result(a: int, r: int, y: int)
    requires
        0 <= r < modulus(),
        (a * r + word_base()) % (modulus() as int) == 0,
        y == ((modulus() - r) * R_SQUARED_LOW * r_inverse()) % (modulus() as int),
    ensures
        (a * y) % (modulus() as int) == ((word_base() * word_base()) as int) % (modulus() as int),
{
    let p = modulus() as int;
    let w = word_base() as int;
    let ri = r_inverse() as int;
    let x = p - r;
    lemma_constants();
    // a * x == R (mod N)
    assert(a * x == a * p - a * r) by {
        lemma_mul_is_distributive_sub(a, p, r);
    }
    assert((a * x) % p == w % p) by {
        assert(a * x == w - (a * r + w) + a * p);
        lemma_fundamental_div_mod(a * r + w, p);
        let c = (a * r + w) / p;
        assert(a * x == w + (a - c) * p) by {
            lemma_mul_is_distributive_sub_other_way(p, a, c);
            lemma_mul_is_commutative(p, c);
            lemma_mul_is_commutative(a, p);
        }
        lemma_mod_multiples_vanish(a - c, w, p);
    }
    // y == x * R (mod N)
    lemma_from_mont_lift_congruent(x);
    // a * y == a * x * R == R * R (mod N)
    lemma_mod_twice(x * R_SQUARED_LOW * ri, p);
    lemma_mul_congruent(y, x * w, a, p);
    lemma_mul_is_commutative(y, a);
    lemma_mul_is_commutative(x * w, a);
    lemma_mul_is_associative(a, x, w);
    lemma_mul_congruent(a * x, w, w, p);
}

/// `x * R^2 * R^-1 == x * R (mod N)`.
proof fn lemma_from_mont_lift_congruent(x: int)
    ensures
        (x * R_SQUARED_LOW * r_inverse()) % (modulus() as int) == (x * word_base()) % (modulus() as int),
{
    let p = modulus() as int;
    let w = word_base() as int;
    let ri = r_inverse() as int;
    lemma_constants();
    lemma_mul_mod_noop_right(x, w * w, p);
    assert((x * R_SQUARED_LOW) % p == (x * w * w) % p) by {
        lemma_mul_is_associative(x, w, w);
    }
    lemma_mul_congruent(x * R_SQUARED_LOW, x * w * w, ri, p);
    lemma_cancel_r(x * w);
}

/// Montgomery values whose product is `R^2` stand for mutually inverse
/// integers.
proof fn lemma_inverse_values(a: nat, y: nat)
    requires
        (a * y) % modulus() == (word_base() * word_base()) % modulus(),
    ensures
        (from_mont(a) * from_mont(y)) % modulus() == 1,
{
    let p = modulus() as int;
    let w = word_base() as int;
    let ri = r_inverse() as int;
    lemma_constants();
    lemma_mul_mod_noop((a * ri) as int, (y * ri) as int, p);
    assert((a * ri) * (y * ri) == (a * y) * (ri * ri)) by {
        broadcast use group_mul_properties;

    }
    lemma_mul_congruent((a * y) as int, w * w, ri * ri, p);
    assert((w * w) * (ri * ri) == (w * w * ri) * ri) by {
        broadcast use group_mul_properties;

    }
    lemma_cancel_r(w);
    lemma_mul_congruent(w * w * ri, w, ri, p);
}

/// A Montgomery value that shares a factor with `N` stands for an integer
/// with no inverse.
proof fn lemma_no_inverse(a: nat)
    requires
        a < modulus(),
        shares_factor_with_modulus(a),
    ensures
        !invertible(from_mont(a)),
        modulus_is_prime() ==> from_mont(a) == 0,
{
    let p = modulus() as int;
    let w = word_base() as int;
    let ri = r_inverse() as int;
    let v = from_mont(a);
    let d = choose|d: nat| 1 < d && #[trigger] (modulus() % d) == 0 && a % d == 0;
    lemma_constants();
    if invertible(v) {
        let z = choose|z: nat| #[trigger] ((v * z) % modulus()) == 1;
        lemma_mont_round_trip(a);
        // a * (z * R^-1) == v * R * z * R^-1 == v * z == 1
        lemma_mod_twice((v * w) as int, p);
        lemma_small_mod(a, modulus());
        lemma_mul_congruent(a as int, (v * w) as int, z * ri, p);
        assert((v * w) * (z * ri) == (v * z) * w * ri) by {
            broadcast use group_mul_properties;

        }
        lemma_cancel_r((v * z) as int);
        lemma_common_factor_no_unit(a as int, z * ri, d as int);
    }
    if modulus_is_prime() {
        if d < modulus() {
            assert(modulus() % d != 0);
        } else if d > modulus() {
            lemma_small_mod(modulus(), d);
        }
        lemma_small_mod(a, modulus());
        lemma_mul_basics(ri);
        lemma_small_mod(0, modulus());
    }
}

/// The integers that two reduced Montgomery values stand for are equal only
/// when the values are.
pub proof fn lemma_from_mont_injective(a: nat, b: nat)
    requires
        a < modulus(),
        b < modulus(),
        from_mont(a) == from_mont(b),
    ensures
        a == b,
{
    lemma_mont_round_trip(a);
    lemma_mont_round_trip(b);
}

/// The inverse of an integer modulo `N` is unique.
pub proof fn lemma_inverse_unique(v: nat, y1: nat, y2: nat)
    requires
        y1 < modulus(),
        y2 < modulus(),
        (v * y1) % modulus() == 1,
        (v * y2) % modulus() == 1,
    ensures
        y1 == y2,
{
    let p = modulus() as int;
    lemma_constants();
    // y1 == y1 * (v * y2) == (v * y1) * y2 == y2
    lemma_small_mod(1, modulus());
    lemma_mul_congruent((v * y2) as int, 1, y1 as int, p);
    lemma_mul_congruent((v * y1) as int, 1, y2 as int, p);
    assert((v * y2) * y1 == (v * y1) * y2) by {
        broadcast use group_mul_properties;

    }
    lemma_small_mod(y1, modulus());
    lemma_small_mod(y2, modulus());
}

/// `r == l * R (mod N)` after dividing by `b`: the integers divide too.
proof fn lemma_div_values(l: nat, b: nat, r: nat)
    requires
        (r * b) % modulus() == (l * word_base()) % modulus(),
    ensures
        (from_mont(r) * from_mont(b)) % modulus() == from_mont(l),
{
    let p = modulus() as int;
    let w = word_base() as int;
    let ri = r_inverse() as int;
    lemma_constants();
    lemma_mul_mod_noop((r * ri) as int, (b * ri) as int, p);
    assert((r * ri) * (b * ri) == (r * b) * ri * ri) by {
        broadcast use group_mul_properties;

    }
    lemma_mul_congruent((r * b) as int, l * w, ri, p);
    lemma_mul_congruent((r * b) * ri, l * w * ri, ri, p);
    lemma_cancel_r(l as int);
    lemma_mul_congruent(l * w * ri, l as int, ri, p);
}

/// One step of square-and-multiply keeps `res * acc^e` fixed modulo `N`.
proof fn lemma_pow_step(res: int, acc: int, e: nat, res2: int, acc2: int)
    requires
        res2 == (if e % 2 == 1 { (res * acc) % (modulus() as int) } else { res }),
        acc2 == (acc * acc) % (modulus() as int),
    ensures
        (res2 * pow(acc2, e / 2)) % (modulus() as int) == (res * pow(acc, e)) % (modulus() as int),
{
    let p = modulus() as int;
    let k = e / 2;
    lemma_constants();
    lemma_pow_mod_noop(acc * acc, k, p);
    lemma_square_is_pow2(acc);
    lemma_pow_multiplies(acc, 2, k);
    lemma_pow_adds(acc, 2 * k, e % 2);
    lemma_pow0(acc);
    lemma_pow1(acc);
    // pow(acc2, k) == pow(acc, 2k) (mod N)
    lemma_mul_mod_noop_right(res2, pow(acc2, k), p);
    lemma_mul_mod_noop_right(res2, pow(acc, 2 * k), p);
    if e % 2 == 1 {
        lemma_mul_mod_noop_left(res * acc, pow(acc, 2 * k), p);
        assert((res * acc) * pow(acc, 2 * k) == res * (pow(acc, 2 * k) * acc)) by {
            broadcast use group_mul_properties;

        }
    } else {
        lemma_mul_basics(pow(acc, 2 * k));
    }
}

/// What an inversion returns for `x`: the element whose product with `x`
/// is one, or `None` when there is none.
pub open spec fn is_inverse_result(x: BaseFelt, r: Option<BaseFelt>) -> bool {
    match r {
        Some(y) => y.wf() && (x.value() * y.value()) % modulus() == 1,
        None => !invertible(x.value()),
    }
}

/// A field element: an integer modulo `N`, held in Montgomery form
/// (`value * R mod N`).
#[derive(Clone, Copy, Debug, PartialEq, Eq, Structural, Hash)]
pub struct BaseFelt(pub U256);

impl BaseFelt {
    /// The held value is reduced.
    pub open spec fn wf(self) -> bool {
        self.0@ < modulus()
    }

    /// The integer in `[0, N)` that the element stands for.
    pub open spec fn value(self) -> nat {
        from_mont(self.0@)
    }

    /// Lifts an integer into the field: the element of `value mod N`.
    pub fn new(value: U256) -> (r: BaseFelt)
        ensures
            r.wf(),
            r.value() == value@ % modulus(),
    {
        proof {
            lemma_constants();
            lemma_view_bounds(value);
            assert(value@ * R_SQUARED_LOW < word_base() * modulus()) by (nonlinear_arith)
                requires
                    value@ < word_base(),
                    R_SQUARED_LOW < modulus(),
            ;
            lemma_from_mont_lift(value@);
        }
        BaseFelt(crate::field::mul(value, U256 { high: 0, low: R_SQUARED_LOW }))
    }

    /// The integer that the element stands for, out of Montgomery form.
    pub fn as_integer(&self) -> (r: U256)
        requires
            self.wf(),
        ensures
            r@ == self.value(),
            r@ < modulus(),
    {
        proof {
            lemma_constants();
            assert(1 * self.0@ < word_base() * modulus()) by (nonlinear_arith)
                requires
                    self.0@ < modulus(),
                    modulus() < word_base(),
            ;
        }
        crate::field::mul(U256::one(), self.0)
    }

    pub fn zero() -> (r: BaseFelt)
        ensures
            r.wf(),
            r.value() == 0,
    {
        proof {
            lemma_constants();
            lemma_mul_basics(r_inverse() as int);
            lemma_small_mod(0, modulus());
        }
        BaseFelt(U256::zero())
    }

    pub fn one() -> (r: BaseFelt)
        ensures
            r.wf(),
            r.value() == 1,
    {
        proof {
            lemma_constants();
            lemma_small_mod(1, modulus());
        }
        BaseFelt::new(U256::one())
    }

    pub fn is_zero(&self) -> (r: bool)
        requires
            self.wf(),
        ensures
            r == (self.value() == 0),
    {
        proof {
            lemma_mont_round_trip(self.0@);
            lemma_constants();
            lemma_mul_basics(r_inverse() as int);
            lemma_mul_basics(word_base() as int);
            lemma_small_mod(0, modulus());
        }
        self.0.is_zero()
    }

    pub fn is_one(&self) -> (r: bool)
        requires
            self.wf(),
        ensures
            r == (self.value() == 1),
    {
        let one = BaseFelt::one();
        proof {
            lemma_mont_round_trip(self.0@);
            lemma_mont_round_trip(one.0@);
        }
        self.0.eq(one.0)
    }

    pub fn add(self, rhs: BaseFelt) -> (r: BaseFelt)
        requires
            self.wf(),
            rhs.wf(),
        ensures
            r.wf(),
            r.value() == (self.value() + rhs.value()) % modulus(),
    {
        proof {
            lemma_from_mont_add(self.0@, rhs.0@);
        }
        BaseFelt(crate::field::add(self.0, rhs.0))
    }

    pub fn sub(self, rhs: BaseFelt) -> (r: BaseFelt)
        requires
            self.wf(),
            rhs.wf(),
        ensures
            r.wf(),
            r.value() == (self.value() + modulus() - rhs.value()) % (modulus() as int),
    {
        proof {
            lemma_constants();
            lemma_mod_pos_bound((rhs.0@ * r_inverse()) as int, modulus() as int);
            lemma_from_mont_sub(self.0@, rhs.0@);
        }
        BaseFelt(crate::field::sub(self.0, rhs.0))
    }

    /// The additive inverse; zero stays zero.
    pub fn neg(self) -> (r: BaseFelt)
        requires
            self.wf(),
        ensures
            r.wf(),
            r.value() == (modulus() - self.value()) % (modulus() as int),
    {
        proof {
            lemma_constants();
            lemma_mod_pos_bound((self.0@ * r_inverse()) as int, modulus() as int);
            lemma_from_mont_sub(0, self.0@);
            lemma_from_mont_sub(0, 0);
            lemma_small_mod(0, modulus());
        }
        BaseFelt(crate::field::sub(U256::zero(), self.0))
    }

    pub fn mul(self, rhs: BaseFelt) -> (r: BaseFelt)
        requires
            self.wf(),
            rhs.wf(),
        ensures
            r.wf(),
            r.value() == (self.value() * rhs.value()) % modulus(),
    {
        proof {
            lemma_constants();
            lemma_from_mont_mul(self.0@, rhs.0@);
            assert(self.0@ * rhs.0@ < word_base() * modulus()) by (nonlinear_arith)
                requires
                    self.0@ < modulus(),
                    rhs.0@ < modulus(),
                    modulus() < word_base(),
            ;
        }
        BaseFelt(crate::field::mul(self.0, rhs.0))
    }

    pub fn square(self) -> (r: BaseFelt)
        requires
            self.wf(),
        ensures
            r.wf(),
            r.value() == (self.value() * self.value()) % modulus(),
    {
        self.mul(self)
    }

    /// The multiplicative inverse; `None` when there is none (zero has none).
    pub fn inverse(&self) -> (r: Option<BaseFelt>)
        requires
            self.wf(),
        ensures
            is_inverse_result(*self, r),
            modulus_is_prime() && self.value() != 0 ==> r is Some,
    {
        match modular_inverse(self.0) {
            Some(y) => {
                proof {
                    lemma_inverse_values(self.0@, y@);
                }
                Some(BaseFelt(y))
            },
            None => {
                proof {
                    lemma_no_inverse(self.0@);
                }
                None
            },
        }
    }

    /// Replaces the element by its inverse where there is one; says whether
    /// there was.
    pub fn inverse_in_place(&mut self) -> (r: bool)
        requires
            old(self).wf(),
        ensures
            final(self).wf(),
            r == invertible(old(self).value()),
            r ==> (old(self).value() * final(self).value()) % modulus() == 1,
            !r ==> *final(self) == *old(self),
    {
        match self.inverse() {
            Some(y) => {
                *self = y;
                true
            },
            None => false,
        }
    }

    /// `self / rhs`, for a `rhs` with an inverse.
    pub fn div(self, rhs: BaseFelt) -> (r: BaseFelt)
        requires
            self.wf(),
            rhs.wf(),
            invertible(rhs.value()),
        ensures
            r.wf(),
            (r.value() * rhs.value()) % modulus() == self.value(),
    {
        proof {
            if shares_factor_with_modulus(rhs.0@) {
                lemma_no_inverse(rhs.0@);
            }
        }
        let r = crate::field::div(self.0, rhs.0);
        proof {
            lemma_div_values(self.0@, rhs.0@, r@);
        }
        BaseFelt(r)
    }

    /// `self^power` by square-and-multiply over the bits of `power`, lowest
    /// first; `self^0` is one.
    pub fn pow(self, power: U256) -> (r: BaseFelt)
        requires
            self.wf(),
        ensures
            r.wf(),
            r.value() == pow(self.value() as int, power@) % (modulus() as int),
    {
        proof {
            lemma_constants();
            lemma_pow0(self.value() as int);
            lemma_small_mod(1, modulus());
        }
        if power.is_zero() {
            return BaseFelt::one();
        } else if self.is_zero() {
            proof {
                lemma0_pow(power@);
                lemma_small_mod(0, modulus());
            }
            return BaseFelt::zero();
        }
        let mut res = BaseFelt::one();
        let mut rest = power;
        let mut acc = self;
        let one = U256 { high: 0, low: 1 };
        proof {
            lemma_mul_basics(pow(self.value() as int, power@));
        }
        while !rest.is_zero()
            invariant
                res.wf(),
                acc.wf(),
                one.low == 1,
                (res.value() * pow(acc.value() as int, rest@)) % (modulus() as int)
                    == pow(self.value() as int, power@) % (modulus() as int),
            decreases rest@,
        {
            proof {
                vstd::arithmetic::power2::lemma2_to64();
                lemma_pow_step(res.value() as int, acc.value() as int, rest@, 
                    if rest@ % 2 == 1 { ((res.value() * acc.value()) % modulus()) as int } else { res.value() as int },
                    ((acc.value() * acc.value()) % modulus()) as int);
            }
            if rest.is_odd() {
                res = res.mul(acc);
            }
            rest = rest.shr(one);
            acc = acc.square();
        }
        proof {
            lemma_pow0(acc.value() as int);
            lemma_mul_basics(res.value() as int);
            lemma_small_mod(res.value(), modulus());
        }
        res
    }

    /// `2 * self`: a plain sum when the held value is at most half the
    /// modulus, else `x - (N - x)`, so that no intermediate leaves `[0, N)`.
    pub fn double(&self) -> (r: BaseFelt)
        requires
            self.wf(),
        ensures
            r.wf(),
            r.value() == (2 * self.value()) % modulus(),
    {
        let n = modulus_u256();
        let half = n.shr(U256::one());
        proof {
            lemma_constants();
            vstd::arithmetic::power2::lemma2_to64();
            lemma_from_mont_add(self.0@, self.0@);
            lemma_view_bounds(self.0);
        }
        if !self.0.gt(half) {
            proof {
                lemma_small_mod(self.0@ + self.0@, word_base());
                lemma_small_mod(self.0@ + self.0@, modulus());
            }
            BaseFelt(self.0.add(self.0))
        } else {
            proof {
                lemma_small_mod((modulus() - self.0@) as nat, word_base());
                lemma_small_mod((2 * self.0@ - modulus()) as nat, word_base());
                lemma_fundamental_div_mod_converse((self.0@ + self.0@) as int, modulus() as int, 1, 2 * self.0@ - modulus());
            }
            BaseFelt(self.0.sub(n.sub(self.0)))
        }
    }
}

} // verus!

verus! {

/// The product, modulo `N`, of the integers of the nonzero elements.
pub open spec fn nonzero_product(xs: Seq<BaseFelt>) -> nat
    decreases xs.len(),
{
    if xs.len() == 0 {
        1
    } else if xs.last().value() == 0 {
        nonzero_product(xs.drop_last())
    } else {
        (nonzero_product(xs.drop_last()) * xs.last().value()) % modulus()
    }
}

/// Zero has no inverse.
pub proof fn lemma_zero_not_invertible()
    ensures
        !invertible(0),
{
    lemma_constants();
    if invertible(0) {
        let z = choose|z: nat| #[trigger] ((0 * z) % modulus()) == 1;
        lemma_mul_basics(z as int);
        lemma_small_mod(0, modulus());
    }
}

/// In the backward pass: with `inv` the inverse of `pre * v`, `inv * pre` is
/// the inverse of `v` and `inv * v` that of `pre`.
proof fn lemma_batch_step(inv: nat, pre: nat, v: nat)
    requires
        (inv * ((pre * v) % modulus())) % modulus() == 1,
    ensures
        (v * ((inv * pre) % modulus())) % modulus() == 1,
        (((inv * v) % modulus()) * pre) % modulus() == 1,
{
    let p = modulus() as int;
    lemma_constants();
    lemma_mul_mod_noop_right(inv as int, (pre * v) as int, p);
    lemma_mul_mod_noop_right(v as int, (inv * pre) as int, p);
    lemma_mul_mod_noop_left((inv * v) as int, pre as int, p);
    assert(inv * (pre * v) == v * (inv * pre)) by {
        broadcast use group_mul_properties;

    }
    assert(inv * (pre * v) == (inv * v) * pre) by {
        broadcast use group_mul_properties;

    }
}

/// Inverts every element with one field inversion: prefix products forward,
/// one inversion of the whole product, then each inverse backward from the
/// prefix before it. Zero elements get `None`. Should the whole product have
/// no inverse, each element is inverted on its own.
pub fn batch_inverse(values: &Vec<BaseFelt>) -> (r: Vec<Option<BaseFelt>>)
    requires
        forall|i: int| 0 <= i < values.len() ==> (#[trigger] values[i]).wf(),
    ensures
        r.len() == values.len(),
        forall|i: int| 0 <= i < values.len() ==> is_inverse_result(values[i], #[trigger] r[i]),
{
    let n = values.len();
    let mut prefix: Vec<BaseFelt> = Vec::new();
    let mut acc = BaseFelt::one();
    let mut i: usize = 0;
    proof {
        lemma_constants();
        lemma_zero_not_invertible();
        assert(values@.subrange(0, 0) =~= Seq::<BaseFelt>::empty());
    }
    while i < n
        invariant
            n == values.len(),
            i <= n,
            forall|j: int| 0 <= j < values.len() ==> (#[trigger] values[j]).wf(),
            prefix.len() == i,
            acc.wf(),
            acc.value() == nonzero_product(values@.subrange(0, i as int)),
            forall|j: int|
                0 <= j < i ==> (#[trigger] prefix[j]).wf() && prefix[j].value() == nonzero_product(
                    values@.subrange(0, j),
                ),
        decreases n - i,
    {
        proof {
            assert(values@.subrange(0, i + 1).drop_last() =~= values@.subrange(0, i as int));
        }
        prefix.push(acc);
        if !values[i].is_zero() {
            acc = acc.mul(values[i]);
        }
        i = i + 1;
    }
    let mut result: Vec<Option<BaseFelt>> = Vec::new();
    let mut j: usize = 0;
    while j < n
        invariant
            n == values.len(),
            j <= n,
            result.len() == j,
            forall|k: int| 0 <= k < j ==> result[k] is None,
        decreases n - j,
    {
        result.push(None);
        j = j + 1;
    }
    match acc.inverse() {
        Some(total) => {
            let mut inv = total;
            let mut i: usize = n;
            proof {
                assert(values@.subrange(0, n as int) =~= values@);
                lemma_mod_pos_bound((acc.0@ * r_inverse()) as int, modulus() as int);
                lemma_small_mod(nonzero_product(values@), modulus());
                lemma_mul_mod_noop_right(inv.value() as int, nonzero_product(values@) as int, modulus() as int);
            }
            while i > 0
                invariant
                    n == values.len(),
                    i <= n,
                    result.len() == n,
                    prefix.len() == n,
                    forall|k: int| 0 <= k < values.len() ==> (#[trigger] values[k]).wf(),
                    forall|k: int|
                        0 <= k < n ==> (#[trigger] prefix[k]).wf() && prefix[k].value()
                            == nonzero_product(values@.subrange(0, k)),
                    inv.wf(),
                    (inv.value() * nonzero_product(values@.subrange(0, i as int))) % modulus() == 1,
                    forall|k: int| i <= k < n ==> is_inverse_result(values[k], #[trigger] result[k]),
                decreases i,
            {
                i = i - 1;
                proof {
                    assert(values@.subrange(0, i + 1).drop_last() =~= values@.subrange(0, i as int));
                }
                if values[i].is_zero() {
                    proof {
                        lemma_zero_not_invertible();
                    }
                    result.set(i, None);
                } else {
                    proof {
                        lemma_batch_step(inv.value(), prefix[i as int].value(), values[i as int].value());
                    }
                    result.set(i, Some(inv.mul(prefix[i])));
                    inv = inv.mul(values[i]);
                }
                assert(is_inverse_result(values[i as int], result[i as int]));
            }
        },
        None => {
            let mut i: usize = 0;
            while i < n
                invariant
                    n == values.len(),
                    i <= n,
                    result.len() == n,
                    forall|k: int| 0 <= k < values.len() ==> (#[trigger] values[k]).wf(),
                    forall|k: int| 0 <= k < i ==> is_inverse_result(values[k], #[trigger] result[k]),
                decreases n - i,
            {
                result.set(i, values[i].inverse());
                i = i + 1;
            }
        },
    }
    result
}

} // verus!

verus! {

/// An element plus its negation is zero.
pub proof fn lemma_add_neg(a: BaseFelt)
    requires
        a.wf(),
    ensures
        (a.value() + (modulus() - a.value()) % (modulus() as int)) % (modulus() as int) == 0,
{
    let p = modulus() as int;
    lemma_constants();
    lemma_mod_pos_bound((a.0@ * r_inverse()) as int, p);
    lemma_add_mod_noop_right(a.value() as int, p - a.value(), p);
    lemma_mod_self_0(p);
}

/// Doubling is adding an element to itself.
pub proof fn lemma_double_is_sum(a: BaseFelt)
    ensures
        (2 * a.value()) % modulus() == (a.value() + a.value()) % modulus(),
{
}

/// Lifting an integer below `N` into the field and projecting it back gives
/// the integer.
pub proof fn lemma_new_as_integer(v: U256)
    requires
        v@ < modulus(),
    ensures
        v@ % modulus() == v@,
{
    lemma_small_mod(v@, modulus());
}

/// `a^p * a^q == a^(p+q)` in the field.
pub proof fn lemma_pow_product(a: BaseFelt, p: nat, q: nat)
    ensures
        ((pow(a.value() as int, p) % (modulus() as int)) * (pow(a.value() as int, q) % (modulus() as int)))
            % (modulus() as int) == pow(a.value() as int, p + q) % (modulus() as int),
{
    lemma_constants();
    lemma_pow_adds(a.value() as int, p, q);
    lemma_mul_mod_noop(pow(a.value() as int, p), pow(a.value() as int, q), modulus() as int);
}

/// What an inversion returns is determined by the element: a batch
/// inversion and a single one agree.
pub proof fn lemma_inverse_result_unique(x: BaseFelt, r1: Option<BaseFelt>, r2: Option<BaseFelt>)
    requires
        x.wf(),
        is_inverse_result(x, r1),
        is_inverse_result(x, r2),
    ensures
        r1 == r2,
{
    lemma_constants();
    match (r1, r2) {
        (Some(y1), Some(y2)) => {
            lemma_mod_pos_bound((y1.0@ * r_inverse()) as int, modulus() as int);
            lemma_mod_pos_bound((y2.0@ * r_inverse()) as int, modulus() as int);
            lemma_inverse_unique(x.value(), y1.value(), y2.value());
            lemma_from_mont_injective(y1.0@, y2.0@);
            lemma_limb_order(y1.0, y2.0);
        },
        (Some(y1), None) => {
            assert(invertible(x.value())) by {
                assert((x.value() * y1.value()) % modulus() == 1);
            }
        },
        (None, Some(y2)) => {
            assert(invertible(x.value())) by {
                assert((x.value() * y2.value()) % modulus() == 1);
            }
        },
        (None, None) => {},
    }
}

} // verus!

verus! {

/// From `a * r == -2^k (mod N)`, `a` has an inverse: `2^k` has one, since
/// `(N + 1) / 2` inverts 2.
proof fn lemma_invertible_from_power(a: int, r: int, k: nat)
    requires
        0 <= a,
        0 <= r,
        (a * r + pow2(k)) % (modulus() as int) == 0,
    ensures
        invertible(a as nat),
{
    let p = modulus() as int;
    lemma_constants();
    let h = (p + 1) / 2;
    let hk = pow(h, k);
    lemma_pow_positive(h, k);
    lemma_pow2(k);
    // 2^k * h^k == (2h)^k == 1 (mod N)
    lemma_pow_distributes(2, h, k);
    assert(2 * h == p + 1);
    lemma_pow_mod_noop(p + 1, k, p);
    lemma_mod_multiples_vanish(1, 1, p);
    lemma_small_mod(1, p as nat);
    lemma1_pow(k);
    assert((pow2(k) * hk) % p == 1);
    // z = (N - r mod N) * h^k
    lemma_mod_pos_bound(r, p);
    let z = (p - r % p) * hk;
    assert(z >= 0) by (nonlinear_arith)
        requires
            z == (p - r % p) * hk,
            p - r % p > 0,
            hk > 0,
    ;
    // a * (N - r mod N) == 2^k (mod N)
    assert((a * (p - r % p)) % p == (pow2(k) as int) % p) by {
        lemma_mul_is_distributive_sub(a, p, r % p);
        lemma_mul_mod_noop_right(a, r, p);
        lemma_fundamental_div_mod(a * r + pow2(k), p);
        let c = (a * r + pow2(k)) / p;
        lemma_fundamental_div_mod(a * r, p);
        let d = (a * r) / p;
        assert(a * (r % p) == a * r - a * (p * (r / p))) by {
            lemma_fundamental_div_mod(r, p);
            lemma_mul_is_distributive_sub(a, r, p * (r / p));
        }
        assert(a * (p * (r / p)) == (a * (r / p)) * p) by {
            lemma_mul_is_associative(a, p, r / p);
            lemma_mul_is_commutative(p, r / p);
            lemma_mul_is_associative(a, r / p, p);
        }
        assert(a * p - a * (r % p) == pow2(k) + (a - c + a * (r / p)) * p) by {
            lemma_mul_is_commutative(a, p);
            lemma_mul_is_commutative(p, c);
            lemma_mul_is_distributive_add_other_way(p, a - c, a * (r / p));
            lemma_mul_is_distributive_sub_other_way(p, a, c);
        }
        lemma_mod_multiples_vanish(a - c + a * (r / p), pow2(k) as int, p);
    }
    assert((a * z) % p == 1) by {
        lemma_mul_is_associative(a, p - r % p, hk);
        lemma_mul_congruent(a * (p - r % p), pow2(k) as int, hk, p);
    }
    assert(((a as nat) * (z as nat)) % modulus() == 1);
}

/// Runs the binary extended GCD in proof: with `N` prime, it ends with
/// `u == 1` for any `0 < a < N`, which gives `a` an inverse.
proof fn lemma_gcd_run(a: int, u: int, v: int, r: int, s: int, k: nat)
    requires
        modulus_is_prime(),
        0 < a < modulus(),
        gcd_state(modulus() as int, a, u, v, r, s, pow2(k) as int),
    ensures
        invertible(a as nat),
    decreases u + v,
{
    let p = modulus() as int;
    let pk = pow2(k) as int;
    lemma_constants();
    lemma2_to64();
    lemma_pow2_adds(k, 1);
    if v == 0 {
        lemma_gcd_common_factor(p, a, u, r, s, pk);
        if u > 1 {
            if u < p {
                assert(modulus() % (u as nat) != 0);
            } else if u > p {
                lemma_small_mod(modulus(), u as nat);
            } else {
                lemma_small_mod(a as nat, modulus());
            }
        }
        lemma_mul_basics(r);
        assert(u == 1);
        lemma_mul_basics(pk);
        assert(u * pk == pk);
        assert((a * r + pk) % p == 0);
        lemma_invertible_from_power(a, r, k);
    } else if u % 2 == 0 {
        lemma_gcd_halve_u(p, a, u, v, r, s, pk);
        lemma_gcd_run(a, u / 2, v, r, 2 * s, k + 1);
    } else if v % 2 == 0 {
        lemma_gcd_halve_v(p, a, u, v, r, s, pk);
        lemma_gcd_run(a, u, v / 2, 2 * r, s, k + 1);
    } else if u > v {
        lemma_gcd_reduce_u(p, a, u, v, r, s, pk);
        lemma_gcd_run(a, (u - v) / 2, v, r + s, 2 * s, k + 1);
    } else {
        lemma_gcd_reduce_v(p, a, u, v, r, s, pk, 2 * r);
        lemma_gcd_run(a, u, (v - u) / 2, 2 * r, s + r, k + 1);
    }
}

/// With `N` prime, every nonzero integer below `N` has an inverse.
pub proof fn lemma_prime_nonzero_invertible(a: nat)
    requires
        modulus_is_prime(),
        0 < a < modulus(),
    ensures
        invertible(a),
{
    let p = modulus() as int;
    lemma_constants();
    lemma2_to64();
    lemma_mod_self_0(p);
    lemma_mod_multiples_basic(1, p);
    assert(a * 1 - a * 1 == 0);
    assert(p * a * 1 == p * a);
    assert(p * 1 == p);
    lemma_mul_basics(a as int);
    lemma_small_mod(0, modulus());
    lemma_gcd_run(a as int, p, a as int, 0, 1, 0);
}

/// With `N` prime, a product is zero only when a factor is.
pub proof fn lemma_prime_no_zero_divisors(x: nat, y: nat)
    requires
        modulus_is_prime(),
        x < modulus(),
        y < modulus(),
        (x * y) % modulus() == 0,
    ensures
        x == 0 || y == 0,
{
    let p = modulus() as int;
    lemma_constants();
    if x != 0 {
        lemma_prime_nonzero_invertible(x);
        let z = choose|z: nat| #[trigger] ((x * z) % modulus()) == 1;
        // y == (z * x) * y == z * (x * y) == 0
        lemma_small_mod(1, modulus());
        lemma_mul_congruent((x * z) as int, 1, y as int, p);
        lemma_mul_congruent((x * y) as int, 0, z as int, p);
        assert((x * z) * y == (x * y) * z) by {
            broadcast use group_mul_properties;

        }
        lemma_small_mod(y, modulus());
        lemma_mul_basics(z as int);
        lemma_mul_basics(y as int);
        lemma_small_mod(0, modulus());
    }
}

/// With `N` prime, `v * v - v` vanishes exactly for `v` equal to 0 or 1.
pub proof fn lemma_binary_values(v: nat)
    requires
        modulus_is_prime(),
        v < modulus(),
    ensures
        ((v * v + modulus() - v) % (modulus() as int) == 0) == (v == 0 || v == 1),
{
    let p = modulus() as int;
    lemma_constants();
    lemma_mul_basics(v as int);
    lemma_small_mod(0, modulus());
    lemma_mod_self_0(p);
    if v >= 1 {
        let w = (v - 1) as nat;
        assert(v * v + p - v == v * w + p) by {
            lemma_mul_is_distributive_sub(v as int, v as int, 1);
        }
        lemma_mod_multiples_vanish(1, (v * w) as int, p);
        if (v * v + modulus() - v) % p == 0 {
            lemma_prime_no_zero_divisors(v, w);
        }
        if v == 1 {
            assert(w == 0);
            lemma_mul_basics(v as int);
        }
    } else {
        assert(v == 0);
    }
}

} // verus!

verus! {

/// With `N` prime, inverting a nonzero element, alone or in a batch, gives
/// its inverse.
pub proof fn lemma_nonzero_inverse(x: BaseFelt, r: Option<BaseFelt>)
    requires
        modulus_is_prime(),
        x.wf(),
        x.value() != 0,
        is_inverse_result(x, r),
    ensures
        r matches Some(y) && y.wf() && (x.value() * y.value()) % modulus() == 1,
{
    lemma_constants();
    lemma_mod_pos_bound((x.0@ * r_inverse()) as int, modulus() as int);
    lemma_prime_nonzero_invertible(x.value());
}

} // verus!
