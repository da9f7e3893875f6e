//! Fixed-width 256-bit unsigned integers held as two 128-bit limbs.

use vstd::arithmetic::div_mod::*;
use vstd::arithmetic::mul::*;
use vstd::arithmetic::power2::*;
use vstd::bits::*;
use vstd::prelude::*;

verus! {

/// `2^128`, the weight of the high limb.
pub open spec fn limb_base() -> nat {
    u128::MAX as nat + 1
}

/// `2^256`, the size of the container.
pub open spec fn word_base() -> nat {
    limb_base() * limb_base()
}

/// The limb and container sizes as powers of two.
pub proof fn lemma_bases_are_powers()
    ensures
        pow2(64) == half_base(),
        pow2(128) == limb_base(),
        pow2(256) == word_base(),
        pow2(127) * 2 == limb_base(),
{
    lemma2_to64();
    lemma_pow2_adds(64, 64);
    lemma_pow2_adds(128, 128);
    lemma_pow2_adds(127, 1);
    lemma_word_base();
}

/// `2^k` as a limb.
fn pow2_limb(k: u128) -> (r: u128)
    requires
        k < 128,
    ensures
        r as nat == pow2(k as nat),
{
    let top: u128 = 0x8000_0000_0000_0000_0000_0000_0000_0000;
    proof {
        lemma_bases_are_powers();
        lemma_u128_shr_is_div(top, (127 - k) as u128);
        lemma_pow2_adds(k as nat, (127 - k) as nat);
        lemma_pow2_pos((127 - k) as nat);
        lemma_div_by_multiple(pow2(k as nat) as int, pow2((127 - k) as nat) as int);
    }
    top >> (127 - k)
}

/// The container is much larger than a limb.
pub proof fn lemma_word_base()
    ensures
        word_base() == limb_base() * limb_base(),
        word_base() > 8 * limb_base(),
        limb_base() == half_base() * half_base(),
        word_base() == 2 * (word_base() / 2),
{
    let b = limb_base();
    lemma_mul_is_associative(2, (b / 2) as int, b as int);
    assert(b * b > 8 * b) by (nonlinear_arith)
        requires
            b > 8,
    ;
    assert(half_base() * half_base() == limb_base()) by (nonlinear_arith)
        requires
            half_base() == u64::MAX as nat + 1,
            limb_base() == u128::MAX as nat + 1,
    ;
}

/// An unsigned integer in `[0, 2^256)`, as a high and a low 128-bit limb.
#[derive(Clone, Copy, Debug, PartialEq, Eq, Structural, Hash, PartialOrd, Ord)]
pub struct U256 {
    pub high: u128,
    pub low: u128,
}

impl View for U256 {
    type V = nat;

    open spec fn view(&self) -> nat {
        self.high as nat * limb_base() + self.low as nat
    }
}

pub proof fn lemma_view_bounds(x: U256)
    ensures
        x@ < word_base(),
        x@ % limb_base() == x.low as nat,
        x@ / limb_base() == x.high as nat,
{
    assert(x.high as nat * limb_base() <= (limb_base() - 1) * limb_base()) by (nonlinear_arith)
        requires
            x.high < limb_base(),
    ;
    lemma_fundamental_div_mod_converse(x@ as int, limb_base() as int, x.high as int, x.low as int);
}

impl U256 {
    pub fn zero() -> (r: U256)
        ensures
            r@ == 0,
    {
        U256 { high: 0, low: 0 }
    }

    pub fn one() -> (r: U256)
        ensures
            r@ == 1,
    {
        U256 { high: 0, low: 1 }
    }

    /// The largest value, `2^256 - 1`.
    pub fn max_value() -> (r: U256)
        ensures
            r@ == word_base() - 1,
    {
        proof {
            let b = limb_base() as int;
            assert((b - 1) * b + (b - 1) == b * b - 1) by (nonlinear_arith);
        }
        U256 { high: u128::MAX, low: u128::MAX }
    }

    pub fn is_zero(&self) -> (r: bool)
        ensures
            r == (self@ == 0),
    {
        proof {
            lemma_limb_order(*self, U256 { high: 0, low: 0 });
        }
        self.high == 0 && self.low == 0
    }

    pub fn is_one(&self) -> (r: bool)
        ensures
            r == (self@ == 1),
    {
        proof {
            lemma_limb_order(*self, U256 { high: 0, low: 1 });
        }
        self.high == 0 && self.low == 1
    }

    /// Equality of both limbs.
    pub fn eq(self, rhs: Self) -> (r: bool)
        ensures
            r == (self@ == rhs@),
    {
        proof {
            lemma_view_bounds(self);
            lemma_view_bounds(rhs);
        }
        self.high == rhs.high && self.low == rhs.low
    }

    /// Strictly greater: high limbs first, low limbs break a tie.
    pub fn gt(self, rhs: Self) -> (r: bool)
        ensures
            r == (self@ > rhs@),
    {
        proof {
            lemma_view_bounds(self);
            lemma_view_bounds(rhs);
            lemma_limb_order(self, rhs);
        }
        self.high > rhs.high || (self.high == rhs.high && self.low > rhs.low)
    }

    /// Strictly less: high limbs first, low limbs break a tie.
    pub fn lt(self, rhs: Self) -> (r: bool)
        ensures
            r == (self@ < rhs@),
    {
        proof {
            lemma_limb_order(rhs, self);
        }
        self.high < rhs.high || (self.high == rhs.high && self.low < rhs.low)
    }

    /// Sum modulo `2^256`, with the carry out of the container.
    pub fn overflowing_add(self, rhs: Self) -> (r: (U256, bool))
        ensures
            r.0@ + (if r.1 { word_base() } else { 0 }) == self@ + rhs@,
    {
        let carry_low = rhs.low > u128::MAX - self.low;
        let low: u128 = if carry_low {
            rhs.low - (u128::MAX - self.low) - 1
        } else {
            self.low + rhs.low
        };
        let c: u128 = if carry_low { 1 } else { 0 };
        let h1 = self.high.wrapping_add(rhs.high);
        let overflow = rhs.high > u128::MAX - self.high || (h1 == u128::MAX && carry_low);
        let high = h1.wrapping_add(c);
        proof {
            let b = limb_base();
            assert(low as nat + (if carry_low { b } else { 0 }) == self.low as nat + rhs.low as nat);
            assert(high as nat + (if overflow { b } else { 0 }) == self.high as nat + rhs.high as nat + c as nat);
            assert(word_base() == b * b);
            assert((self.high as nat + rhs.high as nat + c as nat) * b == self.high as nat * b + rhs.high as nat * b + c as nat * b) by (nonlinear_arith);
            assert((high as nat + (if overflow { b } else { 0 })) * b == high as nat * b + (if overflow { b * b } else { 0 })) by (nonlinear_arith);
        }
        (U256 { high, low }, overflow)
    }

    /// Sum modulo `2^256`.
    pub fn add(self, rhs: Self) -> (r: U256)
        ensures
            r@ == (self@ + rhs@) % word_base(),
    {
        let (s, overflow) = self.overflowing_add(rhs);
        proof {
            lemma_view_bounds(s);
            if overflow {
                lemma_fundamental_div_mod_converse((self@ + rhs@) as int, word_base() as int, 1, s@ as int);
            } else {
                lemma_small_mod(s@, word_base());
            }
        }
        s
    }

    /// Difference modulo `2^256`, with the borrow out of the container.
    pub fn overflowing_sub(self, rhs: Self) -> (r: (U256, bool))
        ensures
            r.0@ == self@ - rhs@ + (if r.1 { word_base() } else { 0 }),
            r.1 == (self@ < rhs@),
    {
        let borrow_low = self.low < rhs.low;
        let low: u128 = if borrow_low {
            u128::MAX - (rhs.low - self.low) + 1
        } else {
            self.low - rhs.low
        };
        let c: u128 = if borrow_low { 1 } else { 0 };
        let borrow = self.high < rhs.high || (self.high == rhs.high && borrow_low);
        let high = self.high.wrapping_sub(rhs.high).wrapping_sub(c);
        proof {
            let b = limb_base();
            lemma_view_bounds(self);
            lemma_view_bounds(rhs);
            lemma_limb_order(rhs, self);
            assert(word_base() == b * b);
            assert(low as int == self.low as int - rhs.low as int + (if borrow_low { b as int } else { 0 }));
            assert(high as int == self.high as int - rhs.high as int - c as int + (if borrow { b as int } else { 0 }));
            assert((self.high as int - rhs.high as int - c as int + (if borrow { b as int } else { 0 })) * b
                == self.high as int * b - rhs.high as int * b - c as int * b + (if borrow { b as int * b } else { 0 })) by (nonlinear_arith);
        }
        (U256 { high, low }, borrow)
    }

    /// Difference modulo `2^256`.
    pub fn sub(self, rhs: Self) -> (r: U256)
        ensures
            r@ == (self@ - rhs@) % (word_base() as int),
    {
        let (d, borrow) = self.overflowing_sub(rhs);
        proof {
            lemma_view_bounds(d);
            if borrow {
                lemma_fundamental_div_mod_converse(self@ - rhs@, word_base() as int, -1, d@ as int);
            } else {
                lemma_small_mod(d@, word_base());
            }
        }
        d
    }

    /// Product modulo `2^256`: the low 256 bits of the 512-bit product.
    pub fn mul(self, rhs: Self) -> (r: U256)
        ensures
            r@ == (self@ * rhs@) % word_base(),
    {
        let w = mul_wide(self.low, rhs.low);
        let cross1 = self.high.wrapping_mul(rhs.low);
        let cross2 = self.low.wrapping_mul(rhs.high);
        let high = w.high.wrapping_add(cross1).wrapping_add(cross2);
        proof {
            let b = limb_base() as int;
            let ah = self.high as int;
            let al = self.low as int;
            let bh = rhs.high as int;
            let bl = rhs.low as int;
            lemma_two_digit_product(ah, al, bh, bl, b);
            let t = ah * bl + al * bh + w.high as int;
            lemma_add_mod_noop(w.high as int, ah * bl, b);
            lemma_add_mod_noop(w.high as int + ah * bl, al * bh, b);
            lemma_mod_twice(w.high as int + ah * bl, b);
            assert(high as int == t % b) by {
                lemma_small_mod(cross1 as nat, b as nat);
                lemma_small_mod(cross2 as nat, b as nat);
                lemma_add_mod_noop(w.high as int, cross1 as int, b);
                lemma_add_mod_noop((w.high as int + cross1 as int) % b, cross2 as int, b);
                lemma_mod_twice((w.high as int + ah * bl) % b, b);
            }
            lemma_fundamental_div_mod(t, b);
            let q = t / b;
            assert(self@ * rhs@ == (ah * bh + q) * (b * b) + (high as int * b + w.low as int)) by {
                assert((ah * bh + q) * (b * b) == ah * bh * (b * b) + q * (b * b)) by {
                    lemma_mul_is_distributive_add_other_way(b * b, ah * bh, q);
                }
                assert(q * (b * b) == (q * b) * b) by {
                    lemma_mul_is_associative(q, b, b);
                }
                assert((t % b + q * b) * b == (t % b) * b + (q * b) * b) by {
                    lemma_mul_is_distributive_add_other_way(b, t % b, q * b);
                }
                assert(t * b == (ah * bl + al * bh) * b + w.high as int * b) by {
                    lemma_mul_is_distributive_add_other_way(b, ah * bl + al * bh, w.high as int);
                }
            }
            assert(high as int * b + (w.low as int) < b * b) by (nonlinear_arith)
                requires
                    0 <= high < b,
                    0 <= w.low < b,
            ;
            lemma_fundamental_div_mod_converse((self@ * rhs@) as int, b * b, ah * bh + q, high as int * b + w.low as int);
        }
        U256 { high, low: w.low }
    }

    /// `2^k` for `k < 256`.
    pub fn power_of_two(k: u128) -> (r: U256)
        requires
            k < 256,
        ensures
            r@ == pow2(k as nat),
    {
        proof {
            lemma_bases_are_powers();
        }
        if k < 128 {
            U256 { high: 0, low: pow2_limb(k) }
        } else {
            proof {
                lemma_pow2_adds((k - 128) as nat, 128);
            }
            U256 { high: pow2_limb(k - 128), low: 0 }
        }
    }

    /// Shift left by the low limb of `rhs`, dropping the bits that leave the
    /// container: zero for a shift of 256 or more.
    pub fn shl(self, rhs: Self) -> (r: U256)
        ensures
            r@ == (self@ * pow2(rhs.low as nat)) % word_base(),
    {
        let shift = rhs.low;
        if shift == 0 {
            proof {
                lemma2_to64();
                lemma_view_bounds(self);
                lemma_small_mod(self@, word_base());
            }
            self
        } else if shift >= 256 {
            proof {
                lemma_bases_are_powers();
                lemma_pow2_adds(256, (shift - 256) as nat);
                let k = self@ * pow2((shift - 256) as nat);
                assert(self@ * pow2(shift as nat) == k * word_base()) by {
                    lemma_mul_is_associative(self@ as int, pow2(256) as int, pow2((shift - 256) as nat) as int);
                    lemma_mul_is_commutative(pow2(256) as int, pow2((shift - 256) as nat) as int);
                    lemma_mul_is_associative(self@ as int, pow2((shift - 256) as nat) as int, pow2(256) as int);
                }
                lemma_word_base();
                lemma_mod_multiples_basic(k as int, word_base() as int);
            }
            U256::zero()
        } else {
            self.mul(U256::power_of_two(shift))
        }
    }

    /// Shift right by the low limb of `rhs`: zero for a shift of 256 or more.
    pub fn shr(self, rhs: Self) -> (r: U256)
        ensures
            r@ == self@ / pow2(rhs.low as nat),
    {
        let shift = rhs.low;
        proof {
            lemma_bases_are_powers();
            lemma_view_bounds(self);
        }
        if shift == 0 {
            proof {
                lemma2_to64();
            }
            self
        } else if shift >= 256 {
            proof {
                if shift > 256 {
                    lemma_pow2_strictly_increases(256, shift as nat);
                }
                lemma_small_div_converse_nat(self@, pow2(shift as nat));
            }
            U256::zero()
        } else if shift >= 128 {
            proof {
                lemma_u128_shr_is_div(self.high, (shift - 128) as u128);
                lemma_pow2_adds(128, (shift - 128) as nat);
                lemma_pow2_pos((shift - 128) as nat);
                lemma_div_denominator(self@ as int, limb_base() as int, pow2((shift - 128) as nat) as int);
            }
            U256 { high: 0, low: self.high >> (shift - 128) }
        } else {
            let p = pow2_limb(128 - shift);
            let carried = self.high.wrapping_mul(p);
            proof {
                lemma_u128_shr_is_div(self.high, shift);
                lemma_u128_shr_is_div(self.low, shift);
                lemma_shr_split(self, shift as nat, carried as nat);
            }
            U256 { high: self.high >> shift, low: (self.low >> shift) + carried }
        }
    }

    /// Limb-wise bitwise AND. With `1` it gives the parity.
    pub fn bit_and(&self, rhs: Self) -> (r: U256)
        ensures
            r.high == self.high & rhs.high,
            r.low == self.low & rhs.low,
            rhs@ == 1 ==> r@ == self@ % 2,
    {
        let r = U256 { high: self.high & rhs.high, low: self.low & rhs.low };
        proof {
            if rhs@ == 1 {
                lemma_limb_order(rhs, U256 { high: 0, low: 1 });
                lemma_parity(*self);
            }
        }
        r
    }

    /// The remainder modulo two.
    pub fn is_odd(&self) -> (r: bool)
        ensures
            r == (self@ % 2 == 1),
    {
        let one = U256::one();
        let bit = self.bit_and(one);
        !bit.is_zero()
    }

    /// Quotient and remainder: `rhs * q + r == self` with `r < rhs`.
    /// Division by zero is refused.
    pub fn div_rem(self, rhs: Self) -> (r: (U256, U256))
        requires
            rhs@ != 0,
        ensures
            r.0@ == self@ / rhs@,
            r.1@ == self@ % rhs@,
    {
        proof {
            lemma_view_bounds(self);
            lemma_view_bounds(rhs);
        }
        if rhs.is_one() {
            proof {
                lemma_div_basics(self@ as int);
            }
            (self, U256::zero())
        } else if self.is_zero() || self.lt(rhs) {
            proof {
                lemma_basic_div(self@ as int, rhs@ as int);
                lemma_small_mod(self@, rhs@);
            }
            (U256::zero(), self)
        } else if self.eq(rhs) {
            proof {
                lemma_div_by_self(rhs@ as int);
                lemma_mod_self_0(rhs@ as int);
            }
            (U256::one(), U256::zero())
        } else if self.high == 0 && rhs.high == 0 {
            (U256 { high: 0, low: self.low / rhs.low }, U256 { high: 0, low: self.low % rhs.low })
        } else {
            self.long_division(rhs)
        }
    }

    /// Binary long division: one shift-and-subtract step for each bit of the
    /// dividend, from the highest down.
    fn long_division(self, rhs: Self) -> (r: (U256, U256))
        requires
            rhs@ != 0,
        ensures
            r.0@ == self@ / rhs@,
            r.1@ == self@ % rhs@,
    {
        let ghost d = rhs@;
        let mut quotient = U256::zero();
        let mut remainder = U256::zero();
        let mut i: u128 = 256;
        proof {
            lemma_view_bounds(self);
            lemma_view_bounds(rhs);
            lemma_bases_are_powers();
            lemma_basic_div(self@ as int, pow2(256) as int);
        }
        while i > 0
            invariant
                i <= 256,
                d == rhs@,
                d > 0,
                d < word_base(),
                self@ < word_base(),
                remainder@ < d,
                quotient@ * d + remainder@ == self@ / pow2(i as nat),
            decreases i,
        {
            let bit = self.shr(U256 { high: 0, low: i - 1 }).bit_and(U256::one());
            let ghost prev = self@ / pow2(i as nat);
            let ghost next = self@ / pow2((i - 1) as nat);
            proof {
                lemma_halving_step(self@, (i - 1) as nat);
                lemma_quotient_room(quotient@, remainder@, d, prev, self@, i as nat);
            }
            let q2 = quotient.add(quotient);
            let (doubled, carry) = remainder.overflowing_add(remainder);
            let r2 = doubled.add(bit);
            proof {
                lemma_word_base();
                lemma_view_bounds(doubled);
                lemma_small_mod(quotient@ + quotient@, word_base());
                if !carry {
                    lemma_small_mod(doubled@ + bit@, word_base());
                } else {
                    lemma_small_mod(doubled@ + bit@, word_base());
                }
                assert(q2@ * d + (2 * remainder@ + bit@) == next) by {
                    lemma_mul_is_distributive_add_other_way(d as int, quotient@ as int, quotient@ as int);
                }
            }
            if carry || !r2.lt(rhs) {
                let r3 = r2.sub(rhs);
                let q3 = q2.add(U256::one());
                proof {
                    lemma_small_mod((2 * remainder@ + bit@ - d) as nat, word_base());
                    if carry {
                        lemma_fundamental_div_mod_converse(r2@ - d, word_base() as int, -1, (2 * remainder@ + bit@ - d) as int);
                    }
                    lemma_small_mod(q2@ + 1, word_base());
                    lemma_mul_is_distributive_add_other_way(d as int, q2@ as int, 1);
                }
                quotient = q3;
                remainder = r3;
            } else {
                quotient = q2;
                remainder = r2;
            }
            i = i - 1;
        }
        proof {
            lemma2_to64();
            lemma_div_basics(self@ as int);
            lemma_fundamental_div_mod_converse(self@ as int, d as int, quotient@ as int, remainder@ as int);
        }
        (quotient, remainder)
    }

    /// The decimal digits of the value, most significant first; `"0"` for zero.
    pub fn to_decimal_string(&self) -> (r: String)
        ensures
            r@ == decimal(self@),
    {
        let ten = U256 { high: 0, low: 10 };
        let mut rest = *self;
        let mut acc = String::new();
        loop
            invariant
                ten@ == 10,
                decimal(self@) == decimal(rest@) + acc@,
            decreases rest@,
        {
            let (q, d) = rest.div_rem(ten);
            proof {
                lemma_view_bounds(d);
                lemma_mod_pos_bound(rest@ as int, 10);
                lemma_limb_order(d, U256 { high: 0, low: d.low });
                lemma_fundamental_div_mod(rest@ as int, 10);
            }
            let digit = String::from_str(digit_str(d.low));
            acc = digit.concat(acc.as_str());
            if q.is_zero() {
                proof {
                    assert(decimal(rest@) == seq![digit_char((rest@ % 10) as nat)]);
                }
                return acc;
            }
            proof {
                assert(decimal(rest@) == decimal(q@) + seq![digit_char((rest@ % 10) as nat)]);
                assert(decimal(self@) == decimal(q@) + acc@);
            }
            rest = q;
        }
    }

    /// The low limb, truncated to a `usize`.
    pub fn as_usize(&self) -> (r: usize)
        ensures
            r == self.low as usize,
    {
        self.low as usize
    }
}

/// `2^64`, the weight of the high half of a limb.
pub open spec fn half_base() -> nat {
    u64::MAX as nat + 1
}

/// The product of two limbs as a whole 256-bit value, from the four products
/// of their 64-bit halves.
pub fn mul_wide(x: u128, y: u128) -> (r: U256)
    ensures
        r@ == x as nat * y as nat,
{
    let h: u128 = 0x1_0000_0000_0000_0000;
    let x0 = x % h;
    let x1 = x / h;
    let y0 = y % h;
    let y1 = y / h;
    proof {
        lemma_half_products(x0 as nat, x1 as nat, y0 as nat, y1 as nat);
    }
    let p00 = x0 * y0;
    let p01 = x0 * y1;
    let p10 = x1 * y0;
    let p11 = x1 * y1;
    let mid = p00 / h + p01 % h + p10 % h;
    let low = p00 % h + (mid % h) * h;
    proof {
        let b = half_base() as int;
        lemma_fundamental_div_mod(x as int, b);
        lemma_fundamental_div_mod(y as int, b);
        lemma_fundamental_div_mod(p00 as int, b);
        lemma_fundamental_div_mod(p01 as int, b);
        lemma_fundamental_div_mod(p10 as int, b);
        lemma_fundamental_div_mod(mid as int, b);
        lemma_two_digit_product(x1 as int, x0 as int, y1 as int, y0 as int, b);
        assert(x as nat * y as nat == (p11 + p01 / h + p10 / h + mid / h) * limb_base() + low);
        assert(x as nat * y as nat <= u128::MAX as nat * u128::MAX as nat) by (nonlinear_arith)
            requires
                x <= u128::MAX,
                y <= u128::MAX,
        ;
        assert((u128::MAX as nat) * (u128::MAX as nat) < (u128::MAX as nat + 1) * limb_base()) by (nonlinear_arith);
        assert(low < limb_base());
        assert(p11 + p01 / h + p10 / h + mid / h < limb_base()) by (nonlinear_arith)
            requires
                (p11 + p01 / h + p10 / h + mid / h) * limb_base() + low < (u128::MAX as nat + 1) * limb_base(),
                limb_base() > 0,
        ;
    }
    let high = p11 + p01 / h + p10 / h + mid / h;
    U256 { high, low }
}

/// `(x1 b + x0)(y1 b + y0)` expanded by powers of `b`.
pub proof fn lemma_two_digit_product(x1: int, x0: int, y1: int, y0: int, b: int)
    ensures
        (x1 * b + x0) * (y1 * b + y0) == x1 * y1 * (b * b) + (x0 * y1 + x1 * y0) * b + x0 * y0,
{
    broadcast use group_mul_properties;

    assert((x1 * b + x0) * (y1 * b + y0) == (x1 * b) * (y1 * b) + (x1 * b) * y0 + x0 * (y1 * b) + x0 * y0);
    assert((x1 * b) * (y1 * b) == x1 * y1 * (b * b));
    assert((x1 * b) * y0 + x0 * (y1 * b) == (x0 * y1 + x1 * y0) * b);
}

/// The sum of three limbs, exactly.
fn sum_limbs(x: u128, y: u128, z: u128) -> (r: U256)
    ensures
        r@ == x as nat + y as nat + z as nat,
{
    let s = U256 { high: 0, low: x }.add(U256 { high: 0, low: y }).add(U256 { high: 0, low: z });
    proof {
        lemma_word_base();
        lemma_small_mod(x as nat + y as nat, word_base());
        lemma_small_mod(x as nat + y as nat + z as nat, word_base());
    }
    s
}

/// The full 512-bit product of two values, as its low and high 256-bit halves:
/// `self * rhs == hi * 2^256 + lo`.
pub fn widening_mul(a: U256, b: U256) -> (r: (U256, U256))
    ensures
        r.1@ * word_base() + r.0@ == a@ * b@,
{
    let ll = mul_wide(a.low, b.low);
    let lh = mul_wide(a.low, b.high);
    let hl = mul_wide(a.high, b.low);
    let hh = mul_wide(a.high, b.high);
    let mid = sum_limbs(ll.high, lh.low, hl.low);
    let top = sum_limbs(hh.low, lh.high, hl.high).add(U256 { high: 0, low: mid.high });
    proof {
        let bb = limb_base() as int;
        lemma_view_bounds(mid);
        lemma_view_bounds(hh);
        lemma_small_mod(hh.low as nat + lh.high as nat + hl.high as nat + mid.high as nat, word_base());
        lemma_two_digit_product(a.high as int, a.low as int, b.high as int, b.low as int, bb);
        lemma_view_bounds(a);
        lemma_view_bounds(b);
        assert(a@ * b@ < word_base() * word_base()) by (nonlinear_arith)
            requires
                a@ < word_base(),
                b@ < word_base(),
        ;
        assert(a@ * b@ == (hh.high as int + top.high as int) * (bb * bb * bb) + top.low as int * (bb * bb)
            + mid.low as int * bb + ll.low as int);
        assert(hh.high as int + (top.high as int) < bb) by (nonlinear_arith)
            requires
                a@ * b@ == (hh.high as int + top.high as int) * (bb * bb * bb) + top.low as int * (bb * bb)
                    + mid.low as int * bb + ll.low as int,
                a@ * b@ < word_base() * word_base(),
                word_base() == bb * bb,
                0 <= top.low,
                0 <= mid.low,
                0 <= ll.low,
                bb > 0,
        ;
    }
    let hi = U256 { high: hh.high + top.high, low: top.low };
    let lo = U256 { high: mid.low, low: ll.low };
    (lo, hi)
}

proof fn lemma_half_products(x0: nat, x1: nat, y0: nat, y1: nat)
    requires
        x0 < half_base(),
        x1 < half_base(),
        y0 < half_base(),
        y1 < half_base(),
    ensures
        x0 * y0 < limb_base(),
        x0 * y1 < limb_base(),
        x1 * y0 < limb_base(),
        x1 * y1 < limb_base(),
{
    assert(forall|a: nat, b: nat| a < half_base() && b < half_base() ==> #[trigger] (a * b) < limb_base()) by {
        assert forall|a: nat, b: nat| a < half_base() && b < half_base() implies #[trigger] (a * b) < limb_base() by {
            assert(a * b <= (half_base() - 1) * (half_base() - 1)) by (nonlinear_arith)
                requires
                    a < half_base(),
                    b < half_base(),
            ;
        }
    }
}

/// The character of a decimal digit.
pub open spec fn digit_char(d: nat) -> char {
    if d == 0 {
        '0'
    } else if d == 1 {
        '1'
    } else if d == 2 {
        '2'
    } else if d == 3 {
        '3'
    } else if d == 4 {
        '4'
    } else if d == 5 {
        '5'
    } else if d == 6 {
        '6'
    } else if d == 7 {
        '7'
    } else if d == 8 {
        '8'
    } else {
        '9'
    }
}

/// The decimal notation of `n`, most significant digit first.
pub open spec fn decimal(n: nat) -> Seq<char>
    decreases n,
{
    if n < 10 {
        seq![digit_char(n)]
    } else {
        decimal(n / 10) + seq![digit_char(n % 10)]
    }
}

fn digit_str(d: u128) -> (r: &'static str)
    requires
        d < 10,
    ensures
        r@ == seq![digit_char(d as nat)],
{
    if d == 0 {
        proof { reveal_strlit("0"); }
        "0"
    } else if d == 1 {
        proof { reveal_strlit("1"); }
        "1"
    } else if d == 2 {
        proof { reveal_strlit("2"); }
        "2"
    } else if d == 3 {
        proof { reveal_strlit("3"); }
        "3"
    } else if d == 4 {
        proof { reveal_strlit("4"); }
        "4"
    } else if d == 5 {
        proof { reveal_strlit("5"); }
        "5"
    } else if d == 6 {
        proof { reveal_strlit("6"); }
        "6"
    } else if d == 7 {
        proof { reveal_strlit("7"); }
        "7"
    } else if d == 8 {
        proof { reveal_strlit("8"); }
        "8"
    } else {
        proof { reveal_strlit("9"); }
        "9"
    }
}

/// The parity of a value is that of its low limb.
proof fn lemma_parity(x: U256)
    ensures
        x.high & 0 == 0,
        x.low & 1 == x@ % 2,
{
    let h = x.high;
    let l = x.low;
    assert(h & 0 == 0) by (bit_vector);
    assert(l & 1 == l % 2) by (bit_vector);
    assert(limb_base() == 2 * (limb_base() / 2));
    lemma_mul_is_associative(h as int, 2, (limb_base() / 2) as int);
    lemma_mod_multiples_vanish(h as int * (limb_base() / 2) as int, l as int, 2);
}

/// One more bit of `x`: `x / 2^k == 2 * (x / 2^(k+1)) + bit`.
proof fn lemma_halving_step(x: nat, k: nat)
    ensures
        x / pow2(k) == 2 * (x / pow2(k + 1)) + (x / pow2(k)) % 2,
        (x / pow2(k)) % 2 < 2,
{
    lemma_pow2_pos(k);
    lemma_pow2_adds(k, 1);
    lemma2_to64();
    lemma_div_denominator(x as int, pow2(k) as int, 2);
    lemma_fundamental_div_mod((x / pow2(k)) as int, 2);
}

/// Before a step of the long division, doubling the quotient leaves room for
/// one more bit.
proof fn lemma_quotient_room(q: nat, r: nat, d: nat, prev: nat, x: nat, i: nat)
    requires
        d > 0,
        1 <= i,
        x < word_base(),
        q * d + r == prev,
        prev == x / pow2(i),
    ensures
        2 * q + 1 < word_base(),
{
    lemma_bases_are_powers();
    lemma_pow2_adds(1, (i - 1) as nat);
    lemma2_to64();
    lemma_pow2_pos((i - 1) as nat);
    lemma_div_is_ordered_by_denominator(x as int, 2, pow2(i) as int);
    assert(pow2(i) >= 2) by {
        lemma_mul_inequality(1, pow2((i - 1) as nat) as int, 2);
    }
    assert(q <= q * d) by (nonlinear_arith)
        requires
            d >= 1,
    ;
    lemma_fundamental_div_mod(x as int, 2);
}

proof fn lemma_small_div_converse_nat(x: nat, d: nat)
    requires
        x < d,
    ensures
        x / d == 0,
{
    lemma_basic_div(x as int, d as int);
}

/// The limbs of `x / 2^s` for `0 < s < 128`: the high limb shifted, and the
/// low limb shifted with the bits that cross from the high limb.
proof fn lemma_shr_split(x: U256, s: nat, carried: nat)
    requires
        0 < s < 128,
        carried == (x.high as nat * pow2((128 - s) as nat)) % limb_base(),
    ensures
        x.low as nat / pow2(s) + carried < limb_base(),
        x@ / pow2(s) == (x.high as nat / pow2(s)) * limb_base() + (x.low as nat / pow2(s) + carried),
{
    let b = limb_base() as int;
    let p = pow2(s) as int;
    let c = pow2((128 - s) as nat) as int;
    let h = x.high as int;
    let l = x.low as int;
    lemma_bases_are_powers();
    lemma_pow2_adds(s, (128 - s) as nat);
    assert(p * c == b);
    lemma_pow2_pos(s);
    lemma_pow2_pos((128 - s) as nat);
    lemma_fundamental_div_mod(h, p);
    lemma_fundamental_div_mod(l, p);
    let q = h / p;
    let rr = h % p;
    // the carried bits: (h * c) % b == rr * c
    assert(h * c == q * b + rr * c) by {
        lemma_mul_is_distributive_add_other_way(c, q * p, rr);
        lemma_mul_is_associative(q, p, c);
    }
    assert(rr * c < b) by (nonlinear_arith)
        requires
            0 <= rr < p,
            p * c == b,
            c > 0,
    ;
    assert(0 <= rr * c) by (nonlinear_arith)
        requires
            0 <= rr,
            c > 0,
    ;
    lemma_fundamental_div_mod_converse(h * c, b, q, rr * c);
    assert(carried == rr * c);
    // the low limb's shifted bits fit below the carried ones
    assert(l / p < c) by {
        lemma_div_is_ordered(l, b - 1, p);
        lemma_div_by_multiple(c, p);
        lemma_mul_is_commutative(c, p);
        assert(b / p == c);
        assert((b - 1) / p < c) by {
            lemma_fundamental_div_mod(b - 1, p);
            lemma_mul_is_commutative(p, (b - 1) / p);
            lemma_mul_is_commutative(p, c);
            assert(((b - 1) / p) * p < c * p);
            lemma_mul_strict_inequality_converse((b - 1) / p, c, p);
        }
    }
    assert(rr * c + c <= p * c) by {
        lemma_mod_pos_bound(h, p);
        assert(rr * c + c == (rr + 1) * c) by {
            lemma_mul_is_distributive_add_other_way(c, rr, 1);
        }
        lemma_mul_inequality(rr + 1, p, c);
    }
    assert(l / p + rr * c < b);
    // assemble x = (q * b + rr * c + l / p) * p + l % p
    assert(x@ == (q * b + rr * c + l / p) * p + l % p) by {
        assert(h * b == q * p * b + rr * b) by {
            lemma_mul_is_distributive_add_other_way(b, q * p, rr);
        }
        assert(rr * b == rr * c * p) by {
            lemma_mul_is_associative(rr, c, p);
            lemma_mul_is_commutative(c, p);
        }
        assert(q * p * b == q * b * p) by {
            lemma_mul_is_associative(q, p, b);
            lemma_mul_is_associative(q, b, p);
            lemma_mul_is_commutative(p, b);
        }
        assert((q * b + rr * c + l / p) * p == q * b * p + rr * c * p + (l / p) * p) by {
            lemma_mul_is_distributive_add_other_way(p, q * b + rr * c, l / p);
            lemma_mul_is_distributive_add_other_way(p, q * b, rr * c);
        }
        lemma_mul_is_commutative(l / p, p);
    }
    lemma_fundamental_div_mod_converse(x@ as int, p, q * b + rr * c + l / p, l % p);
}

impl From<u8> for U256 {
    fn from(value: u8) -> (r: U256) {
        U256 { high: 0, low: value as u128 }
    }
}

impl vstd::std_specs::convert::FromSpecImpl<u8> for U256 {
    open spec fn obeys_from_spec() -> bool {
        true
    }

    open spec fn from_spec(value: u8) -> U256 {
        U256 { high: 0, low: value as u128 }
    }
}

impl From<u16> for U256 {
    fn from(value: u16) -> (r: U256) {
        U256 { high: 0, low: value as u128 }
    }
}

impl vstd::std_specs::convert::FromSpecImpl<u16> for U256 {
    open spec fn obeys_from_spec() -> bool {
        true
    }

    open spec fn from_spec(value: u16) -> U256 {
        U256 { high: 0, low: value as u128 }
    }
}

impl From<u32> for U256 {
    fn from(value: u32) -> (r: U256) {
        U256 { high: 0, low: value as u128 }
    }
}

impl vstd::std_specs::convert::FromSpecImpl<u32> for U256 {
    open spec fn obeys_from_spec() -> bool {
        true
    }

    open spec fn from_spec(value: u32) -> U256 {
        U256 { high: 0, low: value as u128 }
    }
}

impl From<u64> for U256 {
    fn from(value: u64) -> (r: U256) {
        U256 { high: 0, low: value as u128 }
    }
}

impl vstd::std_specs::convert::FromSpecImpl<u64> for U256 {
    open spec fn obeys_from_spec() -> bool {
        true
    }

    open spec fn from_spec(value: u64) -> U256 {
        U256 { high: 0, low: value as u128 }
    }
}

impl From<u128> for U256 {
    fn from(value: u128) -> (r: U256) {
        U256 { high: 0, low: value }
    }
}

impl vstd::std_specs::convert::FromSpecImpl<u128> for U256 {
    open spec fn obeys_from_spec() -> bool {
        true
    }

    open spec fn from_spec(value: u128) -> U256 {
        U256 { high: 0, low: value as u128 }
    }
}

/// The order of two values is the lexicographic order of their limbs.
pub proof fn lemma_limb_order(a: U256, b: U256)
    ensures
        (a@ > b@) == (a.high > b.high || (a.high == b.high && a.low > b.low)),
        (a@ == b@) == (a.high == b.high && a.low == b.low),
{
    let base = limb_base();
    if a.high > b.high {
        assert(a.high as nat * base >= (b.high as nat + 1) * base) by (nonlinear_arith)
            requires
                a.high as nat >= b.high as nat + 1,
        ;
    } else if a.high < b.high {
        assert(b.high as nat * base >= (a.high as nat + 1) * base) by (nonlinear_arith)
            requires
                b.high as nat >= a.high as nat + 1,
        ;
    }
}

/// Adding zero keeps a value: `a + 0 == a`.
pub proof fn lemma_add_zero(a: U256)
    ensures
        (a@ + 0) % word_base() == a@,
{
    lemma_view_bounds(a);
    lemma_small_mod(a@, word_base());
}

/// A value less itself is zero: `a - a == 0`.
pub proof fn lemma_sub_self(a: U256)
    ensures
        (a@ - a@) % (word_base() as int) == 0,
{
    lemma_word_base();
    lemma_small_mod(0, word_base());
}

/// Subtraction undoes addition modulo `2^256`: `(a + b) - b == a`.
pub proof fn lemma_add_sub_cancel(a: U256, b: U256)
    ensures
        (((a@ + b@) % word_base()) - b@) % (word_base() as int) == a@,
{
    let w = word_base() as int;
    lemma_view_bounds(a);
    lemma_word_base();
    lemma_small_mod(a@, word_base());
    lemma_mod_sub_mod_left((a@ + b@) as int, b@ as int, w);
}

proof fn lemma_mod_sub_mod_left(x: int, y: int, m: int)
    requires
        m > 0,
    ensures
        (x % m - y) % m == (x - y) % m,
{
    lemma_fundamental_div_mod(x, m);
    lemma_mod_multiples_vanish(x / m, x % m - y, m);
    lemma_mul_is_commutative(m, x / m);
}

/// Shifting by zero keeps a value, both ways.
pub proof fn lemma_shift_zero(a: U256)
    ensures
        (a@ * pow2(0)) % word_base() == a@,
        a@ / pow2(0) == a@,
{
    lemma2_to64();
    lemma_view_bounds(a);
    lemma_small_mod(a@, word_base());
}

/// Shifting by 256 or more leaves zero, both ways.
pub proof fn lemma_shift_out(a: U256, s: nat)
    requires
        s >= 256,
    ensures
        (a@ * pow2(s)) % word_base() == 0,
        a@ / pow2(s) == 0,
{
    lemma_view_bounds(a);
    lemma_bases_are_powers();
    lemma_word_base();
    lemma_pow2_adds(256, (s - 256) as nat);
    let k = a@ * pow2((s - 256) as nat);
    assert(a@ * pow2(s) == k * word_base()) by {
        lemma_mul_is_associative(a@ as int, pow2(256) as int, pow2((s - 256) as nat) as int);
        lemma_mul_is_commutative(pow2(256) as int, pow2((s - 256) as nat) as int);
        lemma_mul_is_associative(a@ as int, pow2((s - 256) as nat) as int, pow2(256) as int);
    }
    lemma_mod_multiples_basic(k as int, word_base() as int);
    if s > 256 {
        lemma_pow2_strictly_increases(256, s);
    }
    lemma_basic_div(a@ as int, pow2(s) as int);
}

/// The quotient and remainder of a division rebuild the dividend, with the
/// remainder below the divisor.
pub proof fn lemma_division_rebuilds(a: U256, d: U256, q: U256, r: U256)
    requires
        d@ != 0,
        q@ == a@ / d@,
        r@ == a@ % d@,
    ensures
        d@ * q@ + r@ == a@,
        r@ < d@,
{
    lemma_fundamental_div_mod(a@ as int, d@ as int);
    lemma_mod_pos_bound(a@ as int, d@ as int);
}

} // verus!
