//! 256-bit machine words: four 64-bit limbs, least significant first.
//!
//! Every arithmetic operation carries an exact contract over the
//! mathematical value of the word, `val()`, with wrapping semantics
//! modulo 2^256.

use vstd::prelude::*;
use vstd::arithmetic::div_mod::{
    lemma_fundamental_div_mod, lemma_fundamental_div_mod_converse,
};

verus! {

pub open spec fn pow64() -> int {
    0x1_0000_0000_0000_0000int
}

pub open spec fn pow128() -> int {
    0x1_0000_0000_0000_0000_0000_0000_0000_0000int
}

pub open spec fn pow192() -> int {
    0x1_0000_0000_0000_0000_0000_0000_0000_0000_0000_0000_0000_0000int
}

pub open spec fn pow256() -> int {
    0x1_0000_0000_0000_0000_0000_0000_0000_0000_0000_0000_0000_0000_0000_0000_0000_0000int
}

/// An unsigned 256-bit word; `l0` is the least significant limb.
#[derive(Clone, Copy, PartialEq, Eq, Structural, Debug)]
pub struct U256 {
    pub l0: u64,
    pub l1: u64,
    pub l2: u64,
    pub l3: u64,
}

impl U256 {
    /// The mathematical value of the word, in `[0, 2^256)`.
    pub open spec fn val(&self) -> int {
        self.l0 + self.l1 * pow64() + self.l2 * pow128() + self.l3 * pow192()
    }

    pub fn zero() -> (r: U256)
        ensures
            r.val() == 0,
    {
        U256 { l0: 0, l1: 0, l2: 0, l3: 0 }
    }

    pub fn from_u64(x: u64) -> (r: U256)
        ensures
            r.val() == x,
    {
        U256 { l0: x, l1: 0, l2: 0, l3: 0 }
    }

    pub fn from_u128(x: u128) -> (r: U256)
        ensures
            r.val() == x,
    {
        let lo: u64 = (x % 0x1_0000_0000_0000_0000) as u64;
        let hi: u64 = (x / 0x1_0000_0000_0000_0000) as u64;
        proof {
            lemma_fundamental_div_mod(x as int, pow64());
        }
        U256 { l0: lo, l1: hi, l2: 0, l3: 0 }
    }

    /// The word's value when it fits in 64 bits, `None` otherwise.
    pub fn to_u64(&self) -> (r: Option<u64>)
        ensures
            match r {
                Some(v) => v == self.val(),
                None => self.val() >= pow64(),
            },
    {
        if self.l1 == 0 && self.l2 == 0 && self.l3 == 0 {
            Some(self.l0)
        } else {
            None
        }
    }

    pub fn is_zero(&self) -> (r: bool)
        ensures
            r <==> self.val() == 0,
    {
        self.l0 == 0 && self.l1 == 0 && self.l2 == 0 && self.l3 == 0
    }

    /// Limb-wise equality decides value equality.
    pub fn eq_word(&self, other: &U256) -> (r: bool)
        ensures
            r <==> self.val() == other.val(),
    {
        proof {
            if self.val() == other.val() {
                lemma_val_injective(*self, *other);
            }
        }
        self.l0 == other.l0 && self.l1 == other.l1 && self.l2 == other.l2 && self.l3 == other.l3
    }

    pub fn lt(&self, other: &U256) -> (r: bool)
        ensures
            r <==> self.val() < other.val(),
    {
        if self.l3 != other.l3 {
            self.l3 < other.l3
        } else if self.l2 != other.l2 {
            self.l2 < other.l2
        } else if self.l1 != other.l1 {
            self.l1 < other.l1
        } else {
            self.l0 < other.l0
        }
    }
}

/// Two words with the same value have the same limbs: the base-2^64
/// representation is unique.
pub proof fn lemma_val_injective(a: U256, b: U256)
    requires
        a.val() == b.val(),
    ensures
        a == b,
{
    lemma_val_parts(a);
    lemma_val_parts(b);
}

/// Each limb is a digit of the value in base 2^64.
pub proof fn lemma_val_parts(a: U256)
    ensures
        a.l0 == a.val() % pow64(),
        a.l1 == (a.val() / pow64()) % pow64(),
        a.l2 == (a.val() / pow128()) % pow64(),
        a.l3 == a.val() / pow192(),
{
    let v = a.val();
    let q0 = a.l1 + a.l2 * pow64() + a.l3 * pow128();
    assert(v == q0 * pow64() + a.l0) by (nonlinear_arith)
        requires
            v == a.l0 + a.l1 * pow64() + a.l2 * pow128() + a.l3 * pow192(),
            q0 == a.l1 + a.l2 * pow64() + a.l3 * pow128(),
    ;
    lemma_fundamental_div_mod_converse(v, pow64(), q0, a.l0 as int);
    let q1 = a.l2 + a.l3 * pow64();
    assert(q0 == q1 * pow64() + a.l1) by (nonlinear_arith)
        requires
            q0 == a.l1 + a.l2 * pow64() + a.l3 * pow128(),
            q1 == a.l2 + a.l3 * pow64(),
    ;
    lemma_fundamental_div_mod_converse(q0, pow64(), q1, a.l1 as int);
    lemma_fundamental_div_mod_converse(q1, pow64(), a.l3 as int, a.l2 as int);
    assert(v / pow128() == q1) by {
        vstd::arithmetic::div_mod::lemma_div_denominator(v, pow64(), pow64());
    }
    assert(v / pow192() == q1 / pow64()) by {
        vstd::arithmetic::div_mod::lemma_div_denominator(v, pow128(), pow64());
    }
}

/// The canonical word holding a given value in `[0, 2^256)`.
#[verifier::opaque]
pub open spec fn u256_of(n: int) -> U256 {
    U256 {
        l0: (n % pow64()) as u64,
        l1: ((n / pow64()) % pow64()) as u64,
        l2: ((n / pow128()) % pow64()) as u64,
        l3: ((n / pow192()) % pow64()) as u64,
    }
}

/// The powers of two that the limb weights are.
pub proof fn lemma_pow2_val()
    ensures
        vstd::arithmetic::power2::pow2(64) == pow64(),
        vstd::arithmetic::power2::pow2(128) == pow128(),
        vstd::arithmetic::power2::pow2(192) == pow192(),
        vstd::arithmetic::power2::pow2(256) == pow256(),
{
    vstd::arithmetic::power2::lemma2_to64();
    vstd::arithmetic::power2::lemma2_to64_rest();
    vstd::arithmetic::power2::lemma_pow2_adds(64, 64);
    assert(pow64() * pow64() == pow128()) by (nonlinear_arith);
    vstd::arithmetic::power2::lemma_pow2_adds(128, 64);
    assert(pow128() * pow64() == pow192()) by (nonlinear_arith);
    vstd::arithmetic::power2::lemma_pow2_adds(192, 64);
    assert(pow192() * pow64() == pow256()) by (nonlinear_arith);
}

/// `u256_of` is a right inverse of `val`.
pub proof fn lemma_u256_of_val(n: int)
    requires
        0 <= n < pow256(),
    ensures
        u256_of(n).val() == n,
{
    reveal(u256_of);
    let w = u256_of(n);
    assert(pow64() * pow64() == pow128()) by (nonlinear_arith);
    assert(pow128() * pow64() == pow192()) by (nonlinear_arith);
    assert(pow192() * pow64() == pow256()) by (nonlinear_arith);
    vstd::arithmetic::div_mod::lemma_fundamental_div_mod(n, pow192());
    assert(n / pow192() < pow64()) by {
        vstd::arithmetic::div_mod::lemma_multiply_divide_lt(n, pow192(), pow64());
    }
    vstd::arithmetic::div_mod::lemma_div_pos_is_pos(n, pow192());
    vstd::arithmetic::div_mod::lemma_small_mod((n / pow192()) as nat, pow64() as nat);
    vstd::arithmetic::div_mod::lemma_breakdown(n, pow128(), pow64());
    vstd::arithmetic::div_mod::lemma_breakdown(n, pow64(), pow64());
    assert(n % pow192() == pow128() * ((n / pow128()) % pow64()) + n % pow128());
    assert(n % pow128() == pow64() * ((n / pow64()) % pow64()) + n % pow64());
}

/// A word is the canonical word of its value.
pub proof fn lemma_canonical(w: U256, n: int)
    requires
        0 <= n < pow256(),
        w.val() == n,
    ensures
        w == u256_of(n),
{
    lemma_u256_of_val(n);
    lemma_val_injective(w, u256_of(n));
}

/// Value bounds: every word's value lies in `[0, 2^256)`.
pub proof fn lemma_val_bounds(a: U256)
    ensures
        0 <= a.val() < pow256(),
{
}

/// One restoring-division step: doubles the partial quotient and
/// remainder, brings the next dividend bit in, and subtracts the
/// divisor once when the remainder allows it.
#[verifier::rlimit(100)]
fn div_step(q: &mut U256, rem: &mut U256, other: &U256, b: u64, Ghost(a_cur): Ghost<int>, Ghost(
    a_next,
): Ghost<int>)
    requires
        0 < other.val(),
        b <= 1,
        old(q).val() * other.val() + old(rem).val() == a_cur,
        old(rem).val() < other.val(),
        a_next == 2 * a_cur + b,
        2 * old(q).val() + 1 < pow256(),
        pow256() % 2 == 0,
    ensures
        final(q).val() * other.val() + final(rem).val() == a_next,
        final(rem).val() < other.val(),
        final(q).val() <= 2 * old(q).val() + 1,
{
    let ghost d = other.val();
    let ghost q_old = q.val();
    let ghost rem_old = rem.val();
    let one = U256 { l0: 1, l1: 0, l2: 0, l3: 0 };
    let (r2, c) = rem.add_carry(rem);
    proof {
        assert(r2.val() % 2 == 0) by (nonlinear_arith)
            requires
                r2.val() + c * pow256() == 2 * rem_old,
                c == 0 || c == 1,
                pow256() % 2 == 0,
                0 <= r2.val() < pow256(),
        ;
    }
    let (r3, c2) = r2.add_carry(&U256 { l0: b, l1: 0, l2: 0, l3: 0 });
    proof {
        assert(c2 == 0);
    }
    let (q2, qc) = q.add_carry(q);
    proof {
        assert(qc == 0);
    }
    let ghost rem2 = c * pow256() + r3.val();
    proof {
        assert(rem2 == 2 * rem_old + b);
        assert(rem2 < 2 * d);
    }
    if c == 1 {
        let (dd, borrow) = r3.sub_borrow(other);
        proof {
            assert(r3.val() < d);
            assert(borrow == 1);
            assert(dd.val() == rem2 - d);
        }
        *rem = dd;
        let (q3, c3) = q2.add_carry(&one);
        proof {
            assert(c3 == 0);
        }
        *q = q3;
        proof {
            lemma_div_step(q_old, rem_old, d, b as int, a_cur, a_next, 1, q.val(), rem.val());
        }
    } else if !r3.lt(other) {
        let (dd, borrow) = r3.sub_borrow(other);
        proof {
            assert(borrow == 0);
            assert(dd.val() == rem2 - d);
        }
        *rem = dd;
        let (q3, c3) = q2.add_carry(&one);
        proof {
            assert(c3 == 0);
        }
        *q = q3;
        proof {
            lemma_div_step(q_old, rem_old, d, b as int, a_cur, a_next, 1, q.val(), rem.val());
        }
    } else {
        *rem = r3;
        *q = q2;
        proof {
            lemma_div_step(q_old, rem_old, d, b as int, a_cur, a_next, 0, q.val(), rem.val());
        }
    }
}

/// One restoring-division step keeps the partial quotient relation.
proof fn lemma_div_step(
    qold: int,
    rold: int,
    d: int,
    b: int,
    a_cur: int,
    a_next: int,
    s: int,
    qn: int,
    rn: int,
)
    requires
        qold * d + rold == a_cur,
        a_next == 2 * a_cur + b,
        qn == 2 * qold + s,
        rn == 2 * rold + b - s * d,
    ensures
        qn * d + rn == a_next,
{
    assert(qn * d == 2 * (qold * d) + s * d) by (nonlinear_arith)
        requires
            qn == 2 * qold + s,
    ;
}

/// One limb addition with carry in and carry out.
fn adc(a: u64, b: u64, c: u64) -> (r: (u64, u64))
    requires
        c <= 1,
    ensures
        r.0 + r.1 * pow64() == a + b + c,
        r.1 <= 1,
{
    let t: u128 = a as u128 + b as u128 + c as u128;
    let lo: u64 = (t % 0x1_0000_0000_0000_0000) as u64;
    let hi: u64 = (t / 0x1_0000_0000_0000_0000) as u64;
    proof {
        lemma_fundamental_div_mod(t as int, pow64());
    }
    (lo, hi)
}

/// One limb multiply-accumulate: `out.0 + out.1 * 2^64 == r + a * b + c`.
fn mac(r: u64, a: u64, b: u64, c: u64) -> (out: (u64, u64))
    ensures
        out.0 + out.1 * pow64() == r + a * b + c,
{
    proof {
        assert((a as int) * (b as int) <= 0xfffffffffffffffe_0000000000000001int)
            by (nonlinear_arith)
            requires
                a <= 0xffff_ffff_ffff_ffffu64,
                b <= 0xffff_ffff_ffff_ffffu64,
        ;
    }
    let t: u128 = r as u128 + (a as u128) * (b as u128) + c as u128;
    let lo: u64 = (t % 0x1_0000_0000_0000_0000) as u64;
    let hi: u64 = (t / 0x1_0000_0000_0000_0000) as u64;
    proof {
        lemma_fundamental_div_mod(t as int, pow64());
    }
    (lo, hi)
}

/// The product of two words, limb by limb: the double sum of the limb
/// products with their base-2^64 weights.
proof fn lemma_limb_product_sum(
    a0: int, a1: int, a2: int, a3: int,
    b0: int, b1: int, b2: int, b3: int,
)
    ensures
        (a0 + a1 * pow64() + a2 * pow128() + a3 * pow192()) * (b0 + b1 * pow64() + b2 * pow128()
            + b3 * pow192()) == a0 * b0 + (a0 * b1 + a1 * b0) * pow64() + (a0 * b2 + a1 * b1 + a2
            * b0) * pow128() + (a0 * b3 + a1 * b2 + a2 * b1 + a3 * b0) * pow192() + (a1 * b3 + a2
            * b2 + a3 * b1) * pow256() + (a2 * b3 + a3 * b2) * pow256() * pow64() + (a3 * b3)
            * pow256() * pow128(),
{
    let bv = b0 + b1 * pow64() + b2 * pow128() + b3 * pow192();
    assert((a0 + a1 * pow64() + a2 * pow128() + a3 * pow192()) * bv == a0 * bv + (a1 * bv)
        * pow64() + (a2 * bv) * pow128() + (a3 * bv) * pow192()) by (nonlinear_arith);
    assert(a0 * bv == a0 * b0 + (a0 * b1) * pow64() + (a0 * b2) * pow128() + (a0 * b3) * pow192())
        by (nonlinear_arith)
        requires
            bv == b0 + b1 * pow64() + b2 * pow128() + b3 * pow192(),
    ;
    assert(a1 * bv == a1 * b0 + (a1 * b1) * pow64() + (a1 * b2) * pow128() + (a1 * b3) * pow192())
        by (nonlinear_arith)
        requires
            bv == b0 + b1 * pow64() + b2 * pow128() + b3 * pow192(),
    ;
    assert(a2 * bv == a2 * b0 + (a2 * b1) * pow64() + (a2 * b2) * pow128() + (a2 * b3) * pow192())
        by (nonlinear_arith)
        requires
            bv == b0 + b1 * pow64() + b2 * pow128() + b3 * pow192(),
    ;
    assert(a3 * bv == a3 * b0 + (a3 * b1) * pow64() + (a3 * b2) * pow128() + (a3 * b3) * pow192())
        by (nonlinear_arith)
        requires
            bv == b0 + b1 * pow64() + b2 * pow128() + b3 * pow192(),
    ;
    assert((a1 * b0 + (a1 * b1) * pow64() + (a1 * b2) * pow128() + (a1 * b3) * pow192()) * pow64()
        == (a1 * b0) * pow64() + (a1 * b1) * pow128() + (a1 * b2) * pow192() + (a1 * b3)
        * pow256()) by (nonlinear_arith);
    assert((a2 * b0 + (a2 * b1) * pow64() + (a2 * b2) * pow128() + (a2 * b3) * pow192()) * pow128()
        == (a2 * b0) * pow128() + (a2 * b1) * pow192() + (a2 * b2) * pow256() + (a2 * b3)
        * pow256() * pow64()) by (nonlinear_arith);
    assert((a3 * b0 + (a3 * b1) * pow64() + (a3 * b2) * pow128() + (a3 * b3) * pow192()) * pow192()
        == (a3 * b0) * pow192() + (a3 * b1) * pow256() + (a3 * b2) * pow256() * pow64() + (a3
        * b3) * pow256() * pow128()) by (nonlinear_arith);
}

/// One limb subtraction with borrow in and borrow out.
fn sbb(a: u64, b: u64, c: u64) -> (r: (u64, u64))
    requires
        c <= 1,
    ensures
        a - b - c == r.0 - r.1 * pow64(),
        r.1 <= 1,
{
    let t: u128 = 0x1_0000_0000_0000_0000u128 + a as u128 - b as u128 - c as u128;
    let lo: u64 = (t % 0x1_0000_0000_0000_0000) as u64;
    let hi: u64 = (t / 0x1_0000_0000_0000_0000) as u64;
    proof {
        lemma_fundamental_div_mod(t as int, pow64());
    }
    (lo, 1 - hi)
}

impl U256 {
    /// Addition with the arithmetic carry exposed:
    /// `r.val() + carry * 2^256 == a.val() + b.val()`.
    pub fn add_carry(&self, other: &U256) -> (r: (U256, u64))
        ensures
            r.0.val() + r.1 * pow256() == self.val() + other.val(),
            r.1 <= 1,
    {
        let (s0, c0) = adc(self.l0, other.l0, 0);
        let (s1, c1) = adc(self.l1, other.l1, c0);
        let (s2, c2) = adc(self.l2, other.l2, c1);
        let (s3, c3) = adc(self.l3, other.l3, c2);
        (U256 { l0: s0, l1: s1, l2: s2, l3: s3 }, c3)
    }

    /// Addition modulo 2^256.
    pub fn wrapping_add(&self, other: &U256) -> (r: U256)
        ensures
            r.val() == (self.val() + other.val()) % pow256(),
    {
        let (s, c) = self.add_carry(other);
        proof {
            lemma_fundamental_div_mod_converse(
                self.val() + other.val(),
                pow256(),
                c as int,
                s.val(),
            );
        }
        s
    }

    /// Subtraction with the borrow exposed:
    /// `a.val() - b.val() == r.val() - borrow * 2^256`.
    pub fn sub_borrow(&self, other: &U256) -> (r: (U256, u64))
        ensures
            self.val() - other.val() == r.0.val() - r.1 * pow256(),
            r.1 <= 1,
    {
        let (d0, c0) = sbb(self.l0, other.l0, 0);
        let (d1, c1) = sbb(self.l1, other.l1, c0);
        let (d2, c2) = sbb(self.l2, other.l2, c1);
        let (d3, c3) = sbb(self.l3, other.l3, c2);
        (U256 { l0: d0, l1: d1, l2: d2, l3: d3 }, c3)
    }

    /// Subtraction modulo 2^256.
    pub fn wrapping_sub(&self, other: &U256) -> (r: U256)
        ensures
            r.val() == (self.val() - other.val()) % pow256(),
    {
        let (d, c) = self.sub_borrow(other);
        proof {
            lemma_fundamental_div_mod_converse(
                self.val() - other.val(),
                pow256(),
                -(c as int),
                d.val(),
            );
        }
        d
    }

    /// Exact subtraction of a smaller word.
    pub fn checked_sub(&self, other: &U256) -> (r: Option<U256>)
        ensures
            match r {
                Some(d) => self.val() >= other.val() && d.val() == self.val() - other.val(),
                None => self.val() < other.val(),
            },
    {
        let (d, c) = self.sub_borrow(other);
        if c == 0 {
            Some(d)
        } else {
            None
        }
    }

    /// Multiplication modulo 2^256, by 64-bit limb schoolbook rows.
    pub fn wrapping_mul(&self, other: &U256) -> (r: U256)
        ensures
            r.val() == (self.val() * other.val()) % pow256(),
    {
        let (a0, a1, a2, a3) = (self.l0, self.l1, self.l2, self.l3);
        let (b0, b1, b2, b3) = (other.l0, other.l1, other.l2, other.l3);
        let (r0, k1) = mac(0, a0, b0, 0);
        let (r1, k2) = mac(0, a0, b1, k1);
        let (r2, k3) = mac(0, a0, b2, k2);
        let (r3, k4) = mac(0, a0, b3, k3);
        let r4 = k4;
        assert(r0 + r1 * pow64() + r2 * pow128() + r3 * pow192() + r4 * pow256() == a0 * b0 + (
        a0 * b1) * pow64() + (a0 * b2) * pow128() + (a0 * b3) * pow192());
        let (s1, j1) = mac(r1, a1, b0, 0);
        let (s2, j2) = mac(r2, a1, b1, j1);
        let (s3, j3) = mac(r3, a1, b2, j2);
        let (s4, j4) = mac(r4, a1, b3, j3);
        let s5 = j4;
        assert(r0 + s1 * pow64() + s2 * pow128() + s3 * pow192() + s4 * pow256() + s5 * pow256()
            * pow64() == a0 * b0 + (a0 * b1 + a1 * b0) * pow64() + (a0 * b2 + a1 * b1) * pow128()
            + (a0 * b3 + a1 * b2) * pow192() + (a1 * b3) * pow256());
        let (t2, i1) = mac(s2, a2, b0, 0);
        let (t3, i2) = mac(s3, a2, b1, i1);
        let (t4, i3) = mac(s4, a2, b2, i2);
        let (t5, i4) = mac(s5, a2, b3, i3);
        let t6 = i4;
        assert(r0 + s1 * pow64() + t2 * pow128() + t3 * pow192() + t4 * pow256() + t5 * pow256()
            * pow64() + t6 * pow256() * pow128() == a0 * b0 + (a0 * b1 + a1 * b0) * pow64() + (a0
            * b2 + a1 * b1 + a2 * b0) * pow128() + (a0 * b3 + a1 * b2 + a2 * b1) * pow192() + (a1
            * b3 + a2 * b2) * pow256() + (a2 * b3) * pow256() * pow64());
        let (u3, h1) = mac(t3, a3, b0, 0);
        let (u4, h2) = mac(t4, a3, b1, h1);
        let (u5, h3) = mac(t5, a3, b2, h2);
        let (u6, h4) = mac(t6, a3, b3, h3);
        let u7 = h4;
        assert(r0 + s1 * pow64() + t2 * pow128() + u3 * pow192() + u4 * pow256() + u5 * pow256()
            * pow64() + u6 * pow256() * pow128() + u7 * pow256() * pow192() == a0 * b0 + (a0 * b1
            + a1 * b0) * pow64() + (a0 * b2 + a1 * b1 + a2 * b0) * pow128() + (a0 * b3 + a1 * b2
            + a2 * b1 + a3 * b0) * pow192() + (a1 * b3 + a2 * b2 + a3 * b1) * pow256() + (a2 * b3
            + a3 * b2) * pow256() * pow64() + (a3 * b3) * pow256() * pow128());
        let low = U256 { l0: r0, l1: s1, l2: t2, l3: u3 };
        proof {
            let hi = u4 + u5 * pow64() + u6 * pow128() + u7 * pow192();
            lemma_limb_product_sum(
                a0 as int, a1 as int, a2 as int, a3 as int,
                b0 as int, b1 as int, b2 as int, b3 as int,
            );
            assert(self.val() * other.val() == hi * pow256() + low.val());
            lemma_fundamental_div_mod_converse(
                self.val() * other.val(),
                pow256(),
                hi,
                low.val(),
            );
        }
        low
    }

    /// Halving: exact division by two.
    pub fn shr1(&self) -> (r: U256)
        ensures
            r.val() == self.val() / 2,
    {
        let r0 = self.l0 / 2 + (self.l1 % 2) * 0x8000_0000_0000_0000;
        let r1 = self.l1 / 2 + (self.l2 % 2) * 0x8000_0000_0000_0000;
        let r2 = self.l2 / 2 + (self.l3 % 2) * 0x8000_0000_0000_0000;
        let r3 = self.l3 / 2;
        let r = U256 { l0: r0, l1: r1, l2: r2, l3: r3 };
        proof {
            lemma_fundamental_div_mod(self.l0 as int, 2);
            lemma_fundamental_div_mod(self.l1 as int, 2);
            lemma_fundamental_div_mod(self.l2 as int, 2);
            lemma_fundamental_div_mod(self.l3 as int, 2);
            assert(self.val() == 2 * r.val() + self.l0 % 2);
            lemma_fundamental_div_mod_converse(self.val(), 2, r.val(), self.l0 as int % 2);
        }
        r
    }

    /// Right shift by `n < 256` bits: exact division by 2^n.
    pub fn shr_small(&self, n: u64) -> (r: U256)
        requires
            n < 256,
        ensures
            r.val() == self.val() / (vstd::arithmetic::power2::pow2(n as nat) as int),
    {
        let mut cur = *self;
        let mut i: u64 = 0;
        proof {
            vstd::arithmetic::power2::lemma2_to64();
        }
        while i < n
            invariant
                i <= n,
                cur.val() == self.val() / (vstd::arithmetic::power2::pow2(i as nat) as int),
            decreases n - i,
        {
            proof {
                let p = vstd::arithmetic::power2::pow2(i as nat) as int;
                vstd::arithmetic::power2::lemma_pow2_pos(i as nat);
                vstd::arithmetic::div_mod::lemma_div_denominator(self.val(), p, 2);
                vstd::arithmetic::power2::lemma_pow2_adds(i as nat, 1);
                vstd::arithmetic::power2::lemma_pow2_unfold((i + 1) as nat);
                assert(vstd::arithmetic::power2::pow2((i + 1) as nat) == p * 2) by {
                    vstd::arithmetic::power2::lemma_pow2_unfold((i + 1) as nat);
                }
            }
            cur = cur.shr1();
            i = i + 1;
        }
        cur
    }

    /// The lowest bit of the word's value.
    pub fn low_bit(&self) -> (r: u64)
        ensures
            r == self.val() % 2,
    {
        proof {
            lemma_val_parts(*self);
            vstd::arithmetic::div_mod::lemma_mod_mod(self.val(), 2, 0x8000_0000_0000_0000);
            assert(2 * 0x8000_0000_0000_0000int == pow64());
        }
        self.l0 % 2
    }

    /// Euclidean division with remainder, by binary restoring long
    /// division over the 256 bits of the dividend.
    #[verifier::rlimit(100)]
    pub fn div_rem(&self, other: &U256) -> (r: (U256, U256))
        requires
            other.val() != 0,
        ensures
            r.0.val() == self.val() / other.val(),
            r.1.val() == self.val() % other.val(),
    {
        let ghost n = self.val();
        let ghost d = other.val();
        let mut bits: Vec<u8> = Vec::new();
        let mut x = *self;
        let mut j: usize = 0;
        proof {
            vstd::arithmetic::power2::lemma2_to64();
        }
        while j < 256
            invariant
                j <= 256,
                bits@.len() == j,
                x.val() == n / (vstd::arithmetic::power2::pow2(j as nat) as int),
                n == self.val(),
                forall|t: int|
                    0 <= t < j ==> #[trigger] bits@[t] == (n / (
                    vstd::arithmetic::power2::pow2(t as nat) as int)) % 2,
            decreases 256 - j,
        {
            let b: u64 = x.low_bit();
            bits.push(b as u8);
            proof {
                vstd::arithmetic::power2::lemma2_to64();
                let p = vstd::arithmetic::power2::pow2(j as nat) as int;
                vstd::arithmetic::power2::lemma_pow2_pos(j as nat);
                vstd::arithmetic::div_mod::lemma_div_denominator(n, p, 2);
                vstd::arithmetic::power2::lemma_pow2_adds(j as nat, 1);
            }
            x = x.shr1();
            j = j + 1;
        }
        let mut q = U256::zero();
        let mut rem = U256::zero();
        let one = U256 { l0: 1, l1: 0, l2: 0, l3: 0 };
        let mut i: usize = 0;
        proof {
            assert(vstd::arithmetic::power2::pow2(256) as int == pow256()) by {
                lemma_pow2_val();
            }
            vstd::arithmetic::div_mod::lemma_basic_div_specific_divisor(pow256());
            assert(pow256() % 2 == 0) by {
                vstd::arithmetic::power2::lemma_pow2_adds(1, 255);
                vstd::arithmetic::power2::lemma2_to64();
                vstd::arithmetic::div_mod::lemma_mod_multiples_basic(
                    vstd::arithmetic::power2::pow2(255) as int,
                    2,
                );
            }
        }
        while i < 256
            invariant
                i <= 256,
                bits@.len() == 256,
                n == self.val(),
                d == other.val(),
                0 < d < pow256(),
                forall|t: int|
                    0 <= t < 256 ==> #[trigger] bits@[t] == (n / (
                    vstd::arithmetic::power2::pow2(t as nat) as int)) % 2,
                q.val() * d + rem.val() == n / (vstd::arithmetic::power2::pow2(
                    (256 - i) as nat,
                ) as int),
                rem.val() < d,
                q.val() < vstd::arithmetic::power2::pow2(i as nat),
                pow256() % 2 == 0,
            decreases 256 - i,
        {
            let ghost q_old = q.val();
            let b: u64 = bits[255 - i] as u64;
            let ghost pa = vstd::arithmetic::power2::pow2((256 - i) as nat) as int;
            let ghost pb = vstd::arithmetic::power2::pow2((255 - i) as nat) as int;
            let ghost a_cur = n / pa;
            let ghost a_next = n / pb;
            proof {
                vstd::arithmetic::power2::lemma2_to64();
                vstd::arithmetic::power2::lemma_pow2_pos((255 - i) as nat);
                vstd::arithmetic::power2::lemma_pow2_adds((255 - i) as nat, 1);
                vstd::arithmetic::div_mod::lemma_div_denominator(n, pb, 2);
                vstd::arithmetic::div_mod::lemma_fundamental_div_mod(a_next, 2);
                assert(a_next == 2 * a_cur + b);
                vstd::arithmetic::power2::lemma_pow2_adds(i as nat, 1);
                if i + 1 < 256 {
                    vstd::arithmetic::power2::lemma_pow2_strictly_increases((i + 1) as nat, 256);
                }
                assert(vstd::arithmetic::power2::pow2(256) as int == pow256()) by {
                    lemma_pow2_val();
                }
                assert(2 * q.val() + 1 < pow256());
            }
            div_step(&mut q, &mut rem, other, b, Ghost(a_cur), Ghost(a_next));
            proof {
                assert(q.val() < vstd::arithmetic::power2::pow2((i + 1) as nat));
            }
            i = i + 1;
        }
        proof {
            vstd::arithmetic::power2::lemma2_to64();
            assert(n / (vstd::arithmetic::power2::pow2(0) as int) == n) by {
                vstd::arithmetic::div_mod::lemma_fundamental_div_mod(n, 1);
            }
            lemma_fundamental_div_mod_converse(n, d, q.val(), rem.val());
        }
        (q, rem)
    }

    /// Exact addition when no wrap occurs.
    pub fn checked_add(&self, other: &U256) -> (r: Option<U256>)
        ensures
            match r {
                Some(s) => self.val() + other.val() < pow256() && s.val() == self.val()
                    + other.val(),
                None => self.val() + other.val() >= pow256(),
            },
    {
        let (s, c) = self.add_carry(other);
        if c == 0 {
            Some(s)
        } else {
            None
        }
    }
}

} // verus!
