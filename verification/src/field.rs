//! Arithmetic in the BabyBear prime field over canonical `u32` representatives.

use vstd::prelude::*;
use vstd::arithmetic::div_mod::*;

verus! {

/// The BabyBear modulus, `15 * 2^27 + 1`.
pub const P: u32 = 2013265921;

/// Field addition on canonical representatives.
pub open spec fn fadd(a: int, b: int) -> int {
    (a + b) % (P as int)
}

/// Field subtraction on canonical representatives.
pub open spec fn fsub(a: int, b: int) -> int {
    (a - b) % (P as int)
}

/// Field multiplication on canonical representatives.
pub open spec fn fmul(a: int, b: int) -> int {
    (a * b) % (P as int)
}

/// A field element, held as its canonical representative in `[0, P)`.
#[derive(Clone, Copy, Debug, PartialEq, Eq, Structural)]
pub struct Fe {
    pub val: u32,
}

impl Fe {
    /// The representative is canonical.
    pub open spec fn wf(self) -> bool {
        self.val < P
    }

    pub fn zero() -> (r: Fe)
        ensures
            r.val == 0,
    {
        Fe { val: 0 }
    }

    pub fn one() -> (r: Fe)
        ensures
            r.val == 1,
    {
        Fe { val: 1 }
    }

    /// The element whose canonical representative is `n`.
    pub fn from_canonical_u32(n: u32) -> (r: Fe)
        requires
            n < P,
        ensures
            r.val == n,
    {
        Fe { val: n }
    }

    /// The element whose canonical representative is `n`.
    pub fn from_canonical_u64(n: u64) -> (r: Fe)
        requires
            n < P,
        ensures
            r.val == n,
    {
        Fe { val: n as u32 }
    }

    /// The canonical representative of this element.
    pub fn as_canonical_u32(&self) -> (r: u32)
        ensures
            r == self.val,
    {
        self.val
    }

    pub fn add(self, rhs: Fe) -> (r: Fe)
        requires
            self.wf(),
            rhs.wf(),
        ensures
            r.wf(),
            r.val == fadd(self.val as int, rhs.val as int),
    {
        let s: u64 = self.val as u64 + rhs.val as u64;
        let r: u64 = s % (P as u64);
        Fe { val: r as u32 }
    }

    pub fn sub(self, rhs: Fe) -> (r: Fe)
        requires
            self.wf(),
            rhs.wf(),
        ensures
            r.wf(),
            r.val == fsub(self.val as int, rhs.val as int),
    {
        let s: u64 = self.val as u64 + P as u64 - rhs.val as u64;
        proof {
            lemma_mod_add_multiples_vanish(self.val as int - rhs.val as int, P as int);
        }
        let r: u64 = s % (P as u64);
        Fe { val: r as u32 }
    }

    pub fn mul(self, rhs: Fe) -> (r: Fe)
        requires
            self.wf(),
            rhs.wf(),
        ensures
            r.wf(),
            r.val == fmul(self.val as int, rhs.val as int),
    {
        proof {
            vstd::arithmetic::mul::lemma_mul_upper_bound(
                self.val as int, P as int, rhs.val as int, P as int);
        }
        let s: u64 = self.val as u64 * rhs.val as u64;
        let r: u64 = s % (P as u64);
        Fe { val: r as u32 }
    }
}

} // verus!

verus! {

/// `P` has no divisor between 2 and 44870, the integer square root of `P` plus one.
#[verifier::rlimit(100)]
pub proof fn lemma_p_no_small_divisor(d: u32)
    requires
        2 <= d <= 44870,
    ensures
        P % d != 0,
{
    assert(2013265921u32 % d != 0) by (bit_vector)
        requires
            2 <= d <= 44870u32,
    ;
}

/// `P` is prime: no number strictly between 1 and `P` divides it.
pub proof fn lemma_p_is_prime(a: int)
    requires
        1 < a < P,
    ensures
        (P as int) % a != 0,
{
    if a <= 44870 {
        lemma_p_no_small_divisor(a as u32);
    } else if (P as int) % a == 0 {
        let p = P as int;
        let b = p / a;
        lemma_fundamental_div_mod(p, a);
        assert(p == a * b);
        assert(2 <= b < 44870) by (nonlinear_arith)
            requires
                p == a * b,
                44870 < a < p,
                p == 2013265921,
        ;
        lemma_fundamental_div_mod_converse(p, b, a, 0);
        lemma_p_no_small_divisor(b as u32);
    }
}

/// Euclid's lemma for `P`: when `P` divides `a * b` and not `a`, it divides `b`.
pub proof fn lemma_p_divides_factor(a: int, b: int)
    requires
        0 < a < P,
        (a * b) % (P as int) == 0,
    ensures
        b % (P as int) == 0,
    decreases a,
{
    let p = P as int;
    if a > 1 {
        lemma_p_is_prime(a);
        let q = p / a;
        let r = p % a;
        lemma_fundamental_div_mod(p, a);
        let k = (a * b) / p;
        lemma_fundamental_div_mod(a * b, p);
        assert(a * b == p * k);
        assert(r * b == p * (b - q * k)) by (nonlinear_arith)
            requires
                p == a * q + r,
                a * b == p * k,
        ;
        lemma_mod_multiples_basic(b - q * k, p);
        assert((r * b) % p == 0) by {
            assert(r * b == (b - q * k) * p) by (nonlinear_arith)
                requires
                    r * b == p * (b - q * k),
            ;
        }
        lemma_p_divides_factor(r, b);
    }
}

/// Over the field, `x * (x - 1)` vanishes exactly at 0 and 1.
pub proof fn lemma_bool_root(x: int)
    requires
        0 <= x < P,
    ensures
        fmul(x, fsub(x, 1)) == 0 <==> x <= 1,
{
    let p = P as int;
    if x >= 2 {
        lemma_small_mod((x - 1) as nat, p as nat);
        if fmul(x, fsub(x, 1)) == 0 {
            lemma_p_divides_factor(x, x - 1);
            lemma_small_mod((x - 1) as nat, p as nat);
        }
    } else if x == 1 {
        assert(fsub(1, 1) == 0);
    } else {
        assert(fmul(0, fsub(0, 1)) == 0);
    }
}

} // verus!
