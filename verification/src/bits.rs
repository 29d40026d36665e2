//! Node IDs as bit vectors: extracting bits, rebuilding a node from its bits, counting the
//! dimensions in which two nodes differ, and the host-side check of a single hop.

use vstd::prelude::*;
use vstd::arithmetic::div_mod::*;
use vstd::arithmetic::power2::*;
use crate::field::{Fe, P, fadd, fmul};
use crate::cols::DIM;

verus! {

/// Number of nodes of the hypercube, `2^DIM`; node IDs lie below it.
pub const NUM_NODES: u32 = 1024;

/// Bit `i` of `n` (bit 0 is the least significant).
pub open spec fn bit_at(n: nat, i: nat) -> nat
    decreases i,
{
    if i == 0 {
        n % 2
    } else {
        bit_at(n / 2, (i - 1) as nat)
    }
}

/// Number of positions below `k` at which the bits of `a` and `b` differ.
pub open spec fn diff_count(a: nat, b: nat, k: nat) -> nat
    decreases k,
{
    if k == 0 {
        0
    } else {
        diff_count(a, b, (k - 1) as nat) + if bit_at(a, (k - 1) as nat) != bit_at(
            b,
            (k - 1) as nat,
        ) {
            1nat
        } else {
            0nat
        }
    }
}

/// The highest position below `k` at which the bits of `a` and `b` differ, or 0 if there is
/// none.
pub open spec fn last_diff(a: nat, b: nat, k: nat) -> nat
    decreases k,
{
    if k == 0 {
        0
    } else if bit_at(a, (k - 1) as nat) != bit_at(b, (k - 1) as nat) {
        (k - 1) as nat
    } else {
        last_diff(a, b, (k - 1) as nat)
    }
}

/// `a -> b` is a hop of the hypercube: both are nodes and they differ in exactly one dimension.
pub open spec fn is_hop(a: nat, b: nat) -> bool {
    &&& a < NUM_NODES
    &&& b < NUM_NODES
    &&& diff_count(a, b, DIM as nat) == 1
}

/// `a -> b` is a hop of the `d`-dimensional hypercube: both are `d`-bit numbers and they differ
/// in exactly one of the `d` dimensions.
pub open spec fn is_hop_in(a: nat, b: nat, d: nat) -> bool {
    &&& a < pow2(d)
    &&& b < pow2(d)
    &&& diff_count(a, b, d) == 1
}

/// Every entry is 0 or 1.
pub open spec fn is_boolean(s: Seq<Fe>) -> bool {
    forall|i: int| 0 <= i < s.len() ==> (#[trigger] s[i]).val <= 1
}

/// The number whose bits, least significant first, are the entries of `s`.
pub open spec fn bits_value(s: Seq<Fe>) -> nat
    decreases s.len(),
{
    if s.len() == 0 {
        0
    } else {
        s[0].val as nat + 2 * bits_value(s.skip(1))
    }
}

/// `bits_value`, computed in the field.
pub open spec fn field_bits_value(s: Seq<Fe>) -> int
    decreases s.len(),
{
    if s.len() == 0 {
        0
    } else {
        fadd(s[0].val as int, fmul(2, field_bits_value(s.skip(1))))
    }
}

/// The low `k` bits of `n` as field elements, least significant first.
pub open spec fn bits_of(n: nat, k: nat) -> Seq<Fe> {
    Seq::new(k, |i: int| Fe { val: bit_at(n, i as nat) as u32 })
}

/// Shifting and masking reads the bit that `bit_at` names.
pub proof fn lemma_shr_and_one(n: u64, i: u64)
    requires
        i < 64,
    ensures
        ((n >> i) & 1) as nat == bit_at(n as nat, i as nat),
    decreases i,
{
    if i == 0 {
        assert((n >> 0u64) & 1 == n % 2) by (bit_vector);
    } else {
        let m = n >> 1u64;
        lemma_shr_and_one(m, (i - 1) as u64);
        assert(m == n / 2) by (bit_vector)
            requires
                m == n >> 1u64,
        ;
        assert(n >> i == m >> ((i - 1) as u64)) by (bit_vector)
            requires
                m == n >> 1u64,
                0 < i < 64,
        ;
    }
}

/// A bit is 0 or 1.
pub proof fn lemma_bit_at_le_one(n: nat, i: nat)
    ensures
        bit_at(n, i) <= 1,
    decreases i,
{
    if i > 0 {
        lemma_bit_at_le_one(n / 2, (i - 1) as nat);
    }
}

/// Numbers whose bits agree below `k` differ in as many of those positions.
pub proof fn lemma_diff_count_congruent(a: nat, b: nat, a2: nat, b2: nat, k: nat)
    requires
        forall|i: nat| i < k ==> #[trigger] bit_at(a, i) == bit_at(a2, i),
        forall|i: nat| i < k ==> #[trigger] bit_at(b, i) == bit_at(b2, i),
    ensures
        diff_count(a, b, k) == diff_count(a2, b2, k),
    decreases k,
{
    if k > 0 {
        lemma_diff_count_congruent(a, b, a2, b2, (k - 1) as nat);
        assert(bit_at(a, (k - 1) as nat) == bit_at(a2, (k - 1) as nat));
        assert(bit_at(b, (k - 1) as nat) == bit_at(b2, (k - 1) as nat));
    }
}

/// Where the bits differ somewhere below `k`, `last_diff` names such a position.
pub proof fn lemma_last_diff(a: nat, b: nat, k: nat)
    requires
        diff_count(a, b, k) >= 1,
    ensures
        last_diff(a, b, k) < k,
        bit_at(a, last_diff(a, b, k)) != bit_at(b, last_diff(a, b, k)),
    decreases k,
{
    if bit_at(a, (k - 1) as nat) == bit_at(b, (k - 1) as nat) {
        lemma_last_diff(a, b, (k - 1) as nat);
    }
}

/// Where exactly one position below `k` differs and `j` is one, every other position agrees.
pub proof fn lemma_single_diff(a: nat, b: nat, k: nat, j: nat)
    requires
        diff_count(a, b, k) == 1,
        j < k,
        bit_at(a, j) != bit_at(b, j),
    ensures
        forall|i: nat| i < k && i != j ==> bit_at(a, i) == bit_at(b, i),
    decreases k,
{
    if j == k - 1 {
        assert(diff_count(a, b, (k - 1) as nat) == 0);
        assert forall|i: nat| i < k && i != j implies bit_at(a, i) == bit_at(b, i) by {
            lemma_zero_diff(a, b, (k - 1) as nat, i);
        }
    } else {
        lemma_diff_count_pos(a, b, (k - 1) as nat, j);
        lemma_single_diff(a, b, (k - 1) as nat, j);
    }
}

/// With no difference below `k`, the bits below `k` agree.
pub proof fn lemma_zero_diff(a: nat, b: nat, k: nat, i: nat)
    requires
        diff_count(a, b, k) == 0,
        i < k,
    ensures
        bit_at(a, i) == bit_at(b, i),
    decreases k,
{
    if i < k - 1 {
        lemma_zero_diff(a, b, (k - 1) as nat, i);
    }
}

/// A differing position below `k` makes the count positive.
pub proof fn lemma_diff_count_pos(a: nat, b: nat, k: nat, j: nat)
    requires
        j < k,
        bit_at(a, j) != bit_at(b, j),
    ensures
        diff_count(a, b, k) >= 1,
    decreases k,
{
    if j < k - 1 {
        lemma_diff_count_pos(a, b, (k - 1) as nat, j);
    }
}

/// A boolean bit vector denotes a number below `2^len` whose bits are its entries.
pub proof fn lemma_bits_value_boolean(s: Seq<Fe>)
    requires
        is_boolean(s),
    ensures
        bits_value(s) < pow2(s.len()),
        forall|i: nat| i < s.len() ==> #[trigger] bit_at(bits_value(s), i) == s[i as int].val,
    decreases s.len(),
{
    if s.len() == 0 {
        lemma2_to64();
    } else {
        let t = s.skip(1);
        assert(is_boolean(t)) by {
            assert forall|i: int| 0 <= i < t.len() implies (#[trigger] t[i]).val <= 1 by {
                assert(t[i] == s[i + 1]);
            }
        }
        lemma_bits_value_boolean(t);
        let v = bits_value(s);
        let w = bits_value(t);
        assert(s[0].val <= 1);
        assert(v == s[0].val + 2 * w);
        lemma_fundamental_div_mod_converse(v as int, 2, w as int, s[0].val as int);
        lemma_pow2_unfold(s.len());
        assert forall|i: nat| i < s.len() implies #[trigger] bit_at(v, i) == s[i as int].val by {
            if i > 0 {
                assert(bit_at(v, i) == bit_at(w, (i - 1) as nat));
                assert(t[(i - 1) as int] == s[i as int]);
            }
        }
    }
}

/// Computing a bit vector's number in the field gives that number reduced mod `P`.
pub proof fn lemma_field_bits_value(s: Seq<Fe>)
    ensures
        field_bits_value(s) == (bits_value(s) as int) % (P as int),
    decreases s.len(),
{
    if s.len() > 0 {
        let t = s.skip(1);
        lemma_field_bits_value(t);
        let w = bits_value(t) as int;
        let p = P as int;
        lemma_mul_mod_noop_right(2, w, p);
        lemma_add_mod_noop_right(s[0].val as int, 2 * w, p);
    }
}

/// The low `k` bits of `n` denote `n mod 2^k`.
pub proof fn lemma_bits_of_value(n: nat, k: nat)
    ensures
        bits_value(bits_of(n, k)) == n % pow2(k),
    decreases k,
{
    if k == 0 {
        lemma2_to64();
    } else {
        let s = bits_of(n, k);
        let t = bits_of(n / 2, (k - 1) as nat);
        assert(s.skip(1) =~= t) by {
            assert forall|i: int| 0 <= i < t.len() implies s.skip(1)[i] == t[i] by {
                assert(bit_at(n, (i + 1) as nat) == bit_at(n / 2, i as nat));
            }
        }
        lemma_bits_of_value(n / 2, (k - 1) as nat);
        lemma_bit_at_le_one(n, 0);
        lemma_pow2_unfold(k);
        lemma_pow2_pos((k - 1) as nat);
        lemma_mod_breakdown(n as int, 2, pow2((k - 1) as nat) as int);
    }
}

/// A hop of the `DIM`-dimensional hypercube is a hop in `DIM` dimensions.
pub proof fn lemma_is_hop_dim(a: nat, b: nat)
    ensures
        is_hop(a, b) <==> is_hop_in(a, b, DIM as nat),
{
    lemma2_to64();
}

/// The bits of a number below `2^k` are zero from position `k` on.
pub proof fn lemma_high_bits_zero(n: nat, k: nat, i: nat)
    requires
        n < pow2(k),
        k <= i,
    ensures
        bit_at(n, i) == 0,
    decreases k,
{
    if k == 0 {
        lemma2_to64();
        lemma_bit_at_of_zero(i);
    } else {
        lemma_pow2_unfold(k);
        lemma_high_bits_zero(n / 2, (k - 1) as nat, (i - 1) as nat);
    }
}

/// Every bit of 0 is 0.
proof fn lemma_bit_at_of_zero(i: nat)
    ensures
        bit_at(0, i) == 0,
    decreases i,
{
    if i > 0 {
        lemma_bit_at_of_zero((i - 1) as nat);
    }
}

/// Numbers below `2^k` differ in no position from `k` on, so counting up to any `m >= k` gives
/// the count up to `k`.
pub proof fn lemma_diff_count_extend(a: nat, b: nat, k: nat, m: nat)
    requires
        a < pow2(k),
        b < pow2(k),
        k <= m,
    ensures
        diff_count(a, b, m) == diff_count(a, b, k),
    decreases m,
{
    if m > k {
        lemma_diff_count_extend(a, b, k, (m - 1) as nat);
        lemma_high_bits_zero(a, k, (m - 1) as nat);
        lemma_high_bits_zero(b, k, (m - 1) as nat);
    }
}

/// Why a hop was refused.
#[derive(Clone, Copy, Debug, PartialEq, Eq, Structural)]
pub enum RouteError {
    /// A node ID is not below `NUM_NODES`.
    NodeOutOfRange,
    /// The two nodes do not differ in exactly one dimension.
    NotSingleBitFlip,
}

/// The outcome of checking the hop `curr -> next`, in the order the checks are made.
pub open spec fn route_check(curr: nat, next: nat) -> Result<(), RouteError> {
    if !(curr < NUM_NODES && next < NUM_NODES) {
        Err(RouteError::NodeOutOfRange)
    } else if diff_count(curr, next, DIM as nat) != 1 {
        Err(RouteError::NotSingleBitFlip)
    } else {
        Ok(())
    }
}

/// Checks that `curr -> next` is a single hop of the hypercube: both IDs are nodes and their
/// XOR has exactly one bit set.
pub fn validate_route(curr: u32, next: u32) -> (r: Result<(), RouteError>)
    ensures
        r == route_check(curr as nat, next as nat),
        r is Ok <==> is_hop(curr as nat, next as nat),
{
    let xor_diff: u32 = curr ^ next;
    if curr >= NUM_NODES || next >= NUM_NODES {
        return Err(RouteError::NodeOutOfRange);
    }
    let mut count: u32 = 0;
    for i in 0..DIM
        invariant
            count == diff_count(curr as nat, next as nat, i as nat),
            count <= i,
            xor_diff == curr ^ next,
    {
        let ii: u32 = i as u32;
        let set: u32 = (xor_diff >> ii) & 1;
        proof {
            assert(set == if ((curr >> ii) & 1) != ((next >> ii) & 1) { 1u32 } else { 0u32 })
                by (bit_vector)
                requires
                    xor_diff == curr ^ next,
                    set == (xor_diff >> ii) & 1,
                    ii < 32,
            ;
            lemma_shr_and_one(curr as u64, ii as u64);
            lemma_shr_and_one(next as u64, ii as u64);
            assert(((curr as u64) >> (ii as u64)) & 1 == ((curr >> ii) & 1) as u64) by (bit_vector)
                requires
                    ii < 32,
            ;
            assert(((next as u64) >> (ii as u64)) & 1 == ((next >> ii) & 1) as u64) by (bit_vector)
                requires
                    ii < 32,
            ;
        }
        if set == 1 {
            count = count + 1;
        }
    }
    if count != 1 {
        Err(RouteError::NotSingleBitFlip)
    } else {
        Ok(())
    }
}

} // verus!
