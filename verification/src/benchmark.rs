//! The standalone benchmark router: a two-row AIR over node bits and selectors, and a trace of
//! random single-bit hops starting at node 0.

use vstd::prelude::*;
use rand::Rng;
use crate::field::{Fe, P, fadd, fsub, fmul, lemma_bool_root};
use crate::air::{bool_constraint, field_sum, ones, lemma_field_sum_boolean};
use crate::laws::{lemma_bool_constraint_of_bit, lemma_ones_selector};
use crate::chip::selector_bits;

verus! {

/// The number of dimensions in the benchmark's hypercube.
pub const DIMS: usize = 10;

/// Width of a benchmark row: the node's bits, then the selectors.
pub const WIDTH: usize = 2 * DIMS;

#[verifier::external_type_specification]
#[verifier::external_body]
pub struct ExThreadRng(rand::rngs::ThreadRng);

/// `rand::thread_rng`: a handle to the thread-local random number generator. Nothing is stated
/// of the handle.
#[verifier::external_body]
fn thread_rng() -> rand::rngs::ThreadRng {
    rand::thread_rng()
}

/// `Rng::gen_range` over `0..bound`: a random index below `bound`. Which index comes back
/// depends on the generator's state and is not stated; that it lies in the range is.
#[verifier::external_body]
fn gen_index(rng: &mut rand::rngs::ThreadRng, bound: usize) -> (r: usize)
    requires
        bound > 0,
    ensures
        r < bound,
{
    rng.gen_range(0..bound)
}

/// Bit `i` of a node.
pub open spec fn node_bit(node: u32, i: int) -> u32 {
    (node >> (i as u32)) & 1
}

/// The node reached after the first `k` hops from node 0, hop `j` flipping bit `flips[j]`.
pub open spec fn hop_node(flips: Seq<usize>, k: nat) -> u32
    decreases k,
{
    if k == 0 {
        0
    } else {
        hop_node(flips, (k - 1) as nat) ^ (1u32 << (flips[k - 1] as u32))
    }
}

/// Row `k` of the trace for the hops `flips`: the bits of the node before hop `k`, then a
/// selector on the bit that hop `k` flips.
pub open spec fn hop_row(flips: Seq<usize>, k: int) -> Seq<Fe> {
    Seq::new(
        WIDTH as nat,
        |j: int|
            if j < DIMS {
                Fe { val: node_bit(hop_node(flips, k as nat), j) }
            } else {
                Fe { val: if j - DIMS == flips[k] { 1 } else { 0 } }
            },
    )
}

/// Row `k` of a benchmark trace laid out row after row.
pub open spec fn bench_row(trace: Seq<Fe>, k: int) -> Seq<Fe> {
    trace.subrange(k * WIDTH, k * WIDTH + WIDTH)
}

/// The trace of the hops `flips`: one row per hop.
pub open spec fn is_hop_trace(trace: Seq<Fe>, flips: Seq<usize>) -> bool {
    &&& trace.len() == flips.len() * WIDTH
    &&& forall|k: int| 0 <= k < flips.len() ==> #[trigger] bench_row(trace, k) == hop_row(flips, k)
}

/// `a + b - a * b * 2`: the XOR of two bits.
pub open spec fn xor_value(a: Fe, b: Fe) -> int {
    fsub(fadd(a.val as int, b.val as int), fmul(fmul(a.val as int, b.val as int), 2))
}

/// Bit `i` of the node in a benchmark row.
pub open spec fn row_bit(row: Seq<Fe>, i: int) -> Fe {
    row[i]
}

/// Selector `i` in a benchmark row.
pub open spec fn row_selector(row: Seq<Fe>, i: int) -> Fe {
    row[DIMS + i]
}

/// `is_transition * (next_bit - xor(bit, selector))` for dimension `i`.
pub open spec fn xor_constraint(local: Seq<Fe>, next: Seq<Fe>, is_transition: Fe, i: int) -> int {
    fmul(
        is_transition.val as int,
        fsub(row_bit(next, i).val as int, xor_value(row_bit(local, i), row_selector(local, i))),
    )
}

/// `is_transition * (sum of selectors - 1)`.
pub open spec fn selector_sum_transition(local: Seq<Fe>, is_transition: Fe) -> int {
    fmul(is_transition.val as int, fsub(field_sum(local.subrange(DIMS as int, WIDTH as int), DIMS as nat), 1))
}

/// `c` holds the benchmark AIR's constraints on the row pair `local`, `next`, in the order they
/// are asserted.
pub open spec fn bench_constraint_values(
    local: Seq<Fe>,
    next: Seq<Fe>,
    is_transition: Fe,
    c: Seq<Fe>,
) -> bool {
    &&& c.len() == 3 * DIMS + 1
    &&& forall|i: int| 0 <= i < DIMS ==> c[i].val == bool_constraint(#[trigger] row_selector(local, i))
    &&& c[DIMS as int].val == selector_sum_transition(local, is_transition)
    &&& forall|i: int|
        0 <= i < DIMS ==> c[DIMS + 1 + i].val == #[trigger] xor_constraint(local, next, is_transition, i)
    &&& forall|i: int| 0 <= i < DIMS ==> c[2 * DIMS + 1 + i].val == bool_constraint(#[trigger] row_bit(local, i))
}

/// Every constraint of the benchmark AIR vanishes on the row pair.
pub open spec fn bench_holds(local: Seq<Fe>, next: Seq<Fe>, is_transition: Fe) -> bool {
    &&& forall|i: int| 0 <= i < DIMS ==> bool_constraint(#[trigger] row_selector(local, i)) == 0
    &&& selector_sum_transition(local, is_transition) == 0
    &&& forall|i: int| 0 <= i < DIMS ==> #[trigger] xor_constraint(local, next, is_transition, i) == 0
    &&& forall|i: int| 0 <= i < DIMS ==> bool_constraint(#[trigger] row_bit(local, i)) == 0
}

/// Every cell of a benchmark row is canonical.
pub open spec fn bench_row_wf(row: Seq<Fe>) -> bool {
    &&& row.len() == WIDTH
    &&& forall|j: int| 0 <= j < WIDTH ==> (#[trigger] row[j]).wf()
}

/// The constraints for a valid sequence of hops in a hypercube, over pairs of consecutive rows
/// of node bits and selectors.
pub struct TopologicalRouterAir;

impl TopologicalRouterAir {
    /// Number of columns of a row.
    pub fn width(&self) -> (r: usize)
        ensures
            r == WIDTH,
    {
        DIMS * 2
    }

    /// Evaluates the constraints on the row `local` and its successor `next`; `is_transition`
    /// is 1 except on the last row, where it is 0.
    pub fn eval(&self, local: &[Fe], next: &[Fe], is_transition: Fe) -> (c: Vec<Fe>)
        requires
            bench_row_wf(local@),
            bench_row_wf(next@),
            is_transition.wf(),
        ensures
            bench_constraint_values(local@, next@, is_transition, c@),
    {
        let mut c: Vec<Fe> = Vec::new();
        // Each selector must be boolean.
        for i in 0..DIMS
            invariant
                bench_row_wf(local@),
                c@.len() == i,
                forall|k: int| 0 <= k < i ==> c@[k].val == bool_constraint(#[trigger] row_selector(local@, k)),
        {
            let s = local[DIMS + i];
            assert(local@[DIMS + i].wf());
            c.push(s.mul(s.sub(Fe::one())));
        }
        // Exactly one bit is flipped per hop.
        let ghost sels = local@.subrange(DIMS as int, WIDTH as int);
        let mut selector_sum = Fe::zero();
        for i in 0..DIMS
            invariant
                bench_row_wf(local@),
                sels == local@.subrange(DIMS as int, WIDTH as int),
                selector_sum.wf(),
                selector_sum.val == field_sum(sels, i as nat),
        {
            assert(local@[DIMS + i].wf());
            assert(sels[i as int] == local@[DIMS + i]);
            selector_sum = selector_sum.add(local[DIMS + i]);
        }
        c.push(is_transition.mul(selector_sum.sub(Fe::one())));
        // next_bit[i] = local_bit[i] XOR selector[i], as a + b - 2ab.
        let two = Fe::from_canonical_u32(2);
        for i in 0..DIMS
            invariant
                bench_row_wf(local@),
                bench_row_wf(next@),
                is_transition.wf(),
                two.val == 2,
                c@.len() == DIMS + 1 + i,
                forall|k: int| 0 <= k < DIMS ==> c@[k].val == bool_constraint(#[trigger] row_selector(local@, k)),
                c@[DIMS as int].val == selector_sum_transition(local@, is_transition),
                forall|k: int|
                    0 <= k < i ==> c@[DIMS + 1 + k].val == #[trigger] xor_constraint(local@, next@, is_transition, k),
        {
            let a = local[i];
            let b = local[DIMS + i];
            assert(local@[i as int].wf() && local@[DIMS + i].wf() && next@[i as int].wf());
            let xor_val = a.add(b).sub(a.mul(b).mul(two));
            let v = is_transition.mul(next[i].sub(xor_val));
            let ghost old_c = c@;
            c.push(v);
            assert(row_bit(local@, i as int) == a);
            assert(row_selector(local@, i as int) == b);
            assert forall|k: int| 0 <= k < DIMS implies c@[k].val == bool_constraint(#[trigger] row_selector(local@, k)) by {
                assert(c@[k] == old_c[k]);
            }
            assert forall|k: int| 0 <= k < i + 1 implies c@[DIMS + 1 + k].val == #[trigger] xor_constraint(local@, next@, is_transition, k) by {
                if k < i {
                    assert(c@[DIMS + 1 + k] == old_c[DIMS + 1 + k]);
                }
            }
        }
        // Each node bit must be boolean: the node columns hold a node ID in binary.
        for i in 0..DIMS
            invariant
                bench_row_wf(local@),
                c@.len() == 2 * DIMS + 1 + i,
                forall|k: int| 0 <= k < DIMS ==> c@[k].val == bool_constraint(#[trigger] row_selector(local@, k)),
                c@[DIMS as int].val == selector_sum_transition(local@, is_transition),
                forall|k: int|
                    0 <= k < DIMS ==> c@[DIMS + 1 + k].val == #[trigger] xor_constraint(local@, next@, is_transition, k),
                forall|k: int| 0 <= k < i ==> c@[2 * DIMS + 1 + k].val == bool_constraint(#[trigger] row_bit(local@, k)),
        {
            let b = local[i];
            assert(local@[i as int].wf());
            let v = b.mul(b.sub(Fe::one()));
            let ghost old_c = c@;
            c.push(v);
            assert(row_bit(local@, i as int) == b);
            assert forall|k: int| 0 <= k < DIMS implies c@[k].val == bool_constraint(#[trigger] row_selector(local@, k)) by {
                assert(c@[k] == old_c[k]);
            }
            assert forall|k: int| 0 <= k < DIMS implies c@[DIMS + 1 + k].val == #[trigger] xor_constraint(local@, next@, is_transition, k) by {
                assert(c@[DIMS + 1 + k] == old_c[DIMS + 1 + k]);
            }
            assert forall|k: int| 0 <= k < i + 1 implies c@[2 * DIMS + 1 + k].val == bool_constraint(#[trigger] row_bit(local@, k)) by {
                if k < i {
                    assert(c@[2 * DIMS + 1 + k] == old_c[2 * DIMS + 1 + k]);
                }
            }
        }
        c
    }
}

/// Flipping bit `f` of a node below `2^DIMS` keeps it below `2^DIMS`, flips bit `f` and keeps
/// every other bit.
pub proof fn lemma_flip_node(node: u32, f: u32, i: u32)
    requires
        node < 1024,
        f < 10,
        i < 10,
    ensures
        node ^ (1u32 << f) < 1024,
        node_bit(node ^ (1u32 << f), i as int) == if i == f {
            1 - node_bit(node, i as int)
        } else {
            node_bit(node, i as int) as int
        },
        node_bit(node, i as int) <= 1,
{
    assert(node ^ (1u32 << f) < 1024) by (bit_vector)
        requires
            node < 1024,
            f < 10,
    ;
    assert(((node ^ (1u32 << f)) >> i) & 1 == if i == f {
        (1u32 - ((node >> i) & 1)) as u32
    } else {
        (node >> i) & 1
    }) by (bit_vector)
        requires
            f < 10,
            i < 10,
    ;
    assert((node >> i) & 1 <= 1) by (bit_vector);
}

/// Every node on a walk of flips below `DIMS` stays below `2^DIMS`.
pub proof fn lemma_hop_node_bound(flips: Seq<usize>, k: nat)
    requires
        k <= flips.len(),
        forall|j: int| 0 <= j < flips.len() ==> #[trigger] flips[j] < DIMS,
    ensures
        hop_node(flips, k) < 1024,
    decreases k,
{
    if k > 0 {
        lemma_hop_node_bound(flips, (k - 1) as nat);
        lemma_flip_node(hop_node(flips, (k - 1) as nat), flips[k - 1] as u32, 0);
    }
}

/// Row `k` lies within the first `n` rows when `k < n`.
proof fn lemma_bench_row_bounds(k: int, n: int)
    requires
        0 <= k < n,
    ensures
        0 <= k * WIDTH,
        k * WIDTH + WIDTH <= n * WIDTH,
        (k + 1) * WIDTH == k * WIDTH + WIDTH,
{
    assert((k + 1) * WIDTH == k * WIDTH + WIDTH) by (nonlinear_arith)
        requires
            WIDTH == 20,
    ;
    assert(0 <= k * WIDTH) by (nonlinear_arith)
        requires
            0 <= k,
            WIDTH == 20,
    ;
    assert(k * WIDTH + WIDTH <= n * WIDTH) by (nonlinear_arith)
        requires
            k < n,
            WIDTH == 20,
    ;
}

/// Builds the trace of the hops `flips` from node 0: row `k` holds the bits of the node before
/// hop `k` and a selector on the bit that hop `k` flips.
pub fn generate_trace_from_flips(flips: &Vec<usize>) -> (trace: Vec<Fe>)
    requires
        forall|j: int| 0 <= j < flips@.len() ==> #[trigger] flips@[j] < DIMS,
        flips@.len() * WIDTH <= usize::MAX,
    ensures
        is_hop_trace(trace@, flips@),
{
    let num_hops = flips.len();
    let mut trace: Vec<Fe> = Vec::new();
    let mut current_node: u32 = 0;
    for h in 0..num_hops
        invariant
            num_hops == flips@.len(),
            num_hops * WIDTH <= usize::MAX,
            forall|j: int| 0 <= j < flips@.len() ==> #[trigger] flips@[j] < DIMS,
            trace@.len() == h * WIDTH,
            current_node == hop_node(flips@, h as nat),
            current_node < 1024,
            forall|k: int| 0 <= k < h ==> #[trigger] bench_row(trace@, k) == hop_row(flips@, k),
    {
        proof {
            lemma_bench_row_bounds(h as int, num_hops as int);
        }
        let mut row: Vec<Fe> = Vec::new();
        for j in 0..WIDTH
            invariant
                row@.len() == j,
                forall|m: int| 0 <= m < j ==> (#[trigger] row@[m]).val == 0,
        {
            row.push(Fe::zero());
        }
        // Fill node bits.
        for i in 0..DIMS
            invariant
                row@.len() == WIDTH,
                current_node < 1024,
                forall|m: int| 0 <= m < i ==> (#[trigger] row@[m]).val == node_bit(current_node, m),
                forall|m: int| i <= m < WIDTH ==> (#[trigger] row@[m]).val == 0,
        {
            let bit = (current_node >> (i as u32)) & 1;
            proof {
                lemma_flip_node(current_node, 0, i as u32);
            }
            row.set(i, Fe::from_canonical_u32(bit));
        }
        // Pick the bit to flip for the next hop.
        let flip_idx = flips[h];
        row.set(DIMS + flip_idx, Fe::one());
        assert(row@ =~= hop_row(flips@, h as int));
        let ghost before = trace@;
        for j in 0..WIDTH
            invariant
                trace@.len() == before.len() + j,
                before.len() == h * WIDTH,
                row@.len() == WIDTH,
                forall|m: int| 0 <= m < before.len() ==> #[trigger] trace@[m] == before[m],
                forall|m: int| 0 <= m < j ==> #[trigger] trace@[before.len() + m] == row@[m],
        {
            trace.push(row[j]);
        }
        proof {
            assert forall|k: int| 0 <= k < h + 1 implies #[trigger] bench_row(trace@, k) == hop_row(
                flips@,
                k,
            ) by {
                lemma_bench_row_bounds(k, h + 1);
                if k < h {
                    lemma_bench_row_bounds(k, h as int);
                    assert(bench_row(trace@, k) =~= bench_row(before, k));
                } else {
                    assert forall|m: int| 0 <= m < WIDTH implies bench_row(trace@, k)[m] == row@[m] by {
                        assert(trace@[before.len() + m] == row@[m]);
                    }
                    assert(bench_row(trace@, k) =~= row@);
                }
            }
            lemma_flip_node(current_node, flip_idx as u32, 0);
        }
        current_node = current_node ^ (1u32 << (flip_idx as u32));
    }
    trace
}

/// A trace of `num_hops` random hops from node 0; each hop flips a bit chosen at random.
pub fn generate_trace(num_hops: usize) -> (trace: Vec<Fe>)
    requires
        num_hops * WIDTH <= usize::MAX,
    ensures
        exists|flips: Seq<usize>|
            {
                &&& flips.len() == num_hops
                &&& forall|j: int| 0 <= j < flips.len() ==> #[trigger] flips[j] < DIMS
                &&& is_hop_trace(trace@, flips)
            },
{
    let mut rng = thread_rng();
    let mut flips: Vec<usize> = Vec::new();
    for h in 0..num_hops
        invariant
            flips@.len() == h,
            forall|j: int| 0 <= j < flips@.len() ==> #[trigger] flips@[j] < DIMS,
    {
        let flip_idx = gen_index(&mut rng, DIMS);
        flips.push(flip_idx);
    }
    let trace = generate_trace_from_flips(&flips);
    assert(flips@.len() == num_hops);
    trace
}

/// On bits, `a + b - a * b * 2` is the XOR.
pub proof fn lemma_xor_boolean(a: Fe, b: Fe)
    requires
        a.val <= 1,
        b.val <= 1,
    ensures
        xor_value(a, b) == if b.val == 1 {
            1 - a.val
        } else {
            a.val as int
        },
{
    if a.val == 0 {
        if b.val == 0 {
            assert(xor_value(a, b) == 0);
        } else {
            assert(xor_value(a, b) == 1);
        }
    } else {
        if b.val == 0 {
            assert(xor_value(a, b) == 1);
        } else {
            assert(xor_value(a, b) == 0);
        }
    }
}

/// The selectors of a hop row are a one-hot vector on the flipped bit.
proof fn lemma_hop_row_selectors(flips: Seq<usize>, k: int)
    requires
        0 <= k < flips.len(),
    ensures
        hop_row(flips, k).subrange(DIMS as int, WIDTH as int) =~= selector_bits(flips[k] as nat, DIMS as nat),
{
}

/// Consecutive rows of a hop trace meet every constraint of the benchmark AIR.
pub proof fn lemma_hop_trace_satisfies_air(trace: Seq<Fe>, flips: Seq<usize>)
    requires
        is_hop_trace(trace, flips),
        forall|j: int| 0 <= j < flips.len() ==> #[trigger] flips[j] < DIMS,
    ensures
        forall|k: int|
            0 <= k < flips.len() - 1 ==> bench_holds(
                #[trigger] bench_row(trace, k),
                bench_row(trace, k + 1),
                Fe { val: 1 },
            ),
{
    assert forall|k: int|
        0 <= k < flips.len() - 1 implies bench_holds(
        #[trigger] bench_row(trace, k),
        bench_row(trace, k + 1),
        Fe { val: 1 },
    ) by {
        lemma_hop_pair_holds(flips, k);
        assert(bench_row(trace, k + 1) == hop_row(flips, k + 1));
    }
}

/// The last row of a hop trace meets the benchmark AIR where the transition constraints are
/// switched off, whatever row the evaluation pairs it with.
pub proof fn lemma_hop_trace_last_row(trace: Seq<Fe>, flips: Seq<usize>, next: Seq<Fe>)
    requires
        is_hop_trace(trace, flips),
        flips.len() > 0,
        forall|j: int| 0 <= j < flips.len() ==> #[trigger] flips[j] < DIMS,
    ensures
        bench_holds(bench_row(trace, flips.len() - 1), next, Fe { val: 0 }),
{
    let k = flips.len() - 1;
    assert(bench_row(trace, k) == hop_row(flips, k));
    lemma_hop_row_holds_off(flips, k, next);
}

/// Rows `k` and `k + 1` of the hops `flips` meet the benchmark AIR with the transition on.
proof fn lemma_hop_pair_holds(flips: Seq<usize>, k: int)
    requires
        0 <= k < flips.len() - 1,
        forall|j: int| 0 <= j < flips.len() ==> #[trigger] flips[j] < DIMS,
    ensures
        bench_holds(hop_row(flips, k), hop_row(flips, k + 1), Fe { val: 1 }),
{
    let local = hop_row(flips, k);
    let next = hop_row(flips, k + 1);
    let f = flips[k];
    let node = hop_node(flips, k as nat);
    lemma_hop_node_bound(flips, k as nat);
    assert(hop_node(flips, (k + 1) as nat) == node ^ (1u32 << (f as u32)));
    assert forall|i: int| 0 <= i < DIMS implies bool_constraint(#[trigger] row_selector(local, i)) == 0 by {
        lemma_bool_constraint_of_bit(row_selector(local, i));
    }
    let sels = local.subrange(DIMS as int, WIDTH as int);
    lemma_hop_row_selectors(flips, k);
    lemma_field_sum_boolean(sels, DIMS as nat);
    lemma_ones_selector(f as nat, DIMS as nat, DIMS as nat);
    assert(selector_sum_transition(local, Fe { val: 1 }) == 0);
    assert forall|i: int| 0 <= i < DIMS implies #[trigger] xor_constraint(local, next, Fe { val: 1 }, i) == 0 by {
        lemma_flip_node(node, f as u32, i as u32);
        lemma_xor_boolean(row_bit(local, i), row_selector(local, i));
        assert(row_bit(next, i).val == xor_value(row_bit(local, i), row_selector(local, i)));
    }
    assert forall|i: int| 0 <= i < DIMS implies bool_constraint(#[trigger] row_bit(local, i)) == 0 by {
        lemma_flip_node(node, 0, i as u32);
        lemma_bool_constraint_of_bit(row_bit(local, i));
    }
}

/// A hop row meets the benchmark AIR with the transition off, whatever row follows it.
proof fn lemma_hop_row_holds_off(flips: Seq<usize>, k: int, next: Seq<Fe>)
    requires
        0 <= k < flips.len(),
        forall|j: int| 0 <= j < flips.len() ==> #[trigger] flips[j] < DIMS,
    ensures
        bench_holds(hop_row(flips, k), next, Fe { val: 0 }),
{
    let local = hop_row(flips, k);
    assert forall|i: int| 0 <= i < DIMS implies bool_constraint(#[trigger] row_selector(local, i)) == 0 by {
        lemma_bool_constraint_of_bit(row_selector(local, i));
    }
    assert forall|i: int| 0 <= i < DIMS implies #[trigger] xor_constraint(local, next, Fe { val: 0 }, i) == 0 by {}
    lemma_hop_node_bound(flips, k as nat);
    assert forall|i: int| 0 <= i < DIMS implies bool_constraint(#[trigger] row_bit(local, i)) == 0 by {
        lemma_flip_node(hop_node(flips, k as nat), 0, i as u32);
        lemma_bool_constraint_of_bit(row_bit(local, i));
    }
}

/// The node bits of a benchmark row are 0 or 1.
pub open spec fn node_bits_boolean(row: Seq<Fe>) -> bool {
    forall|i: int| 0 <= i < DIMS ==> (#[trigger] row_bit(row, i)).val <= 1
}

/// `next` is `local`'s node with exactly one bit flipped: the one selector set in `local`.
pub open spec fn is_single_flip(local: Seq<Fe>, next: Seq<Fe>) -> bool {
    &&& ones(local.subrange(DIMS as int, WIDTH as int), DIMS as nat) == 1
    &&& forall|i: int|
        0 <= i < DIMS ==> (#[trigger] row_bit(next, i)).val == if row_selector(local, i).val == 1 {
            1 - row_bit(local, i).val
        } else {
            row_bit(local, i).val as int
        }
}

/// The benchmark AIR's boolean constraints leave only 0 and 1 in a row's node bits.
pub proof fn lemma_bench_node_bits(local: Seq<Fe>, next: Seq<Fe>, is_transition: Fe)
    requires
        bench_row_wf(local),
        bench_holds(local, next, is_transition),
    ensures
        node_bits_boolean(local),
{
    assert forall|i: int| 0 <= i < DIMS implies (#[trigger] row_bit(local, i)).val <= 1 by {
        assert(local[i].wf());
        lemma_bool_root(row_bit(local, i).val as int);
    }
}

/// What the benchmark AIR enforces on a transition: the first row holds a node in binary, the
/// selectors are bits, exactly one is set, and the second row holds the node with that bit
/// flipped.
pub proof fn lemma_bench_transition_sound(local: Seq<Fe>, next: Seq<Fe>)
    requires
        bench_row_wf(local),
        bench_row_wf(next),
        bench_holds(local, next, Fe { val: 1 }),
    ensures
        node_bits_boolean(local),
        is_single_flip(local, next),
        node_bits_boolean(next),
{
    let p = P as int;
    lemma_bench_node_bits(local, next, Fe { val: 1 });
    let sels = local.subrange(DIMS as int, WIDTH as int);
    assert forall|i: int| 0 <= i < sels.len() implies (#[trigger] sels[i]).val <= 1 by {
        assert(sels[i] == row_selector(local, i));
        assert(local[DIMS + i].wf());
        lemma_bool_root(row_selector(local, i).val as int);
    }
    lemma_field_sum_boolean(sels, DIMS as nat);
    let fs = field_sum(sels, DIMS as nat);
    assert(selector_sum_transition(local, Fe { val: 1 }) == 0);
    assert(fmul(1, fsub(fs, 1)) == fsub(fs, 1));
    vstd::arithmetic::div_mod::lemma_fundamental_div_mod(fs - 1, p);
    assert(fs == 1);
    assert forall|i: int|
        0 <= i < DIMS implies (#[trigger] row_bit(next, i)).val == if row_selector(local, i).val
        == 1 {
        1 - row_bit(local, i).val
    } else {
        row_bit(local, i).val as int
    } by {
        let a = row_bit(local, i);
        let b = row_selector(local, i);
        let n = row_bit(next, i);
        assert(sels[i] == b);
        assert(next[i].wf());
        lemma_xor_boolean(a, b);
        assert(xor_constraint(local, next, Fe { val: 1 }, i) == 0);
        let d = fsub(n.val as int, xor_value(a, b));
        assert(fmul(1, d) == d);
        vstd::arithmetic::div_mod::lemma_fundamental_div_mod(n.val - xor_value(a, b), p);
    }
    assert forall|i: int| 0 <= i < DIMS implies (#[trigger] row_bit(next, i)).val <= 1 by {
        assert(sels[i] == row_selector(local, i));
        assert(row_bit(local, i).val <= 1);
    }
}

/// Along a trace whose every transition meets the benchmark AIR, and whose last row meets it
/// with the transition off (paired, as the evaluation pairs it, with the first row), every row
/// holds a node in binary and each row is the previous one with exactly one bit flipped.
pub proof fn lemma_bench_trace_sound(trace: Seq<Fe>, n: nat)
    requires
        trace.len() == n * WIDTH,
        n > 0,
        forall|k: int| 0 <= k < n ==> bench_row_wf(#[trigger] bench_row(trace, k)),
        forall|k: int|
            0 <= k < n - 1 ==> bench_holds(
                #[trigger] bench_row(trace, k),
                bench_row(trace, k + 1),
                Fe { val: 1 },
            ),
        bench_holds(bench_row(trace, n - 1), bench_row(trace, 0), Fe { val: 0 }),
    ensures
        forall|k: int| 0 <= k < n ==> node_bits_boolean(#[trigger] bench_row(trace, k)),
        forall|k: int|
            0 <= k < n - 1 ==> is_single_flip(#[trigger] bench_row(trace, k), bench_row(trace, k + 1)),
{
    assert forall|k: int| 0 <= k < n implies node_bits_boolean(#[trigger] bench_row(trace, k)) by {
        if k < n - 1 {
            lemma_bench_node_bits(bench_row(trace, k), bench_row(trace, k + 1), Fe { val: 1 });
        } else {
            lemma_bench_node_bits(bench_row(trace, k), bench_row(trace, 0), Fe { val: 0 });
        }
    }
    assert forall|k: int|
        0 <= k < n - 1 implies is_single_flip(#[trigger] bench_row(trace, k), bench_row(trace, k + 1)) by {
        lemma_bench_transition_sound(bench_row(trace, k), bench_row(trace, k + 1));
    }
}

} // verus!
