//! The routing chip: how many rows its trace has, how events become trace rows, when the chip
//! is included in a shard, and which syscall interaction one row receives from the syscall bus.

use vstd::prelude::*;
use crate::field::{Fe, P};
use crate::cols::{
    TopologyCols, CURRENT_BITS_COL, next_bits_col, row_width, num_cols, row_wf, bit_block,
    lemma_view_parts,
};
use crate::bits::{
    bit_at, bits_of, last_diff, diff_count, field_bits_value, lemma_shr_and_one, lemma_bit_at_le_one,
};
use crate::air::{TopologicalRouterAir, constraint_values};
use crate::event::{TopologicalRouteEvent, RouteRecord};

verus! {

/// Number of dimensions of the hypercube that the chip proves hops in.
pub const TOPOLOGY_DIM: usize = 40;

/// Number of columns of one row of the chip's trace.
pub const CHIP_COLS: usize = 3 + 3 * TOPOLOGY_DIM;

/// The high part of a clock cycle: the bits above the low 24, truncated to 32 bits.
pub open spec fn clk_high_value(clk: u64) -> u32 {
    (clk >> 24u64) as u32
}

/// The low 24 bits of a clock cycle.
pub open spec fn clk_low_value(clk: u64) -> u32 {
    (clk & 0xFFFFFFu64) as u32
}

/// A one-hot vector of `d` entries with the one at `k`.
pub open spec fn selector_bits(k: nat, d: nat) -> Seq<Fe> {
    Seq::new(d, |i: int| Fe { val: if i == k { 1 } else { 0 } })
}

/// The trace row of a routing syscall at clock `clk` from node `cur` to node `next`: the clock
/// halves, the routing flag, the low `TOPOLOGY_DIM` bits of both nodes, and a selector on the
/// highest dimension in which they differ (dimension 0 when they do not differ).
pub open spec fn event_row(clk: u64, cur: u64, next: u64) -> Seq<Fe> {
    seq![Fe { val: clk_high_value(clk) }, Fe { val: clk_low_value(clk) }, Fe { val: 1 }]
        + bits_of(cur as nat, TOPOLOGY_DIM as nat) + selector_bits(
        last_diff(cur as nat, next as nat, TOPOLOGY_DIM as nat),
        TOPOLOGY_DIM as nat,
    ) + bits_of(next as nat, TOPOLOGY_DIM as nat)
}

/// A row of zeros.
pub open spec fn padding_row() -> Seq<Fe> {
    Seq::new(CHIP_COLS as nat, |j: int| Fe { val: 0 })
}

/// Row `r` of a trace laid out row after row.
pub open spec fn trace_row(trace: Seq<Fe>, r: int) -> Seq<Fe> {
    trace.subrange(r * CHIP_COLS, r * CHIP_COLS + CHIP_COLS)
}

/// The number of rows that `nb_rows` events are padded to, by this crate's own padding rule for
/// the chip's height: the fixed height when the shard fixes one, else the least multiple of 32
/// that is at least `nb_rows`.
pub open spec fn padded_rows(nb_rows: nat, fixed_height: Option<usize>) -> nat {
    match fixed_height {
        Some(height) => height as nat,
        None => if nb_rows % 32 == 0 {
            nb_rows
        } else {
            (nb_rows + (32 - nb_rows % 32)) as nat
        },
    }
}

/// Without a fixed height the trace height is the least multiple of 32 that is at least the
/// number of events; with one, it is that height.
pub proof fn lemma_padded_rows_multiple_of_32(nb_rows: nat)
    ensures
        padded_rows(nb_rows, None) % 32 == 0,
        nb_rows <= padded_rows(nb_rows, None) < nb_rows + 32,
        forall|h: usize| #[trigger] padded_rows(nb_rows, Some(h)) == h,
{
    let r = nb_rows % 32;
    vstd::arithmetic::div_mod::lemma_fundamental_div_mod(nb_rows as int, 32);
    if r != 0 {
        assert((nb_rows + (32 - r)) as int == 32 * (nb_rows as int / 32 + 1));
        vstd::arithmetic::div_mod::lemma_mod_multiples_basic(nb_rows as int / 32 + 1, 32);
    }
}

/// Padding `nb_rows` rows is possible: a fixed height holds them, or the next multiple of 32
/// fits in a `usize`.
pub open spec fn can_pad(nb_rows: nat, fixed_height: Option<usize>) -> bool {
    match fixed_height {
        Some(height) => nb_rows <= height,
        None => nb_rows + 31 <= usize::MAX,
    }
}

/// Which way an interaction goes on the syscall bus.
#[derive(Clone, Copy, Debug, PartialEq, Eq, Structural)]
pub enum InteractionKind {
    /// The interaction is sent, as the CPU sends a syscall.
    Send,
    /// The interaction is received, as a precompile chip receives the syscall it proves.
    Receive,
}

/// Where an interaction is balanced.
#[derive(Clone, Copy, Debug, PartialEq, Eq, Structural)]
pub enum InteractionScope {
    /// Across all shards.
    Global,
    /// Within the shard.
    Local,
}

/// A syscall interaction that one row puts on the syscall bus.
#[derive(Clone, Copy, Debug)]
pub struct SyscallInteraction {
    /// Whether the row sends or receives the interaction.
    pub kind: InteractionKind,
    /// Clock cycle of the syscall, high part.
    pub clk_high: Fe,
    /// Clock cycle of the syscall, low 24 bits.
    pub clk_low: Fe,
    /// The code of the syscall.
    pub syscall_code: Fe,
    /// The first syscall argument, as three limbs: the current node, then zeros.
    pub arg1: [Fe; 3],
    /// The second syscall argument, as three limbs: the next node, then zeros.
    pub arg2: [Fe; 3],
    /// How many times the interaction counts: the routing flag.
    pub multiplicity: Fe,
    /// Where the interaction is balanced.
    pub scope: InteractionScope,
}

/// Rounds `n` up to the trace height: the fixed height when there is one, else the next
/// multiple of 32.
fn next_multiple_of_32(n: usize, fixed_height: Option<usize>) -> (r: usize)
    requires
        can_pad(n as nat, fixed_height),
    ensures
        r == padded_rows(n as nat, fixed_height),
        n <= r,
{
    match fixed_height {
        Some(height) => height,
        None => {
            let rem = n % 32;
            if rem == 0 {
                n
            } else {
                n + (32 - rem)
            }
        },
    }
}

/// The chip that proves routing syscalls.
#[derive(Default)]
pub struct TopologyChip;

impl TopologyChip {
    pub fn new() -> (r: Self) {
        TopologyChip
    }

    /// Number of columns of a row.
    pub fn width(&self) -> (r: usize)
        ensures
            r == CHIP_COLS,
    {
        CHIP_COLS
    }

    /// The chip's name.
    pub fn name(&self) -> (r: &'static str)
        ensures
            r@ == "TopologicalRoute"@,
    {
        "TopologicalRoute"
    }

    /// The number of trace rows for `nb_rows` routing events, when the shard fixes the height
    /// to `fixed_height` or not.
    pub fn num_rows(&self, nb_rows: usize, fixed_height: Option<usize>) -> (r: Option<usize>)
        requires
            can_pad(nb_rows as nat, fixed_height),
        ensures
            r == Some(padded_rows(nb_rows as nat, fixed_height) as usize),
            nb_rows <= padded_rows(nb_rows as nat, fixed_height),
            fixed_height is None ==> r.unwrap() % 32 == 0 && r.unwrap() < nb_rows + 32,
            fixed_height is Some ==> r == fixed_height,
    {
        proof {
            lemma_padded_rows_multiple_of_32(nb_rows as nat);
        }
        let padded_nb_rows = next_multiple_of_32(nb_rows, fixed_height);
        Some(padded_nb_rows)
    }

    /// Whether the chip takes part in a shard: as the shard's shape decides when it has one,
    /// else when the shard holds routing events.
    pub fn included(&self, shape_includes: Option<bool>, num_events: usize) -> (r: bool)
        ensures
            r == match shape_includes {
                Some(b) => b,
                None => num_events > 0,
            },
    {
        if let Some(b) = shape_includes {
            b
        } else {
            !(num_events == 0)
        }
    }

    /// The trace row of one routing event: unpacks both node IDs into `TOPOLOGY_DIM` bits and marks the
    /// dimension in which they differ.
    pub fn event_row(clk: u64, event: &TopologicalRouteEvent) -> (r: TopologyCols<Fe, TOPOLOGY_DIM>)
        requires
            clk_high_value(clk) < P,
        ensures
            r@ == event_row(clk, event.current_node, event.next_node),
            row_wf(r@, TOPOLOGY_DIM as nat),
    {
        let ghost cur = event.current_node as nat;
        let ghost nxt = event.next_node as nat;
        let clk_low_raw: u32 = (clk & 0xFFFFFF) as u32;
        assert(clk_low_raw < 0x1000000) by (bit_vector)
            requires
                clk_low_raw == (clk & 0xFFFFFFu64) as u32,
        ;
        let clk_high = Fe::from_canonical_u32((clk >> 24) as u32);
        let clk_low = Fe::from_canonical_u32(clk_low_raw);
        let is_routing = Fe::one();
        let z = Fe::zero();
        let mut current_bits = [z; TOPOLOGY_DIM];
        let mut selectors = [z; TOPOLOGY_DIM];
        let mut next_bits = [z; TOPOLOGY_DIM];
        let mut diff_bit_idx: usize = 0;
        // Unpack the node IDs into TOPOLOGY_DIM bits and find the differing bit of the hop.
        for i in 0..TOPOLOGY_DIM
            invariant
                cur == event.current_node,
                nxt == event.next_node,
                diff_bit_idx == last_diff(cur, nxt, i as nat),
                diff_bit_idx < TOPOLOGY_DIM,
                forall|k: int| 0 <= k < i ==> #[trigger] current_bits@[k] == (Fe { val: bit_at(cur, k as nat) as u32 }),
                forall|k: int| 0 <= k < i ==> #[trigger] next_bits@[k] == (Fe { val: bit_at(nxt, k as nat) as u32 }),
                forall|k: int| 0 <= k < TOPOLOGY_DIM ==> (#[trigger] selectors@[k]).val == 0,
        {
            let bit: u64 = (event.current_node >> (i as u64)) & 1;
            let next_bit: u64 = (event.next_node >> (i as u64)) & 1;
            proof {
                lemma_shr_and_one(event.current_node, i as u64);
                lemma_shr_and_one(event.next_node, i as u64);
                lemma_bit_at_le_one(cur, i as nat);
                lemma_bit_at_le_one(nxt, i as nat);
            }
            current_bits[i] = Fe::from_canonical_u64(bit);
            next_bits[i] = Fe::from_canonical_u64(next_bit);
            selectors[i] = Fe::zero();
            if bit != next_bit {
                diff_bit_idx = i;
            }
        }
        // Mark the selected dimension.
        selectors[diff_bit_idx] = Fe::one();
        let r = TopologyCols {
            clk_high,
            clk_low,
            is_routing,
            current_bits,
            selectors,
            next_bits,
        };
        assert(current_bits@ =~= bits_of(cur, TOPOLOGY_DIM as nat));
        assert(next_bits@ =~= bits_of(nxt, TOPOLOGY_DIM as nat));
        assert(selectors@ =~= selector_bits(last_diff(cur, nxt, TOPOLOGY_DIM as nat), TOPOLOGY_DIM as nat));
        assert(r@ =~= event_row(clk, event.current_node, event.next_node));
        proof {
            assert forall|j: int| 0 <= j < CHIP_COLS implies (#[trigger] r@[j]).wf() by {
                if 3 <= j < 3 + TOPOLOGY_DIM {
                    lemma_bit_at_le_one(cur, (j - 3) as nat);
                } else if 3 + 2 * TOPOLOGY_DIM <= j {
                    lemma_bit_at_le_one(nxt, (j - 3 - 2 * TOPOLOGY_DIM) as nat);
                }
            }
        }
        r
    }

    /// Fills the trace: row `r` holds the `r`-th routing event, and the rows after the events,
    /// up to the padded height, hold zeros. Cells past the padded height are left as they were.
    pub fn generate_trace_into(
        &self,
        events: &Vec<RouteRecord>,
        fixed_height: Option<usize>,
        buffer: &mut Vec<Fe>,
    )
        requires
            can_pad(events@.len() as nat, fixed_height),
            padded_rows(events@.len() as nat, fixed_height) * CHIP_COLS <= old(buffer)@.len(),
            forall|j: int| 0 <= j < events@.len() ==> clk_high_value((#[trigger] events@[j]).clk) < P,
            forall|j: int|
                0 <= j < events@.len() ==> diff_count(
                    (#[trigger] events@[j]).event.current_node as nat,
                    events@[j].event.next_node as nat,
                    TOPOLOGY_DIM as nat,
                ) == 1,
        ensures
            final(buffer)@.len() == old(buffer)@.len(),
            forall|r: int|
                0 <= r < padded_rows(events@.len() as nat, fixed_height) ==> #[trigger] trace_row(
                    final(buffer)@,
                    r,
                ) == if r < events@.len() {
                    record_row(events@[r])
                } else {
                    padding_row()
                },
            forall|k: int|
                padded_rows(events@.len() as nat, fixed_height) * CHIP_COLS <= k < final(buffer)@.len()
                    ==> #[trigger] final(buffer)@[k] == old(buffer)@[k],
    {
        let ghost old_buf = buffer@;
        let buf_len = buffer.len();
        let padded_nb_rows = self.num_rows(events.len(), fixed_height).unwrap();
        let num_event_rows = events.len();
        let n_cols = CHIP_COLS;
        let ghost total = padded_nb_rows * CHIP_COLS;
        proof {
            lemma_row_offsets(num_event_rows as int, padded_nb_rows as int);
        }
        // Zero the padding rows.
        let padding_start = num_event_rows * n_cols;
        let padding_size = (padded_nb_rows - num_event_rows) * n_cols;
        let z = Fe::zero();
        let mut k: usize = 0;
        while k < padding_size
            invariant
                padding_start + padding_size == total,
                total <= buf_len,
                buf_len == old_buf.len(),
                buffer@.len() == old_buf.len(),
                k <= padding_size,
                forall|m: int|
                    0 <= m < buffer@.len() ==> #[trigger] buffer@[m] == if padding_start <= m
                        < padding_start + k {
                        z
                    } else {
                        old_buf[m]
                    },
            decreases padding_size - k,
        {
            buffer.set(padding_start + k, z);
            k = k + 1;
        }
        // Fill one row per event.
        for idx in 0..num_event_rows
            invariant
                num_event_rows == events@.len(),
                n_cols == CHIP_COLS,
                padding_start == num_event_rows * CHIP_COLS,
                total == padded_nb_rows * CHIP_COLS,
                num_event_rows <= padded_nb_rows,
                padding_start <= total,
                total <= buf_len,
                buf_len == old_buf.len(),
                buffer@.len() == old_buf.len(),
                z.val == 0,
                forall|j: int| 0 <= j < events@.len() ==> clk_high_value((#[trigger] events@[j]).clk) < P,
                forall|r: int| 0 <= r < idx ==> #[trigger] trace_row(buffer@, r) == record_row(events@[r]),
                forall|m: int| padding_start <= m < total ==> #[trigger] buffer@[m] == z,
                forall|m: int| total <= m < buffer@.len() ==> #[trigger] buffer@[m] == old_buf[m],
        {
            proof {
                lemma_row_bounds(idx as int, num_event_rows as int);
            }
            let rec = &events[idx];
            assert(clk_high_value(events@[idx as int].clk) < P);
            let cols = Self::event_row(rec.clk, &rec.event);
            let ghost before = buffer@;
            let start = idx * n_cols;
            cols.write_row(buffer, start);
            proof {
                assert forall|r: int| 0 <= r < idx + 1 implies #[trigger] trace_row(buffer@, r)
                    == record_row(events@[r]) by {
                    lemma_row_bounds(r, idx + 1);
                    lemma_row_bounds(r, num_event_rows as int);
                    if r < idx {
                        lemma_row_bounds(r, idx as int);
                        assert forall|c: int| 0 <= c < CHIP_COLS implies trace_row(buffer@, r)[c]
                            == trace_row(before, r)[c] by {
                            assert(trace_row(buffer@, r)[c] == buffer@[r * CHIP_COLS + c]);
                            assert(trace_row(before, r)[c] == before[r * CHIP_COLS + c]);
                        }
                        assert(trace_row(buffer@, r) =~= trace_row(before, r));
                    } else {
                        assert forall|c: int| 0 <= c < CHIP_COLS implies trace_row(buffer@, r)[c]
                            == cols@[c] by {
                            assert(trace_row(buffer@, r)[c] == buffer@[r * CHIP_COLS + c]);
                        }
                        assert(trace_row(buffer@, r) =~= cols@);
                    }
                }
            }
        }
        proof {
            assert forall|r: int| 0 <= r < padded_nb_rows implies #[trigger] trace_row(buffer@, r)
                == if r < events@.len() {
                record_row(events@[r])
            } else {
                padding_row()
            } by {
                if r >= events@.len() {
                    lemma_row_bounds(r, padded_nb_rows as int);
                    assert forall|c: int| 0 <= c < CHIP_COLS implies trace_row(buffer@, r)[c]
                        == padding_row()[c] by {
                        lemma_cell_offset(r, c, events@.len() as int);
                        assert(trace_row(buffer@, r)[c] == buffer@[r * CHIP_COLS + c]);
                        assert(buffer@[r * CHIP_COLS + c] == z);
                    }
                    assert(trace_row(buffer@, r) =~= padding_row());
                }
            }
        }
    }

    /// Evaluates one row: the routing AIR's constraints, and the syscall interaction the row
    /// receives from the syscall bus, with both node IDs rebuilt from their bits.
    /// `syscall_code` is the code under which the executor numbers the routing syscall.
    pub fn eval(&self, local_row: &[Fe], syscall_code: u32) -> (r: (Vec<Fe>, SyscallInteraction))
        requires
            row_wf(local_row@, TOPOLOGY_DIM as nat),
            syscall_code < P,
        ensures
            constraint_values(local_row@, TOPOLOGY_DIM as nat, r.0@),
            receives(local_row@, syscall_code, r.1),
    {
        let ghost row = local_row@;
        let local = TopologyCols::<Fe, TOPOLOGY_DIM>::from_row(local_row);
        proof {
            lemma_view_parts(local);
        }
        // The library's AIR gives the bit, selector and bit-flip constraints.
        let constraints = TopologicalRouterAir::<TOPOLOGY_DIM>.eval(local_row);
        // Rebuild the node IDs from their bits.
        let ghost cb = bit_block(row, CURRENT_BITS_COL as int, TOPOLOGY_DIM as nat);
        let ghost nb = bit_block(row, next_bits_col(TOPOLOGY_DIM as nat), TOPOLOGY_DIM as nat);
        let two = Fe::from_canonical_u32(2);
        let mut current_node = Fe::zero();
        let mut next_node = Fe::zero();
        let mut i: usize = TOPOLOGY_DIM;
        assert(cb.skip(TOPOLOGY_DIM as int) =~= Seq::<Fe>::empty());
        assert(nb.skip(TOPOLOGY_DIM as int) =~= Seq::<Fe>::empty());
        while i > 0
            invariant
                i <= TOPOLOGY_DIM,
                row == local@,
                row_wf(row, TOPOLOGY_DIM as nat),
                two.val == 2,
                cb == bit_block(row, CURRENT_BITS_COL as int, TOPOLOGY_DIM as nat),
                nb == bit_block(row, next_bits_col(TOPOLOGY_DIM as nat), TOPOLOGY_DIM as nat),
                forall|k: int| 0 <= k < TOPOLOGY_DIM ==> #[trigger] local.current_bits@[k] == row[CURRENT_BITS_COL + k],
                forall|k: int| 0 <= k < TOPOLOGY_DIM ==> #[trigger] local.next_bits@[k] == row[next_bits_col(TOPOLOGY_DIM as nat) + k],
                current_node.wf(),
                next_node.wf(),
                current_node.val == field_bits_value(cb.skip(i as int)),
                next_node.val == field_bits_value(nb.skip(i as int)),
            decreases i,
        {
            i = i - 1;
            assert(local.current_bits@[i as int].wf());
            assert(local.next_bits@[i as int].wf());
            current_node = local.current_bits[i].add(two.mul(current_node));
            next_node = local.next_bits[i].add(two.mul(next_node));
            assert(cb.skip(i as int)[0] == cb[i as int]);
            assert(nb.skip(i as int)[0] == nb[i as int]);
            assert(cb.skip(i as int).skip(1) =~= cb.skip(i + 1));
            assert(nb.skip(i as int).skip(1) =~= nb.skip(i + 1));
        }
        assert(cb.skip(0) =~= cb);
        assert(nb.skip(0) =~= nb);
        // Receive the syscall interaction.
        let interaction = SyscallInteraction {
            kind: InteractionKind::Receive,
            clk_high: local.clk_high,
            clk_low: local.clk_low,
            syscall_code: Fe::from_canonical_u32(syscall_code),
            arg1: [current_node, Fe::zero(), Fe::zero()],
            arg2: [next_node, Fe::zero(), Fe::zero()],
            multiplicity: local.is_routing,
            scope: InteractionScope::Local,
        };
        (constraints, interaction)
    }
}

/// Offsets of whole rows: `n` rows end before `m` rows do when `n <= m`, and the padding fills
/// the gap.
proof fn lemma_row_offsets(n: int, m: int)
    requires
        0 <= n <= m,
    ensures
        n * CHIP_COLS <= m * CHIP_COLS,
        (m - n) * CHIP_COLS + n * CHIP_COLS == m * CHIP_COLS,
        0 <= n * CHIP_COLS,
{
    assert(n * CHIP_COLS <= m * CHIP_COLS) by (nonlinear_arith)
        requires
            0 <= n <= m,
            CHIP_COLS == 123,
    ;
    assert((m - n) * CHIP_COLS + n * CHIP_COLS == m * CHIP_COLS) by (nonlinear_arith)
        requires
            CHIP_COLS == 123,
    ;
    assert(0 <= n * CHIP_COLS) by (nonlinear_arith)
        requires
            0 <= n,
            CHIP_COLS == 123,
    ;
}

/// Row `r` lies within the first `n` rows when `r < n`.
proof fn lemma_row_bounds(r: int, n: int)
    requires
        0 <= r < n,
    ensures
        0 <= r * CHIP_COLS,
        r * CHIP_COLS + CHIP_COLS <= n * CHIP_COLS,
{
    assert(0 <= r * CHIP_COLS) by (nonlinear_arith)
        requires
            0 <= r,
            CHIP_COLS == 123,
    ;
    assert(r * CHIP_COLS + CHIP_COLS <= n * CHIP_COLS) by (nonlinear_arith)
        requires
            r < n,
            CHIP_COLS == 123,
    ;
}

/// Cell `c` of row `r` lies before row `n` starts when `r < n`, and at or after it otherwise.
proof fn lemma_cell_offset(r: int, c: int, n: int)
    requires
        0 <= r,
        0 <= c < CHIP_COLS,
    ensures
        r < n ==> r * CHIP_COLS + c < n * CHIP_COLS,
        r >= n ==> r * CHIP_COLS + c >= n * CHIP_COLS,
        r < n ==> r * CHIP_COLS + c + CHIP_COLS <= n * CHIP_COLS + c,
        0 <= r * CHIP_COLS,
{
    assert(r < n ==> r * CHIP_COLS + c < n * CHIP_COLS) by (nonlinear_arith)
        requires
            0 <= c < CHIP_COLS,
            CHIP_COLS == 123,
    ;
    assert(r >= n ==> r * CHIP_COLS + c >= n * CHIP_COLS) by (nonlinear_arith)
        requires
            0 <= c < CHIP_COLS,
            CHIP_COLS == 123,
    ;
    assert(r < n ==> r * CHIP_COLS + c + CHIP_COLS <= n * CHIP_COLS + c) by (nonlinear_arith)
        requires
            CHIP_COLS == 123,
    ;
    assert(0 <= r * CHIP_COLS) by (nonlinear_arith)
        requires
            0 <= r,
            CHIP_COLS == 123,
    ;
}

/// The trace row of a recorded routing syscall.
pub open spec fn record_row(rec: RouteRecord) -> Seq<Fe> {
    event_row(rec.clk, rec.event.current_node, rec.event.next_node)
}

/// `m` is the syscall interaction that `row` receives: the clock halves, the routing syscall's
/// code, the current and next node IDs rebuilt from their bits in the field, the routing flag as
/// multiplicity, balanced within the shard.
pub open spec fn receives(row: Seq<Fe>, syscall_code: u32, m: SyscallInteraction) -> bool {
    &&& m.kind == InteractionKind::Receive
    &&& m.clk_high == row[0]
    &&& m.clk_low == row[1]
    &&& m.syscall_code == (Fe { val: syscall_code })
    &&& m.arg1@ == seq![
        Fe { val: field_bits_value(bit_block(row, CURRENT_BITS_COL as int, TOPOLOGY_DIM as nat)) as u32 },
        Fe { val: 0 },
        Fe { val: 0 },
    ]
    &&& m.arg2@ == seq![
        Fe { val: field_bits_value(bit_block(row, next_bits_col(TOPOLOGY_DIM as nat), TOPOLOGY_DIM as nat)) as u32 },
        Fe { val: 0 },
        Fe { val: 0 },
    ]
    &&& m.multiplicity == row[2]
    &&& m.scope == InteractionScope::Local
}

} // verus!
