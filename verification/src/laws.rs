//! What the pieces promise together: an accepted hop yields a trace row that the AIR accepts
//! and whose syscall interaction carries the hop's nodes, a generated trace meets the AIR on
//! every row, and a routing row that the AIR accepts carries a hop that the host check accepts.

use vstd::prelude::*;
use vstd::arithmetic::power2::{pow2, lemma2_to64, lemma2_to64_rest};
use vstd::arithmetic::div_mod::lemma_small_mod;
use crate::field::{Fe, P, fadd, fsub, fmul};
use crate::cols::{DIM, CURRENT_BITS_COL, selectors_col, next_bits_col, row_width, row_wf, bit_block};
use crate::bits::{
    bit_at, bits_of, bits_value, diff_count, last_diff, field_bits_value, route_check,
    is_boolean, lemma_bit_at_le_one, lemma_diff_count_congruent, lemma_bits_value_boolean,
    lemma_last_diff, lemma_single_diff, lemma_field_bits_value, lemma_bits_of_value,
    lemma_is_hop_dim, lemma_diff_count_extend,
};
use crate::air::{
    air_holds, bool_constraint, flip_value, field_sum, ones, routing_flag, cur_bit, sel_bit,
    next_bit, flip_constraint, selector_sum_constraint, lemma_flip_boolean, bit_columns_boolean,
    constraint_values, lemma_constraints_vanish_iff,
    lemma_field_sum_boolean, lemma_air_sound, lemma_zero_row_holds,
};
use crate::chip::{
    TOPOLOGY_DIM, CHIP_COLS, event_row, selector_bits, clk_high_value, clk_low_value, padding_row,
    trace_row, record_row, padded_rows,
};
use crate::event::RouteRecord;

verus! {

/// The boolean constraint vanishes on 0 and 1.
pub proof fn lemma_bool_constraint_of_bit(x: Fe)
    requires
        x.val <= 1,
    ensures
        bool_constraint(x) == 0,
{
    if x.val == 0 {
        assert(fmul(0, fsub(0, 1)) == 0);
    } else {
        assert(fmul(1, fsub(1, 1)) == 0);
    }
}

/// A one-hot vector with its one at `k` sums to 1 over any prefix that covers `k`, and to 0
/// over one that does not.
pub proof fn lemma_ones_selector(k: nat, d: nat, m: nat)
    requires
        m <= d,
    ensures
        ones(selector_bits(k, d), m) == if k < m {
            1nat
        } else {
            0nat
        },
    decreases m,
{
    if m > 0 {
        lemma_ones_selector(k, d, (m - 1) as nat);
    }
}

/// The cells of an event row, by column.
proof fn lemma_event_row_cells(clk: u64, cur: u64, next: u64)
    ensures
        event_row(clk, cur, next).len() == CHIP_COLS,
        event_row(clk, cur, next)[0].val == clk_high_value(clk),
        event_row(clk, cur, next)[1].val == clk_low_value(clk),
        routing_flag(event_row(clk, cur, next)).val == 1,
        bit_block(event_row(clk, cur, next), CURRENT_BITS_COL as int, TOPOLOGY_DIM as nat) =~= bits_of(
            cur as nat,
            TOPOLOGY_DIM as nat,
        ),
        bit_block(event_row(clk, cur, next), selectors_col(TOPOLOGY_DIM as nat), TOPOLOGY_DIM as nat) =~= selector_bits(
            last_diff(cur as nat, next as nat, TOPOLOGY_DIM as nat),
            TOPOLOGY_DIM as nat,
        ),
        bit_block(event_row(clk, cur, next), next_bits_col(TOPOLOGY_DIM as nat), TOPOLOGY_DIM as nat) =~= bits_of(
            next as nat,
            TOPOLOGY_DIM as nat,
        ),
        forall|i: int|
            0 <= i < TOPOLOGY_DIM ==> (#[trigger] cur_bit(event_row(clk, cur, next), i)).val == bit_at(
                cur as nat,
                i as nat,
            ),
        forall|i: int|
            0 <= i < TOPOLOGY_DIM ==> (#[trigger] next_bit(event_row(clk, cur, next), TOPOLOGY_DIM as nat, i)).val == bit_at(
                next as nat,
                i as nat,
            ),
        forall|i: int|
            0 <= i < TOPOLOGY_DIM ==> (#[trigger] sel_bit(event_row(clk, cur, next), TOPOLOGY_DIM as nat, i)).val == if i
                == last_diff(cur as nat, next as nat, TOPOLOGY_DIM as nat) {
                1nat
            } else {
                0nat
            },
{
    let row = event_row(clk, cur, next);
    assert forall|i: int|
        0 <= i < TOPOLOGY_DIM implies (#[trigger] cur_bit(row, i)).val == bit_at(cur as nat, i as nat) by {
        lemma_bit_at_le_one(cur as nat, i as nat);
    }
    assert forall|i: int|
        0 <= i < TOPOLOGY_DIM implies (#[trigger] next_bit(row, TOPOLOGY_DIM as nat, i)).val == bit_at(next as nat, i as nat) by {
        lemma_bit_at_le_one(next as nat, i as nat);
    }
}

/// A routing syscall between nodes that differ in exactly one of the `TOPOLOGY_DIM` dimensions yields a
/// trace row on which every constraint of the AIR vanishes.
pub proof fn lemma_event_row_satisfies_air(clk: u64, cur: u64, next: u64)
    requires
        diff_count(cur as nat, next as nat, TOPOLOGY_DIM as nat) == 1,
    ensures
        air_holds(event_row(clk, cur, next), TOPOLOGY_DIM as nat),
{
    let row = event_row(clk, cur, next);
    let a = cur as nat;
    let b = next as nat;
    let k = last_diff(a, b, TOPOLOGY_DIM as nat);
    lemma_event_row_cells(clk, cur, next);
    lemma_last_diff(a, b, TOPOLOGY_DIM as nat);
    lemma_single_diff(a, b, TOPOLOGY_DIM as nat, k);
    // Booleanity.
    lemma_bool_constraint_of_bit(routing_flag(row));
    assert forall|i: int| 0 <= i < TOPOLOGY_DIM implies bool_constraint(#[trigger] cur_bit(row, i)) == 0 by {
        lemma_bit_at_le_one(a, i as nat);
        lemma_bool_constraint_of_bit(cur_bit(row, i));
    }
    assert forall|i: int| 0 <= i < TOPOLOGY_DIM implies bool_constraint(#[trigger] next_bit(row, TOPOLOGY_DIM as nat, i)) == 0 by {
        lemma_bit_at_le_one(b, i as nat);
        lemma_bool_constraint_of_bit(next_bit(row, TOPOLOGY_DIM as nat, i));
    }
    assert forall|i: int| 0 <= i < TOPOLOGY_DIM implies bool_constraint(#[trigger] sel_bit(row, TOPOLOGY_DIM as nat, i)) == 0 by {
        lemma_bool_constraint_of_bit(sel_bit(row, TOPOLOGY_DIM as nat, i));
    }
    // Exactly one selector.
    let sb = bit_block(row, selectors_col(TOPOLOGY_DIM as nat), TOPOLOGY_DIM as nat);
    assert(crate::bits::is_boolean(sb));
    lemma_field_sum_boolean(sb, TOPOLOGY_DIM as nat);
    lemma_ones_selector(k, TOPOLOGY_DIM as nat, TOPOLOGY_DIM as nat);
    assert(field_sum(sb, TOPOLOGY_DIM as nat) == 1);
    assert(selector_sum_constraint(row, TOPOLOGY_DIM as nat) == 0);
    // The flip equation.
    assert forall|i: int| 0 <= i < TOPOLOGY_DIM implies #[trigger] flip_constraint(row, TOPOLOGY_DIM as nat, i) == 0 by {
        lemma_bit_at_le_one(a, i as nat);
        lemma_bit_at_le_one(b, i as nat);
        lemma_flip_boolean(cur_bit(row, i), sel_bit(row, TOPOLOGY_DIM as nat, i));
        if i != k {
            assert(bit_at(a, i as nat) == bit_at(b, i as nat));
        }
        assert(next_bit(row, TOPOLOGY_DIM as nat, i).val == flip_value(cur_bit(row, i), sel_bit(row, TOPOLOGY_DIM as nat, i)));
    }
}

/// Flipping bit `k` of `c` flips bit `k` and keeps every other bit.
proof fn lemma_xor_one_bit(c: u64, k: u64, i: u64)
    requires
        k < 64,
        i < 64,
    ensures
        i == k ==> ((c ^ (1u64 << k)) >> i) & 1 == 1 - ((c >> i) & 1),
        i != k ==> ((c ^ (1u64 << k)) >> i) & 1 == (c >> i) & 1,
{
    assert(i == k ==> ((c ^ (1u64 << k)) >> i) & 1 == 1 - ((c >> i) & 1)) by (bit_vector)
        requires
            k < 64,
            i < 64,
    ;
    assert(i != k ==> ((c ^ (1u64 << k)) >> i) & 1 == (c >> i) & 1) by (bit_vector)
        requires
            k < 64,
            i < 64,
    ;
}

/// No valid single-bit hop is refused: a row of `d` dimensions with the routing flag set, the
/// bits of `c` as the current node, the selector set on dimension `k` alone, and the bits of
/// `c` with bit `k` flipped as the next node meets every constraint of the AIR, whatever its
/// clock cells hold.
pub proof fn lemma_hop_row_satisfies_air(row: Seq<Fe>, d: nat, c: u64, k: nat)
    requires
        row.len() == row_width(d),
        d <= 64,
        k < d,
        routing_flag(row).val == 1,
        forall|i: int| 0 <= i < d ==> (#[trigger] cur_bit(row, i)).val == (c >> (i as u64)) & 1,
        forall|i: int|
            0 <= i < d ==> (#[trigger] sel_bit(row, d, i)).val == if i == k {
                1nat
            } else {
                0nat
            },
        forall|i: int|
            0 <= i < d ==> (#[trigger] next_bit(row, d, i)).val == ((c ^ (1u64 << (k as u64))) >> (
            i as u64)) & 1,
    ensures
        air_holds(row, d),
{
    lemma_bool_constraint_of_bit(routing_flag(row));
    assert forall|i: int| 0 <= i < d implies bool_constraint(#[trigger] cur_bit(row, i)) == 0 by {
        let ii = i as u64;
        assert((c >> ii) & 1 <= 1) by (bit_vector);
        lemma_bool_constraint_of_bit(cur_bit(row, i));
    }
    assert forall|i: int| 0 <= i < d implies bool_constraint(#[trigger] next_bit(row, d, i)) == 0 by {
        let f = c ^ (1u64 << (k as u64));
        let ii = i as u64;
        assert((f >> ii) & 1 <= 1) by (bit_vector);
        lemma_bool_constraint_of_bit(next_bit(row, d, i));
    }
    assert forall|i: int| 0 <= i < d implies bool_constraint(#[trigger] sel_bit(row, d, i)) == 0 by {
        lemma_bool_constraint_of_bit(sel_bit(row, d, i));
    }
    let sb = bit_block(row, selectors_col(d), d);
    assert(sb =~= selector_bits(k, d)) by {
        assert forall|i: int| 0 <= i < d implies sb[i] == selector_bits(k, d)[i] by {
            assert(sb[i] == sel_bit(row, d, i));
        }
    }
    lemma_field_sum_boolean(sb, d);
    lemma_ones_selector(k, d, d);
    assert(selector_sum_constraint(row, d) == 0);
    assert forall|i: int| 0 <= i < d implies #[trigger] flip_constraint(row, d, i) == 0 by {
        let ii = i as u64;
        lemma_xor_one_bit(c, k as u64, ii);
        assert((c >> ii) & 1 <= 1) by (bit_vector);
        lemma_flip_boolean(cur_bit(row, i), sel_bit(row, d, i));
        assert(next_bit(row, d, i).val == flip_value(cur_bit(row, i), sel_bit(row, d, i)));
    }
}

/// A row whose routing flag is 0 is idle, and the AIR accepts it whatever boolean bits and
/// selectors it holds: the selector count and the bit-flip equations bind routing rows only, so
/// on an idle row they vanish, and only booleanity is checked.
pub proof fn lemma_idle_row_holds(row: Seq<Fe>, d: nat)
    requires
        row.len() == row_width(d),
        routing_flag(row).val == 0,
        bit_columns_boolean(row, d),
    ensures
        selector_sum_constraint(row, d) == 0,
        forall|i: int| 0 <= i < d ==> #[trigger] flip_constraint(row, d, i) == 0,
        air_holds(row, d),
{
    let cb = bit_block(row, CURRENT_BITS_COL as int, d);
    let sb = bit_block(row, selectors_col(d), d);
    let nb = bit_block(row, next_bits_col(d), d);
    lemma_bool_constraint_of_bit(routing_flag(row));
    assert(selector_sum_constraint(row, d) == 0);
    assert forall|i: int| 0 <= i < d implies #[trigger] flip_constraint(row, d, i) == 0 by {}
    assert forall|i: int| 0 <= i < d implies bool_constraint(#[trigger] cur_bit(row, i)) == 0 by {
        assert(cb[i] == cur_bit(row, i));
        lemma_bool_constraint_of_bit(cur_bit(row, i));
    }
    assert forall|i: int| 0 <= i < d implies bool_constraint(#[trigger] next_bit(row, d, i)) == 0 by {
        assert(nb[i] == next_bit(row, d, i));
        lemma_bool_constraint_of_bit(next_bit(row, d, i));
    }
    assert forall|i: int| 0 <= i < d implies bool_constraint(#[trigger] sel_bit(row, d, i)) == 0 by {
        assert(sb[i] == sel_bit(row, d, i));
        lemma_bool_constraint_of_bit(sel_bit(row, d, i));
    }
}

/// Every constraint value that the AIR's evaluation gives on an idle row with boolean cells is
/// 0: padding rows that repeat a node's bits with no selector set are accepted.
pub proof fn lemma_idle_row_constraints_vanish(row: Seq<Fe>, d: nat, c: Seq<Fe>)
    requires
        constraint_values(row, d, c),
        row.len() == row_width(d),
        routing_flag(row).val == 0,
        bit_columns_boolean(row, d),
    ensures
        forall|j: int| 0 <= j < c.len() ==> (#[trigger] c[j]).val == 0,
{
    lemma_idle_row_holds(row, d);
    lemma_constraints_vanish_iff(row, d, c);
}

/// The syscall interaction of an event row carries exactly the syscall's clock halves and its
/// two node IDs, as far as `TOPOLOGY_DIM` bits and the field hold them, once.
pub proof fn lemma_event_row_carries_nodes(clk: u64, cur: u64, next: u64)
    ensures
        event_row(clk, cur, next)[0].val == clk_high_value(clk),
        event_row(clk, cur, next)[1].val == clk_low_value(clk),
        routing_flag(event_row(clk, cur, next)).val == 1,
        field_bits_value(bit_block(event_row(clk, cur, next), CURRENT_BITS_COL as int, TOPOLOGY_DIM as nat))
            == (cur as nat % pow2(TOPOLOGY_DIM as nat)) as int % (P as int),
        field_bits_value(bit_block(event_row(clk, cur, next), next_bits_col(TOPOLOGY_DIM as nat), TOPOLOGY_DIM as nat))
            == (next as nat % pow2(TOPOLOGY_DIM as nat)) as int % (P as int),
{
    let row = event_row(clk, cur, next);
    lemma_event_row_cells(clk, cur, next);
    lemma_bits_of_value(cur as nat, TOPOLOGY_DIM as nat);
    lemma_bits_of_value(next as nat, TOPOLOGY_DIM as nat);
    lemma_field_bits_value(bits_of(cur as nat, TOPOLOGY_DIM as nat));
    lemma_field_bits_value(bits_of(next as nat, TOPOLOGY_DIM as nat));
    assert(bit_block(row, CURRENT_BITS_COL as int, TOPOLOGY_DIM as nat) == bits_of(cur as nat, TOPOLOGY_DIM as nat));
    assert(bit_block(row, next_bits_col(TOPOLOGY_DIM as nat), TOPOLOGY_DIM as nat) == bits_of(next as nat, TOPOLOGY_DIM as nat));
}

/// For nodes below `P` and `2^TOPOLOGY_DIM`, the syscall interaction of an event row carries the
/// two node IDs themselves.
pub proof fn lemma_event_row_carries_small_nodes(clk: u64, cur: u64, next: u64)
    requires
        cur < P,
        next < P,
    ensures
        field_bits_value(bit_block(event_row(clk, cur, next), CURRENT_BITS_COL as int, TOPOLOGY_DIM as nat))
            == cur,
        field_bits_value(bit_block(event_row(clk, cur, next), next_bits_col(TOPOLOGY_DIM as nat), TOPOLOGY_DIM as nat))
            == next,
{
    lemma_event_row_carries_nodes(clk, cur, next);
    lemma2_to64_rest();
    assert(pow2(TOPOLOGY_DIM as nat) == 0x10000000000);
    lemma_small_mod(cur as nat, pow2(TOPOLOGY_DIM as nat));
    lemma_small_mod(next as nat, pow2(TOPOLOGY_DIM as nat));
    lemma_small_mod(cur as nat, P as nat);
    lemma_small_mod(next as nat, P as nat);
}

/// The clock halves and the node IDs of an event row, when the clock's high half is canonical,
/// make it a row of canonical cells.
pub proof fn lemma_event_row_wf(clk: u64, cur: u64, next: u64)
    requires
        clk_high_value(clk) < P,
    ensures
        row_wf(event_row(clk, cur, next), TOPOLOGY_DIM as nat),
{
    let row = event_row(clk, cur, next);
    lemma_event_row_cells(clk, cur, next);
    let low = clk_low_value(clk);
    assert(low < 0x1000000) by (bit_vector)
        requires
            low == (clk & 0xFFFFFFu64) as u32,
    ;
    assert forall|j: int| 0 <= j < CHIP_COLS implies (#[trigger] row[j]).wf() by {
        if 3 <= j < 3 + TOPOLOGY_DIM {
            assert(row[j] == cur_bit(row, j - 3));
            lemma_bit_at_le_one(cur as nat, (j - 3) as nat);
        } else if 3 + TOPOLOGY_DIM <= j < 3 + 2 * TOPOLOGY_DIM {
            assert(row[j] == sel_bit(row, TOPOLOGY_DIM as nat, j - 3 - TOPOLOGY_DIM));
        } else if 3 + 2 * TOPOLOGY_DIM <= j {
            assert(row[j] == next_bit(row, TOPOLOGY_DIM as nat, j - 3 - 2 * TOPOLOGY_DIM));
            lemma_bit_at_le_one(next as nat, (j - 3 - 2 * TOPOLOGY_DIM) as nat);
        }
    }
}

/// The trace row of a routing syscall meets the AIR exactly when the two nodes differ in exactly
/// one of the `TOPOLOGY_DIM` dimensions: a row made from any other pair of nodes fails it.
pub proof fn lemma_event_row_holds_iff_single_diff(clk: u64, cur: u64, next: u64)
    requires
        clk_high_value(clk) < P,
    ensures
        air_holds(event_row(clk, cur, next), TOPOLOGY_DIM as nat) <==> diff_count(cur as nat, next as nat, TOPOLOGY_DIM as nat)
            == 1,
{
    let row = event_row(clk, cur, next);
    if diff_count(cur as nat, next as nat, TOPOLOGY_DIM as nat) == 1 {
        lemma_event_row_satisfies_air(clk, cur, next);
    }
    if air_holds(row, TOPOLOGY_DIM as nat) {
        lemma_event_row_wf(clk, cur, next);
        lemma_event_row_cells(clk, cur, next);
        lemma_air_sound(row, TOPOLOGY_DIM as nat);
        let cb = bit_block(row, CURRENT_BITS_COL as int, TOPOLOGY_DIM as nat);
        let nb = bit_block(row, next_bits_col(TOPOLOGY_DIM as nat), TOPOLOGY_DIM as nat);
        assert(cb == bits_of(cur as nat, TOPOLOGY_DIM as nat));
        assert(nb == bits_of(next as nat, TOPOLOGY_DIM as nat));
        assert(is_boolean(cb)) by {
            assert forall|i: int| 0 <= i < cb.len() implies (#[trigger] cb[i]).val <= 1 by {
                lemma_bit_at_le_one(cur as nat, i as nat);
            }
        }
        assert(is_boolean(nb)) by {
            assert forall|i: int| 0 <= i < nb.len() implies (#[trigger] nb[i]).val <= 1 by {
                lemma_bit_at_le_one(next as nat, i as nat);
            }
        }
        lemma_bits_value_boolean(cb);
        lemma_bits_value_boolean(nb);
        assert forall|i: nat| i < TOPOLOGY_DIM implies #[trigger] bit_at(bits_value(cb), i) == bit_at(
            cur as nat,
            i,
        ) by {
            lemma_bit_at_le_one(cur as nat, i);
            assert(cb[i as int].val == bit_at(cur as nat, i));
        }
        assert forall|i: nat| i < TOPOLOGY_DIM implies #[trigger] bit_at(bits_value(nb), i) == bit_at(
            next as nat,
            i,
        ) by {
            lemma_bit_at_le_one(next as nat, i);
            assert(nb[i as int].val == bit_at(next as nat, i));
        }
        lemma_diff_count_congruent(
            bits_value(cb),
            bits_value(nb),
            cur as nat,
            next as nat,
            TOPOLOGY_DIM as nat,
        );
    }
}

/// The clock halves of a clock below `2^56` recombine to the clock: `high * 2^24 + low`, and
/// so also in the field.
pub proof fn lemma_clock_halves_recombine(clk: u64)
    requires
        clk < 0x100000000000000,
    ensures
        clk_high_value(clk) * 0x1000000 + clk_low_value(clk) == clk,
        fadd(fmul(clk_high_value(clk) as int, 0x1000000), clk_low_value(clk) as int) == (clk as int)
            % (P as int),
{
    let high = clk_high_value(clk);
    let low = clk_low_value(clk);
    assert((high as u64) * 0x1000000u64 + (low as u64) == clk) by (bit_vector)
        requires
            clk < 0x100000000000000u64,
            high == (clk >> 24u64) as u32,
            low == (clk & 0xFFFFFFu64) as u32,
    ;
    let p = P as int;
    vstd::arithmetic::div_mod::lemma_add_mod_noop(high * 0x1000000, low as int, p);
    vstd::arithmetic::div_mod::lemma_mod_twice(high * 0x1000000, p);
    assert(low < 0x1000000) by (bit_vector)
        requires
            low == (clk & 0xFFFFFFu64) as u32,
    ;
    vstd::arithmetic::div_mod::lemma_small_mod(low as nat, p as nat);
}

/// A hop that the host-side check accepts is proved by its trace row: the AIR holds on the row,
/// and the row's syscall interaction carries the hop's two nodes.
pub proof fn lemma_accepted_hop_is_proved(clk: u64, curr: u32, next: u32)
    requires
        route_check(curr as nat, next as nat) is Ok,
    ensures
        air_holds(event_row(clk, curr as u64, next as u64), TOPOLOGY_DIM as nat),
        field_bits_value(bit_block(event_row(clk, curr as u64, next as u64), CURRENT_BITS_COL as int, TOPOLOGY_DIM as nat))
            == curr,
        field_bits_value(bit_block(event_row(clk, curr as u64, next as u64), next_bits_col(TOPOLOGY_DIM as nat), TOPOLOGY_DIM as nat))
            == next,
{
    lemma2_to64();
    lemma_diff_count_extend(curr as nat, next as nat, DIM as nat, TOPOLOGY_DIM as nat);
    lemma_event_row_satisfies_air(clk, curr as u64, next as u64);
    lemma_event_row_carries_small_nodes(clk, curr as u64, next as u64);
}

/// A routing row that the AIR accepts, in the library's `DIM` dimensions, carries a hop that the
/// host-side check accepts.
pub proof fn lemma_proved_row_is_accepted_hop(row: Seq<Fe>)
    requires
        row_wf(row, DIM as nat),
        air_holds(row, DIM as nat),
        routing_flag(row).val == 1,
    ensures
        route_check(
            field_bits_value(bit_block(row, CURRENT_BITS_COL as int, DIM as nat)) as nat,
            field_bits_value(bit_block(row, next_bits_col(DIM as nat), DIM as nat)) as nat,
        ) is Ok,
{
    let cb = bit_block(row, CURRENT_BITS_COL as int, DIM as nat);
    let nb = bit_block(row, next_bits_col(DIM as nat), DIM as nat);
    lemma_air_sound(row, DIM as nat);
    lemma_field_bits_value(cb);
    lemma_field_bits_value(nb);
    lemma2_to64();
    lemma_small_mod(bits_value(cb), P as nat);
    lemma_small_mod(bits_value(nb), P as nat);
    lemma_is_hop_dim(bits_value(cb), bits_value(nb));
}

/// Every row of a generated trace meets the AIR when every recorded syscall is a single hop:
/// event rows by `lemma_event_row_satisfies_air`, padding rows because zeros meet every
/// constraint.
pub proof fn lemma_trace_satisfies_air(
    trace: Seq<Fe>,
    events: Seq<RouteRecord>,
    fixed_height: Option<usize>,
)
    requires
        forall|r: int|
            0 <= r < padded_rows(events.len(), fixed_height) ==> #[trigger] trace_row(trace, r)
                == if r < events.len() {
                record_row(events[r])
            } else {
                padding_row()
            },
        forall|j: int|
            0 <= j < events.len() ==> diff_count(
                (#[trigger] events[j]).event.current_node as nat,
                events[j].event.next_node as nat,
                TOPOLOGY_DIM as nat,
            ) == 1,
    ensures
        forall|r: int|
            0 <= r < padded_rows(events.len(), fixed_height) ==> air_holds(
                #[trigger] trace_row(trace, r),
                TOPOLOGY_DIM as nat,
            ),
{
    assert forall|r: int| 0 <= r < padded_rows(events.len(), fixed_height) implies air_holds(
        #[trigger] trace_row(trace, r),
        TOPOLOGY_DIM as nat,
    ) by {
        if r < events.len() {
            let e = events[r];
            lemma_event_row_satisfies_air(e.clk, e.event.current_node, e.event.next_node);
        } else {
            lemma_zero_row_holds(padding_row(), TOPOLOGY_DIM as nat);
        }
    }
}

/// A generated trace receives from the syscall bus exactly the recorded syscalls: row `r`
/// carries the clock halves and the two nodes of event `r` once (the nodes as their low
/// `TOPOLOGY_DIM` bits taken in the field, so the nodes themselves when they lie below `P`), and
/// padding rows count zero times.
pub proof fn lemma_trace_receives_events(
    trace: Seq<Fe>,
    events: Seq<RouteRecord>,
    fixed_height: Option<usize>,
)
    requires
        events.len() <= padded_rows(events.len(), fixed_height),
        forall|r: int|
            0 <= r < padded_rows(events.len(), fixed_height) ==> #[trigger] trace_row(trace, r)
                == if r < events.len() {
                record_row(events[r])
            } else {
                padding_row()
            },
    ensures
        forall|r: int|
            0 <= r < events.len() ==> {
                &&& (#[trigger] trace_row(trace, r))[0].val == clk_high_value(events[r].clk)
                &&& trace_row(trace, r)[1].val == clk_low_value(events[r].clk)
                &&& routing_flag(trace_row(trace, r)).val == 1
                &&& field_bits_value(bit_block(trace_row(trace, r), CURRENT_BITS_COL as int, TOPOLOGY_DIM as nat))
                    == (events[r].event.current_node as nat % pow2(TOPOLOGY_DIM as nat)) as int % (P as int)
                &&& field_bits_value(bit_block(trace_row(trace, r), next_bits_col(TOPOLOGY_DIM as nat), TOPOLOGY_DIM as nat))
                    == (events[r].event.next_node as nat % pow2(TOPOLOGY_DIM as nat)) as int % (P as int)
                &&& events[r].event.current_node < P ==> field_bits_value(
                    bit_block(trace_row(trace, r), CURRENT_BITS_COL as int, TOPOLOGY_DIM as nat),
                ) == events[r].event.current_node
                &&& events[r].event.next_node < P ==> field_bits_value(
                    bit_block(trace_row(trace, r), next_bits_col(TOPOLOGY_DIM as nat), TOPOLOGY_DIM as nat),
                ) == events[r].event.next_node
                &&& events[r].clk < 0x100000000000000 ==> fadd(
                    fmul(trace_row(trace, r)[0].val as int, 0x1000000),
                    trace_row(trace, r)[1].val as int,
                ) == (events[r].clk as int) % (P as int)
            },
        forall|r: int|
            events.len() <= r < padded_rows(events.len(), fixed_height) ==> routing_flag(
                #[trigger] trace_row(trace, r),
            ).val == 0,
{
    assert forall|r: int| 0 <= r < events.len() implies {
        &&& (#[trigger] trace_row(trace, r))[0].val == clk_high_value(events[r].clk)
        &&& trace_row(trace, r)[1].val == clk_low_value(events[r].clk)
        &&& routing_flag(trace_row(trace, r)).val == 1
        &&& field_bits_value(bit_block(trace_row(trace, r), CURRENT_BITS_COL as int, TOPOLOGY_DIM as nat))
            == (events[r].event.current_node as nat % pow2(TOPOLOGY_DIM as nat)) as int % (P as int)
        &&& field_bits_value(bit_block(trace_row(trace, r), next_bits_col(TOPOLOGY_DIM as nat), TOPOLOGY_DIM as nat))
            == (events[r].event.next_node as nat % pow2(TOPOLOGY_DIM as nat)) as int % (P as int)
        &&& events[r].event.current_node < P ==> field_bits_value(
            bit_block(trace_row(trace, r), CURRENT_BITS_COL as int, TOPOLOGY_DIM as nat),
        ) == events[r].event.current_node
        &&& events[r].event.next_node < P ==> field_bits_value(
            bit_block(trace_row(trace, r), next_bits_col(TOPOLOGY_DIM as nat), TOPOLOGY_DIM as nat),
        ) == events[r].event.next_node
        &&& events[r].clk < 0x100000000000000 ==> fadd(
            fmul(trace_row(trace, r)[0].val as int, 0x1000000),
            trace_row(trace, r)[1].val as int,
        ) == (events[r].clk as int) % (P as int)
    } by {
        let e = events[r];
        if e.clk < 0x100000000000000 {
            lemma_clock_halves_recombine(e.clk);
        }
        assert(trace_row(trace, r) == record_row(e));
        lemma_event_row_carries_nodes(e.clk, e.event.current_node, e.event.next_node);
        lemma2_to64_rest();
        assert(pow2(TOPOLOGY_DIM as nat) == 0x10000000000);
        if e.event.current_node < P {
            lemma_small_mod(e.event.current_node as nat, pow2(TOPOLOGY_DIM as nat));
            lemma_small_mod(e.event.current_node as nat, P as nat);
        }
        if e.event.next_node < P {
            lemma_small_mod(e.event.next_node as nat, pow2(TOPOLOGY_DIM as nat));
            lemma_small_mod(e.event.next_node as nat, P as nat);
        }
    }
    assert forall|r: int|
        events.len() <= r < padded_rows(events.len(), fixed_height) implies routing_flag(
        #[trigger] trace_row(trace, r),
    ).val == 0 by {
        assert(trace_row(trace, r) == padding_row());
    }
}

} // verus!
