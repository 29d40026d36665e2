//! The routing AIR: the polynomial constraints one trace row must meet, their evaluation, and
//! what they mean for the hop that the row records.

use vstd::prelude::*;
use crate::field::{Fe, P, fadd, fsub, fmul, lemma_bool_root};
use crate::cols::{
    TopologyCols, DIM, IS_ROUTING_COL, CURRENT_BITS_COL, row_width, selectors_col, next_bits_col,
    layout_fits, num_cols, row_wf, bit_block, lemma_view_parts,
};
use crate::bits::{is_boolean, is_hop_in, bits_value, bit_at, diff_count, lemma_bits_value_boolean};

verus! {

/// Number of constraints the AIR asserts on a row in `d` dimensions.
pub open spec fn num_constraints(d: nat) -> nat {
    2 + 4 * d
}

/// Number of constraints the AIR asserts on a row in `DIM` dimensions.
pub const NUM_CONSTRAINTS: usize = 2 + 4 * DIM;

/// The routing flag of a flat row.
pub open spec fn routing_flag(row: Seq<Fe>) -> Fe {
    row[IS_ROUTING_COL as int]
}

/// Bit `i` of the current node in a flat row.
pub open spec fn cur_bit(row: Seq<Fe>, i: int) -> Fe {
    row[CURRENT_BITS_COL + i]
}

/// Selector `i` in a flat row of `d` dimensions.
pub open spec fn sel_bit(row: Seq<Fe>, d: nat, i: int) -> Fe {
    row[selectors_col(d) + i]
}

/// Bit `i` of the next node in a flat row of `d` dimensions.
pub open spec fn next_bit(row: Seq<Fe>, d: nat, i: int) -> Fe {
    row[next_bits_col(d) + i]
}

/// `x * (x - 1)`: zero exactly when `x` is 0 or 1.
pub open spec fn bool_constraint(x: Fe) -> int {
    fmul(x.val as int, fsub(x.val as int, 1))
}

/// `bit + selector - 2 * bit * selector`: the bit after flipping it when the selector is set.
pub open spec fn flip_value(bit: Fe, selector: Fe) -> int {
    fsub(fadd(bit.val as int, selector.val as int), fmul(fmul(2, bit.val as int), selector.val as int))
}

/// Field sum of the first `k` entries.
pub open spec fn field_sum(s: Seq<Fe>, k: nat) -> int
    decreases k,
{
    if k == 0 {
        0
    } else {
        fadd(field_sum(s, (k - 1) as nat), s[k - 1].val as int)
    }
}

/// Integer sum of the first `k` entries.
pub open spec fn ones(s: Seq<Fe>, k: nat) -> nat
    decreases k,
{
    if k == 0 {
        0
    } else {
        ones(s, (k - 1) as nat) + s[k - 1].val as nat
    }
}

/// `is_routing * (sum of selectors - 1)`.
pub open spec fn selector_sum_constraint(row: Seq<Fe>, d: nat) -> int {
    fmul(
        routing_flag(row).val as int,
        fsub(field_sum(bit_block(row, selectors_col(d), d), d), 1),
    )
}

/// `is_routing * (next_bit - (bit + selector - 2 * bit * selector))` for dimension `i`.
pub open spec fn flip_constraint(row: Seq<Fe>, d: nat, i: int) -> int {
    fmul(
        routing_flag(row).val as int,
        fsub(next_bit(row, d, i).val as int, flip_value(cur_bit(row, i), sel_bit(row, d, i))),
    )
}

/// `c` holds the values of the AIR's constraints on `row`, in the order they are asserted.
pub open spec fn constraint_values(row: Seq<Fe>, d: nat, c: Seq<Fe>) -> bool {
    &&& c.len() == num_constraints(d)
    &&& c[0].val == bool_constraint(routing_flag(row))
    &&& forall|i: int| 0 <= i < d ==> c[1 + 3 * i].val == bool_constraint(#[trigger] cur_bit(row, i))
    &&& forall|i: int| 0 <= i < d ==> c[2 + 3 * i].val == bool_constraint(#[trigger] next_bit(row, d, i))
    &&& forall|i: int| 0 <= i < d ==> c[3 + 3 * i].val == bool_constraint(#[trigger] sel_bit(row, d, i))
    &&& c[1 + 3 * (d as int)].val == selector_sum_constraint(row, d)
    &&& forall|i: int| 0 <= i < d ==> c[2 + 3 * d + i].val == #[trigger] flip_constraint(row, d, i)
}

/// Every constraint of the AIR vanishes on `row`.
pub open spec fn air_holds(row: Seq<Fe>, d: nat) -> bool {
    &&& bool_constraint(routing_flag(row)) == 0
    &&& forall|i: int| 0 <= i < d ==> bool_constraint(#[trigger] cur_bit(row, i)) == 0
    &&& forall|i: int| 0 <= i < d ==> bool_constraint(#[trigger] next_bit(row, d, i)) == 0
    &&& forall|i: int| 0 <= i < d ==> bool_constraint(#[trigger] sel_bit(row, d, i)) == 0
    &&& selector_sum_constraint(row, d) == 0
    &&& forall|i: int| 0 <= i < d ==> #[trigger] flip_constraint(row, d, i) == 0
}

/// The current node's bits, the selectors and the next node's bits are all 0 or 1.
pub open spec fn bit_columns_boolean(row: Seq<Fe>, d: nat) -> bool {
    &&& is_boolean(bit_block(row, CURRENT_BITS_COL as int, d))
    &&& is_boolean(bit_block(row, selectors_col(d), d))
    &&& is_boolean(bit_block(row, next_bits_col(d), d))
}

/// The AIR of a single hop in the hypercube: boolean bits and selectors, exactly one selector
/// set on a routing row, and the next node equal to the current node with the selected bit
/// flipped.
#[derive(Default)]
pub struct TopologicalRouterAir<const DIM: usize>;

/// `x * (x - 1)` in the field.
fn bool_value(x: Fe) -> (r: Fe)
    requires
        x.wf(),
    ensures
        r.wf(),
        r.val == bool_constraint(x),
{
    x.mul(x.sub(Fe::one()))
}

impl<const DIM: usize> TopologicalRouterAir<DIM> {
    /// Number of columns of a row.
    pub fn width(&self) -> (r: usize)
        requires
            layout_fits(DIM as nat),
        ensures
            r == row_width(DIM as nat),
    {
        num_cols::<DIM>()
    }

    /// Evaluates every constraint of the AIR on one row, in the order they are asserted.
    pub fn eval(&self, local_row: &[Fe]) -> (c: Vec<Fe>)
        requires
            row_wf(local_row@, DIM as nat),
            layout_fits(DIM as nat),
        ensures
            constraint_values(local_row@, DIM as nat, c@),
            forall|j: int| 0 <= j < c@.len() ==> (#[trigger] c@[j]).wf(),
    {
        let ghost d = DIM as nat;
        let ghost row = local_row@;
        let local = TopologyCols::<Fe, DIM>::from_row(local_row);
        proof {
            lemma_view_parts(local);
        }
        let mut c: Vec<Fe> = Vec::new();
        c.push(bool_value(local.is_routing));
        // Boolean limits on bits and selectors.
        for i in 0..DIM
            invariant
                row == local@,
                row_wf(row, d),
                c@.len() == 1 + 3 * i,
                c@[0].val == bool_constraint(routing_flag(row)),
                forall|k: int| 0 <= k < i ==> c@[1 + 3 * k].val == bool_constraint(#[trigger] cur_bit(row, k)),
                forall|k: int| 0 <= k < i ==> c@[2 + 3 * k].val == bool_constraint(#[trigger] next_bit(row, d, k)),
                forall|k: int| 0 <= k < i ==> c@[3 + 3 * k].val == bool_constraint(#[trigger] sel_bit(row, d, k)),
                forall|j: int| 0 <= j < c@.len() ==> (#[trigger] c@[j]).wf(),
                forall|k: int| 0 <= k < d ==> #[trigger] local.current_bits@[k] == row[CURRENT_BITS_COL + k],
                forall|k: int| 0 <= k < d ==> #[trigger] local.selectors@[k] == row[selectors_col(d) + k],
                forall|k: int| 0 <= k < d ==> #[trigger] local.next_bits@[k] == row[next_bits_col(d) + k],
        {
            assert(local.current_bits@[i as int].wf());
            assert(local.next_bits@[i as int].wf());
            assert(local.selectors@[i as int].wf());
            let b_cur = bool_value(local.current_bits[i]);
            let b_next = bool_value(local.next_bits[i]);
            let b_sel = bool_value(local.selectors[i]);
            let ghost old_c = c@;
            c.push(b_cur);
            c.push(b_next);
            c.push(b_sel);
            assert(cur_bit(row, i as int) == local.current_bits@[i as int]);
            assert(next_bit(row, d, i as int) == local.next_bits@[i as int]);
            assert(sel_bit(row, d, i as int) == local.selectors@[i as int]);
            assert forall|k: int| 0 <= k < i + 1 implies c@[1 + 3 * k].val == bool_constraint(#[trigger] cur_bit(row, k)) by {
                if k < i {
                    assert(c@[1 + 3 * k] == old_c[1 + 3 * k]);
                }
            }
            assert forall|k: int| 0 <= k < i + 1 implies c@[2 + 3 * k].val == bool_constraint(#[trigger] next_bit(row, d, k)) by {
                if k < i {
                    assert(c@[2 + 3 * k] == old_c[2 + 3 * k]);
                }
            }
            assert forall|k: int| 0 <= k < i + 1 implies c@[3 + 3 * k].val == bool_constraint(#[trigger] sel_bit(row, d, k)) by {
                if k < i {
                    assert(c@[3 + 3 * k] == old_c[3 + 3 * k]);
                }
            }
        }
        // Only one dimension can flip per hop.
        let ghost sels = bit_block(row, selectors_col(d), d);
        let mut sum_selectors = Fe::zero();
        for i in 0..DIM
            invariant
                row == local@,
                row_wf(row, d),
                sels == bit_block(row, selectors_col(d), d),
                sum_selectors.wf(),
                sum_selectors.val == field_sum(sels, i as nat),
                c@.len() == 1 + 3 * d,
                c@[0].val == bool_constraint(routing_flag(row)),
                forall|k: int| 0 <= k < d ==> c@[1 + 3 * k].val == bool_constraint(#[trigger] cur_bit(row, k)),
                forall|k: int| 0 <= k < d ==> c@[2 + 3 * k].val == bool_constraint(#[trigger] next_bit(row, d, k)),
                forall|k: int| 0 <= k < d ==> c@[3 + 3 * k].val == bool_constraint(#[trigger] sel_bit(row, d, k)),
                forall|j: int| 0 <= j < c@.len() ==> (#[trigger] c@[j]).wf(),
                forall|k: int| 0 <= k < d ==> #[trigger] local.current_bits@[k] == row[CURRENT_BITS_COL + k],
                forall|k: int| 0 <= k < d ==> #[trigger] local.next_bits@[k] == row[next_bits_col(d) + k],
                forall|k: int| 0 <= k < d ==> #[trigger] local.selectors@[k] == row[selectors_col(d) + k],
        {
            assert(sels[i as int] == local.selectors@[i as int]);
            assert(local.selectors@[i as int].wf());
            sum_selectors = sum_selectors.add(local.selectors[i]);
        }
        c.push(local.is_routing.mul(sum_selectors.sub(Fe::one())));
        // Bit-flip equation: next = current + selector - 2 * current * selector.
        let two = Fe::from_canonical_u32(2);
        for i in 0..DIM
            invariant
                row == local@,
                row_wf(row, d),
                two.val == 2,
                c@.len() == 2 + 3 * d + i,
                c@[0].val == bool_constraint(routing_flag(row)),
                forall|k: int| 0 <= k < d ==> c@[1 + 3 * k].val == bool_constraint(#[trigger] cur_bit(row, k)),
                forall|k: int| 0 <= k < d ==> c@[2 + 3 * k].val == bool_constraint(#[trigger] next_bit(row, d, k)),
                forall|k: int| 0 <= k < d ==> c@[3 + 3 * k].val == bool_constraint(#[trigger] sel_bit(row, d, k)),
                c@[1 + 3 * (d as int)].val == selector_sum_constraint(row, d),
                forall|k: int| 0 <= k < i ==> c@[2 + 3 * d + k].val == #[trigger] flip_constraint(row, d, k),
                forall|j: int| 0 <= j < c@.len() ==> (#[trigger] c@[j]).wf(),
                forall|k: int| 0 <= k < d ==> #[trigger] local.current_bits@[k] == row[CURRENT_BITS_COL + k],
                forall|k: int| 0 <= k < d ==> #[trigger] local.selectors@[k] == row[selectors_col(d) + k],
                forall|k: int| 0 <= k < d ==> #[trigger] local.next_bits@[k] == row[next_bits_col(d) + k],
        {
            let bit = local.current_bits[i];
            let selector = local.selectors[i];
            assert(bit.wf() && selector.wf() && local.next_bits@[i as int].wf());
            let bit_flip = bit.add(selector).sub(two.mul(bit).mul(selector));
            let v = local.is_routing.mul(local.next_bits[i].sub(bit_flip));
            let ghost old_c = c@;
            c.push(v);
            assert(cur_bit(row, i as int) == bit);
            assert(sel_bit(row, d, i as int) == selector);
            assert(next_bit(row, d, i as int) == local.next_bits@[i as int]);
            assert(c@[2 + 3 * d + i].val == flip_constraint(row, d, i as int));
            assert forall|j: int| 0 <= j < old_c.len() implies c@[j] == old_c[j] by {}
        }
        c
    }
}

/// The evaluated constraints all vanish exactly when the AIR holds on the row.
pub proof fn lemma_constraints_vanish_iff(row: Seq<Fe>, d: nat, c: Seq<Fe>)
    requires
        constraint_values(row, d, c),
    ensures
        (forall|j: int| 0 <= j < c.len() ==> (#[trigger] c[j]).val == 0) <==> air_holds(row, d),
{
    if forall|j: int| 0 <= j < c.len() ==> (#[trigger] c[j]).val == 0 {
        assert forall|i: int| 0 <= i < d implies #[trigger] flip_constraint(row, d, i) == 0 by {
            assert(c[2 + 3 * d + i].val == 0);
        }
        assert forall|i: int| 0 <= i < d implies bool_constraint(#[trigger] cur_bit(row, i)) == 0 by {
            assert(c[1 + 3 * i].val == 0);
        }
        assert forall|i: int| 0 <= i < d implies bool_constraint(#[trigger] next_bit(row, d, i)) == 0 by {
            assert(c[2 + 3 * i].val == 0);
        }
        assert forall|i: int| 0 <= i < d implies bool_constraint(#[trigger] sel_bit(row, d, i)) == 0 by {
            assert(c[3 + 3 * i].val == 0);
        }
        assert(c[0].val == 0);
        assert(c[1 + 3 * (d as int)].val == 0);
    }
    if air_holds(row, d) {
        assert forall|j: int| 0 <= j < c.len() implies (#[trigger] c[j]).val == 0 by {
            if j == 0 {
            } else if j <= 3 * d {
                let i = (j - 1) / 3;
                let r = (j - 1) % 3;
                vstd::arithmetic::div_mod::lemma_fundamental_div_mod(j - 1, 3);
                assert(0 <= r < 3);
                assert(j == 1 + 3 * i + r);
                assert(0 <= i < d);
                assert(bool_constraint(cur_bit(row, i)) == 0);
                assert(bool_constraint(next_bit(row, d, i)) == 0);
                assert(bool_constraint(sel_bit(row, d, i)) == 0);
                if r == 0 {
                    assert(c[1 + 3 * i].val == 0);
                } else if r == 1 {
                    assert(c[2 + 3 * i].val == 0);
                } else {
                    assert(c[3 + 3 * i].val == 0);
                }
            } else if j == 1 + 3 * d {
            } else {
                let i = j - 2 - 3 * d;
                assert(flip_constraint(row, d, i) == 0);
            }
        }
    }
}

/// A row of zeros meets every constraint: padding rows are accepted.
pub proof fn lemma_zero_row_holds(row: Seq<Fe>, d: nat)
    requires
        row.len() == row_width(d),
        forall|j: int| 0 <= j < row_width(d) ==> (#[trigger] row[j]).val == 0,
    ensures
        air_holds(row, d),
{
    assert(routing_flag(row).val == 0);
    assert forall|i: int| 0 <= i < d implies bool_constraint(#[trigger] cur_bit(row, i)) == 0 by {
        assert(row[CURRENT_BITS_COL + i].val == 0);
    }
    assert forall|i: int| 0 <= i < d implies bool_constraint(#[trigger] next_bit(row, d, i)) == 0 by {
        assert(row[next_bits_col(d) + i].val == 0);
    }
    assert forall|i: int| 0 <= i < d implies bool_constraint(#[trigger] sel_bit(row, d, i)) == 0 by {
        assert(row[selectors_col(d) + i].val == 0);
    }
    assert forall|i: int| 0 <= i < d implies #[trigger] flip_constraint(row, d, i) == 0 by {
    }
}

} // verus!

verus! {

/// On a row of canonical cells, the boolean constraints leave only 0 and 1 in the routing flag,
/// the bits and the selectors.
pub proof fn lemma_air_forces_bits(row: Seq<Fe>, d: nat)
    requires
        row_wf(row, d),
        air_holds(row, d),
    ensures
        routing_flag(row).val <= 1,
        bit_columns_boolean(row, d),
{
    assert(routing_flag(row).wf());
    lemma_bool_root(routing_flag(row).val as int);
    let cb = bit_block(row, CURRENT_BITS_COL as int, d);
    let sb = bit_block(row, selectors_col(d), d);
    let nb = bit_block(row, next_bits_col(d), d);
    assert forall|i: int| 0 <= i < cb.len() implies (#[trigger] cb[i]).val <= 1 by {
        assert(cb[i] == cur_bit(row, i));
        assert(row[CURRENT_BITS_COL + i].wf());
        lemma_bool_root(cur_bit(row, i).val as int);
    }
    assert forall|i: int| 0 <= i < sb.len() implies (#[trigger] sb[i]).val <= 1 by {
        assert(sb[i] == sel_bit(row, d, i));
        assert(row[selectors_col(d) + i].wf());
        lemma_bool_root(sel_bit(row, d, i).val as int);
    }
    assert forall|i: int| 0 <= i < nb.len() implies (#[trigger] nb[i]).val <= 1 by {
        assert(nb[i] == next_bit(row, d, i));
        assert(row[next_bits_col(d) + i].wf());
        lemma_bool_root(next_bit(row, d, i).val as int);
    }
}

/// A multiple of `P` strictly between `-P` and `P` is zero.
proof fn lemma_small_multiple_of_p(z: int)
    requires
        -(P as int) < z < P as int,
        z % (P as int) == 0,
    ensures
        z == 0,
{
    vstd::arithmetic::div_mod::lemma_fundamental_div_mod(z, P as int);
}

/// On bits, the flip expression is the bit, flipped when the selector is set.
pub proof fn lemma_flip_boolean(bit: Fe, selector: Fe)
    requires
        bit.val <= 1,
        selector.val <= 1,
    ensures
        flip_value(bit, selector) == if selector.val == 1 {
            1 - bit.val
        } else {
            bit.val as int
        },
{
    if bit.val == 0 {
        if selector.val == 0 {
            assert(flip_value(bit, selector) == 0);
        } else {
            assert(flip_value(bit, selector) == 1);
        }
    } else {
        if selector.val == 0 {
            assert(flip_value(bit, selector) == 1);
        } else {
            assert(flip_value(bit, selector) == 0);
        }
    }
}

/// On bits, the field sum of fewer than `P` entries is their integer sum.
pub proof fn lemma_field_sum_boolean(s: Seq<Fe>, k: nat)
    requires
        k <= s.len(),
        k < P,
        is_boolean(s),
    ensures
        field_sum(s, k) == ones(s, k),
        ones(s, k) <= k,
    decreases k,
{
    if k > 0 {
        lemma_field_sum_boolean(s, (k - 1) as nat);
        assert(s[k - 1].val <= 1);
    }
}

/// With every bit matching and the next bits being the current bits flipped where the
/// selector is set, the nodes differ in as many dimensions as there are selectors set.
proof fn lemma_diff_count_is_ones(a: nat, b: nat, cb: Seq<Fe>, sb: Seq<Fe>, nb: Seq<Fe>, k: nat)
    requires
        k <= cb.len(),
        k <= sb.len(),
        k <= nb.len(),
        is_boolean(sb),
        forall|i: int| 0 <= i < k ==> bit_at(a, i as nat) == (#[trigger] cb[i]).val,
        forall|i: int| 0 <= i < k ==> bit_at(b, i as nat) == (#[trigger] nb[i]).val,
        forall|i: int|
            0 <= i < k ==> ((#[trigger] cb[i]).val != nb[i].val) == (sb[i].val == 1),
    ensures
        diff_count(a, b, k) == ones(sb, k),
    decreases k,
{
    if k > 0 {
        lemma_diff_count_is_ones(a, b, cb, sb, nb, (k - 1) as nat);
        let j = k - 1;
        assert(bit_at(a, j as nat) == cb[j].val);
        assert(bit_at(b, j as nat) == nb[j].val);
        assert(sb[j].val <= 1);
    }
}

/// What the AIR enforces on a routing row: the row records a hop of the hypercube, and the next
/// node is the current node with the selected bit flipped.
pub proof fn lemma_air_sound(row: Seq<Fe>, d: nat)
    requires
        row_wf(row, d),
        air_holds(row, d),
        routing_flag(row).val == 1,
        d < P,
    ensures
        is_hop_in(
            bits_value(bit_block(row, CURRENT_BITS_COL as int, d)),
            bits_value(bit_block(row, next_bits_col(d), d)),
            d,
        ),
        forall|i: int|
            0 <= i < d ==> (#[trigger] next_bit(row, d, i)).val == if sel_bit(row, d, i).val == 1 {
                1 - cur_bit(row, i).val
            } else {
                cur_bit(row, i).val as int
            },
{
    let p = P as int;
    lemma_air_forces_bits(row, d);
    let cb = bit_block(row, CURRENT_BITS_COL as int, d);
    let sb = bit_block(row, selectors_col(d), d);
    let nb = bit_block(row, next_bits_col(d), d);
    assert forall|i: int| 0 <= i < d implies #[trigger] cb[i] == cur_bit(row, i) && sb[i]
        == sel_bit(row, d, i) && nb[i] == next_bit(row, d, i) by {}
    // The flip equation, on bits.
    assert forall|i: int|
        0 <= i < d implies (#[trigger] next_bit(row, d, i)).val == if sel_bit(row, d, i).val == 1 {
            1 - cur_bit(row, i).val
        } else {
            cur_bit(row, i).val as int
        } by {
        assert(cb[i] == cur_bit(row, i));
        let b = cur_bit(row, i);
        let s = sel_bit(row, d, i);
        let n = next_bit(row, d, i);
        assert(b.val <= 1 && s.val <= 1 && n.val <= 1);
        lemma_flip_boolean(b, s);
        assert(flip_constraint(row, d, i) == 0);
        let z = fsub(n.val as int, flip_value(b, s));
        assert(0 <= z < p);
        assert(fmul(1, z) == z);
        lemma_small_multiple_of_p(n.val - flip_value(b, s));
    }
    // Exactly one selector is set.
    lemma_field_sum_boolean(sb, d);
    let fs = field_sum(sb, d);
    assert(selector_sum_constraint(row, d) == 0);
    assert(fmul(1, fsub(fs, 1)) == fsub(fs, 1));
    lemma_small_multiple_of_p(fs - 1);
    assert(ones(sb, d) == 1);
    // The nodes' bits are the bit columns.
    lemma_bits_value_boolean(cb);
    lemma_bits_value_boolean(nb);
    let a = bits_value(cb);
    let b = bits_value(nb);
    assert forall|i: int| 0 <= i < d implies bit_at(a, i as nat) == (#[trigger] cb[i]).val by {}
    assert forall|i: int| 0 <= i < d implies bit_at(b, i as nat) == (#[trigger] nb[i]).val by {}
    assert forall|i: int| 0 <= i < d implies ((#[trigger] cb[i]).val != nb[i].val) == (sb[i].val
        == 1) by {
        assert(next_bit(row, d, i).val == nb[i].val);
    }
    lemma_diff_count_is_ones(a, b, cb, sb, nb, d);
}

} // verus!
