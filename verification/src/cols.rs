//! The column layout of one row of the routing trace, for a hypercube of any dimension.

use vstd::prelude::*;
use crate::field::Fe;

verus! {

/// The library's default number of dimensions: node IDs are `DIM`-bit numbers.
pub const DIM: usize = 10;

/// Number of columns of one row in `DIM` dimensions.
pub const NUM_COLS: usize = 3 + 3 * DIM;

/// Column of the routing flag within a row.
pub const IS_ROUTING_COL: usize = 2;

/// First column of the current node's bits.
pub const CURRENT_BITS_COL: usize = 3;

/// Number of columns of one row in `d` dimensions: the clock halves, the routing flag, and three
/// bit vectors of `d` entries each.
pub open spec fn row_width(d: nat) -> nat {
    3 + 3 * d
}

/// First column of the selectors in `d` dimensions.
pub open spec fn selectors_col(d: nat) -> int {
    3 + d as int
}

/// First column of the next node's bits in `d` dimensions.
pub open spec fn next_bits_col(d: nat) -> int {
    3 + 2 * (d as int)
}

/// The row layout of `d` dimensions has column indices that fit in a `usize`.
pub open spec fn layout_fits(d: nat) -> bool {
    4 * d + 3 <= usize::MAX
}

/// Number of columns of one row in `DIM` dimensions.
pub fn num_cols<const DIM: usize>() -> (r: usize)
    requires
        layout_fits(DIM as nat),
    ensures
        r == row_width(DIM as nat),
{
    3 + 3 * DIM
}

/// One row of the routing trace, in the order of its columns.
#[derive(Clone, Copy, Debug)]
pub struct TopologyCols<T, const DIM: usize> {
    /// Clock cycle of the syscall, high part.
    pub clk_high: T,
    /// Clock cycle of the syscall, low 24 bits.
    pub clk_low: T,
    /// Whether the row is a real routing operation (1) or padding (0).
    pub is_routing: T,
    /// The bits of the current node, least significant first.
    pub current_bits: [T; DIM],
    /// A one-hot vector naming the dimension that the hop flips.
    pub selectors: [T; DIM],
    /// The bits of the next node, least significant first.
    pub next_bits: [T; DIM],
}

impl<T, const DIM: usize> View for TopologyCols<T, DIM> {
    type V = Seq<T>;

    /// The row as a flat sequence of `3 + 3 * DIM` cells.
    open spec fn view(&self) -> Seq<T> {
        seq![self.clk_high, self.clk_low, self.is_routing] + self.current_bits@ + self.selectors@
            + self.next_bits@
    }
}

/// Every cell of a flat row of `d` dimensions is a canonical field element.
pub open spec fn row_wf(row: Seq<Fe>, d: nat) -> bool {
    &&& row.len() == row_width(d)
    &&& forall|j: int| 0 <= j < row.len() ==> (#[trigger] row[j]).wf()
}

/// The `d` cells of `row` from column `start` on.
pub open spec fn bit_block(row: Seq<Fe>, start: int, d: nat) -> Seq<Fe> {
    row.subrange(start, start + d)
}

impl<const DIM: usize> TopologyCols<Fe, DIM> {
    /// A row all of whose cells are zero.
    pub fn zero_row() -> (r: TopologyCols<Fe, DIM>)
        ensures
            r@.len() == row_width(DIM as nat),
            forall|j: int| 0 <= j < r@.len() ==> (#[trigger] r@[j]).val == 0,
    {
        let z = Fe::zero();
        let r = TopologyCols {
            clk_high: z,
            clk_low: z,
            is_routing: z,
            current_bits: [z; DIM],
            selectors: [z; DIM],
            next_bits: [z; DIM],
        };
        assert forall|j: int| 0 <= j < r@.len() implies (#[trigger] r@[j]).val == 0 by {
            if j >= 3 + 2 * DIM {
                assert(r@[j] == r.next_bits@[j - 3 - 2 * DIM]);
            } else if j >= 3 + DIM {
                assert(r@[j] == r.selectors@[j - 3 - DIM]);
            } else if j >= 3 {
                assert(r@[j] == r.current_bits@[j - 3]);
            }
        }
        r
    }

    /// Reads a row laid out as `3 + 3 * DIM` consecutive cells.
    pub fn from_row(row: &[Fe]) -> (r: TopologyCols<Fe, DIM>)
        requires
            row@.len() == row_width(DIM as nat),
            layout_fits(DIM as nat),
        ensures
            r@ == row@,
    {
        let z = Fe::zero();
        let mut current_bits = [z; DIM];
        let mut selectors = [z; DIM];
        let mut next_bits = [z; DIM];
        for i in 0..DIM
            invariant
                row@.len() == row_width(DIM as nat),
                layout_fits(DIM as nat),
                forall|k: int| 0 <= k < i ==> current_bits@[k] == row@[3 + k],
                forall|k: int| 0 <= k < i ==> selectors@[k] == row@[3 + DIM + k],
                forall|k: int| 0 <= k < i ==> next_bits@[k] == row@[3 + 2 * DIM + k],
        {
            current_bits[i] = row[3 + i];
            selectors[i] = row[3 + DIM + i];
            next_bits[i] = row[3 + 2 * DIM + i];
        }
        let r = TopologyCols {
            clk_high: row[0],
            clk_low: row[1],
            is_routing: row[2],
            current_bits,
            selectors,
            next_bits,
        };
        assert(r@ =~= row@);
        r
    }

    /// The cell in column `j`.
    pub fn col(&self, j: usize) -> (r: Fe)
        requires
            j < row_width(DIM as nat),
            layout_fits(DIM as nat),
        ensures
            r == self@[j as int],
    {
        if j == 0 {
            self.clk_high
        } else if j == 1 {
            self.clk_low
        } else if j == 2 {
            self.is_routing
        } else if j < 3 + DIM {
            self.current_bits[j - 3]
        } else if j < 3 + 2 * DIM {
            self.selectors[j - 3 - DIM]
        } else {
            self.next_bits[j - 3 - 2 * DIM]
        }
    }

    /// Writes the row into `buffer` at cells `start .. start + 3 + 3 * DIM`.
    pub fn write_row(&self, buffer: &mut Vec<Fe>, start: usize)
        requires
            start + row_width(DIM as nat) <= old(buffer)@.len(),
            layout_fits(DIM as nat),
        ensures
            final(buffer)@.len() == old(buffer)@.len(),
            forall|k: int|
                0 <= k < final(buffer)@.len() ==> #[trigger] final(buffer)@[k] == if start <= k < start
                    + row_width(DIM as nat) {
                    self@[k - start]
                } else {
                    old(buffer)@[k]
                },
    {
        let ghost old_buf = buffer@;
        let width = num_cols::<DIM>();
        for j in 0..width
            invariant
                width == row_width(DIM as nat),
                layout_fits(DIM as nat),
                start + width <= old_buf.len(),
                buffer@.len() == old_buf.len(),
                start + width <= buffer.len(),
                forall|k: int|
                    0 <= k < buffer@.len() ==> #[trigger] buffer@[k] == if start <= k < start + j {
                        self@[k - start]
                    } else {
                        old_buf[k]
                    },
        {
            let c = self.col(j);
            buffer.set(start + j, c);
        }
    }
}

/// How the flat view of a row lines up with its fields.
pub proof fn lemma_view_parts<T, const DIM: usize>(r: TopologyCols<T, DIM>)
    ensures
        r@.len() == row_width(DIM as nat),
        r@[0] == r.clk_high,
        r@[1] == r.clk_low,
        r@[2] == r.is_routing,
        forall|i: int| 0 <= i < DIM ==> #[trigger] r.current_bits@[i] == r@[CURRENT_BITS_COL + i],
        forall|i: int| 0 <= i < DIM ==> #[trigger] r.selectors@[i] == r@[selectors_col(DIM as nat) + i],
        forall|i: int| 0 <= i < DIM ==> #[trigger] r.next_bits@[i] == r@[next_bits_col(DIM as nat) + i],
{
}

} // verus!
