//! Control model "without features": instead of hand-made features, a
//! linear model on a raw one-hot encoding of each cell (16 cells times 16
//! possible exponents = 256 weights).

use vstd::prelude::*;
use crate::board::{cell, get_cell};

verus! {

pub const NUM_CELLS: usize = 16;

pub const NUM_EXPONENTS: usize = 16;

pub const DIM: usize = NUM_CELLS * NUM_EXPONENTS;

/// Indices (into a weight vector of size `DIM`) active for this board: one
/// per cell, matching its current exponent.
pub fn active_indices(board: u64) -> (idx: [usize; NUM_CELLS])
    ensures
        forall|i: int| 0 <= i < 16 ==> #[trigger] idx[i] == i * 16 + cell(board, i),
        forall|i: int| 0 <= i < 16 ==> #[trigger] idx[i] < DIM,
{
    let mut idx = [0usize; NUM_CELLS];
    let mut i: usize = 0;
    while i < NUM_CELLS
        invariant
            i <= 16,
            forall|q: int| 0 <= q < i ==> #[trigger] idx[q] == q * 16 + cell(board, q),
            forall|q: int| 0 <= q < i ==> #[trigger] idx[q] < DIM,
        decreases 16 - i,
    {
        let exponent = get_cell(board, i / 4, i % 4) as usize;
        assert(4 * (i / 4) + i % 4 == i);
        idx[i] = i * NUM_EXPONENTS + exponent;
        i += 1;
    }
    idx
}

} // verus!
