//! Matrices exchanged between the sanitisation and aggregation enclaves.

use vstd::prelude::*;

verus! {

/// A dense matrix of IEEE-754 binary64 values, each held as its bit pattern
/// (`f64::to_bits`), stored in column-major order as the aggregation format lays it out.
pub struct Matrix {
    pub nrows: usize,
    pub ncols: usize,
    pub data: Vec<u64>,
}

/// Counts of observed state transitions for one batch: `counts[prev * num_states + curr]`
/// is how often state `curr` directly followed state `prev`.
pub struct TransitionCounts {
    pub num_states: usize,
    pub counts: Vec<u64>,
}

} // verus!
