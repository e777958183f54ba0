//! What a search hands back.

use vstd::prelude::*;

verus! {

/// The outcome of a search.
pub struct SolverOutput {
    /// The number of cells that were empty at the start.
    pub steps: usize,
    /// The number of states whose moves were tried.
    pub iterations: usize,
    /// The solutions in the order in which they were found.
    pub result: Vec<SolutionRecord>,
}

/// One solution of a search.
pub struct SolutionRecord {
    /// The number of states whose moves had been tried when it was found.
    pub iteration: usize,
    /// The squares of the numbers of moves passed over on the way to it.
    pub branches: usize,
    /// The filled grid.
    pub solution: [u8; 81],
}

} // verus!
