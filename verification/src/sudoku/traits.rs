//! What a search asks of a board state.

use crate::board::{count_empty, is_grid};
use crate::indices::CELLS;
use crate::solution::{completable, moves_complete, moves_exclusive, moves_sound};
use vstd::prelude::*;

verus! {

/// A board state that a search can work on.
pub trait SudokuState: Sized + Clone {
    /// The 81 cells of the state, 0 for an empty cell.
    spec fn cells(&self) -> Seq<u8>;

    /// Whether the state is consistent.
    spec fn wf(&self) -> bool;

    /// The moves that a state over these cells offers, where the cells have a
    /// completion.
    spec fn moves_at(cells: Seq<u8>) -> Set<(usize, u8)>;

    /// The cells of a consistent state are a grid.
    proof fn lemma_wf(&self)
        requires
            self.wf(),
        ensures
            is_grid(self.cells()),
    ;

    /// The state of a grid of digits, 0 for an empty cell.
    fn new(puzzle: &[u8; 81]) -> (r: Self)
        requires
            forall|i: int| 0 <= i < 81 ==> puzzle@[i] <= 9,
        ensures
            r.wf(),
            r.cells() == puzzle@,
    ;

    /// The moves to try next: each puts an allowed digit into an empty cell,
    /// every solution holds one of them, and no completion holds two.
    /// Without moves, a state with empty cells has no solution. Where the
    /// cells have a completion, the moves are those that the cells call for,
    /// each once.
    fn next_choice(&self) -> (r: Vec<(usize, u8)>)
        requires
            self.wf(),
        ensures
            r@.len() <= 9,
            moves_sound(self.cells(), r@),
            moves_exclusive(self.cells(), r@),
            count_empty(self.cells()) > 0 ==> moves_complete(self.cells(), r@),
            completable(self.cells()) ==> r@.no_duplicates() && r@.to_set() == Self::moves_at(
                self.cells(),
            ),
    ;

    /// The digit in a cell, `None` for an index past the grid.
    fn get(&self, index: usize) -> (r: Option<u8>)
        ensures
            r == (if index < self.cells().len() {
                Some(self.cells()[index as int])
            } else {
                None
            }),
    ;

    /// A state with one cell written. The state itself stays as it is.
    fn set(&self, index: usize, value: u8) -> (r: Self)
        requires
            self.wf(),
            index < CELLS,
            value <= 9,
        ensures
            r.wf(),
            r.cells() == self.cells().update(index as int, value),
    ;

    /// The digits of the grid in the order of the cells.
    fn iter(&self) -> (r: Vec<u8>)
        ensures
            r@ == self.cells(),
    ;

    /// The number of empty cells.
    fn remaining(&self) -> (r: usize)
        requires
            self.wf(),
        ensures
            r == count_empty(self.cells()),
    ;
}

} // verus!
