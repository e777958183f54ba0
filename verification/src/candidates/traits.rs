//! The candidate store as a state offers it.

use crate::board::BoardModel;
use crate::candidates::{entry_after_fill, entry_refreshed, all_cells, CandidateSet};
use crate::indices::{neighbors, CELLS};
use vstd::prelude::*;

verus! {

/// A state with cells that can be read and a candidate store that can be
/// read and written.
pub trait CandidateBase: CandidatesRead + CandidatesModify {

}

/// Reading the candidate store.
pub trait CandidatesRead: BoardModel {
    /// The candidate digits of a cell, if the cell has an entry.
    fn get(&self, index: usize) -> (r: Option<CandidateSet>)
        ensures
            match r {
                Some(set) => self.board().candidates.contains_key(index) && set@
                    == self.board().candidates[index],
                None => !self.board().candidates.contains_key(index),
            },
    ;
}

/// Writing the candidate store. The choice queue follows every change.
pub trait CandidatesModify: BoardModel {
    /// Sets the candidate digits of a cell and returns those it had.
    fn insert(&mut self, index: usize, candidates: CandidateSet) -> (r: Option<CandidateSet>)
        requires
            old(self).structural(),
            index < CELLS,
        ensures
            final(self).structural(),
            final(self).board().cells == old(self).board().cells,
            final(self).board().remaining == old(self).board().remaining,
            final(self).board().values == old(self).board().values,
            final(self).board().candidates == old(self).board().candidates.insert(
                index,
                candidates@,
            ),
            match r {
                Some(set) => old(self).board().candidates.contains_key(index) && set@
                    == old(self).board().candidates[index],
                None => !old(self).board().candidates.contains_key(index),
            },
    ;

    /// Takes the entry of a cell out of the candidate store and returns its digits.
    fn remove(&mut self, index: usize) -> (r: Option<CandidateSet>)
        requires
            old(self).structural(),
        ensures
            final(self).structural(),
            final(self).board().cells == old(self).board().cells,
            final(self).board().remaining == old(self).board().remaining,
            final(self).board().values == old(self).board().values,
            final(self).board().candidates == old(self).board().candidates.remove(index),
            match r {
                Some(set) => old(self).board().candidates.contains_key(index) && set@
                    == old(self).board().candidates[index],
                None => !old(self).board().candidates.contains_key(index),
            },
    ;

    /// Takes digits out of the entry of a cell and returns what is left of
    /// it, `None` where the cell has no entry.
    fn remove_diff(&mut self, index: usize, diff: CandidateSet) -> (r: Option<CandidateSet>)
        requires
            old(self).structural(),
        ensures
            final(self).structural(),
            final(self).board().cells == old(self).board().cells,
            final(self).board().remaining == old(self).board().remaining,
            final(self).board().values == old(self).board().values,
            match r {
                Some(set) => old(self).board().candidates.contains_key(index) && set@
                    == old(self).board().candidates[index].difference(diff@)
                    && final(self).board().candidates == old(self).board().candidates.insert(
                    index,
                    set@,
                ),
                None => !old(self).board().candidates.contains_key(index)
                    && final(self).board().candidates == old(self).board().candidates,
            },
    ;
}

/// The upkeep of the candidate store.
pub trait Candidates: BoardModel {
    /// Fills the candidate store of a state that has none yet.
    fn init_candidates(&mut self)
        requires
            old(self).structural(),
            old(self).board().cells.len() == CELLS,
        ensures
            final(self).structural(),
            final(self).board().cells == old(self).board().cells,
            final(self).board().remaining == old(self).board().remaining,
            final(self).board().values == old(self).board().values,
            forall|i: usize| #[trigger]
                entry_refreshed(old(self).board(), final(self).board(), all_cells(), i),
    ;

    /// Brings the candidate store up to date after a cell was written: after
    /// a fill the digit leaves the neighbourhood, after a clear the whole
    /// neighbourhood is made afresh.
    fn update_candidates(&mut self, index: usize, new_value: u8, old_value: u8)
        requires
            old(self).structural(),
            old(self).board().cells.len() == CELLS,
            index < CELLS,
            new_value <= 9,
        ensures
            final(self).structural(),
            final(self).board().cells == old(self).board().cells,
            final(self).board().remaining == old(self).board().remaining,
            final(self).board().values == old(self).board().values,
            new_value == 0 ==> forall|i: usize| #[trigger]
                entry_refreshed(old(self).board(), final(self).board(), neighbors(index), i),
            new_value != 0 ==> forall|c: usize| #[trigger]
                entry_after_fill(old(self).board(), final(self).board(), index, new_value, c),
    ;
}

} // verus!
