//! The value store as a state offers it.

use crate::board::{is_grid, BoardModel};
use crate::candidates::traits::CandidatesRead;
use crate::indices::CELLS;
use crate::persistent::LocationSet;
use crate::values::value_key::ValueKey;
use crate::values::{with_location, without_location};
use vstd::prelude::*;

verus! {

/// A state with a value store that can be read and written, on top of a
/// candidate store that can be read.
pub trait ValueBase: ValuesRead + ValuesModify + CandidatesRead {

}

/// Reading the value store.
pub trait ValuesRead: BoardModel {
    /// The open locations of a digit key, if the key has an entry.
    fn get(&self, key: &ValueKey) -> (r: Option<&LocationSet>)
        requires
            key.valid(),
        ensures
            match r {
                Some(set) => self.board().values.contains_key(*key) && set@
                    == self.board().values[*key],
                None => !self.board().values.contains_key(*key),
            },
    ;
}

/// Writing the value store. The choice queue follows every change.
pub trait ValuesModify: BoardModel {
    /// Sets the locations of a digit key and returns those it had.
    fn insert(&mut self, key: ValueKey, values: LocationSet) -> (r: Option<LocationSet>)
        requires
            old(self).structural(),
            key.valid(),
            values@.finite(),
        ensures
            final(self).structural(),
            final(self).board().cells == old(self).board().cells,
            final(self).board().remaining == old(self).board().remaining,
            final(self).board().candidates == old(self).board().candidates,
            final(self).board().values == old(self).board().values.insert(key, values@),
            match r {
                Some(set) => old(self).board().values.contains_key(key) && set@
                    == old(self).board().values[key],
                None => !old(self).board().values.contains_key(key),
            },
    ;

    /// Adds a cell to the locations of a digit key, with a new entry where
    /// the key has none.
    fn insert_into(&mut self, key: ValueKey, value: usize)
        requires
            old(self).structural(),
            key.valid(),
        ensures
            final(self).structural(),
            final(self).board().cells == old(self).board().cells,
            final(self).board().remaining == old(self).board().remaining,
            final(self).board().candidates == old(self).board().candidates,
            final(self).board().values == with_location(old(self).board().values, key, value),
    ;

    /// Takes the entry of a digit key out of the value store and returns its
    /// locations.
    fn remove(&mut self, key: &ValueKey) -> (r: Option<LocationSet>)
        requires
            old(self).structural(),
            key.valid(),
        ensures
            final(self).structural(),
            final(self).board().cells == old(self).board().cells,
            final(self).board().remaining == old(self).board().remaining,
            final(self).board().candidates == old(self).board().candidates,
            final(self).board().values == old(self).board().values.remove(*key),
            match r {
                Some(set) => old(self).board().values.contains_key(*key) && set@
                    == old(self).board().values[*key],
                None => !old(self).board().values.contains_key(*key),
            },
    ;

    /// Takes a cell out of the locations of a digit key and returns how many
    /// locations are left, `None` where the key has no entry. A key that is
    /// left without locations keeps its entry.
    fn remove_from(&mut self, key: &ValueKey, index: usize) -> (r: Option<usize>)
        requires
            old(self).structural(),
            key.valid(),
        ensures
            final(self).structural(),
            final(self).board().cells == old(self).board().cells,
            final(self).board().remaining == old(self).board().remaining,
            final(self).board().candidates == old(self).board().candidates,
            match r {
                Some(left) => old(self).board().values.contains_key(*key)
                    && final(self).board().values == old(self).board().values.insert(
                    *key,
                    old(self).board().values[*key].remove(index),
                ) && left == old(self).board().values[*key].remove(index).len(),
                None => !old(self).board().values.contains_key(*key) && final(self).board().values
                    == old(self).board().values,
            },
    ;
}

/// The upkeep of the value store.
pub trait Values: BoardModel {
    /// Fills the value store from the candidate store: every cell goes under
    /// the keys of its regions for each digit that it holds as a candidate.
    fn init_values(&mut self)
        requires
            old(self).structural(),
            old(self).board().values_tidy(),
        ensures
            final(self).structural(),
            final(self).board().values_tidy(),
            final(self).board().cells == old(self).board().cells,
            final(self).board().remaining == old(self).board().remaining,
            final(self).board().candidates == old(self).board().candidates,
            forall|k: ValueKey, c: usize| #[trigger]
                final(self).board().has_location(k, c) <==> old(self).board().has_location(k, c)
                    || (k.covers(c) && old(self).board().has_candidate(c, k.value)),
    ;

    /// Brings the value store up to date after a cell was written.
    ///
    /// After a fill the candidate store is still that of the grid before the
    /// write: the digit leaves the three regions of the cell, and the cell
    /// leaves the keys of its candidates. After a clear the candidate store
    /// is already that of the new grid: the cell goes under the keys of its
    /// candidates, and the digit that left comes back to the three regions.
    fn update_values(&mut self, index: usize, new_value: u8, old_value: u8)
        requires
            old(self).structural(),
            is_grid(old(self).board().cells),
            index < CELLS,
            old_value <= 9,
            old(self).board().cells[index as int] == new_value,
            (new_value == 0) != (old_value == 0),
            old(self).board().with_cells(
                old(self).board().cells.update(index as int, old_value),
            ).values_match(),
            new_value != 0 ==> old(self).board().with_cells(
                old(self).board().cells.update(index as int, old_value),
            ).candidates_match(),
            new_value == 0 ==> old(self).board().candidates_match(),
        ensures
            final(self).structural(),
            final(self).board().cells == old(self).board().cells,
            final(self).board().remaining == old(self).board().remaining,
            final(self).board().candidates == old(self).board().candidates,
            final(self).board().values_match(),
    ;
}

} // verus!
