//! The mathematical model of a board state and what it means for one to be
//! consistent.

use crate::indices::{peers, CELLS};
use crate::sudoku::choices::{Choice, CollectionKey};
use crate::values::value_key::ValueKey;
use vstd::prelude::*;

verus! {

/// 81 cells, each empty (0) or a digit from 1 to 9.
pub open spec fn is_grid(cells: Seq<u8>) -> bool {
    &&& cells.len() == CELLS
    &&& forall|i: int| 0 <= i < cells.len() ==> cells[i] <= 9
}

/// The number of empty cells.
pub open spec fn count_empty(cells: Seq<u8>) -> nat
    decreases cells.len(),
{
    if cells.len() == 0 {
        0
    } else {
        count_empty(cells.drop_last()) + if cells.last() == 0 {
            1nat
        } else {
            0nat
        }
    }
}

/// The empty cells of a grid.
pub open spec fn empty_cells(cells: Seq<u8>) -> Set<usize> {
    Set::new(|i: usize| i < CELLS && cells[i as int] == 0)
}

/// Whether a digit is met nowhere in the neighbourhood of a cell.
pub open spec fn digit_allowed(cells: Seq<u8>, cell_index: usize, digit: u8) -> bool {
    &&& 1 <= digit <= 9
    &&& forall|j: usize| j < CELLS && #[trigger] peers(cell_index, j) ==> cells[j as int] != digit
}

/// After a digit went into an empty cell, the digits allowed in another cell
/// are those that were allowed, but for that digit in the neighbourhood of
/// the cell that was filled.
pub proof fn lemma_allowed_after_fill(
    before: Seq<u8>,
    index: usize,
    value: u8,
    cell_index: usize,
    digit: u8,
)
    requires
        before.len() == CELLS,
        index < CELLS,
        cell_index < CELLS,
        cell_index != index,
        before[index as int] == 0,
        1 <= value <= 9,
    ensures
        digit_allowed(before.update(index as int, value), cell_index, digit) <==> digit_allowed(
            before,
            cell_index,
            digit,
        ) && !(peers(index, cell_index) && digit == value),
{
    let after = before.update(index as int, value);
    if digit_allowed(after, cell_index, digit) {
        assert forall|j: usize| j < CELLS && #[trigger] peers(cell_index, j) implies before[j as int]
            != digit by {
            assert(after[j as int] != digit);
        }
        if peers(index, cell_index) {
            assert(peers(cell_index, index));
            assert(after[index as int] != digit);
        }
    }
    if digit_allowed(before, cell_index, digit) && !(peers(index, cell_index) && digit == value) {
        assert forall|j: usize| j < CELLS && #[trigger] peers(cell_index, j) implies after[j as int]
            != digit by {
            assert(before[j as int] != digit);
            if j == index {
                assert(peers(index, cell_index));
            }
        }
    }
}

/// After a cell was cleared, the digits allowed in another cell are those
/// that were allowed, and in the neighbourhood of the cleared cell perhaps
/// the digit that left.
pub proof fn lemma_allowed_after_clear(
    before: Seq<u8>,
    index: usize,
    cell_index: usize,
    digit: u8,
)
    requires
        before.len() == CELLS,
        index < CELLS,
        cell_index < CELLS,
    ensures
        digit_allowed(before, cell_index, digit) ==> digit_allowed(
            before.update(index as int, 0),
            cell_index,
            digit,
        ),
        digit_allowed(before.update(index as int, 0), cell_index, digit) && !digit_allowed(
            before,
            cell_index,
            digit,
        ) ==> digit == before[index as int] && peers(index, cell_index),
{
    let after = before.update(index as int, 0);
    if digit_allowed(before, cell_index, digit) {
        assert forall|j: usize| j < CELLS && #[trigger] peers(cell_index, j) implies after[j as int]
            != digit by {
            assert(before[j as int] != digit);
        }
    }
    if digit_allowed(after, cell_index, digit) && !digit_allowed(before, cell_index, digit) {
        let j = choose|j: usize| j < CELLS && #[trigger] peers(cell_index, j) && before[j as int]
            == digit;
        assert(after[j as int] != digit);
        assert(j == index);
        assert(peers(index, cell_index));
    }
}

/// There are no more empty cells than cells.
pub proof fn lemma_count_empty_bound(cells: Seq<u8>)
    ensures
        count_empty(cells) <= cells.len(),
    decreases cells.len(),
{
    if cells.len() > 0 {
        lemma_count_empty_bound(cells.drop_last());
    }
}

/// Writing one cell changes the number of empty cells by what the cell lost
/// and gained.
pub proof fn lemma_count_empty_update(cells: Seq<u8>, index: int, value: u8)
    requires
        0 <= index < cells.len(),
    ensures
        count_empty(cells.update(index, value)) + (if cells[index] == 0 {
            1nat
        } else {
            0nat
        }) == count_empty(cells) + (if value == 0 {
            1nat
        } else {
            0nat
        }),
    decreases cells.len(),
{
    let after = cells.update(index, value);
    if index == cells.len() - 1 {
        assert(after.drop_last() == cells.drop_last());
    } else {
        assert(after.drop_last() == cells.drop_last().update(index, value));
        lemma_count_empty_update(cells.drop_last(), index, value);
    }
}

/// A grid without empty cells has a digit in every cell, and a grid with
/// empty cells has an empty cell.
pub proof fn lemma_count_empty_zero(cells: Seq<u8>)
    ensures
        count_empty(cells) == 0 <==> forall|i: int| 0 <= i < cells.len() ==> cells[i] != 0,
    decreases cells.len(),
{
    if cells.len() > 0 {
        let front = cells.drop_last();
        lemma_count_empty_zero(front);
        if count_empty(cells) == 0 {
            assert forall|i: int| 0 <= i < cells.len() implies cells[i] != 0 by {
                if i < front.len() {
                    assert(front[i] == cells[i]);
                }
            }
        } else {
            if cells.last() != 0 {
                let i = choose|i: int| 0 <= i < front.len() && front[i] == 0;
                assert(cells[i] == 0);
            }
        }
    }
}

/// What a board state stands for: the cells, the number of empty cells, the
/// candidate digits of the cells that have an entry, the open locations of
/// the digit keys that have an entry, and the entries of the choice queue.
pub struct BoardView {
    pub cells: Seq<u8>,
    pub remaining: nat,
    pub candidates: Map<usize, Set<u8>>,
    pub values: Map<ValueKey, Set<usize>>,
    pub choices: Set<Choice>,
}

impl BoardView {
    /// Whether a cell has an entry that holds the digit.
    pub open spec fn has_candidate(self, cell_index: usize, digit: u8) -> bool {
        self.candidates.contains_key(cell_index) && self.candidates[cell_index].contains(digit)
    }

    /// Whether a digit key has an entry that holds the cell.
    pub open spec fn has_location(self, key: ValueKey, cell_index: usize) -> bool {
        self.values.contains_key(key) && self.values[key].contains(cell_index)
    }

    /// The same state over other cells.
    pub open spec fn with_cells(self, cells: Seq<u8>) -> BoardView {
        BoardView {
            cells,
            remaining: self.remaining,
            candidates: self.candidates,
            values: self.values,
            choices: self.choices,
        }
    }

    /// Every key of the value store is a valid key with a finite set of
    /// locations, at least one.
    pub open spec fn values_tidy(self) -> bool {
        forall|k: ValueKey| #[trigger]
            self.values.contains_key(k) ==> k.valid() && self.values[k].finite()
                && !self.values[k].is_empty()
    }

    /// Every location of a key lies in the region of the key.
    pub open spec fn values_regional(self) -> bool {
        forall|k: ValueKey, c: usize| #[trigger] self.has_location(k, c) ==> k.covers(c)
    }

    /// The candidate store fits the cells: a filled cell has no entry, and the
    /// digits that an empty cell holds are those allowed there. An empty cell
    /// without entry has no allowed digit.
    pub open spec fn candidates_match(self) -> bool {
        &&& forall|i: usize| #[trigger]
            self.candidates.contains_key(i) ==> i < CELLS && self.cells[i as int] == 0
                && self.candidates[i].finite()
        &&& forall|i: usize, d: u8|
            i < CELLS && self.cells[i as int] == 0 ==> (#[trigger] self.has_candidate(i, d)
                <==> digit_allowed(self.cells, i, d))
    }

    /// The value store fits the cells: a key holds the empty cells of its
    /// region where its digit is allowed, and has no entry where there are none.
    pub open spec fn values_match(self) -> bool {
        &&& forall|k: ValueKey| #[trigger]
            self.values.contains_key(k) ==> k.valid() && self.values[k].finite()
                && !self.values[k].is_empty()
        &&& forall|k: ValueKey, c: usize|
            k.valid() ==> (#[trigger] self.has_location(k, c) <==> k.covers(c) && self.cells[c as int]
                == 0 && digit_allowed(self.cells, c, k.value))
    }

    /// The choice queue fits the two stores: one entry for each entry of a
    /// store, with the size of the set under it.
    pub open spec fn choices_match(self) -> bool {
        forall|choice: Choice| #[trigger]
            self.choices.contains(choice) <==> match choice.key {
                CollectionKey::Candidates(cell) => self.candidates.contains_key(cell)
                    && choice.possibilities == self.candidates[cell].len(),
                CollectionKey::Values(key) => self.values.contains_key(key) && choice.possibilities
                    == self.values[key].len(),
            }
    }

    /// Whether a choice is in the queue and comes before all others there.
    pub open spec fn is_least(self, least: Choice) -> bool {
        &&& self.choices.contains(least)
        &&& forall|c: Choice| #[trigger] self.choices.contains(c) ==> least.precedes(c)
    }

    /// The choice that comes before all others in the queue.
    pub open spec fn least_choice(self) -> Choice {
        choose|least: Choice| self.is_least(least)
    }

    /// The moves that the state offers: those of the least choice of its
    /// queue, the digits of a cell or the locations of a digit. None where
    /// the queue is empty.
    pub open spec fn moves(self) -> Set<(usize, u8)> {
        if forall|c: Choice| !self.choices.contains(c) {
            Set::empty()
        } else {
            match self.least_choice().key {
                CollectionKey::Candidates(cell) => Set::new(
                    |m: (usize, u8)| m.0 == cell && self.candidates[cell].contains(m.1),
                ),
                CollectionKey::Values(key) => Set::new(
                    |m: (usize, u8)| m.1 == key.value && self.values[key].contains(m.0),
                ),
            }
        }
    }

    /// All parts of the state fit the cells.
    pub open spec fn wf(self) -> bool {
        &&& is_grid(self.cells)
        &&& self.remaining == count_empty(self.cells)
        &&& self.candidates_match()
        &&& self.values_match()
        &&& self.choices_match()
    }
}

/// Whether the stores fit the cells depends on the cells and the stores alone.
pub proof fn lemma_stores_fit(a: BoardView, b: BoardView)
    requires
        a.cells == b.cells,
    ensures
        a.candidates == b.candidates && a.candidates_match() ==> b.candidates_match(),
        a.values == b.values && a.values_match() ==> b.values_match(),
{
    if a.candidates == b.candidates && a.candidates_match() {
        assert forall|i: usize, d: u8| i < CELLS && b.cells[i as int] == 0 implies (
        #[trigger] b.has_candidate(i, d) <==> digit_allowed(b.cells, i, d)) by {
            assert(a.has_candidate(i, d) <==> digit_allowed(a.cells, i, d));
        }
    }
    if a.values == b.values && a.values_match() {
        assert forall|k: ValueKey, c: usize| k.valid() implies (#[trigger] b.has_location(k, c)
            <==> k.covers(c) && b.cells[c as int] == 0 && digit_allowed(b.cells, c, k.value)) by {
            assert(a.has_location(k, c) <==> k.covers(c) && a.cells[c as int] == 0
                && digit_allowed(a.cells, c, k.value));
        }
    }
}

/// A consistent state is known by its cells and the cells that have an
/// entry in the candidate store.
pub proof fn lemma_view_determined(a: BoardView, b: BoardView)
    requires
        a.wf(),
        b.wf(),
        a.cells == b.cells,
        a.candidates.dom() == b.candidates.dom(),
    ensures
        a == b,
{
    assert forall|c: usize| a.candidates.contains_key(c) implies a.candidates[c]
        == b.candidates[c] by {
        assert(b.candidates.dom().contains(c));
        assert forall|d: u8| a.candidates[c].contains(d) <==> b.candidates[c].contains(d) by {
            assert(a.has_candidate(c, d) <==> digit_allowed(a.cells, c, d));
            assert(b.has_candidate(c, d) <==> digit_allowed(b.cells, c, d));
        }
        assert(a.candidates[c] =~= b.candidates[c]);
    }
    assert(a.candidates =~= b.candidates);
    assert forall|k: ValueKey| a.values.contains_key(k) <==> b.values.contains_key(k) by {
        if a.values.contains_key(k) {
            let c = choose|c: usize| a.values[k].contains(c);
            assert(a.has_location(k, c));
            assert(b.has_location(k, c));
        }
        if b.values.contains_key(k) {
            let c = choose|c: usize| b.values[k].contains(c);
            assert(b.has_location(k, c));
            assert(a.has_location(k, c));
        }
    }
    assert forall|k: ValueKey| a.values.contains_key(k) implies a.values[k] == b.values[k] by {
        assert forall|c: usize| a.values[k].contains(c) <==> b.values[k].contains(c) by {
            assert(a.has_location(k, c) <==> b.has_location(k, c));
        }
        assert(a.values[k] =~= b.values[k]);
    }
    assert(a.values =~= b.values);
    assert(a.choices =~= b.choices);
}

/// The consistent state over a grid in which every empty cell has an entry
/// of candidates.
pub open spec fn state_of(cells: Seq<u8>) -> BoardView {
    choose|v: BoardView| v.wf() && v.cells == cells && v.candidates.dom() == empty_cells(cells)
}

/// A state that stands for a board: the cells and the stores over them.
pub trait BoardModel {
    /// What the state stands for.
    spec fn board(&self) -> BoardView;

    /// The stores hold entries for cells and digit keys only, and the queue
    /// holds one entry for each entry of a store, with the size of its set.
    spec fn structural(&self) -> bool;

    /// The digit in a cell, 0 for an empty cell, `None` for an index past the grid.
    fn cell(&self, index: usize) -> (r: Option<u8>)
        ensures
            r == (if index < self.board().cells.len() {
                Some(self.board().cells[index as int])
            } else {
                None
            }),
    ;

    /// In a state with that structure the queue fits the two stores, and
    /// every entry of a store is a finite set under a proper key.
    proof fn lemma_structure(&self)
        requires
            self.structural(),
        ensures
            self.board().choices_match(),
            forall|i: usize| #[trigger]
                self.board().candidates.contains_key(i) ==> i < CELLS
                    && self.board().candidates[i].finite(),
            forall|k: ValueKey| #[trigger]
                self.board().values.contains_key(k) ==> k.valid()
                    && self.board().values[k].finite(),
    ;
}

} // verus!
