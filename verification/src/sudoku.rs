//! The board state: the grid together with the candidate store, the value
//! store and the choice queue, all of them persistent.

pub mod choices;
pub mod traits;

use crate::board::{
    count_empty, empty_cells, is_grid, lemma_count_empty_bound, lemma_count_empty_update,
    lemma_stores_fit, lemma_view_determined, state_of, BoardModel, BoardView,
};
use crate::candidates::traits::{CandidateBase, Candidates, CandidatesModify, CandidatesRead};
use crate::candidates::{
    all_cells, digit_at, digits_of, dom_after_clear, dom_after_fill, dom_after_set,
    entry_after_fill, entry_refreshed, lemma_candidates_fit, lemma_candidates_after_clear,
    lemma_candidates_after_fill, lemma_digits_len, CandidateSet,
};
use crate::indices::CELLS;
use crate::persistent::{
    candidate_bits, candidate_map_clone, candidate_map_get, candidate_map_insert,
    candidate_map_new, candidate_map_remove, cells_of, location_sets, members, puzzle_clone,
    puzzle_from, puzzle_get, puzzle_items, puzzle_set, queue_clone, queue_insert, queue_items,
    queue_min, queue_new, queue_remove, value_map_clone, value_map_get, value_map_get_mut,
    value_map_insert, value_map_new, value_map_remove, CandidateMap, ChoiceQueue, LocationSet,
    Puzzle, ValueMap,
};
use crate::solution::{
    completable, lemma_completable_state, lemma_locations_bound, lemma_moves_for_cell,
    lemma_moves_for_key, lemma_no_choice, lists_candidates, lists_locations,
};
use crate::sudoku::choices::{Choice, CollectionKey};
use crate::sudoku::traits::SudokuState;
use crate::values::traits::{ValueBase, Values, ValuesModify, ValuesRead};
use crate::values::value_key::ValueKey;
use std::collections::HashSet;
use vstd::prelude::*;

verus! {

/// A board state. A write gives a new state and leaves the old one as it is.
pub struct Sudoku {
    puzzle: Puzzle,
    remaining: usize,
    // The digits that each empty cell can still take: all digits but those
    // met in the row, the column and the box of the cell.
    candidate_map: CandidateMap,
    // For each row, column and box, the cells where a missing digit can still
    // go. A digit with one location left has found its place.
    value_map: ValueMap,
    // The keys of both stores with the size of the set under each, smallest
    // first, so that the cell or digit with the fewest options is tried first.
    choices: ChoiceQueue,
}

/// Whether the queue is to hold the pair of a size and a rank.
pub open spec fn queue_expects(
    bits: Map<usize, u16>,
    sets: Map<usize, Set<usize>>,
    size: usize,
    rank: usize,
) -> bool {
    if rank < CELLS {
        bits.contains_key(rank) && size == digits_of(bits[rank]).len()
    } else {
        rank < 324 && sets.contains_key((rank - CELLS) as usize) && size == sets[(rank
            - CELLS) as usize].len()
    }
}

/// Whether the contents of the three collections go together.
pub open spec fn structure_holds(
    bits: Map<usize, u16>,
    sets: Map<usize, Set<usize>>,
    items: Set<(usize, usize)>,
) -> bool {
    &&& forall|i: usize| #[trigger] bits.contains_key(i) ==> i < CELLS
    &&& forall|c: usize| #[trigger] sets.contains_key(c) ==> c < 243 && sets[c].finite()
    &&& forall|size: usize, rank: usize| #[trigger]
        items.contains((size, rank)) <==> queue_expects(bits, sets, size, rank)
}

impl View for Sudoku {
    type V = BoardView;

    closed spec fn view(&self) -> BoardView {
        BoardView {
            cells: cells_of(self.puzzle),
            remaining: self.remaining as nat,
            candidates: Map::new(
                |i: usize| candidate_bits(self.candidate_map).contains_key(i),
                |i: usize| digits_of(candidate_bits(self.candidate_map)[i]),
            ),
            values: Map::new(
                |k: ValueKey|
                    k.valid() && location_sets(self.value_map).contains_key(k.code() as usize),
                |k: ValueKey| location_sets(self.value_map)[k.code() as usize],
            ),
            choices: Set::new(
                |c: Choice|
                    c.key.valid() && queue_items(self.choices).contains(
                        (c.possibilities, c.key.rank() as usize),
                    ),
            ),
        }
    }
}

impl BoardModel for Sudoku {
    open spec fn board(&self) -> BoardView {
        self@
    }

    closed spec fn structural(&self) -> bool {
        structure_holds(
            candidate_bits(self.candidate_map),
            location_sets(self.value_map),
            queue_items(self.choices),
        )
    }

    fn cell(&self, index: usize) -> (r: Option<u8>) {
        puzzle_get(&self.puzzle, index)
    }

    proof fn lemma_structure(&self) {
        assert forall|choice: Choice| #[trigger]
            self@.choices.contains(choice) <==> match choice.key {
                CollectionKey::Candidates(cell) => self@.candidates.contains_key(cell)
                    && choice.possibilities == self@.candidates[cell].len(),
                CollectionKey::Values(key) => self@.values.contains_key(key)
                    && choice.possibilities == self@.values[key].len(),
            } by {
            match choice.key {
                CollectionKey::Values(key) => {
                    if key.valid() {
                        key.lemma_code(key);
                    }
                },
                _ => {},
            }
        }
        assert forall|i: usize| #[trigger] self@.candidates.contains_key(i) implies i < CELLS
            && self@.candidates[i].finite() by {
            lemma_digits_len(candidate_bits(self.candidate_map)[i]);
        }
    }
}

impl CandidatesRead for Sudoku {
    fn get(&self, index: usize) -> (r: Option<CandidateSet>) {
        match candidate_map_get(&self.candidate_map, index) {
            Some(bits) => Some(CandidateSet::from_bits_truncate(bits)),
            None => None,
        }
    }
}

impl CandidatesModify for Sudoku {
    fn insert(&mut self, index: usize, candidates: CandidateSet) -> (r: Option<CandidateSet>) {
        let new_len = candidates.len();
        let out = candidate_map_insert(&mut self.candidate_map, index, candidates.bits());

        // Where an entry was overwritten, its queue entry goes if the size
        // has changed. The queue holds sizes and keys only, so the digits
        // themselves do not matter here.
        let before = match out {
            Some(bits) => {
                let set = CandidateSet::from_bits_truncate(bits);
                let old_len = set.len();
                if old_len != new_len {
                    queue_remove(&mut self.choices, (old_len, index));
                }
                Some(set)
            },
            None => None,
        };
        queue_insert(&mut self.choices, (new_len, index));
        proof {
            assert(self@.candidates =~= old(self)@.candidates.insert(index, candidates@));
        }
        before
    }

    fn remove(&mut self, index: usize) -> (r: Option<CandidateSet>) {
        let out = candidate_map_remove(&mut self.candidate_map, index);
        let before = match out {
            Some(bits) => {
                let set = CandidateSet::from_bits_truncate(bits);
                queue_remove(&mut self.choices, (set.len(), index));
                Some(set)
            },
            None => None,
        };
        proof {
            assert(self@.candidates =~= old(self)@.candidates.remove(index));
        }
        before
    }

    fn remove_diff(&mut self, index: usize, diff: CandidateSet) -> (r: Option<CandidateSet>) {
        let bits = match candidate_map_get(&self.candidate_map, index) {
            Some(bits) => bits,
            None => {
                return None;
            },
        };
        let mut set = CandidateSet::from_bits_truncate(bits);
        let old_len = set.len();
        set.remove(diff);
        let new_len = set.len();
        candidate_map_insert(&mut self.candidate_map, index, set.bits());

        if old_len != new_len {
            queue_remove(&mut self.choices, (old_len, index));
            queue_insert(&mut self.choices, (new_len, index));
        }
        proof {
            assert(self@.candidates =~= old(self)@.candidates.insert(index, set@));
        }
        Some(set)
    }
}

impl CandidateBase for Sudoku {

}

impl ValuesRead for Sudoku {
    fn get(&self, key: &ValueKey) -> (r: Option<&LocationSet>) {
        value_map_get(&self.value_map, key.encode())
    }
}

impl ValuesModify for Sudoku {
    fn insert(&mut self, key: ValueKey, values: LocationSet) -> (r: Option<LocationSet>) {
        broadcast use vstd::std_specs::hash::group_hash_axioms;

        let code = key.encode();
        let rank: usize = CELLS + code;
        let new_len = values.len();
        let out = value_map_insert(&mut self.value_map, code, values);

        // Where an entry was overwritten, its queue entry goes if the size
        // has changed.
        if let Some(set) = &out {
            let old_len = set.len();
            if old_len != new_len {
                queue_remove(&mut self.choices, (old_len, rank));
            }
        }
        queue_insert(&mut self.choices, (new_len, rank));
        proof {
            let expected = old(self)@.values.insert(key, values@);
            assert forall|k: ValueKey| self@.values.contains_key(k) <==>
                expected.contains_key(k) by {
                if k.valid() {
                    k.lemma_code(key);
                }
            }
            assert forall|k: ValueKey| self@.values.contains_key(k) implies
                self@.values[k] == expected[k] by {
                k.lemma_code(key);
            }
            assert(self@.values =~= expected);
        }
        out
    }

    fn insert_into(&mut self, key: ValueKey, value: usize) {
        broadcast use vstd::std_specs::hash::group_hash_axioms;

        let code = key.encode();
        let rank: usize = CELLS + code;
        match value_map_get_mut(&mut self.value_map, code) {
            Some(set) => {
                let old_len = set.len();
                set.insert(value);
                let new_len = set.len();

                if old_len != new_len {
                    queue_remove(&mut self.choices, (old_len, rank));
                    queue_insert(&mut self.choices, (new_len, rank));
                }
            },
            None => {
                let mut set: LocationSet = HashSet::new();
                set.insert(value);
                let new_len = set.len();
                value_map_insert(&mut self.value_map, code, set);
                queue_insert(&mut self.choices, (new_len, rank));
            },
        }
        proof {
            let expected = old(self)@.values.insert(
                key,
                (if old(self)@.values.contains_key(key) {
                    old(self)@.values[key]
                } else {
                    Set::empty()
                }).insert(value),
            );
            assert forall|k: ValueKey| self@.values.contains_key(k) <==>
                expected.contains_key(k) by {
                if k.valid() {
                    k.lemma_code(key);
                }
            }
            assert forall|k: ValueKey| self@.values.contains_key(k) implies
                self@.values[k] == expected[k] by {
                k.lemma_code(key);
            }
            assert(self@.values =~= expected);
        }
    }

    fn remove(&mut self, key: &ValueKey) -> (r: Option<LocationSet>) {
        broadcast use vstd::std_specs::hash::group_hash_axioms;

        let code = key.encode();
        let out = value_map_remove(&mut self.value_map, code);
        if let Some(set) = &out {
            queue_remove(&mut self.choices, (set.len(), CELLS + code));
        }
        proof {
            let expected = old(self)@.values.remove(*key);
            assert forall|k: ValueKey| self@.values.contains_key(k) <==>
                expected.contains_key(k) by {
                if k.valid() {
                    k.lemma_code(*key);
                }
            }
            assert(self@.values =~= expected);
        }
        out
    }

    fn remove_from(&mut self, key: &ValueKey, index: usize) -> (r: Option<usize>) {
        broadcast use vstd::std_specs::hash::group_hash_axioms;

        let code = key.encode();
        let rank: usize = CELLS + code;
        let set = match value_map_get_mut(&mut self.value_map, code) {
            Some(set) => set,
            None => {
                return None;
            },
        };
        let old_len = set.len();
        set.remove(&index);
        let new_len = set.len();

        if old_len != new_len {
            queue_remove(&mut self.choices, (old_len, rank));
            queue_insert(&mut self.choices, (new_len, rank));
        }
        proof {
            let expected = old(self)@.values.insert(*key, old(self)@.values[*key].remove(index));
            assert forall|k: ValueKey| self@.values.contains_key(k) <==>
                expected.contains_key(k) by {
                if k.valid() {
                    k.lemma_code(*key);
                }
            }
            assert forall|k: ValueKey| self@.values.contains_key(k) implies
                self@.values[k] == expected[k] by {
                k.lemma_code(*key);
            }
            assert(self@.values =~= expected);
        }
        Some(new_len)
    }
}

impl ValueBase for Sudoku {

}

impl Sudoku {
    /// The state has the structure of a board state, and all of its parts
    /// fit the cells.
    pub open spec fn well_formed(&self) -> bool {
        self.structural() && self@.wf()
    }

    /// A state without stores over the cells of an array.
    fn bare(puzzle: &[u8; 81]) -> (r: Self)
        ensures
            r.structural(),
            r@.cells == puzzle@,
            r@.remaining == count_empty(puzzle@),
            r@.candidates.dom() == Set::<usize>::empty(),
            r@.values.dom() == Set::<ValueKey>::empty(),
    {
        let mut remaining: usize = 0;
        let mut i: usize = 0;
        while i < 81
            invariant
                i <= 81,
                remaining == count_empty(puzzle@.take(i as int)),
                remaining <= i,
            decreases 81 - i,
        {
            proof {
                assert(puzzle@.take(i as int + 1).drop_last() == puzzle@.take(i as int));
            }
            if puzzle[i] == 0 {
                remaining += 1;
            }
            i += 1;
        }
        proof {
            assert(puzzle@.take(81) == puzzle@);
        }
        let r = Sudoku {
            puzzle: puzzle_from(puzzle),
            remaining,
            candidate_map: candidate_map_new(),
            value_map: value_map_new(),
            choices: queue_new(),
        };
        proof {
            assert(r@.candidates.dom() =~= Set::<usize>::empty());
            assert(r@.values.dom() =~= Set::<ValueKey>::empty());
        }
        r
    }

    /// Writes one cell that changes between empty and filled, and brings the
    /// stores up to date.
    fn write(&mut self, index: usize, new_value: u8, old_value: u8)
        requires
            old(self).well_formed(),
            index < CELLS,
            new_value <= 9,
            old(self)@.cells[index as int] == old_value,
            (new_value == 0) != (old_value == 0),
        ensures
            final(self).well_formed(),
            final(self)@.cells == old(self)@.cells.update(index as int, new_value),
            final(self)@.candidates.dom() == (if new_value == 0 {
                dom_after_clear(old(self)@.candidates.dom(), final(self)@.cells, index)
            } else {
                dom_after_fill(old(self)@.candidates, index, new_value)
            }),
    {
        let ghost before = self@;
        proof {
            lemma_count_empty_update(before.cells, index as int, new_value);
            lemma_count_empty_bound(before.cells.update(index as int, new_value));
        }
        if old_value == 0 && new_value > 0 {
            self.remaining -= 1;
        } else if old_value > 0 && new_value == 0 {
            self.remaining += 1;
        }
        puzzle_set(&mut self.puzzle, index, new_value);

        let ghost mid = self@;
        proof {
            assert(mid.cells.update(index as int, old_value) =~= before.cells);
            lemma_stores_fit(before, mid.with_cells(mid.cells.update(index as int, old_value)));
        }
        // The value store reads the candidate store: after a clear it wants
        // the candidates of the new grid, after a fill those of the old one.
        if new_value == 0 {
            self.update_candidates(index, new_value, old_value);
            proof {
                self.lemma_structure();
                lemma_candidates_after_clear(mid, self@, index, old_value);
                lemma_stores_fit(
                    before,
                    self@.with_cells(self@.cells.update(index as int, old_value)),
                );
            }
            let ghost post = self@;
            proof {
                assert forall|c: usize|
                    post.candidates.dom().contains(c) <==> dom_after_clear(
                        before.candidates.dom(),
                        post.cells,
                        index,
                    ).contains(c) by {
                    assert(entry_refreshed(mid, post, crate::indices::neighbors(index), c));
                }
                assert(post.candidates.dom() =~= dom_after_clear(
                    before.candidates.dom(),
                    post.cells,
                    index,
                ));
            }
            self.update_values(index, new_value, old_value);
            proof {
                lemma_stores_fit(post, self@);
            }
        } else {
            self.update_values(index, new_value, old_value);
            let ghost later = self@;
            proof {
                lemma_stores_fit(
                    before,
                    later.with_cells(later.cells.update(index as int, old_value)),
                );
            }
            self.update_candidates(index, new_value, old_value);
            proof {
                self.lemma_structure();
                lemma_candidates_after_fill(later, self@, index, new_value);
                lemma_stores_fit(later, self@);
                assert forall|c: usize|
                    self@.candidates.dom().contains(c) <==> dom_after_fill(
                        before.candidates,
                        index,
                        new_value,
                    ).contains(c) by {
                    assert(entry_after_fill(later, self@, index, new_value, c));
                }
                assert(self@.candidates.dom() =~= dom_after_fill(
                    before.candidates,
                    index,
                    new_value,
                ));
            }
        }
        proof {
            self.lemma_structure();
            assert(self@.cells == before.cells.update(index as int, new_value));
            assert(is_grid(self@.cells));
            assert(self@.remaining == count_empty(self@.cells));
            assert(self@.candidates_match());
            assert(self@.values_match());
            assert(self@.choices_match());
        }
    }

    /// Writes one cell and brings the stores up to date. A digit that
    /// replaces another one is taken out first.
    fn update(&mut self, index: usize, new_value: u8)
        requires
            old(self).well_formed(),
            index < CELLS,
            new_value <= 9,
        ensures
            final(self).well_formed(),
            final(self)@.cells == old(self)@.cells.update(index as int, new_value),
            final(self)@.candidates.dom() == dom_after_set(old(self)@, index, new_value),
            old(self)@.cells[index as int] == new_value ==> final(self)@ == old(self)@,
    {
        let old_value = match puzzle_get(&self.puzzle, index) {
            Some(value) => value,
            None => {
                return ;
            },
        };

        if old_value == new_value {
            proof {
                assert(self@.cells.update(index as int, new_value) =~= self@.cells);
            }
            return ;
        }
        if old_value > 0 && new_value > 0 {
            self.write(index, 0, old_value);
            let ghost mid = self@;
            proof {
                lemma_candidates_fit(mid);
            }
            self.write(index, new_value, 0);
            proof {
                assert(self@.cells =~= old(self)@.cells.update(index as int, new_value));
            }
        } else {
            self.write(index, new_value, old_value);
        }
    }

    /// The state of a grid: every empty cell with its candidates, every
    /// digit key with its locations.
    fn create(puzzle: &[u8; 81]) -> (r: Self)
        requires
            forall|i: int| 0 <= i < 81 ==> puzzle@[i] <= 9,
        ensures
            r.well_formed(),
            r@.cells == puzzle@,
            r@.candidates.dom() == empty_cells(puzzle@),
    {
        let mut yaws = Sudoku::bare(puzzle);
        let ghost bare = yaws@;

        yaws.init_candidates();
        let ghost mid = yaws@;
        proof {
            yaws.lemma_structure();
            assert forall|i: usize| #[trigger] mid.candidates.contains_key(i) implies i < CELLS
                && mid.cells[i as int] == 0 && mid.candidates[i].finite() by {
                assert(entry_refreshed(bare, mid, all_cells(), i));
                assert(!bare.candidates.dom().contains(i));
            }
            assert forall|i: usize, d: u8| i < CELLS && mid.cells[i as int] == 0 implies (
            #[trigger] mid.has_candidate(i, d) <==> crate::board::digit_allowed(
                mid.cells,
                i,
                d,
            )) by {
                assert(entry_refreshed(bare, mid, all_cells(), i));
            }
            assert(mid.candidates_match());
            assert forall|k: ValueKey| !(#[trigger] mid.values.contains_key(k)) by {
                assert(!bare.values.dom().contains(k));
            }
            assert(mid.values_tidy());
        }
        yaws.init_values();
        proof {
            yaws.lemma_structure();
            lemma_stores_fit(mid, yaws@);
            assert(is_grid(yaws@.cells));
            assert(yaws@.candidates_match());
            assert(yaws@.values_tidy());
            assert forall|k: ValueKey, c: usize| k.valid() implies (#[trigger] yaws@.has_location(
                k,
                c,
            ) <==> k.covers(c) && yaws@.cells[c as int] == 0 && crate::board::digit_allowed(
                yaws@.cells,
                c,
                k.value,
            )) by {
                assert(!mid.values.contains_key(k));
                if k.covers(c) {
                    if mid.cells[c as int] == 0 {
                        assert(mid.has_candidate(c, k.value) <==> crate::board::digit_allowed(
                            mid.cells,
                            c,
                            k.value,
                        ));
                    } else {
                        assert(!mid.candidates.contains_key(c));
                    }
                }
            }
            assert(yaws@.values_match());
            assert(yaws@.choices_match());
            assert(yaws@.remaining == count_empty(yaws@.cells));
            assert forall|i: usize|
                yaws@.candidates.dom().contains(i) <==> empty_cells(puzzle@).contains(i) by {
                assert(entry_refreshed(bare, mid, all_cells(), i));
                assert(!bare.candidates.dom().contains(i));
            }
            assert(yaws@.candidates.dom() =~= empty_cells(puzzle@));
        }
        yaws
    }

    /// The cells of the state as an array.
    pub fn to_array(&self) -> (r: [u8; 81])
        requires
            self.well_formed(),
        ensures
            r@ == self@.cells,
    {
        let mut array = [0u8;81];
        let items = puzzle_items(&self.puzzle);
        let mut i: usize = 0;
        while i < 81
            invariant
                i <= 81,
                items@.len() == 81,
                forall|k: int| 0 <= k < i ==> array@[k] == items@[k],
            decreases 81 - i,
        {
            array[i] = items[i];
            i += 1;
        }
        proof {
            assert(array@ =~= self@.cells);
        }
        array
    }

    /// A state with one cell written. The state itself stays as it is; the
    /// new state shares with it what the write did not touch.
    fn with_move(&self, index: usize, value: u8) -> (r: Self)
        requires
            self.well_formed(),
            index < CELLS,
            value <= 9,
        ensures
            r.well_formed(),
            r@.cells == self@.cells.update(index as int, value),
            r@.candidates.dom() == dom_after_set(self@, index, value),
            self@.cells[index as int] == value ==> r@ == self@,
    {
        let mut clone = self.clone();
        clone.update(index, value);
        clone
    }
}

impl Clone for Sudoku {
    /// The collections of a state are persistent, so a clone copies nothing
    /// at first: it shares the structure of the state it was made from, and a later write
    /// copies only the parts that it changes.
    fn clone(&self) -> (r: Self)
        ensures
            r@ == self@,
            r.structural() == self.structural(),
    {
        Sudoku {
            puzzle: puzzle_clone(&self.puzzle),
            remaining: self.remaining,
            candidate_map: candidate_map_clone(&self.candidate_map),
            value_map: value_map_clone(&self.value_map),
            choices: queue_clone(&self.choices),
        }
    }
}

impl SudokuState for Sudoku {
    open spec fn cells(&self) -> Seq<u8> {
        self@.cells
    }

    open spec fn wf(&self) -> bool {
        self.well_formed()
    }

    open spec fn moves_at(cells: Seq<u8>) -> Set<(usize, u8)> {
        state_of(cells).moves()
    }

    proof fn lemma_wf(&self) {
    }

    /// The state of a grid. Every empty cell has an entry in the candidate
    /// store, also where no digit is allowed.
    fn new(puzzle: &[u8; 81]) -> (r: Self)
        ensures
            r@.candidates.dom() == empty_cells(puzzle@),
    {
        Sudoku::create(puzzle)
    }

    /// The moves of the least entry of the queue: for a cell its candidate
    /// digits in ascending order, for a digit key its locations in the order
    /// in which their set hands them out. No moves where the queue is empty.
    fn next_choice(&self) -> (r: Vec<(usize, u8)>)
        ensures
            r@.no_duplicates(),
            r@.to_set() == self@.moves(),
            (forall|c: Choice| !self@.choices.contains(c)) ==> r@.len() == 0,
            forall|least: Choice| #[trigger]
                self@.is_least(least) ==> match least.key {
                    CollectionKey::Candidates(cell) => lists_candidates(
                        r@,
                        cell,
                        self@.candidates[cell],
                    ),
                    CollectionKey::Values(key) => lists_locations(
                        r@,
                        key.value,
                        self@.values[key],
                    ),
                },
    {
        let mut moves: Vec<(usize, u8)> = Vec::new();
        let (size, rank) = match queue_min(&self.choices) {
            Some(item) => item,
            None => {
                proof {
                    assert forall|c: Choice| !self@.choices.contains(c) by {
                        assert(!queue_items(self.choices).contains(
                            (c.possibilities, c.key.rank() as usize),
                        ));
                    }
                    if count_empty(self@.cells) > 0 {
                        lemma_no_choice(self@);
                    }
                    assert(moves@ =~= Seq::empty());
                    assert(moves@.to_set() =~= self@.moves());
                    if completable(self@.cells) {
                        lemma_completable_state(self@);
                    }
                }
                return moves;
            },
        };
        assert(queue_items(self.choices).contains((size, rank)));
        let queue_item = Choice::new(size, CollectionKey::from_rank(rank));
        proof {
            assert(self@.choices.contains(queue_item));
            assert forall|c: Choice| #[trigger] self@.choices.contains(c) implies queue_item.precedes(
                c,
            ) by {
                c.key.lemma_rank(c.key);
                assert(queue_items(self.choices).contains(
                    (c.possibilities, c.key.rank() as usize),
                ));
                assert(crate::persistent::pair_le(
                    (size, rank),
                    (c.possibilities, c.key.rank() as usize),
                ));
                queue_item.key.lemma_rank(c.key);
            }
            assert(self@.is_least(queue_item));
            assert forall|least: Choice| #[trigger] self@.is_least(least) implies least
                == queue_item by {
                assert(self@.choices.contains(least));
                assert(queue_items(self.choices).contains(
                    (least.possibilities, least.key.rank() as usize),
                ));
                assert(least.precedes(queue_item));
                queue_item.key.lemma_rank(least.key);
                least.key.lemma_rank(queue_item.key);
            }
            assert(self@.least_choice() == queue_item);
            if completable(self@.cells) {
                lemma_completable_state(self@);
            }
        }

        match queue_item.key {
            CollectionKey::Candidates(key) => {
                if let Some(set) = CandidatesRead::get(self, key) {
                    let items = set.iter();
                    let ghost ordered = set.ordered();
                    proof {
                        set.lemma_view();
                    }
                    let mut t: usize = 0;
                    while t < items.len()
                        invariant
                            t <= items@.len(),
                            items@.len() == ordered.len(),
                            forall|k: int|
                                0 <= k < items@.len() ==> (#[trigger] items@[k])@
                                    == set![ordered[k]],
                            moves@.len() == t,
                            forall|u: int|
                                0 <= u < t ==> #[trigger] moves@[u] == (key, ordered[u]),
                        decreases items@.len() - t,
                    {
                        let digit = digit_at(&items, t, Ghost(ordered));
                        moves.push((key, digit));
                        t += 1;
                    }
                    proof {
                        let digits = self@.candidates[key];
                        assert forall|u: int| 0 <= u < moves@.len() implies (#[trigger] moves@[u]).0
                            == key && digits.contains(moves@[u].1) by {
                            assert(ordered.contains(ordered[u]));
                            assert(ordered.to_set().contains(ordered[u]));
                        }
                        assert forall|d: u8| #[trigger] digits.contains(d) implies exists|u: int|
                            0 <= u < moves@.len() && #[trigger] moves@[u] == (key, d) by {
                            assert(ordered.to_set().contains(d));
                            assert(ordered.contains(d));
                            let u = choose|u: int| 0 <= u < ordered.len() && ordered[u] == d;
                            assert(moves@[u] == (key, d));
                        }
                        assert(lists_candidates(moves@, key, digits));
                        lemma_moves_for_cell(self@, key, moves@);
                        assert forall|m: (usize, u8)|
                            moves@.to_set().contains(m) <==> self@.moves().contains(m) by {
                            if moves@.contains(m) {
                                let u = choose|u: int| 0 <= u < moves@.len() && moves@[u] == m;
                                assert(moves@[u].0 == key && digits.contains(moves@[u].1));
                            }
                            if m.0 == key && digits.contains(m.1) {
                                let u = choose|u: int|
                                    0 <= u < moves@.len() && #[trigger] moves@[u] == (key, m.1);
                                assert(moves@[u] == m);
                            }
                        }
                        assert(moves@.to_set() =~= self@.moves());
                        assert forall|t: int, u: int|
                            0 <= t < moves@.len() && 0 <= u < moves@.len() && t != u implies moves@[t]
                            != moves@[u] by {
                            assert(moves@[t] == (key, ordered[t]));
                            assert(moves@[u] == (key, ordered[u]));
                            if t < u {
                                assert(ordered[t] < ordered[u]);
                            } else {
                                assert(ordered[u] < ordered[t]);
                            }
                        }
                    }
                } else {
                    assert(false);
                }
            },
            CollectionKey::Values(key) => {
                if let Some(set) = ValuesRead::get(self, &key) {
                    let locations = members(set);
                    let mut t: usize = 0;
                    while t < locations.len()
                        invariant
                            t <= locations@.len(),
                            moves@.len() == t,
                            forall|u: int|
                                0 <= u < t ==> #[trigger] moves@[u] == (locations@[u], key.value),
                        decreases locations@.len() - t,
                    {
                        moves.push((locations[t], key.value));
                        t += 1;
                    }
                    proof {
                        let held = self@.values[key];
                        assert forall|u: int| 0 <= u < moves@.len() implies (#[trigger] moves@[u]).1
                            == key.value && held.contains(moves@[u].0) by {
                            assert(locations@.contains(locations@[u]));
                            assert(locations@.to_set().contains(locations@[u]));
                        }
                        assert forall|c: usize| #[trigger] held.contains(c) implies exists|u: int|
                            0 <= u < moves@.len() && #[trigger] moves@[u] == (c, key.value) by {
                            assert(locations@.to_set().contains(c));
                            assert(locations@.contains(c));
                            let u = choose|u: int| 0 <= u < locations@.len() && locations@[u] == c;
                            assert(moves@[u] == (c, key.value));
                        }
                        assert forall|t: int, u: int| 0 <= t < u < moves@.len() implies (
                        #[trigger] moves@[t]).0 != (#[trigger] moves@[u]).0 by {
                            assert(locations@[t] != locations@[u]);
                        }
                        assert(lists_locations(moves@, key.value, held));
                        lemma_moves_for_key(self@, key, moves@);
                        lemma_locations_bound(self@, key);
                        assert forall|m: (usize, u8)|
                            moves@.to_set().contains(m) <==> self@.moves().contains(m) by {
                            if moves@.contains(m) {
                                let u = choose|u: int| 0 <= u < moves@.len() && moves@[u] == m;
                                assert(moves@[u].1 == key.value && held.contains(moves@[u].0));
                            }
                            if m.1 == key.value && held.contains(m.0) {
                                let u = choose|u: int|
                                    0 <= u < moves@.len() && #[trigger] moves@[u] == (
                                        m.0,
                                        key.value,
                                    );
                                assert(moves@[u] == m);
                            }
                        }
                        assert(moves@.to_set() =~= self@.moves());
                        assert forall|t: int, u: int|
                            0 <= t < moves@.len() && 0 <= u < moves@.len() && t != u implies moves@[t]
                            != moves@[u] by {
                            assert(moves@[t] == (locations@[t], key.value));
                            assert(moves@[u] == (locations@[u], key.value));
                            assert(locations@[t] != locations@[u]);
                        }
                    }
                } else {
                    assert(false);
                }
            },
        }
        moves
    }

    fn get(&self, index: usize) -> (r: Option<u8>) {
        self.cell(index)
    }

    /// A state with one cell written. A write of the digit that the cell
    /// holds already gives the same state again.
    fn set(&self, index: usize, value: u8) -> (r: Self)
        ensures
            r@.candidates.dom() == dom_after_set(self@, index, value),
            self@.cells[index as int] == value ==> r@ == self@,
    {
        self.with_move(index, value)
    }

    fn iter(&self) -> (r: Vec<u8>) {
        puzzle_items(&self.puzzle)
    }

    fn remaining(&self) -> (r: usize) {
        self.remaining
    }
}

/// What a write makes of a state: a consistent state over the cells with
/// the one cell written, with the entries that the write leaves.
pub open spec fn set_result(before: Sudoku, index: usize, value: u8, after: Sudoku) -> bool {
    &&& after.well_formed()
    &&& after@.cells == before@.cells.update(index as int, value)
    &&& after@.candidates.dom() == dom_after_set(before@, index, value)
}

/// Writing the same digit into the same cell a second time changes nothing.
pub proof fn lemma_set_twice(state: Sudoku, once: Sudoku, twice: Sudoku, index: usize, value: u8)
    requires
        state.well_formed(),
        index < CELLS,
        value <= 9,
        set_result(state, index, value, once),
        set_result(once, index, value, twice),
    ensures
        twice@ == once@,
{
    assert(once@.cells[index as int] == value);
    assert(twice@.cells =~= once@.cells);
    lemma_view_determined(twice@, once@);
}

/// Two writes of one cell of one state give the same state.
pub proof fn lemma_set_determined(state: Sudoku, a: Sudoku, b: Sudoku, index: usize, value: u8)
    requires
        set_result(state, index, value, a),
        set_result(state, index, value, b),
    ensures
        a@ == b@,
{
    lemma_view_determined(a@, b@);
}

/// No candidate of an empty cell is met in the neighbourhood of the cell.
pub proof fn lemma_candidates_avoid_neighbors(state: Sudoku, cell_index: usize, digit: u8)
    requires
        state.well_formed(),
        state@.has_candidate(cell_index, digit),
    ensures
        cell_index < CELLS,
        state@.cells[cell_index as int] == 0,
        forall|j: usize|
            j < CELLS && #[trigger] crate::indices::peers(cell_index, j)
                ==> state@.cells[j as int] != digit,
{
}

/// No key of the value store has an empty set of locations.
pub proof fn lemma_no_empty_locations(state: Sudoku, key: ValueKey)
    requires
        state.well_formed(),
        state@.values.contains_key(key),
    ensures
        state@.values[key].len() > 0,
        exists|c: usize| state@.values[key].contains(c),
{
    let held = state@.values[key];
    assert(!held.is_empty());
    if held.len() == 0 {
        held.lemma_len0_is_empty();
    }
    let c = choose|c: usize| held.contains(c);
}

/// Every entry of the choice queue holds the size of the set under its key.
pub proof fn lemma_choice_sizes(state: Sudoku, choice: Choice)
    requires
        state.well_formed(),
        state@.choices.contains(choice),
    ensures
        match choice.key {
            CollectionKey::Candidates(cell) => state@.candidates.contains_key(cell)
                && choice.possibilities == state@.candidates[cell].len(),
            CollectionKey::Values(key) => state@.values.contains_key(key) && choice.possibilities
                == state@.values[key].len(),
        },
{
}

} // verus!
