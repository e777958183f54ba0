//! The value store: for each digit and region, the empty cells of the region
//! that can still take the digit.

pub mod traits;
pub mod value_key;

use crate::board::{
    digit_allowed, is_grid, lemma_allowed_after_clear, lemma_allowed_after_fill, BoardView,
};
use crate::candidates::{
    digit_at, lemma_from_digit, lemma_take_all, lemma_take_next, lemma_take_none, CandidateSet,
};
use crate::indices::{
    box_at, col_at, lemma_box_cell, lemma_col_cell, lemma_region_members, lemma_row_cell, row_at,
    row_cell, col_cell, box_cell, box_position, col_of, row_of, CELLS,
};
use crate::persistent::members;
use crate::candidates::traits::CandidatesRead;
use crate::values::traits::{ValueBase, Values};
use crate::values::value_key::{SetType, ValueKey};
use vstd::prelude::*;

verus! {

/// The locations under a key, none where the key has no entry.
pub open spec fn locations(values: Map<ValueKey, Set<usize>>, key: ValueKey) -> Set<usize> {
    if values.contains_key(key) {
        values[key]
    } else {
        Set::empty()
    }
}

/// The store with one more location under a key.
pub open spec fn with_location(
    values: Map<ValueKey, Set<usize>>,
    key: ValueKey,
    cell_index: usize,
) -> Map<ValueKey, Set<usize>> {
    values.insert(key, locations(values, key).insert(cell_index))
}

/// The store without a location under a key, and without the key where that
/// was its last location.
pub open spec fn without_location(
    values: Map<ValueKey, Set<usize>>,
    key: ValueKey,
    cell_index: usize,
) -> Map<ValueKey, Set<usize>> {
    if values.contains_key(key) {
        if values[key].remove(cell_index).is_empty() {
            values.remove(key)
        } else {
            values.insert(key, values[key].remove(cell_index))
        }
    } else {
        values
    }
}

/// A location is in the store after an insertion if it was there or is the
/// one inserted.
pub open spec fn location_added(
    a: BoardView,
    b: BoardView,
    key: ValueKey,
    cell_index: usize,
    k: ValueKey,
    c: usize,
) -> bool {
    b.has_location(k, c) <==> a.has_location(k, c) || (k == key && c == cell_index)
}

/// A location is in the store after a removal if it was there and is not the
/// one removed.
pub open spec fn location_dropped(
    a: BoardView,
    b: BoardView,
    key: ValueKey,
    cell_index: usize,
    k: ValueKey,
    c: usize,
) -> bool {
    b.has_location(k, c) <==> a.has_location(k, c) && !(k == key && c == cell_index)
}

/// One more location under a key adds that location and no other, and keeps
/// the store tidy.
pub proof fn lemma_with_location(a: BoardView, b: BoardView, key: ValueKey, cell_index: usize)
    requires
        a.values_tidy(),
        key.valid(),
        b.values == with_location(a.values, key, cell_index),
    ensures
        b.values_tidy(),
        forall|k: ValueKey, c: usize| #[trigger] location_added(a, b, key, cell_index, k, c),
{
    assert(b.values[key].contains(cell_index));
    assert forall|k: ValueKey| #[trigger] b.values.contains_key(k) implies k.valid()
        && b.values[k].finite() && !b.values[k].is_empty() by {
        if k != key {
            assert(a.values.contains_key(k));
        }
    }
}

/// One location less under a key takes that location out and no other, and
/// keeps the store tidy.
pub proof fn lemma_without_location(a: BoardView, b: BoardView, key: ValueKey, cell_index: usize)
    requires
        a.values_tidy(),
        b.values == without_location(a.values, key, cell_index),
    ensures
        b.values_tidy(),
        forall|k: ValueKey, c: usize| #[trigger] location_dropped(a, b, key, cell_index, k, c),
{
    assert forall|k: ValueKey| #[trigger] b.values.contains_key(k) implies k.valid()
        && b.values[k].finite() && !b.values[k].is_empty() by {
        assert(a.values.contains_key(k));
    }
    assert forall|k: ValueKey, c: usize| #[trigger]
        location_dropped(a, b, key, cell_index, k, c) by {
        if a.values.contains_key(key) && k == key {
            let left = a.values[key].remove(cell_index);
            if left.is_empty() {
                assert(!left.contains(c));
            }
        }
    }
}

/// The three keys of a digit at a cell: its row, its column and its box.
pub fn rcb_value_key(cell_index: usize, value: u8) -> (r: [ValueKey; 3])
    ensures
        r@[0] == (ValueKey { value, set_type: SetType::Row, set_index: row_of(cell_index) as usize }),
        r@[1] == (ValueKey { value, set_type: SetType::Col, set_index: col_of(cell_index) as usize }),
        r@[2] == (ValueKey { value, set_type: SetType::Box, set_index: box_of_cell(cell_index) }),
{
    [
        ValueKey { value, set_type: SetType::Row, set_index: crate::indices::row_index(cell_index) },
        ValueKey { value, set_type: SetType::Col, set_index: crate::indices::col_index(cell_index) },
        ValueKey { value, set_type: SetType::Box, set_index: crate::indices::box_index(cell_index) },
    ]
}

/// The box of a cell as an index.
pub open spec fn box_of_cell(cell_index: usize) -> usize {
    crate::indices::box_of(cell_index) as usize
}

/// The key of a digit in the region of a kind that a cell lies in.
pub open spec fn key_at(value: u8, set_type: SetType, cell_index: usize) -> ValueKey {
    ValueKey { value, set_type, set_index: set_type.region_of(cell_index) as usize }
}

/// A key of a digit covers a cell exactly when it is the key of the digit at
/// the cell for its kind of region.
pub proof fn lemma_key_at(k: ValueKey, cell_index: usize)
    requires
        cell_index < CELLS,
    ensures
        k.covers(cell_index) <==> k == key_at(k.value, k.set_type, cell_index),
        key_at(k.value, k.set_type, cell_index).set_index < 9,
{
    lemma_region_members(cell_index);
}

/// The nine cells of a region.
pub fn region_cells(set_type: SetType, set_index: usize) -> (r: [usize; 9])
    requires
        set_index < 9,
    ensures
        forall|c: usize| #[trigger]
            r@.to_set().contains(c) <==> (c < CELLS && set_type.region_of(c) == set_index),
{
    match set_type {
        SetType::Row => {
            let cells = row_at(set_index);
            proof {
                assert forall|c: usize| #[trigger]
                    cells@.to_set().contains(c) <==> (c < CELLS && set_type.region_of(c)
                        == set_index) by {
                    if cells@.contains(c) {
                        let k = choose|k: int| 0 <= k < cells@.len() && cells@[k] == c;
                        lemma_row_cell(set_index as int, k);
                        assert(c == row_cell(set_index as int, k));
                    }
                    if c < CELLS && row_of(c) == set_index {
                        lemma_region_members(c);
                        assert(cells@[col_of(c)] == c);
                        assert(cells@.contains(c));
                    }
                }
            }
            cells
        },
        SetType::Col => {
            let cells = col_at(set_index);
            proof {
                assert forall|c: usize| #[trigger]
                    cells@.to_set().contains(c) <==> (c < CELLS && set_type.region_of(c)
                        == set_index) by {
                    if cells@.contains(c) {
                        let k = choose|k: int| 0 <= k < cells@.len() && cells@[k] == c;
                        lemma_col_cell(set_index as int, k);
                        assert(c == col_cell(set_index as int, k));
                    }
                    if c < CELLS && col_of(c) == set_index {
                        lemma_region_members(c);
                        assert(cells@[row_of(c)] == c);
                        assert(cells@.contains(c));
                    }
                }
            }
            cells
        },
        SetType::Box => {
            let cells = box_at(set_index);
            proof {
                assert forall|c: usize| #[trigger]
                    cells@.to_set().contains(c) <==> (c < CELLS && set_type.region_of(c)
                        == set_index) by {
                    if cells@.contains(c) {
                        let k = choose|k: int| 0 <= k < cells@.len() && cells@[k] == c;
                        lemma_box_cell(set_index as int, k);
                        assert(c == box_cell(set_index as int, k));
                    }
                    if c < CELLS && crate::indices::box_of(c) == set_index {
                        lemma_region_members(c);
                        assert(cells@[box_position(c)] == c);
                        assert(cells@.contains(c));
                    }
                }
            }
            cells
        },
    }
}

/// The two kinds of region other than a given one.
pub fn associated_sets(set_type: SetType) -> (r: [SetType; 2])
    ensures
        r@[0] != set_type,
        r@[1] != set_type,
        r@[0] != r@[1],
{
    match set_type {
        SetType::Row => [SetType::Col, SetType::Box],
        SetType::Col => [SetType::Row, SetType::Box],
        SetType::Box => [SetType::Row, SetType::Col],
    }
}

/// The key of a digit in the region of a kind that a cell lies in.
pub fn associated_key(value: u8, set_type: SetType, cell_index: usize) -> (r: ValueKey)
    ensures
        r == key_at(value, set_type, cell_index),
{
    ValueKey { value, set_type, set_index: set_type.region_index(cell_index) }
}

/// Takes a cell out of the locations of a key, and the key out of the store
/// where that was its last location.
pub fn discard_location<T: ValueBase>(context: &mut T, key: &ValueKey, index: usize)
    requires
        old(context).structural(),
        old(context).board().values_tidy(),
        key.valid(),
    ensures
        final(context).structural(),
        final(context).board().values_tidy(),
        final(context).board().cells == old(context).board().cells,
        final(context).board().remaining == old(context).board().remaining,
        final(context).board().candidates == old(context).board().candidates,
        final(context).board().values == without_location(old(context).board().values, *key, index),
        forall|k: ValueKey, c: usize| #[trigger]
            location_dropped(old(context).board(), final(context).board(), *key, index, k, c),
{
    let ghost before = context.board();
    match context.remove_from(key, index) {
        Some(remaining) => {
            proof {
                let left = before.values[*key].remove(index);
                if remaining == 0 {
                    left.lemma_len0_is_empty();
                }
            }
            if remaining == 0 {
                context.remove(key);
                proof {
                    assert(context.board().values =~= before.values.remove(*key));
                }
            }
        },
        None => {},
    }
    proof {
        lemma_without_location(before, context.board(), *key, index);
    }
}

/// Adds a cell to the locations of a key.
pub fn record_location<T: ValueBase>(context: &mut T, key: ValueKey, index: usize)
    requires
        old(context).structural(),
        old(context).board().values_tidy(),
        key.valid(),
    ensures
        final(context).structural(),
        final(context).board().values_tidy(),
        final(context).board().cells == old(context).board().cells,
        final(context).board().remaining == old(context).board().remaining,
        final(context).board().candidates == old(context).board().candidates,
        final(context).board().values == with_location(old(context).board().values, key, index),
        forall|k: ValueKey, c: usize| #[trigger]
            location_added(old(context).board(), final(context).board(), key, index, k, c),
{
    let ghost before = context.board();
    proof {
        context.lemma_structure();
    }
    context.insert_into(key, index);
    proof {
        lemma_with_location(before, context.board(), key, index);
    }
}

/// The locations while the entries of a key and its digit are taken out: the
/// key is gone, and so is the digit at the cells in `done`.
pub open spec fn location_during_removal(
    a: BoardView,
    b: BoardView,
    key: ValueKey,
    done: Set<usize>,
    k: ValueKey,
    c: usize,
) -> bool {
    b.has_location(k, c) <==> a.has_location(k, c) && k != key && !(k.value == key.value
        && done.contains(c))
}

/// The locations after the entries of a key and its digit were taken out: the
/// digit is gone from all keys at every cell that the key held.
pub open spec fn location_after_removal(
    a: BoardView,
    b: BoardView,
    key: ValueKey,
    k: ValueKey,
    c: usize,
) -> bool {
    b.has_location(k, c) <==> a.has_location(k, c) && !(k.value == key.value && a.has_location(
        key,
        c,
    ))
}

/// The locations while a digit comes back to the cells in `done`: each of
/// them that holds the digit as a candidate is under the three keys of the
/// digit at the cell.
pub open spec fn location_during_insertion(
    a: BoardView,
    b: BoardView,
    value: u8,
    done: Set<usize>,
    k: ValueKey,
    c: usize,
) -> bool {
    b.has_location(k, c) <==> a.has_location(k, c) || (k.value == value && done.contains(c)
        && k.covers(c) && a.has_candidate(c, value))
}

/// The locations after a digit came back to the region of a key.
pub open spec fn location_after_insertion(
    a: BoardView,
    b: BoardView,
    key: ValueKey,
    k: ValueKey,
    c: usize,
) -> bool {
    b.has_location(k, c) <==> a.has_location(k, c) || (k.value == key.value && key.covers(c)
        && k.covers(c) && a.has_candidate(c, key.value))
}

/// The locations while the digits in `digits` of one cell go under the keys
/// of the cell.
pub open spec fn location_with_cell(
    a: BoardView,
    b: BoardView,
    index: usize,
    digits: Set<u8>,
    k: ValueKey,
    c: usize,
) -> bool {
    b.has_location(k, c) <==> a.has_location(k, c) || (c == index && k.covers(index)
        && digits.contains(k.value))
}

/// The locations while the digits in `digits` of one cell leave the keys of
/// the cell.
pub open spec fn location_without_cell(
    a: BoardView,
    b: BoardView,
    index: usize,
    digits: Set<u8>,
    k: ValueKey,
    c: usize,
) -> bool {
    b.has_location(k, c) <==> a.has_location(k, c) && !(c == index && k.covers(index)
        && digits.contains(k.value))
}

/// The locations while the cells in `done` of one region go under the keys
/// of the region, each under the digits it holds as candidates.
pub open spec fn location_populated(
    a: BoardView,
    b: BoardView,
    set_type: SetType,
    set_index: usize,
    done: Set<usize>,
    k: ValueKey,
    c: usize,
) -> bool {
    b.has_location(k, c) <==> a.has_location(k, c) || (k.set_type == set_type && k.set_index
        == set_index && done.contains(c) && a.has_candidate(c, k.value))
}

/// The locations while the digits in `digits` of one cell go under the keys
/// of one region.
pub open spec fn location_with_digits(
    a: BoardView,
    b: BoardView,
    set_type: SetType,
    set_index: usize,
    index: usize,
    digits: Set<u8>,
    k: ValueKey,
    c: usize,
) -> bool {
    b.has_location(k, c) <==> a.has_location(k, c) || (k.set_type == set_type && k.set_index
        == set_index && c == index && digits.contains(k.value))
}

/// Records each cell of a region under each digit that the cell holds as a
/// candidate.
pub fn populate<T: ValueBase>(context: &mut T, set_type: SetType, set_index: usize)
    requires
        old(context).structural(),
        old(context).board().values_tidy(),
        set_index < 9,
    ensures
        final(context).structural(),
        final(context).board().values_tidy(),
        final(context).board().cells == old(context).board().cells,
        final(context).board().remaining == old(context).board().remaining,
        final(context).board().candidates == old(context).board().candidates,
        forall|k: ValueKey, c: usize| #[trigger]
            final(context).board().has_location(k, c) <==> old(context).board().has_location(k, c) || (
            k.set_type == set_type && k.set_index == set_index && k.covers(c)
                && old(context).board().has_candidate(c, k.value)),
{
    let ghost before = context.board();
    let set_indices = region_cells(set_type, set_index);
    let mut j: usize = 0;
    proof {
        lemma_take_none(set_indices@);
        assert forall|k: ValueKey, c: usize| #[trigger]
            location_populated(
                before,
                context.board(),
                set_type,
                set_index,
                set_indices@.take(0).to_set(),
                k,
                c,
            ) by {}
    }
    while j < 9
        invariant
            j <= 9,
            set_index < 9,
            set_indices@.len() == 9,
            context.structural(),
            context.board().values_tidy(),
            context.board().cells == before.cells,
            context.board().remaining == before.remaining,
            context.board().candidates == before.candidates,
            forall|c: usize| #[trigger]
                set_indices@.to_set().contains(c) <==> (c < CELLS && set_type.region_of(c)
                    == set_index),
            forall|k: ValueKey, c: usize| #[trigger]
                location_populated(
                    before,
                    context.board(),
                    set_type,
                    set_index,
                    set_indices@.take(j as int).to_set(),
                    k,
                    c,
                ),
        decreases 9 - j,
    {
        let index = set_indices[j];
        let ghost prefix = set_indices@.take(j as int).to_set();
        let ghost longer = set_indices@.take(j as int + 1).to_set();
        let ghost earlier = context.board();
        proof {
            lemma_take_next(set_indices@, j as int);
            assert(set_indices@.contains(index));
            assert(set_indices@.to_set().contains(index));
        }
        match CandidatesRead::get(context, index) {
            Some(candidate_set) => {
                let items = candidate_set.iter();
                let ghost ordered = candidate_set.ordered();
                let mut t: usize = 0;
                proof {
                    candidate_set.lemma_view();
                    lemma_take_none(ordered);
                    assert forall|k: ValueKey, c: usize| #[trigger]
                        location_with_digits(
                            earlier,
                            context.board(),
                            set_type,
                            set_index,
                            index,
                            ordered.take(0).to_set(),
                            k,
                            c,
                        ) by {}
                }
                while t < items.len()
                    invariant
                        t <= items@.len(),
                        set_index < 9,
                        index < CELLS,
                        items@.len() == ordered.len(),
                        forall|k: int|
                            0 <= k < items@.len() ==> (#[trigger] items@[k])@
                                == set![ordered[k]],
                        forall|k: int| 0 <= k < items@.len() ==> 1 <= #[trigger] ordered[k] <= 9,
                        context.structural(),
                        context.board().values_tidy(),
                        context.board().cells == before.cells,
                        context.board().remaining == before.remaining,
                        context.board().candidates == before.candidates,
                        forall|k: ValueKey, c: usize| #[trigger]
                            location_with_digits(
                                earlier,
                                context.board(),
                                set_type,
                                set_index,
                                index,
                                ordered.take(t as int).to_set(),
                                k,
                                c,
                            ),
                    decreases items@.len() - t,
                {
                    let value = digit_at(&items, t, Ghost(ordered));
                    let ghost fewer = ordered.take(t as int).to_set();
                    let ghost more = ordered.take(t as int + 1).to_set();
                    let ghost middle = context.board();
                    proof {
                        lemma_take_next(ordered, t as int);
                    }
                    let key = ValueKey { value, set_type, set_index };
                    record_location(context, key, index);
                    proof {
                        assert forall|k: ValueKey, c: usize| #[trigger]
                            location_with_digits(
                                earlier,
                                context.board(),
                                set_type,
                                set_index,
                                index,
                                more,
                                k,
                                c,
                            ) by {
                            assert(location_with_digits(
                                earlier,
                                middle,
                                set_type,
                                set_index,
                                index,
                                fewer,
                                k,
                                c,
                            ));
                            assert(location_added(middle, context.board(), key, index, k, c));
                        }
                    }
                    t += 1;
                }
                proof {
                    lemma_take_all(ordered);
                    assert forall|k: ValueKey, c: usize| #[trigger]
                        location_populated(
                            before,
                            context.board(),
                            set_type,
                            set_index,
                            longer,
                            k,
                            c,
                        ) by {
                        assert(location_populated(
                            before,
                            earlier,
                            set_type,
                            set_index,
                            prefix,
                            k,
                            c,
                        ));
                        assert(location_with_digits(
                            earlier,
                            context.board(),
                            set_type,
                            set_index,
                            index,
                            ordered.to_set(),
                            k,
                            c,
                        ));
                    }
                }
            },
            None => {
                proof {
                    assert forall|k: ValueKey, c: usize| #[trigger]
                        location_populated(
                            before,
                            context.board(),
                            set_type,
                            set_index,
                            longer,
                            k,
                            c,
                        ) by {
                        assert(location_populated(
                            before,
                            earlier,
                            set_type,
                            set_index,
                            prefix,
                            k,
                            c,
                        ));
                    }
                }
            },
        }
        j += 1;
    }
    proof {
        lemma_take_all(set_indices@);
        assert forall|k: ValueKey, c: usize| #[trigger]
            context.board().has_location(k, c) <==> before.has_location(k, c) || (k.set_type == set_type
                && k.set_index == set_index && k.covers(c) && before.has_candidate(
                c,
                k.value,
            )) by {
            assert(location_populated(
                before,
                context.board(),
                set_type,
                set_index,
                set_indices@.to_set(),
                k,
                c,
            ));
            assert(set_indices@.to_set().contains(c) <==> (c < CELLS && set_type.region_of(c)
                == set_index));
        }
    }
}

/// Brings a digit back to the region of a key: each cell of the region that
/// holds the digit as a candidate goes under the three keys of the digit at
/// the cell.
pub fn insert_for<T: ValueBase>(context: &mut T, key: ValueKey)
    requires
        old(context).structural(),
        old(context).board().values_tidy(),
        key.valid(),
    ensures
        final(context).structural(),
        final(context).board().values_tidy(),
        final(context).board().cells == old(context).board().cells,
        final(context).board().remaining == old(context).board().remaining,
        final(context).board().candidates == old(context).board().candidates,
        forall|k: ValueKey, c: usize| #[trigger]
            location_after_insertion(old(context).board(), final(context).board(), key, k, c),
{
    let ghost before = context.board();
    let affected = region_cells(key.set_type, key.set_index);
    let associated = associated_sets(key.set_type);
    let mut j: usize = 0;
    proof {
        lemma_take_none(affected@);
        assert forall|k: ValueKey, c: usize| #[trigger]
            location_during_insertion(
                before,
                context.board(),
                key.value,
                affected@.take(0).to_set(),
                k,
                c,
            ) by {}
    }
    while j < 9
        invariant
            j <= 9,
            key.valid(),
            affected@.len() == 9,
            associated@[0] != key.set_type,
            associated@[1] != key.set_type,
            associated@[0] != associated@[1],
            context.structural(),
            context.board().values_tidy(),
            context.board().cells == before.cells,
            context.board().remaining == before.remaining,
            context.board().candidates == before.candidates,
            forall|c: usize| #[trigger]
                affected@.to_set().contains(c) <==> (c < CELLS && key.set_type.region_of(c)
                    == key.set_index),
            forall|k: ValueKey, c: usize| #[trigger]
                location_during_insertion(
                    before,
                    context.board(),
                    key.value,
                    affected@.take(j as int).to_set(),
                    k,
                    c,
                ),
        decreases 9 - j,
    {
        let index = affected[j];
        let ghost prefix = affected@.take(j as int).to_set();
        let ghost longer = affected@.take(j as int + 1).to_set();
        let ghost earlier = context.board();
        proof {
            lemma_take_next(affected@, j as int);
            assert(affected@.contains(index));
            assert(affected@.to_set().contains(index));
            lemma_region_members(index);
            lemma_from_digit(key.value);
        }
        let holds = match CandidatesRead::get(context, index) {
            Some(candidate_set) => candidate_set.contains(CandidateSet::from(key.value)),
            None => false,
        };
        proof {
            assert(holds == before.has_candidate(index, key.value)) by {
                if before.candidates.contains_key(index) {
                    let digits = before.candidates[index];
                    assert(set![key.value].subset_of(digits) <==> digits.contains(key.value)) by {
                        assert(set![key.value].contains(key.value));
                    }
                }
            }
        }
        if holds {
            let first = associated_key(key.value, associated[0], index);
            let second = associated_key(key.value, associated[1], index);
            record_location(context, key, index);
            let ghost one = context.board();
            record_location(context, first, index);
            let ghost two = context.board();
            record_location(context, second, index);
            proof {
                assert forall|k: ValueKey, c: usize| #[trigger]
                    location_during_insertion(before, context.board(), key.value, longer, k, c) by {
                    assert(location_during_insertion(before, earlier, key.value, prefix, k, c));
                    assert(location_added(earlier, one, key, index, k, c));
                    assert(location_added(one, two, first, index, k, c));
                    assert(location_added(two, context.board(), second, index, k, c));
                    lemma_key_at(k, index);
                    lemma_key_at(key, index);
                }
            }
        } else {
            proof {
                assert forall|k: ValueKey, c: usize| #[trigger]
                    location_during_insertion(before, context.board(), key.value, longer, k, c) by {
                    assert(location_during_insertion(before, earlier, key.value, prefix, k, c));
                }
            }
        }
        j += 1;
    }
    proof {
        lemma_take_all(affected@);
        assert forall|k: ValueKey, c: usize| #[trigger]
            location_after_insertion(before, context.board(), key, k, c) by {
            assert(location_during_insertion(
                before,
                context.board(),
                key.value,
                affected@.to_set(),
                k,
                c,
            ));
            assert(affected@.to_set().contains(c) <==> (c < CELLS && key.set_type.region_of(c)
                == key.set_index));
        }
    }
}

/// Takes a digit out of the region of a key: the key leaves the store, and
/// each cell that it held leaves the other two keys of the digit at the cell.
pub fn remove_for<T: ValueBase>(context: &mut T, key: ValueKey)
    requires
        old(context).structural(),
        old(context).board().values_tidy(),
        old(context).board().values_regional(),
        key.valid(),
    ensures
        final(context).structural(),
        final(context).board().values_tidy(),
        final(context).board().cells == old(context).board().cells,
        final(context).board().remaining == old(context).board().remaining,
        final(context).board().candidates == old(context).board().candidates,
        forall|k: ValueKey, c: usize| #[trigger]
            location_after_removal(old(context).board(), final(context).board(), key, k, c),
{
    let ghost before = context.board();
    // The key goes first, with all of its locations.
    let location_set = match context.remove(&key) {
        Some(set) => set,
        None => {
            proof {
                assert forall|k: ValueKey, c: usize| #[trigger]
                    location_after_removal(before, context.board(), key, k, c) by {}
            }
            return ;
        },
    };

    // Each of those locations then leaves the keys of the digit in the other
    // two kinds of region.
    let associated = associated_sets(key.set_type);
    let locations = members(&location_set);
    let mut j: usize = 0;
    proof {
        lemma_take_none(locations@);
        assert forall|k: ValueKey, c: usize| #[trigger]
            location_during_removal(
                before,
                context.board(),
                key,
                locations@.take(0).to_set(),
                k,
                c,
            ) by {}
        assert forall|k: ValueKey| #[trigger] context.board().values.contains_key(k) implies k.valid()
            && context.board().values[k].finite() && !context.board().values[k].is_empty() by {
            assert(before.values.contains_key(k));
        }
    }
    while j < locations.len()
        invariant
            j <= locations@.len(),
            key.valid(),
            associated@[0] != key.set_type,
            associated@[1] != key.set_type,
            associated@[0] != associated@[1],
            before.values_regional(),
            before.values.contains_key(key),
            locations@.to_set() == before.values[key],
            context.structural(),
            context.board().values_tidy(),
            context.board().cells == before.cells,
            context.board().remaining == before.remaining,
            context.board().candidates == before.candidates,
            forall|k: ValueKey, c: usize| #[trigger]
                location_during_removal(
                    before,
                    context.board(),
                    key,
                    locations@.take(j as int).to_set(),
                    k,
                    c,
                ),
        decreases locations@.len() - j,
    {
        let cell_index = locations[j];
        let ghost prefix = locations@.take(j as int).to_set();
        let ghost longer = locations@.take(j as int + 1).to_set();
        let ghost earlier = context.board();
        proof {
            lemma_take_next(locations@, j as int);
            assert(locations@.contains(cell_index));
            assert(locations@.to_set().contains(cell_index));
            assert(before.has_location(key, cell_index));
            assert(key.covers(cell_index));
            lemma_region_members(cell_index);
        }
        let first = associated_key(key.value, associated[0], cell_index);
        let second = associated_key(key.value, associated[1], cell_index);
        discard_location(context, &first, cell_index);
        let ghost one = context.board();
        discard_location(context, &second, cell_index);
        proof {
            assert forall|k: ValueKey, c: usize| #[trigger]
                location_during_removal(before, context.board(), key, longer, k, c) by {
                assert(location_during_removal(before, earlier, key, prefix, k, c));
                assert(location_dropped(earlier, one, first, cell_index, k, c));
                assert(location_dropped(one, context.board(), second, cell_index, k, c));
                if before.has_location(k, c) && c == cell_index {
                    assert(k.covers(c));
                    lemma_key_at(k, cell_index);
                    lemma_key_at(key, cell_index);
                }
            }
        }
        j += 1;
    }
    proof {
        lemma_take_all(locations@);
        assert forall|k: ValueKey, c: usize| #[trigger]
            location_after_removal(before, context.board(), key, k, c) by {
            assert(location_during_removal(before, context.board(), key, locations@.to_set(), k, c));
        }
    }
}

/// Records a cell under the three keys of each digit that it holds as a
/// candidate.
pub fn insert_all<T: ValueBase>(context: &mut T, index: usize)
    requires
        old(context).structural(),
        old(context).board().values_tidy(),
        index < CELLS,
    ensures
        final(context).structural(),
        final(context).board().values_tidy(),
        final(context).board().cells == old(context).board().cells,
        final(context).board().remaining == old(context).board().remaining,
        final(context).board().candidates == old(context).board().candidates,
        forall|k: ValueKey, c: usize| #[trigger]
            final(context).board().has_location(k, c) <==> old(context).board().has_location(k, c) || (c
                == index && k.covers(index) && old(context).board().has_candidate(index, k.value)),
{
    let ghost before = context.board();
    let candidate_set = match CandidatesRead::get(context, index) {
        Some(set) => set,
        None => {
            return ;
        },
    };
    let items = candidate_set.iter();
    let ghost ordered = candidate_set.ordered();
    let mut t: usize = 0;
    proof {
        candidate_set.lemma_view();
        lemma_take_none(ordered);
        lemma_region_members(index);
        assert forall|k: ValueKey, c: usize| #[trigger]
            location_with_cell(before, context.board(), index, ordered.take(0).to_set(), k, c) by {}
    }
    while t < items.len()
        invariant
            t <= items@.len(),
            index < CELLS,
            items@.len() == ordered.len(),
            forall|k: int| 0 <= k < items@.len() ==> (#[trigger] items@[k])@ == set![ordered[k]],
            forall|k: int| 0 <= k < items@.len() ==> 1 <= #[trigger] ordered[k] <= 9,
            context.structural(),
            context.board().values_tidy(),
            context.board().cells == before.cells,
            context.board().remaining == before.remaining,
            context.board().candidates == before.candidates,
            forall|k: ValueKey, c: usize| #[trigger]
                location_with_cell(
                    before,
                    context.board(),
                    index,
                    ordered.take(t as int).to_set(),
                    k,
                    c,
                ),
        decreases items@.len() - t,
    {
        let value = digit_at(&items, t, Ghost(ordered));
        let ghost fewer = ordered.take(t as int).to_set();
        let ghost more = ordered.take(t as int + 1).to_set();
        let ghost earlier = context.board();
        proof {
            lemma_take_next(ordered, t as int);
            lemma_region_members(index);
        }
        let keys = rcb_value_key(index, value);
        record_location(context, keys[0], index);
        let ghost one = context.board();
        record_location(context, keys[1], index);
        let ghost two = context.board();
        record_location(context, keys[2], index);
        proof {
            assert forall|k: ValueKey, c: usize| #[trigger]
                location_with_cell(before, context.board(), index, more, k, c) by {
                assert(location_with_cell(before, earlier, index, fewer, k, c));
                assert(location_added(earlier, one, keys@[0], index, k, c));
                assert(location_added(one, two, keys@[1], index, k, c));
                assert(location_added(two, context.board(), keys@[2], index, k, c));
                lemma_key_at(k, index);
            }
        }
        t += 1;
    }
    proof {
        lemma_take_all(ordered);
        assert forall|k: ValueKey, c: usize| #[trigger]
            context.board().has_location(k, c) <==> before.has_location(k, c) || (c == index && k.covers(
                index,
            ) && before.has_candidate(index, k.value)) by {
            assert(location_with_cell(before, context.board(), index, ordered.to_set(), k, c));
        }
    }
}

/// Takes a cell out of the three keys of each digit that it holds as a
/// candidate.
pub fn remove_all<T: ValueBase>(context: &mut T, index: usize)
    requires
        old(context).structural(),
        old(context).board().values_tidy(),
        index < CELLS,
    ensures
        final(context).structural(),
        final(context).board().values_tidy(),
        final(context).board().cells == old(context).board().cells,
        final(context).board().remaining == old(context).board().remaining,
        final(context).board().candidates == old(context).board().candidates,
        forall|k: ValueKey, c: usize| #[trigger]
            final(context).board().has_location(k, c) <==> old(context).board().has_location(k, c) && !(c
                == index && k.covers(index) && old(context).board().has_candidate(index, k.value)),
{
    let ghost before = context.board();
    let candidate_set = match CandidatesRead::get(context, index) {
        Some(set) => set,
        None => {
            return ;
        },
    };
    let items = candidate_set.iter();
    let ghost ordered = candidate_set.ordered();
    let mut t: usize = 0;
    proof {
        candidate_set.lemma_view();
        lemma_take_none(ordered);
        lemma_region_members(index);
        assert forall|k: ValueKey, c: usize| #[trigger]
            location_without_cell(before, context.board(), index, ordered.take(0).to_set(), k, c) by {}
    }
    while t < items.len()
        invariant
            t <= items@.len(),
            index < CELLS,
            items@.len() == ordered.len(),
            forall|k: int| 0 <= k < items@.len() ==> (#[trigger] items@[k])@ == set![ordered[k]],
            forall|k: int| 0 <= k < items@.len() ==> 1 <= #[trigger] ordered[k] <= 9,
            context.structural(),
            context.board().values_tidy(),
            context.board().cells == before.cells,
            context.board().remaining == before.remaining,
            context.board().candidates == before.candidates,
            forall|k: ValueKey, c: usize| #[trigger]
                location_without_cell(
                    before,
                    context.board(),
                    index,
                    ordered.take(t as int).to_set(),
                    k,
                    c,
                ),
        decreases items@.len() - t,
    {
        let value = digit_at(&items, t, Ghost(ordered));
        let ghost fewer = ordered.take(t as int).to_set();
        let ghost more = ordered.take(t as int + 1).to_set();
        let ghost earlier = context.board();
        proof {
            lemma_take_next(ordered, t as int);
            lemma_region_members(index);
        }
        let keys = rcb_value_key(index, value);
        discard_location(context, &keys[0], index);
        let ghost one = context.board();
        discard_location(context, &keys[1], index);
        let ghost two = context.board();
        discard_location(context, &keys[2], index);
        proof {
            assert forall|k: ValueKey, c: usize| #[trigger]
                location_without_cell(before, context.board(), index, more, k, c) by {
                assert(location_without_cell(before, earlier, index, fewer, k, c));
                assert(location_dropped(earlier, one, keys@[0], index, k, c));
                assert(location_dropped(one, two, keys@[1], index, k, c));
                assert(location_dropped(two, context.board(), keys@[2], index, k, c));
                lemma_key_at(k, index);
            }
        }
        t += 1;
    }
    proof {
        lemma_take_all(ordered);
        assert forall|k: ValueKey, c: usize| #[trigger]
            context.board().has_location(k, c) <==> before.has_location(k, c) && !(c == index
                && k.covers(index) && before.has_candidate(index, k.value)) by {
            assert(location_without_cell(before, context.board(), index, ordered.to_set(), k, c));
        }
    }
}

/// The locations while the regions below `done` are recorded.
pub open spec fn location_initialized(
    a: BoardView,
    b: BoardView,
    done: int,
    k: ValueKey,
    c: usize,
) -> bool {
    b.has_location(k, c) <==> a.has_location(k, c) || (k.set_index < done && k.covers(c)
        && a.has_candidate(c, k.value))
}

impl<T> Values for T where T: ValueBase {
    fn init_values(&mut self) {
        let ghost before = self.board();
        let mut i: usize = 0;
        proof {
            assert forall|k: ValueKey, c: usize| #[trigger]
                location_initialized(before, self.board(), 0, k, c) by {}
        }
        while i < 9
            invariant
                i <= 9,
                self.structural(),
                self.board().values_tidy(),
                self.board().cells == before.cells,
                self.board().remaining == before.remaining,
                self.board().candidates == before.candidates,
                forall|k: ValueKey, c: usize| #[trigger]
                    location_initialized(before, self.board(), i as int, k, c),
            decreases 9 - i,
        {
            let ghost earlier = self.board();
            populate(self, SetType::Row, i);
            let ghost one = self.board();
            populate(self, SetType::Col, i);
            let ghost two = self.board();
            populate(self, SetType::Box, i);
            proof {
                assert forall|k: ValueKey, c: usize| #[trigger]
                    location_initialized(before, self.board(), i as int + 1, k, c) by {
                    assert(location_initialized(before, earlier, i as int, k, c));
                    assert(one.has_location(k, c) <==> earlier.has_location(k, c) || (k.set_type
                        == SetType::Row && k.set_index == i && k.covers(c)
                        && earlier.has_candidate(c, k.value)));
                    assert(two.has_location(k, c) <==> one.has_location(k, c) || (k.set_type
                        == SetType::Col && k.set_index == i && k.covers(c) && one.has_candidate(
                        c,
                        k.value,
                    )));
                    assert(self.board().has_location(k, c) <==> two.has_location(k, c) || (k.set_type
                        == SetType::Box && k.set_index == i && k.covers(c) && two.has_candidate(
                        c,
                        k.value,
                    )));
                }
            }
            i += 1;
        }
        proof {
            assert forall|k: ValueKey, c: usize| #[trigger]
                self.board().has_location(k, c) <==> before.has_location(k, c) || (k.covers(c)
                    && before.has_candidate(c, k.value)) by {
                assert(location_initialized(before, self.board(), 9, k, c));
                if k.covers(c) {
                    lemma_region_members(c);
                }
            }
        }
    }

    fn update_values(&mut self, index: usize, new_value: u8, old_value: u8) {
        let ghost before = self.board();
        let ghost past = before.with_cells(before.cells.update(index as int, old_value));
        proof {
            lemma_region_members(index);
            assert(past.values == before.values);
            assert(past.values_tidy());
            assert(before.values_tidy());
            assert forall|k: ValueKey, c: usize| #[trigger] before.has_location(k, c) implies k.covers(
                c,
            ) by {
                assert(past.has_location(k, c));
            }
        }
        if new_value == 0 {
            // Each candidate of the cell gets the cell as a location.
            insert_all(self, index);
            let ghost one = self.board();

            // The other cells of the row, the column and the box may take the
            // digit that left again, where their other regions allow it.
            let keys = rcb_value_key(index, old_value);
            insert_for(self, keys[0]);
            let ghost two = self.board();
            insert_for(self, keys[1]);
            let ghost three = self.board();
            insert_for(self, keys[2]);
            proof {
                assert forall|k: ValueKey, c: usize|
                    k.valid() implies (#[trigger] self.board().has_location(k, c) <==> k.covers(c)
                    && self.board().cells[c as int] == 0 && digit_allowed(self.board().cells, c, k.value)) by {
                    assert(one.has_location(k, c) <==> before.has_location(k, c) || (c == index
                        && k.covers(index) && before.has_candidate(index, k.value)));
                    assert(location_after_insertion(one, two, keys@[0], k, c));
                    assert(location_after_insertion(two, three, keys@[1], k, c));
                    assert(location_after_insertion(three, self.board(), keys@[2], k, c));
                    assert(past.has_location(k, c) == before.has_location(k, c));
                    if c < CELLS {
                        lemma_region_members(c);
                        lemma_allowed_after_clear(past.cells, index, c, k.value);
                        assert(before.cells =~= past.cells.update(index as int, 0));
                        if before.cells[c as int] == 0 {
                            assert(before.has_candidate(c, k.value) <==> digit_allowed(
                                before.cells,
                                c,
                                k.value,
                            ));
                            assert(before.has_candidate(c, old_value) <==> digit_allowed(
                                before.cells,
                                c,
                                old_value,
                            ));
                        } else {
                            assert(!before.candidates.contains_key(c));
                        }
                    }
                }
            }
        } else {
            // The digit leaves the row, the column and the box of the cell.
            let keys = rcb_value_key(index, new_value);
            remove_for(self, keys[0]);
            let ghost one = self.board();
            proof {
                assert forall|k: ValueKey, c: usize| #[trigger] one.has_location(k, c) implies k.covers(
                    c,
                ) by {
                    assert(location_after_removal(before, one, keys@[0], k, c));
                }
            }
            remove_for(self, keys[1]);
            let ghost two = self.board();
            proof {
                assert forall|k: ValueKey, c: usize| #[trigger] two.has_location(k, c) implies k.covers(
                    c,
                ) by {
                    assert(location_after_removal(one, two, keys@[1], k, c));
                }
            }
            remove_for(self, keys[2]);
            let ghost three = self.board();

            // What the cell itself could still take leaves the records of its
            // row, column and box. This comes last: the locations of the
            // digit were needed above to find the cells that lose it.
            remove_all(self, index);
            proof {
                assert forall|k: ValueKey, c: usize|
                    k.valid() implies (#[trigger] self.board().has_location(k, c) <==> k.covers(c)
                    && self.board().cells[c as int] == 0 && digit_allowed(self.board().cells, c, k.value)) by {
                    assert(location_after_removal(before, one, keys@[0], k, c));
                    assert(location_after_removal(one, two, keys@[1], k, c));
                    assert(location_after_removal(two, three, keys@[2], k, c));
                    assert(location_after_removal(before, one, keys@[0], keys@[1], c));
                    assert(location_after_removal(before, one, keys@[0], keys@[2], c));
                    assert(location_after_removal(one, two, keys@[1], keys@[2], c));
                    assert(self.board().has_location(k, c) <==> three.has_location(k, c) && !(c == index
                        && k.covers(index) && three.has_candidate(index, k.value)));
                    assert(past.has_location(k, c) == before.has_location(k, c));
                    assert(past.has_location(keys@[0], c) == before.has_location(keys@[0], c));
                    assert(past.has_location(keys@[1], c) == before.has_location(keys@[1], c));
                    assert(past.has_location(keys@[2], c) == before.has_location(keys@[2], c));
                    assert(before.cells =~= past.cells.update(index as int, new_value));
                    if c < CELLS {
                        lemma_region_members(c);
                        if c != index {
                            lemma_allowed_after_fill(past.cells, index, new_value, c, k.value);
                        } else {
                            assert(past.has_candidate(index, k.value) <==> digit_allowed(
                                past.cells,
                                index,
                                k.value,
                            ));
                        }
                    }
                }
            }
        }
    }
}

} // verus!
