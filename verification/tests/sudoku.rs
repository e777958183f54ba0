use std::collections::HashSet;
use waffle_iron::candidates::traits::{CandidatesModify, CandidatesRead};
use waffle_iron::candidates::CandidateSet;
use waffle_iron::indices::{box_index, col_index, rcb_containing, row_index};
use waffle_iron::persistent::members;
use waffle_iron::traits::SudokuState;
use waffle_iron::values::traits::{ValuesModify, ValuesRead};
use waffle_iron::values::value_key::{SetType, ValueKey};
use waffle_iron::Sudoku;

const EXAMPLE: &str =
    "530070000600195000098000060800060003400803001700020006060000280000419005000080079";
const SOLVED: &str =
    "534678912672195348198342567859761423426853791713924856961537284287419635345286179";

fn cells_of(text: &str) -> [u8; 81] {
    let mut cells = [0u8; 81];
    for (i, b) in text.bytes().enumerate() {
        cells[i] = b - b'0';
    }
    cells
}

fn allowed(cells: &[u8], cell: usize) -> Vec<u8> {
    let seen = rcb_containing(cell);
    (1..=9u8).filter(|d| seen.iter().all(|&j| cells[j] != *d)).collect()
}

fn digits_of(set: CandidateSet) -> Vec<u8> {
    set.iter().iter().map(|item| item.digit()).collect()
}

fn all_keys() -> Vec<ValueKey> {
    let mut keys = Vec::new();
    for value in 1..=9u8 {
        for set_type in [SetType::Row, SetType::Col, SetType::Box] {
            for set_index in 0..9usize {
                keys.push(ValueKey { value, set_type, set_index });
            }
        }
    }
    keys
}

fn covers(key: &ValueKey, cell: usize) -> bool {
    key.set_index
        == match key.set_type {
            SetType::Row => row_index(cell),
            SetType::Col => col_index(cell),
            SetType::Box => box_index(cell),
        }
}

// The three stores must fit the cells. `gaps` are the empty cells that may
// go without an entry because no digit is allowed there.
fn assert_consistent(state: &Sudoku) {
    let cells = state.iter();
    assert_eq!(cells.len(), 81);
    assert_eq!(state.remaining(), cells.iter().filter(|&&d| d == 0).count());
    let mut least: Option<usize> = None;
    for cell in 0..81usize {
        let entry = CandidatesRead::get(state, cell);
        if cells[cell] != 0 {
            assert!(entry.is_none());
            continue;
        }
        let expected = allowed(&cells, cell);
        match entry {
            Some(set) => {
                assert_eq!(digits_of(set), expected);
                for digit in digits_of(set) {
                    for &j in rcb_containing(cell).iter() {
                        assert_ne!(cells[j], digit);
                    }
                }
                least = Some(least.map_or(set.len(), |n| n.min(set.len())));
            }
            None => assert!(expected.is_empty()),
        }
    }
    for key in all_keys() {
        let expected: HashSet<usize> = (0..81usize)
            .filter(|&c| covers(&key, c) && cells[c] == 0 && allowed(&cells, c).contains(&key.value))
            .collect();
        match ValuesRead::get(state, &key) {
            Some(set) => {
                assert!(!set.is_empty());
                assert_eq!(*set, expected);
                least = Some(least.map_or(set.len(), |n| n.min(set.len())));
            }
            None => assert!(expected.is_empty()),
        }
    }
    // The moves come from a smallest set.
    let moves = state.next_choice();
    assert_eq!(moves.len(), least.unwrap_or(0));
    for &(cell, digit) in moves.iter() {
        assert_eq!(cells[cell], 0);
        assert!(allowed(&cells, cell).contains(&digit));
    }
}

#[test]
fn a_new_state_holds_the_grid() {
    let cells = cells_of(EXAMPLE);
    let state = Sudoku::new(&cells);
    assert_eq!(state.remaining(), 51);
    assert_eq!(state.iter(), cells.to_vec());
    assert_eq!(state.to_array(), cells);
    assert_eq!(SudokuState::get(&state, 0), Some(5));
    assert_eq!(SudokuState::get(&state, 2), Some(0));
    assert_eq!(SudokuState::get(&state, 80), Some(9));
    assert_eq!(SudokuState::get(&state, 81), None);
    assert_consistent(&state);
}

#[test]
fn candidates_of_a_new_state() {
    let state = Sudoku::new(&cells_of(EXAMPLE));
    assert!(CandidatesRead::get(&state, 0).is_none());
    assert_eq!(digits_of(CandidatesRead::get(&state, 2).unwrap()), vec![1, 2, 4]);
    assert_eq!(digits_of(CandidatesRead::get(&state, 40).unwrap()), vec![5]);
    // Row 4 holds 4, 8, 3 and 1: the digit 5 can go into each of its empty cells.
    let key = ValueKey { value: 5, set_type: SetType::Row, set_index: 4 };
    let expected: HashSet<usize> = [37, 38, 40, 42, 43].into_iter().collect();
    assert_eq!(ValuesRead::get(&state, &key), Some(&expected));
    // Column 4 has three empty cells, and the box of the first of them holds a 5.
    let key = ValueKey { value: 5, set_type: SetType::Col, set_index: 4 };
    let expected: HashSet<usize> = [40, 58].into_iter().collect();
    assert_eq!(ValuesRead::get(&state, &key), Some(&expected));
    let placed = ValueKey { value: 5, set_type: SetType::Row, set_index: 0 };
    assert!(ValuesRead::get(&state, &placed).is_none());
}

#[test]
fn an_empty_grid_has_all_candidates() {
    let state = Sudoku::new(&[0u8; 81]);
    assert_eq!(state.remaining(), 81);
    for cell in 0..81usize {
        assert_eq!(CandidatesRead::get(&state, cell), Some(CandidateSet::all()));
    }
    for key in all_keys() {
        assert_eq!(ValuesRead::get(&state, &key).unwrap().len(), 9);
    }
    // All sets have nine members: the first cell comes before every other key.
    let moves = state.next_choice();
    let expected: Vec<(usize, u8)> = (1..=9u8).map(|d| (0usize, d)).collect();
    assert_eq!(moves, expected);
    assert_consistent(&state);
}

#[test]
fn a_full_grid_has_no_entries() {
    let state = Sudoku::new(&cells_of(SOLVED));
    assert_eq!(state.remaining(), 0);
    for cell in 0..81usize {
        assert!(CandidatesRead::get(&state, cell).is_none());
    }
    for key in all_keys() {
        assert!(ValuesRead::get(&state, &key).is_none());
    }
    assert!(state.next_choice().is_empty());
}

#[test]
fn a_fill_takes_the_digit_from_the_neighbourhood() {
    let state = Sudoku::new(&cells_of(EXAMPLE));
    let filled = state.set(2, 4);
    assert_eq!(SudokuState::get(&filled, 2), Some(4));
    assert_eq!(filled.remaining(), 50);
    assert!(CandidatesRead::get(&filled, 2).is_none());
    assert_eq!(digits_of(CandidatesRead::get(&filled, 3).unwrap()), vec![2, 6]);
    assert_consistent(&filled);
    // The state that was written from is untouched.
    assert_eq!(SudokuState::get(&state, 2), Some(0));
    assert_eq!(state.remaining(), 51);
    assert_eq!(digits_of(CandidatesRead::get(&state, 2).unwrap()), vec![1, 2, 4]);
    assert_consistent(&state);
}

#[test]
fn a_clear_brings_the_digit_back() {
    let state = Sudoku::new(&cells_of(EXAMPLE));
    let filled = state.set(2, 4);
    let cleared = filled.set(2, 0);
    assert_eq!(cleared.iter(), state.iter());
    assert_eq!(cleared.remaining(), 51);
    for cell in 0..81usize {
        assert_eq!(CandidatesRead::get(&cleared, cell), CandidatesRead::get(&state, cell));
    }
    for key in all_keys() {
        assert_eq!(ValuesRead::get(&cleared, &key), ValuesRead::get(&state, &key));
    }
    assert_eq!(cleared.next_choice(), state.next_choice());
    assert_consistent(&cleared);
}

#[test]
fn clearing_a_given_digit_keeps_the_stores_fit() {
    let state = Sudoku::new(&cells_of(EXAMPLE));
    let cleared = state.set(0, 0);
    assert_eq!(SudokuState::get(&cleared, 0), Some(0));
    assert_eq!(cleared.remaining(), 52);
    assert!(CandidatesRead::get(&cleared, 0).unwrap().has(5));
    assert_consistent(&cleared);
    let solved = Sudoku::new(&cells_of(SOLVED));
    let one = solved.set(40, 0);
    assert_eq!(digits_of(CandidatesRead::get(&one, 40).unwrap()), vec![5]);
    assert_eq!(one.next_choice(), vec![(40, 5)]);
    assert_consistent(&one);
}

#[test]
fn a_digit_that_replaces_another_one() {
    let state = Sudoku::new(&cells_of(EXAMPLE));
    let first = state.set(2, 4);
    let second = first.set(2, 1);
    assert_eq!(SudokuState::get(&second, 2), Some(1));
    assert_eq!(second.remaining(), 50);
    assert_consistent(&second);
    let direct = state.set(2, 1);
    assert_eq!(second.iter(), direct.iter());
    for cell in 0..81usize {
        assert_eq!(CandidatesRead::get(&second, cell), CandidatesRead::get(&direct, cell));
    }
    for key in all_keys() {
        assert_eq!(ValuesRead::get(&second, &key), ValuesRead::get(&direct, &key));
    }
}

#[test]
fn writing_the_same_digit_twice_changes_nothing() {
    let state = Sudoku::new(&cells_of(EXAMPLE));
    for (cell, digit) in [(2usize, 4u8), (2, 0), (0, 5), (0, 0), (80, 3), (40, 5)] {
        let once = state.set(cell, digit);
        let twice = once.set(cell, digit);
        assert_eq!(once.iter(), twice.iter());
        assert_eq!(once.remaining(), twice.remaining());
        for other in 0..81usize {
            assert_eq!(CandidatesRead::get(&once, other), CandidatesRead::get(&twice, other));
        }
        for key in all_keys() {
            assert_eq!(ValuesRead::get(&once, &key), ValuesRead::get(&twice, &key));
        }
        assert_eq!(once.next_choice().len(), twice.next_choice().len());
        assert_consistent(&twice);
    }
}

#[test]
fn a_digit_that_conflicts_keeps_the_stores_fit() {
    // A second 5 in the first row: the stores still say what the cells allow.
    let state = Sudoku::new(&cells_of(EXAMPLE));
    let conflicting = state.set(2, 5);
    assert_eq!(SudokuState::get(&conflicting, 2), Some(5));
    assert_consistent(&conflicting);
}

#[test]
fn a_cell_without_allowed_digit() {
    // The first row holds 1 to 8 and the first column a 9: nothing is left
    // for the first cell.
    let mut cells = [0u8; 81];
    for i in 1..9usize {
        cells[i] = i as u8;
    }
    cells[9] = 9;
    let state = Sudoku::new(&cells);
    assert_eq!(CandidatesRead::get(&state, 0), Some(CandidateSet::empty()));
    assert!(state.next_choice().is_empty());
    assert_consistent(&state);
    // After a fill elsewhere in the neighbourhood the empty entry is gone.
    let filled = state.set(18, 3);
    assert!(CandidatesRead::get(&filled, 0).is_none());
    assert_consistent(&filled);
}

#[test]
fn moves_follow_the_smallest_set() {
    let state = Sudoku::new(&cells_of(EXAMPLE));
    let moves = state.next_choice();
    assert_eq!(moves.len(), 1);
    let (cell, digit) = moves[0];
    assert_eq!(cells_of(SOLVED)[cell], digit);
    // Among sets of one member the cell with the lowest index comes first.
    let first_single = (0..81usize)
        .find(|&c| CandidatesRead::get(&state, c).map_or(false, |set| set.len() == 1))
        .unwrap();
    assert_eq!(cell, first_single);
}

#[test]
fn moves_of_a_digit_key_are_its_locations() {
    // Only the digit 1 is placed, in the first cell: row 1 has six cells left
    // for it and row 2 as well, every other set has more members. The first
    // key of the digit 1 with six locations is that of row 1.
    let mut cells = [0u8; 81];
    cells[0] = 1;
    let state = Sudoku::new(&cells);
    let moves = state.next_choice();
    assert_eq!(moves.len(), 6);
    let found: HashSet<usize> = moves.iter().map(|m| m.0).collect();
    let expected: HashSet<usize> = [12, 13, 14, 15, 16, 17].into_iter().collect();
    assert_eq!(found, expected);
    for m in moves.iter() {
        assert_eq!(m.1, 1);
    }
    assert_consistent(&state);
}

#[test]
fn entries_of_the_candidate_store() {
    let mut state = Sudoku::new(&[0u8; 81]);
    let mut set = CandidateSet::from(3);
    set.insert(CandidateSet::from(4));
    assert_eq!(CandidatesModify::insert(&mut state, 7, set), Some(CandidateSet::all()));
    assert_eq!(CandidatesRead::get(&state, 7), Some(set));
    assert_eq!(CandidatesRead::get(&state, 8), Some(CandidateSet::all()));
    // The smallest set is now that of cell 7.
    assert_eq!(state.next_choice(), vec![(7, 3), (7, 4)]);
    assert_eq!(state.remove_diff(7, CandidateSet::from(3)), Some(CandidateSet::from(4)));
    assert_eq!(CandidatesRead::get(&state, 7), Some(CandidateSet::from(4)));
    assert_eq!(state.next_choice(), vec![(7, 4)]);
    assert_eq!(CandidatesModify::remove(&mut state, 7), Some(CandidateSet::from(4)));
    assert_eq!(CandidatesRead::get(&state, 7), None);
    assert_eq!(CandidatesModify::remove(&mut state, 7), None);
    assert_eq!(state.remove_diff(7, CandidateSet::from(3)), None);
    assert_eq!(CandidatesModify::insert(&mut state, 7, set), None);
    assert_eq!(CandidatesRead::get(&state, 7), Some(set));
}

#[test]
fn entries_of_the_value_store() {
    let mut state = Sudoku::new(&cells_of(SOLVED));
    let key = ValueKey { value: 3, set_type: SetType::Col, set_index: 2 };
    assert!(ValuesRead::get(&state, &key).is_none());
    state.insert_into(key, 11);
    state.insert_into(key, 20);
    state.insert_into(key, 11);
    let expected: HashSet<usize> = [11, 20].into_iter().collect();
    assert_eq!(ValuesRead::get(&state, &key), Some(&expected));
    let mut moves = state.next_choice();
    moves.sort();
    assert_eq!(moves, vec![(11, 3), (20, 3)]);
    assert_eq!(state.remove_from(&key, 11), Some(1));
    assert_eq!(state.remove_from(&key, 11), Some(1));
    assert_eq!(state.next_choice(), vec![(20, 3)]);
    let other = ValueKey { value: 4, set_type: SetType::Col, set_index: 2 };
    assert_eq!(state.remove_from(&other, 11), None);
    assert_eq!(ValuesModify::remove(&mut state, &key), Some([20].into_iter().collect()));
    assert!(ValuesRead::get(&state, &key).is_none());
    assert_eq!(ValuesModify::remove(&mut state, &key), None);
    assert!(state.next_choice().is_empty());
}

#[test]
fn a_whole_set_of_locations_under_a_key() {
    let mut state = Sudoku::new(&cells_of(SOLVED));
    let key = ValueKey { value: 7, set_type: SetType::Box, set_index: 4 };
    let three: HashSet<usize> = [30, 31, 40].into_iter().collect();
    assert_eq!(ValuesModify::insert(&mut state, key, three.clone()), None);
    assert_eq!(ValuesRead::get(&state, &key), Some(&three));
    assert_eq!(state.next_choice().len(), 3);
    let one: HashSet<usize> = [41].into_iter().collect();
    assert_eq!(ValuesModify::insert(&mut state, key, one.clone()), Some(three));
    assert_eq!(ValuesRead::get(&state, &key), Some(&one));
    assert_eq!(state.next_choice(), vec![(41, 7)]);
    assert_eq!(ValuesModify::remove(&mut state, &key), Some(one));
    assert!(state.next_choice().is_empty());
}

#[test]
fn members_of_a_set_come_out_once_each() {
    let set: HashSet<usize> = [4, 8, 15, 16, 23, 42].into_iter().collect();
    let mut list = members(&set);
    list.sort();
    assert_eq!(list, vec![4, 8, 15, 16, 23, 42]);
    assert!(members(&HashSet::new()).is_empty());
}

#[test]
fn a_clone_shares_nothing_that_is_written_later() {
    let state = Sudoku::new(&cells_of(EXAMPLE));
    let copy = state.clone();
    let written = copy.set(2, 4);
    assert_eq!(SudokuState::get(&state, 2), Some(0));
    assert_eq!(SudokuState::get(&copy, 2), Some(0));
    assert_eq!(SudokuState::get(&written, 2), Some(4));
    assert_consistent(&copy);
}

#[test]
fn states_stay_consistent_along_a_line_of_moves() {
    let mut state = Sudoku::new(&cells_of(EXAMPLE));
    let mut steps: usize = 0;
    while state.remaining() > 0 {
        let moves = state.next_choice();
        assert!(!moves.is_empty());
        let (cell, digit) = moves[0];
        state = state.set(cell, digit);
        steps += 1;
        if steps % 10 == 0 {
            assert_consistent(&state);
        }
    }
    assert_eq!(steps, 51);
    assert_eq!(state.to_array(), cells_of(SOLVED));
}
