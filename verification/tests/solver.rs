use waffle_iron::solution::{is_valid_solution, sees};
use waffle_iron::traits::SudokuState;
use waffle_iron::{Solver, Sudoku};

const EXAMPLE: &str =
    "530070000600195000098000060800060003400803001700020006060000280000419005000080079";
const EXAMPLE_SOLVED: &str =
    "534678912672195348198342567859761423426853791713924856961537284287419635345286179";
// The solved example with the cells 3, 4, 30 and 31 cleared: the digits 6
// and 7 can change places there.
const TWO_WAYS: &str =
    "534008912672195348198342567859001423426853791713924856961537284287419635345286179";
const TWO_WAYS_OTHER: &str =
    "534768912672195348198342567859671423426853791713924856961537284287419635345286179";

fn grid(text: &str) -> [u8; 81] {
    let mut cells = [0u8; 81];
    for (i, b) in text.bytes().enumerate() {
        cells[i] = b - b'0';
    }
    cells
}

#[test]
fn example_puzzle_has_its_known_solution() {
    let puzzle = grid(EXAMPLE);
    let out = Solver::with_limit(1).solve(&puzzle);
    assert_eq!(out.result.len(), 1);
    assert!(is_valid_solution(&out.result[0].solution));
    assert_eq!(out.result[0].solution, grid(EXAMPLE_SOLVED));
    assert_eq!(out.steps, 51);
    assert!(out.iterations > 0);
    assert!(out.iterations <= 200);
    assert!(out.result[0].iteration <= out.iterations);
}

#[test]
fn example_puzzle_needs_no_guess() {
    // Every state on the way has a set of one member, so no move is ever
    // passed over, and each of the 51 cells takes one iteration.
    let out = Solver::new().solve(&grid(EXAMPLE));
    assert_eq!(out.result.len(), 1);
    assert_eq!(out.result[0].branches, 0);
    assert_eq!(out.result[0].iteration, 51);
    assert_eq!(out.iterations, 51);
}

#[test]
fn example_puzzle_has_one_solution_only() {
    let out = Solver::with_limit(0).solve(&grid(EXAMPLE));
    assert_eq!(out.result.len(), 1);
    let out = Solver::with_limit(2).solve(&grid(EXAMPLE));
    assert_eq!(out.result.len(), 1);
    assert_eq!(out.result[0].solution, grid(EXAMPLE_SOLVED));
}

#[test]
fn full_grid_is_its_own_solution() {
    let puzzle = grid(EXAMPLE_SOLVED);
    let state = Sudoku::new(&puzzle);
    assert_eq!(state.remaining(), 0);
    let out = Solver::with_limit(1).solve_state(&state);
    assert_eq!(out.steps, 0);
    assert_eq!(out.result.len(), 1);
    assert_eq!(out.result[0].solution, puzzle);
    assert_eq!(out.iterations, 0);
    assert_eq!(out.result[0].branches, 0);
    assert_eq!(out.result[0].iteration, 0);
}

#[test]
fn full_grid_without_limit_takes_one_iteration() {
    let puzzle = grid(EXAMPLE_SOLVED);
    let out = Solver::with_limit(0).solve(&puzzle);
    assert_eq!(out.result.len(), 1);
    assert_eq!(out.result[0].solution, puzzle);
    assert_eq!(out.iterations, 1);
    let out = Solver::with_limit(2).solve(&puzzle);
    assert_eq!(out.result.len(), 1);
    assert_eq!(out.iterations, 1);
}

#[test]
fn two_digits_that_can_change_places_give_two_solutions() {
    let out = Solver::with_limit(2).solve(&grid(TWO_WAYS));
    assert_eq!(out.result.len(), 2);
    assert_ne!(out.result[0].solution, out.result[1].solution);
    let mut found = vec![out.result[0].solution, out.result[1].solution];
    found.sort();
    let mut expected = vec![grid(EXAMPLE_SOLVED), grid(TWO_WAYS_OTHER)];
    expected.sort();
    assert_eq!(found, expected);
    for record in out.result.iter() {
        assert!(is_valid_solution(&record.solution));
        // One state on the way had two moves, all others one.
        assert_eq!(record.branches, 1);
    }
    assert_eq!(out.steps, 4);
}

#[test]
fn the_limit_cuts_the_search_short() {
    let out = Solver::with_limit(1).solve(&grid(TWO_WAYS));
    assert_eq!(out.result.len(), 1);
    assert!(is_valid_solution(&out.result[0].solution));
    let out = Solver::new().solve(&grid(TWO_WAYS));
    assert_eq!(out.result.len(), 1);
    let out = Solver::with_limit(0).solve(&grid(TWO_WAYS));
    assert_eq!(out.result.len(), 2);
    let out = Solver::with_limit(5).solve(&grid(TWO_WAYS));
    assert_eq!(out.result.len(), 2);
}

#[test]
fn a_digit_twice_in_a_row_gives_no_solution() {
    // The example with a second 5 in its first row.
    let mut puzzle = grid(EXAMPLE);
    puzzle[2] = 5;
    let out = Solver::with_limit(1).solve(&puzzle);
    assert_eq!(out.result.len(), 0);
    assert!(out.iterations > 0);
    assert_eq!(out.steps, 50);
    let out = Solver::with_limit(0).solve(&puzzle);
    assert_eq!(out.result.len(), 0);
    assert!(out.iterations > 0);
}

#[test]
fn a_grid_without_solution_gives_none() {
    // The first row holds 1 to 8 and the first column a 9.
    let mut cells = [0u8; 81];
    for i in 1..9usize {
        cells[i] = i as u8;
    }
    cells[9] = 9;
    let out = Solver::with_limit(0).solve(&cells);
    assert_eq!(out.result.len(), 0);
    assert_eq!(out.iterations, 1);
    assert_eq!(out.steps, 72);
}

#[test]
fn one_record_of_two_means_one_solution() {
    let solver = Solver::with_limit(2);
    assert_eq!(solver.solve(&grid(EXAMPLE)).result.len(), 1);
    assert_eq!(Solver::with_limit(0).solve(&grid(EXAMPLE)).result.len(), 1);
    assert_eq!(solver.solve(&grid(TWO_WAYS)).result.len(), 2);
    assert_eq!(Solver::with_limit(0).solve(&grid(TWO_WAYS)).result.len(), 2);
}

#[test]
fn an_empty_grid_has_many_solutions() {
    let out = Solver::with_limit(3).solve(&[0u8; 81]);
    assert_eq!(out.result.len(), 3);
    assert_eq!(out.steps, 81);
    for record in out.result.iter() {
        assert!(is_valid_solution(&record.solution));
        assert!(record.iteration <= out.iterations);
    }
    assert_ne!(out.result[0].solution, out.result[1].solution);
    assert_ne!(out.result[0].solution, out.result[2].solution);
    assert_ne!(out.result[1].solution, out.result[2].solution);
}

#[test]
fn filled_grids_are_told_from_solutions() {
    assert!(is_valid_solution(&grid(EXAMPLE_SOLVED)));
    assert!(is_valid_solution(&grid(TWO_WAYS_OTHER)));
    assert!(!is_valid_solution(&grid(EXAMPLE)));
    let mut twice = grid(EXAMPLE_SOLVED);
    twice[0] = 3;
    assert!(!is_valid_solution(&twice));
    let mut swapped = grid(EXAMPLE_SOLVED);
    swapped.swap(0, 1);
    assert!(!is_valid_solution(&swapped));
    let mut large = grid(EXAMPLE_SOLVED);
    large[80] = 10;
    assert!(!is_valid_solution(&large));
}

#[test]
fn cells_that_see_each_other() {
    assert!(sees(0, 0));
    assert!(sees(0, 8));
    assert!(sees(0, 72));
    assert!(sees(0, 20));
    assert!(!sees(0, 21));
    assert!(!sees(0, 40));
    assert!(sees(40, 30));
    assert!(sees(80, 60));
}

#[test]
fn a_full_grid_with_a_digit_twice_is_handed_back_as_it_is() {
    // Nothing is left to fill, so nothing is found out about the grid.
    let mut cells = grid(EXAMPLE_SOLVED);
    cells[0] = 3;
    let out = Solver::with_limit(1).solve(&cells);
    assert_eq!(out.result.len(), 1);
    assert_eq!(out.result[0].solution, cells);
    assert!(!is_valid_solution(&out.result[0].solution));
    assert_eq!(out.iterations, 0);
}

#[test]
fn every_record_keeps_the_digits_of_the_grid() {
    let puzzle = grid(TWO_WAYS);
    let out = Solver::with_limit(0).solve(&puzzle);
    for record in out.result.iter() {
        for i in 0..81usize {
            assert!(puzzle[i] == 0 || record.solution[i] == puzzle[i]);
        }
        assert!(record.iteration >= out.steps);
    }
}
