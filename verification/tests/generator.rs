use waffle_iron::solution::is_valid_solution;
use waffle_iron::{Generator, Solver};

#[test]
fn a_generated_puzzle_has_its_solution_and_no_other() {
    let mut generator = Generator::new();
    generator.samples(2).iterations(20).removals(1);
    let out = generator.generate().unwrap();
    assert!(is_valid_solution(&out.solution));
    for i in 0..81usize {
        assert!(out.puzzle[i] == 0 || out.puzzle[i] == out.solution[i]);
    }
    let empty = out.puzzle.iter().filter(|&&d| d == 0).count();
    assert!(empty > 0);
    assert!(out.difficulty >= empty);
    assert_eq!((out.difficulty - empty) % 100, 0);
    let solved = Solver::with_limit(2).solve(&out.puzzle);
    assert_eq!(solved.result.len(), 1);
    assert_eq!(solved.result[0].solution, out.solution);
    assert_eq!(solved.steps, empty);
    assert_eq!(out.difficulty, solved.result[0].branches * 100 + empty);
}

#[test]
fn no_cell_of_a_generated_puzzle_can_be_cleared() {
    let mut generator = Generator::new();
    generator.samples(1).iterations(10);
    let out = generator.generate().unwrap();
    for i in 0..81usize {
        if out.puzzle[i] != 0 {
            let mut fewer = out.puzzle;
            fewer[i] = 0;
            assert_eq!(Solver::with_limit(2).solve(&fewer).result.len(), 2);
        }
    }
}

#[test]
fn two_generated_puzzles_differ() {
    let mut generator = Generator::new();
    generator.samples(1).iterations(5);
    let first = generator.generate().unwrap();
    let second = generator.generate().unwrap();
    assert_ne!(first.solution, second.solution);
}

#[test]
fn a_generator_without_samples_still_clears_cells() {
    let mut generator = Generator::new();
    generator.samples(0);
    let out = generator.generate().unwrap();
    assert!(out.puzzle.iter().any(|&d| d == 0));
    assert_eq!(Solver::with_limit(2).solve(&out.puzzle).result.len(), 1);
}

#[test]
fn the_largest_settings_are_cut() {
    let mut generator = Generator::new();
    generator.samples(1).iterations(255).removals(255);
    let out = generator.generate().unwrap();
    assert_eq!(Solver::with_limit(2).solve(&out.puzzle).result.len(), 1);
    let mut generator = Generator::new();
    generator.samples(1).iterations(8).removals(0);
    let out = generator.generate().unwrap();
    assert_eq!(Solver::with_limit(2).solve(&out.puzzle).result.len(), 1);
}

#[test]
fn the_first_solution_of_a_grid_that_has_one() {
    let text = "530070000600195000098000060800060003400803001700020006060000280000419005000080079";
    let mut puzzle = [0u8; 81];
    for (i, b) in text.bytes().enumerate() {
        puzzle[i] = b - b'0';
    }
    let out = waffle_iron::generator::first_solution(&puzzle).unwrap();
    assert_eq!(out.result.len(), 1);
    assert!(is_valid_solution(&out.result[0].solution));
    for i in 0..81usize {
        assert!(puzzle[i] == 0 || out.result[0].solution[i] == puzzle[i]);
    }
    let out = waffle_iron::generator::first_solution(&[0u8; 81]).unwrap();
    assert!(is_valid_solution(&out.result[0].solution));
}

#[test]
fn no_first_solution_of_a_grid_that_has_none() {
    // The first row holds 1 to 8 and the first column a 9.
    let mut cells = [0u8; 81];
    for i in 1..9usize {
        cells[i] = i as u8;
    }
    cells[9] = 9;
    assert_eq!(
        waffle_iron::generator::first_solution(&cells).err(),
        Some(waffle_iron::generator::GeneratorError::NoSolution)
    );
    // A filled grid with a digit twice in its first row.
    let text = "334678912672195348198342567859761423426853791713924856961537284287419635345286179";
    let mut twice = [0u8; 81];
    for (i, b) in text.bytes().enumerate() {
        twice[i] = b - b'0';
    }
    assert_eq!(
        waffle_iron::generator::first_solution(&twice).err(),
        Some(waffle_iron::generator::GeneratorError::NoSolution)
    );
}
