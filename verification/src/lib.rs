//! A constraint-propagation and backtracking engine for 9x9 Sudoku grids.
//!
//! The board state keeps, next to the 81 cells, the candidate digits of every
//! empty cell, the open locations of every digit in every row, column and box,
//! and a queue of all those sets ordered by size. The solver always branches on
//! the smallest set.

pub mod board;
pub mod candidates;
pub mod generator;
pub mod indices;
pub mod persistent;
pub mod random;
pub mod solution;
pub mod solver;
pub mod sudoku;
pub mod traits;
pub mod util;
pub mod values;

pub use crate::generator::Generator;
pub use crate::solver::Solver;
pub use crate::sudoku::Sudoku;
