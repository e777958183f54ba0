//! The traits of the library.

pub use crate::sudoku::traits::SudokuState;
