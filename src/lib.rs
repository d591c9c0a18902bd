//! A 9×9 Sudoku board and a verified backtracking solver.
pub mod board;
pub mod solver;
pub mod parse;
