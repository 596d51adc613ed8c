//! A 9x9 Sudoku library: grid construction from digits or text, validation
//! of completed grids, and a backtracking solver, all with verified contracts.

pub mod check;
pub mod grid;
pub mod solve;
