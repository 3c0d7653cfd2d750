//! A 9×9 Sudoku engine: a randomized backtracking generator, a puzzle carver,
//! a move validator and a hint mechanism, with their contracts proved.

pub mod rules;
pub mod board;
pub mod command;
pub mod game;
mod random;
