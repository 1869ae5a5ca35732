//! A Sudoku solver: constraint evaluation over rows, columns and blocks,
//! a most-constrained-cell branching rule and a depth-first search.

pub mod board;
pub mod grid;
pub mod solver;
pub mod value;

pub use board::{Board, SizeError};
pub use grid::{block, row};
pub use solver::{Worker, next, run};
pub use value::Value;
