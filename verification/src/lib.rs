//! A 9x9 Sudoku solver built on constraint propagation and backtracking
//! search.
//!
//! The board is modelled as 81 candidate sets, one per cell, each a 9-bit
//! mask over the digits 1 through 9. A fixed topology records the 27 units
//! (rows, columns, boxes) and the 20 peers of every cell; the engine narrows
//! candidate sets by the naked-single and hidden-single rules and searches
//! over whatever ambiguity remains.

pub mod board;
pub mod cells;
pub mod display;
pub mod engine;
pub mod generate;
pub mod grid;
pub mod masks;
pub mod solver;
pub mod topology;

pub use board::{Board, PuzzleError};
pub use topology::Sudoku;
