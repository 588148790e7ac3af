//! A 9x9 Sudoku solver: a board that tracks, for every empty cell, the digits
//! still open to it, with constraint propagation and backtracking search.
pub mod grid;
pub mod sudoku;
pub mod text;
pub mod tile;

pub use sudoku::{SolverError, Sudoku};
pub use text::ReadError;
pub use tile::Tile;
