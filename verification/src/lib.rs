//! Generalized Sudoku solving.
//!
//! A grid of side `elements = boxsize * boxsize` holds values `1..=elements`
//! (0 for an empty cell) and is solved by filling every empty cell so that no
//! row, column or box repeats a value.  The crate offers the grid type with
//! per-cell candidate computation, an iterative backtracking solver that
//! yields solutions one at a time, and a pure text codec.

pub mod codec;
pub mod grid;
pub mod laws;
pub mod model;
pub mod solver;

pub use codec::format_element;
pub use codec::parse;
pub use codec::parse_element;
pub use grid::SudokuError;
pub use grid::SudokuGrid;
pub use solver::solutions;
pub use solver::SudokuSolver;
