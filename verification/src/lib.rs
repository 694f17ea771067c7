//! A verified 9x9 sudoku engine: a fixed 81-cell grid with derived
//! row/column/block queries, and a recursive constraint-propagation
//! solver that returns a legal completion of a puzzle or proves that
//! none exists.

pub mod grid;
pub mod laws;
pub mod solver;

pub use grid::SudokuPuzzle;
pub use grid::ValueSet;
pub use solver::Solver;
