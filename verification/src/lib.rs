//! A 9x9 Sudoku puzzle engine: randomized full-grid generation by
//! constraint-satisfying backtracking, difficulty-driven clue removal,
//! and incremental move validation against row/column/box constraints.

pub mod generator;
pub mod grid;
pub mod rules;
mod shuffle;
pub mod state;
