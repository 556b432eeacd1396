//! The lifecycle of one game session, as the input layer drives it: the
//! player picks a difficulty, plays until the grid is solved, and the
//! session ends in `Solved`. The transition from `Running` to `Solved`
//! is one-way — starting another puzzle means constructing a new
//! `SudokuGrid` and returning to `SelectingDifficulty`.

use vstd::prelude::*;

verus! {

/// The overall state of the application.
#[derive(PartialEq, Eq, Clone, Copy, Debug)]
pub enum AppState {
    SelectingDifficulty,
    Running,
    Solved,
}

} // verus!
