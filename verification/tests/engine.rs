use sudoku::grid::{Difficulty, SudokuGrid};

/// All 81 coordinates of the board.
fn all_cells() -> Vec<(usize, usize)> {
    let mut v = Vec::new();
    for r in 0..9 {
        for c in 0..9 {
            v.push((r, c));
        }
    }
    v
}

fn count_fixed_cells(s: &SudokuGrid) -> usize {
    all_cells().iter().filter(|&&(r, c)| s.is_fixed(r, c)).count()
}

#[test]
fn cells_to_keep_per_difficulty() {
    assert_eq!(Difficulty::Easy.cells_to_keep(), 45);
    assert_eq!(Difficulty::Medium.cells_to_keep(), 35);
    assert_eq!(Difficulty::Hard.cells_to_keep(), 25);
}

#[test]
fn fixed_count_matches_difficulty_easy() {
    let s = SudokuGrid::new(Difficulty::Easy);
    assert_eq!(count_fixed_cells(&s), 45);
}

#[test]
fn fixed_count_matches_difficulty_medium() {
    let s = SudokuGrid::new(Difficulty::Medium);
    assert_eq!(count_fixed_cells(&s), 35);
}

#[test]
fn fixed_count_matches_difficulty_hard() {
    let s = SudokuGrid::new(Difficulty::Hard);
    assert_eq!(count_fixed_cells(&s), 25);
}

#[test]
fn fresh_puzzle_cells_follow_mask() {
    let s = SudokuGrid::new(Difficulty::Medium);
    for (r, c) in all_cells() {
        let shown = s.get_cell(r, c, false);
        let answer = s.get_cell(r, c, true);
        assert!(answer.is_some(), "solution cell ({r}, {c}) is empty");
        if s.is_fixed(r, c) {
            assert_eq!(shown, answer, "clue ({r}, {c}) differs from the solution");
        } else {
            assert_eq!(shown, None, "removed cell ({r}, {c}) is not empty");
        }
    }
}

#[test]
fn set_number_rejects_fixed_cells() {
    let mut s = SudokuGrid::new(Difficulty::Easy);
    let (r, c) = all_cells()
        .into_iter()
        .find(|&(r, c)| s.is_fixed(r, c))
        .expect("an Easy puzzle keeps 45 clues");
    let before = s.get_cell(r, c, false);
    assert!(!s.set_number(r, c, 5));
    assert_eq!(s.get_cell(r, c, false), before);
}

#[test]
fn set_number_accepts_every_digit_on_free_cells() {
    let mut s = SudokuGrid::new(Difficulty::Easy);
    let (r, c) = all_cells()
        .into_iter()
        .find(|&(r, c)| !s.is_fixed(r, c))
        .expect("an Easy puzzle empties 36 cells");
    for num in 0u8..=9 {
        assert!(s.set_number(r, c, num), "digit {num} was refused");
        let shown = s.get_cell(r, c, false);
        if num == 0 {
            assert_eq!(shown, None);
        } else {
            assert_eq!(shown, Some(num));
        }
    }
}

#[test]
fn set_number_rejects_out_of_range_input() {
    let mut s = SudokuGrid::new(Difficulty::Medium);
    assert!(!s.set_number(9, 0, 5));
    assert!(!s.set_number(0, 9, 5));
    let (r, c) = all_cells()
        .into_iter()
        .find(|&(r, c)| !s.is_fixed(r, c))
        .expect("a Medium puzzle empties 46 cells");
    assert!(!s.set_number(r, c, 10));
    assert_eq!(s.get_cell(r, c, false), None);
}

#[test]
fn clear_number_empties_a_cell() {
    let mut s = SudokuGrid::new(Difficulty::Medium);
    let (r, c) = all_cells()
        .into_iter()
        .find(|&(r, c)| !s.is_fixed(r, c))
        .expect("a Medium puzzle empties 46 cells");
    assert!(s.set_number(r, c, 7));
    assert_eq!(s.get_cell(r, c, false), Some(7));
    assert!(s.clear_number(r, c));
    assert_eq!(s.get_cell(r, c, false), None);
}

#[test]
fn clear_number_rejects_fixed_cells() {
    let mut s = SudokuGrid::new(Difficulty::Medium);
    let (r, c) = all_cells()
        .into_iter()
        .find(|&(r, c)| s.is_fixed(r, c))
        .expect("a Medium puzzle keeps 35 clues");
    let before = s.get_cell(r, c, false);
    assert!(!s.clear_number(r, c));
    assert_eq!(s.get_cell(r, c, false), before);
}

#[test]
fn clearing_is_always_a_valid_move() {
    let s = SudokuGrid::new(Difficulty::Hard);
    for (r, c) in all_cells() {
        assert!(s.is_valid_move(r, c, 0));
    }
}

#[test]
fn validation_flags_duplicates_but_not_the_cell_itself() {
    let mut s = SudokuGrid::new(Difficulty::Hard);
    // Some row of a Hard puzzle has at least two free cells: 56 empties
    // cannot fit into 9 rows with at most one each.
    let (r, c1, c2) = (0..9)
        .find_map(|r| {
            let free: Vec<usize> = (0..9).filter(|&c| !s.is_fixed(r, c)).collect();
            if free.len() >= 2 { Some((r, free[0], free[1])) } else { None }
        })
        .expect("some row has two free cells");
    let digit = s.get_cell(r, c1, true).expect("solution cells are never empty");
    assert!(s.set_number(r, c1, digit));
    // Re-entering the digit into its own cell is not self-conflicting.
    assert!(s.is_valid_move(r, c1, digit));
    // The same digit elsewhere in the row is flagged.
    assert!(!s.is_valid_move(r, c2, digit));
    // Clearing the conflicting cell would still be fine.
    assert!(s.is_valid_move(r, c2, 0));
    // Once the digit is gone, the move becomes valid again, unless the
    // digit already sits in the column or box of (r, c2); rule that out
    // by checking against the actual scan.
    assert!(s.clear_number(r, c1));
    let conflict = (0..9).any(|c| c != c2 && s.get_cell(r, c, false) == Some(digit))
        || (0..9).any(|row| row != r && s.get_cell(row, c2, false) == Some(digit))
        || {
            let (br, bc) = (r - r % 3, c2 - c2 % 3);
            (br..br + 3).any(|rr| {
                (bc..bc + 3).any(|cc| {
                    (rr, cc) != (r, c2) && s.get_cell(rr, cc, false) == Some(digit)
                })
            })
        };
    assert_eq!(s.is_valid_move(r, c2, digit), !conflict);
}

#[test]
fn medium_scenario_fill_to_solution() {
    let mut s = SudokuGrid::new(Difficulty::Medium);
    let free: Vec<(usize, usize)> = all_cells()
        .into_iter()
        .filter(|&(r, c)| !s.is_fixed(r, c))
        .collect();
    assert_eq!(free.len(), 81 - 35);
    let (fr, fc) = all_cells()
        .into_iter()
        .find(|&(r, c)| s.is_fixed(r, c))
        .expect("a Medium puzzle keeps 35 clues");
    assert!(!s.set_number(fr, fc, 1));
    assert!(!s.is_solved());
    for &(r, c) in &free {
        let digit = s.get_cell(r, c, true).expect("solution cells are never empty");
        assert!(s.set_number(r, c, digit));
    }
    assert!(s.is_solved());
}

#[test]
fn solved_grid_validates_everywhere() {
    let mut s = SudokuGrid::new(Difficulty::Hard);
    for (r, c) in all_cells() {
        if !s.is_fixed(r, c) {
            let digit = s.get_cell(r, c, true).expect("solution cells are never empty");
            assert!(s.set_number(r, c, digit));
        }
    }
    assert!(s.is_solved());
    // Every cell of the completed grid passes the row/column/box check.
    for (r, c) in all_cells() {
        let digit = s.get_cell(r, c, false).expect("the grid is complete");
        assert!(s.is_valid_move(r, c, digit), "cell ({r}, {c}) conflicts");
    }
}

#[test]
fn wrong_digit_leaves_grid_unsolved() {
    let mut s = SudokuGrid::new(Difficulty::Easy);
    let free: Vec<(usize, usize)> = all_cells()
        .into_iter()
        .filter(|&(r, c)| !s.is_fixed(r, c))
        .collect();
    for &(r, c) in &free {
        let digit = s.get_cell(r, c, true).expect("solution cells are never empty");
        assert!(s.set_number(r, c, digit));
    }
    // Overwrite one cell with a different digit: no longer solved.
    let (r, c) = free[0];
    let digit = s.get_cell(r, c, true).unwrap();
    let other = if digit == 9 { 1 } else { digit + 1 };
    assert!(s.set_number(r, c, other));
    assert!(!s.is_solved());
}
