//! The playable puzzle: a generated solution, the player's working grid,
//! and the mask of fixed clue cells, with move validation and solved-state
//! detection.

use crate::generator::generate;
use crate::rules::{
    box_dup, cell, col_dup, count_fixed, grid_complete, idx, in_bounds, lemma_box_range,
    lemma_count_fixed_all, lemma_count_fixed_clear, lemma_same_multiset_elements, move_ok, row_dup,
    same_box, solution_ok,
};
use crate::shuffle::shuffle_bytes;
use vstd::prelude::*;

verus! {

/// Side length of the board.
pub const SIZE: usize = 9;

/// Side length of one box.
pub const BOX_SIZE: usize = 3;

/// The game difficulty level, selected once before puzzle creation.
#[derive(Clone, Copy, Debug, PartialEq, Eq)]
pub enum Difficulty {
    Easy,
    Medium,
    Hard,
}

impl Difficulty {
    /// The target number of clue cells kept for this difficulty.
    pub open spec fn keep_count(self) -> int {
        match self {
            Difficulty::Easy => 45,
            Difficulty::Medium => 35,
            Difficulty::Hard => 25,
        }
    }

    /// The number of cells emptied when a puzzle of this difficulty is
    /// created: all cells beyond the kept clues, capped at 70 so that
    /// some clues always remain.
    pub open spec fn removal_count(self) -> int {
        if 81 - self.keep_count() > 70 {
            70
        } else {
            81 - self.keep_count()
        }
    }

    /// The approximate number of cells to keep as clues.
    pub fn cells_to_keep(&self) -> (n: usize)
        ensures
            n == self.keep_count(),
    {
        match self {
            Difficulty::Easy => 45,
            Difficulty::Medium => 35,
            Difficulty::Hard => 25,
        }
    }
}

/// One Sudoku puzzle instance: the solved reference grid, the player's
/// live grid, and the mask of immutable clue cells. Grids are stored as
/// flat row-major vectors of 81 cells.
pub struct SudokuGrid {
    solution: Vec<u8>,
    current: Vec<u8>,
    fixed: Vec<bool>,
}

impl SudokuGrid {
    /// The complete solved reference grid.
    pub closed spec fn solution_view(self) -> Seq<u8> {
        self.solution@
    }

    /// The player's working grid; 0 marks an empty cell.
    pub closed spec fn current_view(self) -> Seq<u8> {
        self.current@
    }

    /// The mask of clue cells that the player can never alter.
    pub closed spec fn fixed_view(self) -> Seq<bool> {
        self.fixed@
    }

    /// The puzzle invariant: the solution is a complete, rule-valid grid;
    /// the working grid holds values 0..=9; and every fixed cell of the
    /// working grid still holds its solution value.
    pub open spec fn wf(self) -> bool {
        &&& solution_ok(self.solution_view())
        &&& self.current_view().len() == 81
        &&& self.fixed_view().len() == 81
        &&& forall|i: int| 0 <= i < 81 ==> self.current_view()[i] <= 9
        &&& forall|i: int|
            0 <= i < 81 && self.fixed_view()[i] ==> self.current_view()[i]
                == self.solution_view()[i]
    }

    /// Generates a new puzzle for the given difficulty. A fresh solved
    /// grid is produced; the player's grid starts as a copy of it with
    /// every cell a fixed clue; then the first `removal_count` coordinates
    /// of a uniformly shuffled permutation of all 81 cells are emptied and
    /// unfixed. The removal is unconditional: no uniqueness check is made
    /// on the reduced puzzle, so harder difficulties may occasionally
    /// admit several valid completions.
    pub fn new(difficulty: Difficulty) -> (s: SudokuGrid)
        ensures
            s.wf(),
            count_fixed(s.fixed_view(), 81) == 81 - difficulty.removal_count(),
            forall|i: int|
                0 <= i < 81 ==> s.current_view()[i] == (if s.fixed_view()[i] {
                    s.solution_view()[i]
                } else {
                    0u8
                }),
    {
        let solution = generate();
        let mut current: Vec<u8> = Vec::new();
        let mut i: usize = 0;
        while i < 81
            invariant
                i <= 81,
                solution@.len() == 81,
                current@.len() == i,
                forall|j: int| 0 <= j < i ==> current@[j] == solution@[j],
            decreases 81 - i,
        {
            current.push(solution[i]);
            i = i + 1;
        }
        let mut fixed: Vec<bool> = Vec::new();
        let mut f: usize = 0;
        while f < 81
            invariant
                f <= 81,
                fixed@.len() == f,
                forall|j: int| 0 <= j < f ==> fixed@[j],
            decreases 81 - f,
        {
            fixed.push(true);
            f = f + 1;
        }
        // A uniformly shuffled permutation of all 81 cell indices.
        let mut cells: Vec<u8> = Vec::new();
        let mut p: u8 = 0;
        while p < 81
            invariant
                p <= 81,
                cells@.len() == p,
                forall|j: int| 0 <= j < p ==> cells@[j] == j,
            decreases 81 - p,
        {
            cells.push(p);
            p = p + 1;
        }
        let ghost cells0 = cells@;
        shuffle_bytes(&mut cells);
        proof {
            lemma_same_multiset_elements(cells0, cells@);
            assert forall|j: int| 0 <= j < 81 implies 0 <= #[trigger] cells@[j] < 81 by {
                assert(cells0.contains(cells@[j]));
            }
            cells0.lemma_multiset_has_no_duplicates();
            cells@.lemma_multiset_has_no_duplicates_conv();
            lemma_count_fixed_all(fixed@, 81);
        }
        let keep = difficulty.cells_to_keep();
        let mut to_remove: usize = 81 - keep;
        if to_remove > 70 {
            to_remove = 70;
        }
        let mut k: usize = 0;
        while k < to_remove
            invariant
                k <= to_remove,
                to_remove <= 81,
                solution@.len() == 81,
                current@.len() == 81,
                fixed@.len() == 81,
                cells@.len() == 81,
                cells@.no_duplicates(),
                forall|j: int| 0 <= j < 81 ==> 0 <= #[trigger] cells@[j] < 81,
                count_fixed(fixed@, 81) == 81 - k,
                forall|p2: int|
                    0 <= p2 < 81 ==> (!(#[trigger] fixed@[p2]) <==> exists|j: int|
                        0 <= j < k && cells@[j] == p2),
                forall|p2: int|
                    0 <= p2 < 81 ==> #[trigger] current@[p2] == (if fixed@[p2] {
                        solution@[p2]
                    } else {
                        0u8
                    }),
            decreases to_remove - k,
        {
            let pos = cells[k] as usize;
            proof {
                if !fixed@[pos as int] {
                    let j = choose|j: int| 0 <= j < k && cells@[j] == pos as int;
                    assert(cells@[j] != cells@[k as int]);
                    assert(false);
                }
                lemma_count_fixed_clear(fixed@, pos as int, 81);
            }
            current[pos] = 0;
            fixed[pos] = false;
            proof {
                assert forall|p2: int| 0 <= p2 < 81 implies (!(#[trigger] fixed@[p2])
                    <==> exists|j: int| 0 <= j < k + 1 && cells@[j] == p2) by {
                    if p2 == pos as int {
                        assert(cells@[k as int] == p2);
                    } else {
                        if exists|j: int| 0 <= j < k + 1 && cells@[j] == p2 {
                            let j = choose|j: int| 0 <= j < k + 1 && cells@[j] == p2;
                            assert(j < k);
                        }
                    }
                }
            }
            k = k + 1;
        }
        let s = SudokuGrid { solution, current, fixed };
        proof {
            assert forall|j: int| 0 <= j < 81 implies s.current_view()[j] <= 9 by {
                if s.fixed_view()[j] {
                    assert(s.current_view()[j] == s.solution_view()[j]);
                }
            }
        }
        s
    }

    /// The value shown for cell (r, c): the solution value when
    /// `show_solution` is set, otherwise the player's value; `None`
    /// when the selected grid's cell is empty.
    pub fn get_cell(&self, r: usize, c: usize, show_solution: bool) -> (val: Option<u8>)
        requires
            self.wf(),
            r < 9,
            c < 9,
        ensures
            ({
                let v = if show_solution {
                    cell(self.solution_view(), r as int, c as int)
                } else {
                    cell(self.current_view(), r as int, c as int)
                };
                val == (if v == 0 {
                    Option::<u8>::None
                } else {
                    Option::Some(v)
                })
            }),
    {
        let val = if show_solution {
            self.solution[r * 9 + c]
        } else {
            self.current[r * 9 + c]
        };
        if val == 0 {
            None
        } else {
            Some(val)
        }
    }

    /// Whether cell (r, c) is a fixed clue.
    pub fn is_fixed(&self, r: usize, c: usize) -> (fx: bool)
        requires
            self.wf(),
            r < 9,
            c < 9,
        ensures
            fx == self.fixed_view()[idx(r as int, c as int)],
    {
        self.fixed[r * 9 + c]
    }

    /// Attempts to store `num` (0 clears) in the player's grid. Nothing
    /// changes and `false` comes back when (r, c) is out of range, the
    /// cell is a fixed clue, or `num` is not 0..=9; otherwise the cell is
    /// overwritten, whether or not `num` is a valid move.
    pub fn set_number(&mut self, r: usize, c: usize, num: u8) -> (set: bool)
        requires
            old(self).wf(),
        ensures
            final(self).wf(),
            set <==> (r < 9 && c < 9 && num <= 9 && !old(self).fixed_view()[idx(
                r as int,
                c as int,
            )]),
            set ==> final(self).current_view() == old(self).current_view().update(
                idx(r as int, c as int),
                num,
            ),
            !set ==> final(self).current_view() == old(self).current_view(),
            final(self).solution_view() == old(self).solution_view(),
            final(self).fixed_view() == old(self).fixed_view(),
    {
        if r < 9 && c < 9 && !self.fixed[r * 9 + c] {
            if num <= 9 {
                self.current[r * 9 + c] = num;
                proof {
                    assert forall|i: int|
                        0 <= i < 81 && self.fixed_view()[i] implies self.current_view()[i]
                        == self.solution_view()[i] by {
                        if i != idx(r as int, c as int) {
                            assert(self.current_view()[i] == old(self).current_view()[i]);
                        }
                    }
                }
                return true;
            }
        }
        false
    }

    /// Clears cell (r, c); the same as storing 0 there.
    pub fn clear_number(&mut self, r: usize, c: usize) -> (cleared: bool)
        requires
            old(self).wf(),
        ensures
            final(self).wf(),
            cleared <==> (r < 9 && c < 9 && !old(self).fixed_view()[idx(r as int, c as int)]),
            cleared ==> final(self).current_view() == old(self).current_view().update(
                idx(r as int, c as int),
                0u8,
            ),
            !cleared ==> final(self).current_view() == old(self).current_view(),
            final(self).solution_view() == old(self).solution_view(),
            final(self).fixed_view() == old(self).fixed_view(),
    {
        self.set_number(r, c, 0)
    }

    /// Whether entering `num` at (r, c) respects the row, column, and box
    /// constraints of the player's current grid. Clearing (num == 0) is
    /// always valid. The scan ignores the cell (r, c) itself, so
    /// re-entering a digit into its own cell is not self-conflicting.
    /// The check is advisory: `set_number` stores invalid digits too.
    pub fn is_valid_move(&self, r: usize, c: usize, num: u8) -> (valid: bool)
        requires
            self.wf(),
            r < 9,
            c < 9,
        ensures
            valid == move_ok(self.current_view(), r as int, c as int, num),
    {
        if num == 0 {
            return true;
        }
        let ghost g = self.current_view();
        // Check the row.
        let mut col: usize = 0;
        while col < 9
            invariant
                self.wf(),
                r < 9,
                c < 9,
                col <= 9,
                g == self.current_view(),
                num != 0,
                forall|c2: int| 0 <= c2 < col && c2 != c ==> #[trigger] cell(g, r as int, c2) != num,
            decreases 9 - col,
        {
            if col != c && self.current[r * 9 + col] == num {
                assert(row_dup(g, r as int, c as int, num)) by {
                    assert(cell(g, r as int, col as int) == num);
                }
                return false;
            }
            col = col + 1;
        }
        assert(!row_dup(g, r as int, c as int, num));
        // Check the column.
        let mut row: usize = 0;
        while row < 9
            invariant
                self.wf(),
                r < 9,
                c < 9,
                row <= 9,
                g == self.current_view(),
                num != 0,
                forall|r2: int| 0 <= r2 < row && r2 != r ==> #[trigger] cell(g, r2, c as int) != num,
            decreases 9 - row,
        {
            if row != r && self.current[row * 9 + c] == num {
                assert(col_dup(g, r as int, c as int, num)) by {
                    assert(cell(g, row as int, c as int) == num);
                }
                return false;
            }
            row = row + 1;
        }
        assert(!col_dup(g, r as int, c as int, num));
        // Check the 3x3 box.
        let start_row = r - r % 3;
        let start_col = c - c % 3;
        assert(start_row == 3 * (r as int / 3) && start_col == 3 * (c as int / 3));
        let mut dr: usize = 0;
        while dr < 3
            invariant
                self.wf(),
                r < 9,
                c < 9,
                dr <= 3,
                g == self.current_view(),
                num != 0,
                start_row == 3 * (r as int / 3),
                start_col == 3 * (c as int / 3),
                forall|r2: int, c2: int|
                    start_row <= r2 < start_row + dr && start_col <= c2 < start_col + 3 && !(r2
                        == r as int && c2 == c as int) ==> #[trigger] cell(g, r2, c2) != num,
            decreases 3 - dr,
        {
            let mut dc: usize = 0;
            while dc < 3
                invariant
                    self.wf(),
                    r < 9,
                    c < 9,
                    dr < 3,
                    dc <= 3,
                    g == self.current_view(),
                    num != 0,
                    start_row == 3 * (r as int / 3),
                    start_col == 3 * (c as int / 3),
                    forall|r2: int, c2: int|
                        start_row <= r2 < start_row + dr && start_col <= c2 < start_col + 3 && !(r2
                            == r as int && c2 == c as int) ==> #[trigger] cell(g, r2, c2) != num,
                    forall|c2: int|
                        start_col <= c2 < start_col + dc && !(start_row + dr == r as int && c2
                            == c as int) ==> #[trigger] cell(g, start_row + dr, c2) != num,
                decreases 3 - dc,
            {
                let cur_r = start_row + dr;
                let cur_c = start_col + dc;
                if (cur_r != r || cur_c != c) && self.current[cur_r * 9 + cur_c] == num {
                    proof {
                        assert(in_bounds(cur_r as int, cur_c as int));
                        lemma_box_range(r as int, cur_r as int);
                        lemma_box_range(c as int, cur_c as int);
                        assert(same_box(r as int, c as int, cur_r as int, cur_c as int));
                        assert(cell(g, cur_r as int, cur_c as int) == num);
                        assert(box_dup(g, r as int, c as int, num));
                    }
                    return false;
                }
                dc = dc + 1;
            }
            dr = dr + 1;
        }
        proof {
            if box_dup(g, r as int, c as int, num) {
                let (r2, c2) = choose|r2: int, c2: int|
                    in_bounds(r2, c2) && same_box(r as int, c as int, r2, c2) && !(r2 == r as int
                        && c2 == c as int) && cell(g, r2, c2) == num;
                lemma_box_range(r as int, r2);
                lemma_box_range(c as int, c2);
                assert(false);
            }
        }
        true
    }

    /// Law: a well-formed puzzle holds the solution value in every fixed
    /// cell. `new` establishes well-formedness and every mutation keeps
    /// it (each `ensures` above), so this holds before and after any
    /// sequence of mutation calls.
    pub proof fn lemma_clue_invariant(self, r: int, c: int)
        requires
            self.wf(),
            in_bounds(r, c),
            self.fixed_view()[idx(r, c)],
        ensures
            self.current_view()[idx(r, c)] == self.solution_view()[idx(r, c)],
    {
    }

    /// Whether the player's grid matches the solution cell for cell.
    pub fn is_solved(&self) -> (solved: bool)
        requires
            self.wf(),
        ensures
            solved <==> self.current_view() == self.solution_view(),
            solved <==> (grid_complete(self.current_view()) && self.current_view()
                == self.solution_view()),
    {
        let mut i: usize = 0;
        while i < 81
            invariant
                self.wf(),
                i <= 81,
                forall|j: int| 0 <= j < i ==> self.current_view()[j] == self.solution_view()[j],
            decreases 81 - i,
        {
            if self.current[i] != self.solution[i] {
                return false;
            }
            i = i + 1;
        }
        proof {
            assert(self.current_view() =~= self.solution_view());
        }
        true
    }
}

} // verus!
