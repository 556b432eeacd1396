//! Randomized full-grid generation by constraint-satisfying backtracking.
//!
//! The generator owns an in-progress grid. Starting from an empty board
//! it visits cells in row-major order; at each empty cell it tries the
//! digits 1..=9 in a freshly shuffled order, places the first digit that
//! does not clash with its row, column, or box, and recurses; when no
//! digit fits it undoes the placement and backtracks.

use crate::rules::{
    admits_completion, box_has, cell, col_has, completion_with, digits_1_to_9, empties, extends,
    grid_complete, grid_wf, idx, in_bounds, is_digit_permutation, lemma_box_range,
    lemma_completion_digit_safe, lemma_completion_extends_update, lemma_digit_permutation_properties,
    lemma_empties_update, lemma_empty_grid_admits_completion, lemma_place_keeps_conflict_free,
    move_ok, no_conflicts, row_has, safe_at, same_box, solution_ok,
};
use crate::shuffle::shuffle_bytes;
use vstd::prelude::*;

verus! {

/// Backtracking generator of complete, rule-valid 9x9 grids.
pub struct Generator {
    grid: Vec<u8>,
    nums: Vec<u8>,
}

impl Generator {
    /// The in-progress grid, as a flat row-major sequence of 81 cells.
    pub closed spec fn grid_view(self) -> Seq<u8> {
        self.grid@
    }

    /// The candidate digits, some ordering of 1..=9.
    pub closed spec fn nums_view(self) -> Seq<u8> {
        self.nums@
    }

    /// The grid is well-formed and free of rule conflicts, and the
    /// candidate list is a permutation of the digits 1..=9.
    pub open spec fn wf(self) -> bool {
        &&& grid_wf(self.grid_view())
        &&& no_conflicts(self.grid_view())
        &&& is_digit_permutation(self.nums_view())
    }

    /// A fresh generator: an all-empty grid and a shuffled candidate list.
    pub fn new() -> (g: Generator)
        ensures
            g.wf(),
            forall|i: int| 0 <= i < 81 ==> g.grid_view()[i] == 0,
    {
        let mut grid: Vec<u8> = Vec::new();
        let mut i: usize = 0;
        while i < 81
            invariant
                i <= 81,
                grid@.len() == i,
                forall|j: int| 0 <= j < i ==> grid@[j] == 0,
            decreases 81 - i,
        {
            grid.push(0);
            i = i + 1;
        }
        let mut nums: Vec<u8> = Vec::new();
        let mut d: u8 = 1;
        while d <= 9
            invariant
                1 <= d <= 10,
                nums@.len() == d - 1,
                forall|j: int| 0 <= j < d - 1 ==> #[trigger] nums@[j] == j + 1,
            decreases 10 - d,
        {
            nums.push(d);
            d = d + 1;
        }
        proof {
            assert(nums@ =~= digits_1_to_9());
        }
        shuffle_bytes(&mut nums);
        proof {
            assert(is_digit_permutation(nums@));
            assert forall|r: int, c: int| in_bounds(r, c) implies #[trigger] move_ok(
                grid@,
                r,
                c,
                cell(grid@, r, c),
            ) by {
                assert(cell(grid@, r, c) == 0);
            }
        }
        Generator { grid, nums }
    }

    /// The first empty cell in row-major order, if any; `None` means the
    /// grid is complete.
    pub fn find_empty(&self) -> (res: Option<(usize, usize)>)
        requires
            self.wf(),
        ensures
            (match res {
                Some(rc) => {
                    &&& in_bounds(rc.0 as int, rc.1 as int)
                    &&& cell(self.grid_view(), rc.0 as int, rc.1 as int) == 0
                    &&& forall|r2: int, c2: int|
                        in_bounds(r2, c2) && (r2 < rc.0 as int || (r2 == rc.0 as int && c2
                            < rc.1 as int)) ==> #[trigger] cell(self.grid_view(), r2, c2) != 0
                },
                None => grid_complete(self.grid_view()),
            }),
    {
        let mut r: usize = 0;
        while r < 9
            invariant
                self.wf(),
                r <= 9,
                forall|r2: int, c2: int|
                    in_bounds(r2, c2) && r2 < r ==> #[trigger] cell(self.grid_view(), r2, c2) != 0,
            decreases 9 - r,
        {
            let mut c: usize = 0;
            while c < 9
                invariant
                    self.wf(),
                    r < 9,
                    c <= 9,
                    forall|r2: int, c2: int|
                        in_bounds(r2, c2) && r2 < r ==> #[trigger] cell(self.grid_view(), r2, c2)
                            != 0,
                    forall|c2: int|
                        0 <= c2 < c ==> #[trigger] cell(self.grid_view(), r as int, c2) != 0,
                decreases 9 - c,
            {
                if self.grid[r * 9 + c] == 0 {
                    return Some((r, c));
                }
                c = c + 1;
            }
            r = r + 1;
        }
        proof {
            assert forall|i: int| 0 <= i < 81 implies self.grid_view()[i] != 0 by {
                let r2 = i / 9;
                let c2 = i % 9;
                assert(cell(self.grid_view(), r2, c2) != 0);
            }
        }
        None
    }

    /// Whether `num` can be placed at the empty cell (r, c) without
    /// repeating `num` in the cell's row, column, or 3x3 box.
    pub fn is_safe(&self, r: usize, c: usize, num: u8) -> (safe: bool)
        requires
            self.wf(),
            r < 9,
            c < 9,
        ensures
            safe == safe_at(self.grid_view(), r as int, c as int, num),
    {
        let ghost g = self.grid_view();
        // Check the row.
        let mut col: usize = 0;
        while col < 9
            invariant
                self.wf(),
                r < 9,
                c < 9,
                col <= 9,
                g == self.grid_view(),
                forall|c2: int| 0 <= c2 < col ==> #[trigger] cell(g, r as int, c2) != num,
            decreases 9 - col,
        {
            if self.grid[r * 9 + col] == num {
                assert(row_has(g, r as int, num)) by {
                    assert(cell(g, r as int, col as int) == num);
                }
                return false;
            }
            col = col + 1;
        }
        assert(!row_has(g, r as int, num));
        // Check the column.
        let mut row: usize = 0;
        while row < 9
            invariant
                self.wf(),
                r < 9,
                c < 9,
                row <= 9,
                g == self.grid_view(),
                forall|r2: int| 0 <= r2 < row ==> #[trigger] cell(g, r2, c as int) != num,
            decreases 9 - row,
        {
            if self.grid[row * 9 + c] == num {
                assert(col_has(g, c as int, num)) by {
                    assert(cell(g, row as int, c as int) == num);
                }
                return false;
            }
            row = row + 1;
        }
        assert(!col_has(g, c as int, num));
        // Check the 3x3 box.
        let start_row = r - r % 3;
        let start_col = c - c % 3;
        assert(start_row == 3 * (r as int / 3) && start_col == 3 * (c as int / 3));
        let mut dr: usize = 0;
        while dr < 3
            invariant
                self.wf(),
                r < 9,
                c < 9,
                dr <= 3,
                g == self.grid_view(),
                start_row == 3 * (r as int / 3),
                start_col == 3 * (c as int / 3),
                forall|r2: int, c2: int|
                    start_row <= r2 < start_row + dr && start_col <= c2 < start_col + 3
                        ==> #[trigger] cell(g, r2, c2) != num,
            decreases 3 - dr,
        {
            let mut dc: usize = 0;
            while dc < 3
                invariant
                    self.wf(),
                    r < 9,
                    c < 9,
                    dr < 3,
                    dc <= 3,
                    g == self.grid_view(),
                    start_row == 3 * (r as int / 3),
                    start_col == 3 * (c as int / 3),
                    forall|r2: int, c2: int|
                        start_row <= r2 < start_row + dr && start_col <= c2 < start_col + 3
                            ==> #[trigger] cell(g, r2, c2) != num,
                    forall|c2: int|
                        start_col <= c2 < start_col + dc ==> #[trigger] cell(
                            g,
                            start_row + dr,
                            c2,
                        ) != num,
                decreases 3 - dc,
            {
                if self.grid[(start_row + dr) * 9 + (start_col + dc)] == num {
                    proof {
                        let r2: int = start_row + dr;
                        let c2: int = start_col + dc;
                        assert(in_bounds(r2, c2));
                        lemma_box_range(r as int, r2);
                        lemma_box_range(c as int, c2);
                        assert(same_box(r as int, c as int, r2, c2));
                        assert(cell(g, r2, c2) == num);
                        assert(box_has(g, r as int, c as int, num));
                    }
                    return false;
                }
                dc = dc + 1;
            }
            dr = dr + 1;
        }
        proof {
            if box_has(g, r as int, c as int, num) {
                let (r2, c2) = choose|r2: int, c2: int|
                    in_bounds(r2, c2) && same_box(r as int, c as int, r2, c2) && cell(
                        g,
                        r2,
                        c2,
                    ) == num;
                lemma_box_range(r as int, r2);
                lemma_box_range(c as int, c2);
                assert(false);
            }
        }
        true
    }

    /// Fills every empty cell by randomized backtracking: at the first
    /// empty cell (row-major) it tries the digits 1..=9 in a freshly
    /// shuffled order and recurses on the first safe placement, undoing
    /// it when the recursion reports failure. The search is complete:
    /// it succeeds exactly when the grid it was given admits a rule-valid
    /// completion; on failure the grid is left exactly as it was. The
    /// recursion depth is bounded by the number of empty cells, at most
    /// 81.
    #[verifier::loop_isolation(false)]
    pub fn fill(&mut self) -> (ok: bool)
        requires
            old(self).wf(),
        ensures
            final(self).wf(),
            final(self).nums_view() == old(self).nums_view(),
            ok == admits_completion(old(self).grid_view()),
            ok ==> grid_complete(final(self).grid_view()),
            !ok ==> final(self).grid_view() == old(self).grid_view(),
            extends(final(self).grid_view(), old(self).grid_view()),
        decreases empties(old(self).grid_view(), 81),
    {
        match self.find_empty() {
            None => {
                proof {
                    assert(extends(self.grid@, self.grid@));
                    assert(solution_ok(self.grid@));
                    assert(admits_completion(self.grid@));
                }
                true
            },
            Some((r, c)) => {
                let ghost g0 = self.grid@;
                let mut local_nums = self.nums.clone();
                proof {
                    assert(local_nums@ =~= self.nums@);
                }
                shuffle_bytes(&mut local_nums);
                proof {
                    assert(is_digit_permutation(local_nums@));
                    lemma_digit_permutation_properties(local_nums@);
                }
                let mut k: usize = 0;
                while k < 9
                    invariant
                        k <= 9,
                        r < 9,
                        c < 9,
                        cell(g0, r as int, c as int) == 0,
                        self.wf(),
                        self.grid@ == g0,
                        g0 == old(self).grid@,
                        self.nums@ == old(self).nums@,
                        is_digit_permutation(local_nums@),
                        local_nums@.len() == 9,
                        forall|j: int| 0 <= j < 9 ==> 1 <= #[trigger] local_nums@[j] <= 9,
                        forall|j: int|
                            0 <= j < k ==> !(#[trigger] completion_with(
                                g0,
                                r as int,
                                c as int,
                                local_nums@[j],
                            )),
                    decreases 9 - k,
                {
                    let num = local_nums[k];
                    if self.is_safe(r, c, num) {
                        self.grid[r * 9 + c] = num;
                        proof {
                            lemma_place_keeps_conflict_free(g0, r as int, c as int, num);
                            lemma_empties_update(g0, idx(r as int, c as int), num, 81);
                        }
                        if self.fill() {
                            proof {
                                // The completed grid itself witnesses that g0
                                // admits a completion.
                                assert forall|i: int|
                                    0 <= i < 81 && g0[i] != 0 implies self.grid@[i] == g0[i] by {
                                    assert(i != idx(r as int, c as int));
                                    assert(g0.update(idx(r as int, c as int), num)[i] == g0[i]);
                                }
                                assert(extends(self.grid@, g0));
                                assert(solution_ok(self.grid@));
                                assert(admits_completion(g0));
                            }
                            return true;
                        }
                        proof {
                            // The recursion refuted every completion that
                            // places num at this cell.
                            if completion_with(g0, r as int, c as int, num) {
                                let full = choose|full: Seq<u8>|
                                    solution_ok(full) && extends(full, g0) && cell(
                                        full,
                                        r as int,
                                        c as int,
                                    ) == num;
                                lemma_completion_extends_update(g0, r as int, c as int, full);
                                assert(extends(full, g0.update(idx(r as int, c as int), num)));
                                assert(admits_completion(g0.update(idx(r as int, c as int), num)));
                                assert(false);
                            }
                        }
                        self.grid[r * 9 + c] = 0;
                        proof {
                            assert(self.grid@ =~= g0);
                        }
                    } else {
                        proof {
                            // A digit that is unsafe here cannot sit here in
                            // any completion of g0.
                            if completion_with(g0, r as int, c as int, num) {
                                let full = choose|full: Seq<u8>|
                                    solution_ok(full) && extends(full, g0) && cell(
                                        full,
                                        r as int,
                                        c as int,
                                    ) == num;
                                lemma_completion_digit_safe(g0, r as int, c as int, full);
                                assert(false);
                            }
                        }
                    }
                    proof {
                        assert(!completion_with(g0, r as int, c as int, local_nums@[k as int]));
                    }
                    k = k + 1;
                }
                proof {
                    // All nine digits were refuted at this empty cell, and a
                    // completion would have to place one of them here.
                    lemma_digit_permutation_properties(local_nums@);
                    if admits_completion(g0) {
                        let full = choose|full: Seq<u8>| solution_ok(full) && extends(full, g0);
                        let d = cell(full, r as int, c as int);
                        assert(1 <= d <= 9);
                        assert(local_nums@.contains(d));
                        let j = choose|j: int|
                            0 <= j < local_nums@.len() && local_nums@[j] == d;
                        assert(completion_with(g0, r as int, c as int, local_nums@[j]));
                        assert(false);
                    }
                    assert(extends(g0, g0));
                }
                false
            },
        }
    }
}

/// Produces one complete, rule-valid 9x9 grid by randomized backtracking
/// from an empty board. Generation always succeeds: the search reports
/// success exactly when its grid admits a completion, and an empty board
/// does.
pub fn generate() -> (g: Vec<u8>)
    ensures
        solution_ok(g@),
{
    let mut generator = Generator::new();
    let ghost start = generator.grid_view();
    let filled = generator.fill();
    proof {
        lemma_empty_grid_admits_completion(start);
    }
    assert(filled);
    generator.grid
}

} // verus!
