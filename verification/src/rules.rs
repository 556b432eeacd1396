//! The mathematical model of a 9x9 Sudoku board.
//!
//! A grid is modelled as a flat sequence of 81 bytes in row-major order;
//! cell (r, c) lives at index `9 * r + c`. A value of 0 means "empty",
//! 1 through 9 are the digits. The predicates here state the Sudoku
//! rules: no digit repeated in a row, a column, or a 3x3 box.

use vstd::prelude::*;

verus! {

/// Flat index of cell (r, c) in a row-major 9x9 grid.
pub open spec fn idx(r: int, c: int) -> int {
    9 * r + c
}

/// True when (r, c) is a coordinate of the 9x9 board.
pub open spec fn in_bounds(r: int, c: int) -> bool {
    0 <= r < 9 && 0 <= c < 9
}

/// The value of cell (r, c).
pub open spec fn cell(g: Seq<u8>, r: int, c: int) -> u8 {
    g[idx(r, c)]
}

/// The grid has 81 cells, each holding 0 (empty) or a digit 1..=9.
pub open spec fn grid_wf(g: Seq<u8>) -> bool {
    &&& g.len() == 81
    &&& forall|i: int| 0 <= i < 81 ==> g[i] <= 9
}

/// Every cell is filled with a digit (no cell is empty).
pub open spec fn grid_complete(g: Seq<u8>) -> bool {
    forall|i: int| 0 <= i < 81 ==> g[i] != 0
}

/// `num` appears somewhere in row `r`.
pub open spec fn row_has(g: Seq<u8>, r: int, num: u8) -> bool {
    exists|c: int| 0 <= c < 9 && cell(g, r, c) == num
}

/// `num` appears somewhere in column `c`.
pub open spec fn col_has(g: Seq<u8>, c: int, num: u8) -> bool {
    exists|r: int| 0 <= r < 9 && cell(g, r, c) == num
}

/// Cells (r1, c1) and (r2, c2) lie in the same 3x3 box.
pub open spec fn same_box(r1: int, c1: int, r2: int, c2: int) -> bool {
    r1 / 3 == r2 / 3 && c1 / 3 == c2 / 3
}

/// `num` appears somewhere in the 3x3 box containing (r, c).
pub open spec fn box_has(g: Seq<u8>, r: int, c: int, num: u8) -> bool {
    exists|r2: int, c2: int|
        in_bounds(r2, c2) && same_box(r, c, r2, c2) && cell(g, r2, c2) == num
}

/// Placing `num` at the empty cell (r, c) would not repeat `num`
/// in the cell's row, column, or box. This is the generator's safety
/// check: the cell itself is expected to be empty, so no carve-out
/// for the cell is needed.
pub open spec fn safe_at(g: Seq<u8>, r: int, c: int, num: u8) -> bool {
    &&& !row_has(g, r, num)
    &&& !col_has(g, c, num)
    &&& !box_has(g, r, c, num)
}

/// `num` appears in row `r` at some column other than `c`.
pub open spec fn row_dup(g: Seq<u8>, r: int, c: int, num: u8) -> bool {
    exists|c2: int| 0 <= c2 < 9 && c2 != c && cell(g, r, c2) == num
}

/// `num` appears in column `c` at some row other than `r`.
pub open spec fn col_dup(g: Seq<u8>, r: int, c: int, num: u8) -> bool {
    exists|r2: int| 0 <= r2 < 9 && r2 != r && cell(g, r2, c) == num
}

/// `num` appears in the box of (r, c) at some cell other than (r, c).
pub open spec fn box_dup(g: Seq<u8>, r: int, c: int, num: u8) -> bool {
    exists|r2: int, c2: int|
        in_bounds(r2, c2) && same_box(r, c, r2, c2) && !(r2 == r && c2 == c)
            && cell(g, r2, c2) == num
}

/// The player-facing validity check for entering `num` at (r, c):
/// clearing (num == 0) is always valid; otherwise `num` must not occur
/// at any cell of row `r`, column `c`, or the box of (r, c) other than
/// (r, c) itself.
pub open spec fn move_ok(g: Seq<u8>, r: int, c: int, num: u8) -> bool {
    num == 0 || (!row_dup(g, r, c, num) && !col_dup(g, r, c, num) && !box_dup(g, r, c, num))
}

/// Every filled cell is a valid placement at its own position: no digit
/// is repeated within any row, column, or box.
pub open spec fn no_conflicts(g: Seq<u8>) -> bool {
    forall|r: int, c: int|
        in_bounds(r, c) ==> #[trigger] move_ok(g, r, c, cell(g, r, c))
}

/// A complete, rule-valid Sudoku solution.
pub open spec fn solution_ok(g: Seq<u8>) -> bool {
    &&& grid_wf(g)
    &&& grid_complete(g)
    &&& no_conflicts(g)
}

/// The digits 1 through 9, in order.
pub open spec fn digits_1_to_9() -> Seq<u8> {
    Seq::new(9, |i: int| (i + 1) as u8)
}

/// The sequence holds each digit 1..=9 exactly once, in some order.
pub open spec fn is_digit_permutation(s: Seq<u8>) -> bool {
    s.to_multiset() == digits_1_to_9().to_multiset()
}

/// A permutation of 1..=9 has nine entries, each a digit, and covers
/// every digit.
pub proof fn lemma_digit_permutation_properties(s: Seq<u8>)
    requires
        is_digit_permutation(s),
    ensures
        s.len() == 9,
        forall|i: int| 0 <= i < s.len() ==> 1 <= #[trigger] s[i] <= 9,
        forall|d: u8| 1 <= d <= 9 ==> s.contains(d),
{
    broadcast use vstd::seq_lib::group_to_multiset_ensures;

    let digits = digits_1_to_9();
    assert(s.len() == 9) by {
        assert(s.to_multiset().len() == digits.to_multiset().len());
    }
    lemma_same_multiset_elements(digits, s);
    assert forall|i: int| 0 <= i < s.len() implies 1 <= #[trigger] s[i] <= 9 by {
        assert(digits.contains(s[i]));
    }
    assert forall|d: u8| 1 <= d <= 9 implies s.contains(d) by {
        assert(digits[d - 1] == d);
        assert(digits.contains(d));
        assert(digits.to_multiset().count(d) > 0);
        assert(s.to_multiset().count(d) > 0);
    }
}

/// `full` agrees with `g` on every cell that `g` has filled.
pub open spec fn extends(full: Seq<u8>, g: Seq<u8>) -> bool {
    forall|i: int| 0 <= i < 81 && g[i] != 0 ==> full[i] == g[i]
}

/// Some complete, rule-valid solution agrees with `g` on its filled
/// cells: the grid can still be completed.
pub open spec fn admits_completion(g: Seq<u8>) -> bool {
    exists|full: Seq<u8>| solution_ok(full) && extends(full, g)
}

/// Some completion of `g` places the digit `d` at cell (r, c).
pub open spec fn completion_with(g: Seq<u8>, r: int, c: int, d: u8) -> bool {
    exists|full: Seq<u8>| solution_ok(full) && extends(full, g) && cell(full, r, c) == d
}

/// The digit a completion places at an empty cell of `g` passes the
/// generator's safety check on `g`: a clash in `g` would carry over to
/// the completion and break its own rules.
pub proof fn lemma_completion_digit_safe(g: Seq<u8>, r: int, c: int, full: Seq<u8>)
    requires
        g.len() == 81,
        in_bounds(r, c),
        cell(g, r, c) == 0,
        solution_ok(full),
        extends(full, g),
    ensures
        safe_at(g, r, c, cell(full, r, c)),
{
    let d = cell(full, r, c);
    assert(d != 0);
    assert(move_ok(full, r, c, cell(full, r, c)));
    if row_has(g, r, d) {
        let c2 = choose|c2: int| 0 <= c2 < 9 && cell(g, r, c2) == d;
        assert(c2 != c);
        assert(full[idx(r, c2)] == g[idx(r, c2)]);
        assert(cell(full, r, c2) == d);
        assert(row_dup(full, r, c, d));
        assert(false);
    }
    if col_has(g, c, d) {
        let r2 = choose|r2: int| 0 <= r2 < 9 && cell(g, r2, c) == d;
        assert(r2 != r);
        assert(full[idx(r2, c)] == g[idx(r2, c)]);
        assert(cell(full, r2, c) == d);
        assert(col_dup(full, r, c, d));
        assert(false);
    }
    if box_has(g, r, c, d) {
        let (r2, c2) = choose|r2: int, c2: int|
            in_bounds(r2, c2) && same_box(r, c, r2, c2) && cell(g, r2, c2) == d;
        assert(!(r2 == r && c2 == c));
        assert(full[idx(r2, c2)] == g[idx(r2, c2)]);
        assert(cell(full, r2, c2) == d);
        assert(box_dup(full, r, c, d));
        assert(false);
    }
}

/// A completion that places `cell(full, r, c)` at the empty cell (r, c)
/// of `g` is also a completion of `g` with that digit written in.
pub proof fn lemma_completion_extends_update(g: Seq<u8>, r: int, c: int, full: Seq<u8>)
    requires
        g.len() == 81,
        in_bounds(r, c),
        cell(g, r, c) == 0,
        extends(full, g),
    ensures
        extends(full, g.update(idx(r, c), cell(full, r, c))),
{
    let g2 = g.update(idx(r, c), cell(full, r, c));
    assert forall|i: int| 0 <= i < 81 && g2[i] != 0 implies full[i] == g2[i] by {
        if i == idx(r, c) {
            assert(g2[i] == full[idx(r, c)]);
        } else {
            assert(g2[i] == g[i]);
        }
    }
}

/// A grid that is all zeros admits a completion: the fixed base pattern
/// is one.
pub proof fn lemma_empty_grid_admits_completion(g: Seq<u8>)
    requires
        g.len() == 81,
        forall|i: int| 0 <= i < 81 ==> g[i] == 0,
    ensures
        admits_completion(g),
{
    let full = Seq::new(81, |i: int| pattern_cell(i / 9, i % 9));
    assert forall|r: int, c: int| in_bounds(r, c) implies #[trigger] cell(full, r, c)
        == pattern_cell(r, c) by {
        vstd::arithmetic::div_mod::lemma_fundamental_div_mod_converse(idx(r, c), 9, r, c);
    }
    lemma_pattern_solution_ok(full);
    assert(extends(full, g));
    assert(admits_completion(g));
}

/// The rows of a 3x3 box form the contiguous range starting at the
/// box origin row `3 * (r / 3)`; likewise for columns.
pub proof fn lemma_box_range(r: int, r2: int)
    requires
        0 <= r < 9,
        0 <= r2 < 9,
    ensures
        (r2 / 3 == r / 3) <==> (3 * (r / 3) <= r2 < 3 * (r / 3) + 3),
{
}

/// The number of empty cells among the first `n` cells of the grid.
/// `empties(g, 81)` bounds the depth of the generator's backtracking:
/// every recursive step fills one empty cell.
pub open spec fn empties(g: Seq<u8>, n: int) -> nat
    decreases n,
{
    if n <= 0 {
        0
    } else {
        empties(g, n - 1) + if g[n - 1] == 0 {
            1nat
        } else {
            0nat
        }
    }
}

/// Filling an empty cell with a digit lowers the number of empty cells
/// among the first `n` by one, when the cell is among them.
pub proof fn lemma_empties_update(g: Seq<u8>, k: int, v: u8, n: int)
    requires
        0 <= k < g.len(),
        g[k] == 0,
        v != 0,
        0 <= n <= g.len(),
    ensures
        empties(g.update(k, v), n) == empties(g, n) - (if k < n {
            1int
        } else {
            0int
        }),
    decreases n,
{
    if n > 0 {
        lemma_empties_update(g, k, v, n - 1);
    }
}

/// Placing a digit that passes the generator's safety check at an empty
/// cell keeps the whole grid free of conflicts.
pub proof fn lemma_place_keeps_conflict_free(g: Seq<u8>, r: int, c: int, num: u8)
    requires
        grid_wf(g),
        no_conflicts(g),
        in_bounds(r, c),
        cell(g, r, c) == 0,
        1 <= num <= 9,
        safe_at(g, r, c, num),
    ensures
        grid_wf(g.update(idx(r, c), num)),
        no_conflicts(g.update(idx(r, c), num)),
{
    let g2 = g.update(idx(r, c), num);
    assert forall|r2: int, c2: int|
        in_bounds(r2, c2) && !(r2 == r && c2 == c) implies cell(g2, r2, c2) == cell(
        g,
        r2,
        c2,
    ) by {
        assert(idx(r2, c2) != idx(r, c));
    }
    assert(cell(g2, r, c) == num);
    assert forall|i: int| 0 <= i < 81 implies g2[i] <= 9 by {
        if i != idx(r, c) {
            assert(g2[i] == g[i]);
        }
    }
    assert forall|r2: int, c2: int| in_bounds(r2, c2) implies #[trigger] move_ok(
        g2,
        r2,
        c2,
        cell(g2, r2, c2),
    ) by {
        if r2 == r && c2 == c {
            lemma_placed_cell_ok(g, r, c, num);
        } else {
            lemma_other_cell_ok(g, r, c, num, r2, c2);
        }
    }
}

/// After a safe placement, the placed cell itself is a valid move at its
/// own position.
proof fn lemma_placed_cell_ok(g: Seq<u8>, r: int, c: int, num: u8)
    requires
        grid_wf(g),
        in_bounds(r, c),
        cell(g, r, c) == 0,
        1 <= num <= 9,
        safe_at(g, r, c, num),
    ensures
        move_ok(g.update(idx(r, c), num), r, c, num),
{
    let g2 = g.update(idx(r, c), num);
    if row_dup(g2, r, c, num) {
        let c3 = choose|c3: int| 0 <= c3 < 9 && c3 != c && cell(g2, r, c3) == num;
        assert(idx(r, c3) != idx(r, c));
        assert(cell(g, r, c3) == num);
        assert(row_has(g, r, num));
    }
    if col_dup(g2, r, c, num) {
        let r3 = choose|r3: int| 0 <= r3 < 9 && r3 != r && cell(g2, r3, c) == num;
        assert(idx(r3, c) != idx(r, c));
        assert(cell(g, r3, c) == num);
        assert(col_has(g, c, num));
    }
    if box_dup(g2, r, c, num) {
        let (r3, c3) = choose|r3: int, c3: int|
            in_bounds(r3, c3) && same_box(r, c, r3, c3) && !(r3 == r && c3 == c) && cell(
                g2,
                r3,
                c3,
            ) == num;
        assert(idx(r3, c3) != idx(r, c));
        assert(cell(g, r3, c3) == num);
        assert(box_has(g, r, c, num));
    }
}

/// After a safe placement at (r, c), every other filled cell is still a
/// valid move at its own position.
proof fn lemma_other_cell_ok(g: Seq<u8>, r: int, c: int, num: u8, r2: int, c2: int)
    requires
        grid_wf(g),
        no_conflicts(g),
        in_bounds(r, c),
        in_bounds(r2, c2),
        !(r2 == r && c2 == c),
        cell(g, r, c) == 0,
        1 <= num <= 9,
        safe_at(g, r, c, num),
    ensures
        move_ok(g.update(idx(r, c), num), r2, c2, cell(g.update(idx(r, c), num), r2, c2)),
{
    let g2 = g.update(idx(r, c), num);
    assert(idx(r2, c2) != idx(r, c));
    let v = cell(g, r2, c2);
    assert(cell(g2, r2, c2) == v);
    if v != 0 {
        assert(move_ok(g, r2, c2, cell(g, r2, c2)));
        if row_dup(g2, r2, c2, v) {
            let c3 = choose|c3: int| 0 <= c3 < 9 && c3 != c2 && cell(g2, r2, c3) == v;
            if r2 == r && c3 == c {
                // The duplicate is the newly placed digit, so v == num and
                // (r2, c2) already held num in row r, against safe_at.
                assert(cell(g, r2, c2) == num);
                assert(row_has(g, r, num));
            } else {
                assert(idx(r2, c3) != idx(r, c));
                assert(cell(g, r2, c3) == v);
                assert(row_dup(g, r2, c2, v));
            }
        }
        if col_dup(g2, r2, c2, v) {
            let r3 = choose|r3: int| 0 <= r3 < 9 && r3 != r2 && cell(g2, r3, c2) == v;
            if r3 == r && c2 == c {
                assert(cell(g, r2, c2) == num);
                assert(col_has(g, c, num));
            } else {
                assert(idx(r3, c2) != idx(r, c));
                assert(cell(g, r3, c2) == v);
                assert(col_dup(g, r2, c2, v));
            }
        }
        if box_dup(g2, r2, c2, v) {
            let (r3, c3) = choose|r3: int, c3: int|
                in_bounds(r3, c3) && same_box(r2, c2, r3, c3) && !(r3 == r2 && c3 == c2) && cell(
                    g2,
                    r3,
                    c3,
                ) == v;
            if r3 == r && c3 == c {
                // (r2, c2) holds num in the box of (r, c), against safe_at.
                assert(cell(g, r2, c2) == num);
                assert(same_box(r, c, r2, c2));
                assert(box_has(g, r, c, num));
            } else {
                assert(idx(r3, c3) != idx(r, c));
                assert(cell(g, r3, c3) == v);
                assert(box_dup(g, r2, c2, v));
            }
        }
    }
}

/// The number of `true` entries among the first `n` entries of a mask.
pub open spec fn count_fixed(f: Seq<bool>, n: int) -> nat
    decreases n,
{
    if n <= 0 {
        0
    } else {
        count_fixed(f, n - 1) + if f[n - 1] {
            1nat
        } else {
            0nat
        }
    }
}

/// A mask that is `true` everywhere has full count.
pub proof fn lemma_count_fixed_all(f: Seq<bool>, n: int)
    requires
        0 <= n <= f.len(),
        forall|i: int| 0 <= i < f.len() ==> f[i],
    ensures
        count_fixed(f, n) == n,
    decreases n,
{
    if n > 0 {
        lemma_count_fixed_all(f, n - 1);
    }
}

/// Clearing a set entry of the mask lowers the count by one, when the
/// entry is among the first `n`.
pub proof fn lemma_count_fixed_clear(f: Seq<bool>, k: int, n: int)
    requires
        0 <= k < f.len(),
        f[k],
        0 <= n <= f.len(),
    ensures
        count_fixed(f.update(k, false), n) == count_fixed(f, n) - (if k < n {
            1int
        } else {
            0int
        }),
    decreases n,
{
    if n > 0 {
        lemma_count_fixed_clear(f, k, n - 1);
    }
}

/// The digit of a fixed, rule-valid base grid at (r, c): row r is the
/// sequence 1..=9 rotated left by `3 * r + r / 3` places.
pub open spec fn pattern_cell(r: int, c: int) -> u8 {
    (((3 * r + r / 3 + c) % 9) + 1) as u8
}

/// Two numbers at most 8 apart with the same residue mod 9 are equal.
proof fn lemma_mod9_injective(a: int, b: int)
    requires
        a >= 0,
        b >= 0,
        -8 <= a - b <= 8,
        a % 9 == b % 9,
    ensures
        a == b,
{
    vstd::arithmetic::div_mod::lemma_fundamental_div_mod(a, 9);
    vstd::arithmetic::div_mod::lemma_fundamental_div_mod(b, 9);
    let k = a / 9 - b / 9;
    assert(a - b == 9 * k);
}

/// Within a row of the base grid, distinct columns hold distinct digits.
proof fn lemma_pattern_row_distinct(r: int, c1: int, c2: int)
    requires
        0 <= r < 9,
        0 <= c1 < 9,
        0 <= c2 < 9,
        c1 != c2,
    ensures
        pattern_cell(r, c1) != pattern_cell(r, c2),
{
    let a = 3 * r + r / 3 + c1;
    let b = 3 * r + r / 3 + c2;
    if a % 9 == b % 9 {
        lemma_mod9_injective(a, b);
    }
}

/// Within a column of the base grid, distinct rows hold distinct digits.
proof fn lemma_pattern_col_distinct(r1: int, r2: int, c: int)
    requires
        0 <= r1 < 9,
        0 <= r2 < 9,
        r1 != r2,
        0 <= c < 9,
    ensures
        pattern_cell(r1, c) != pattern_cell(r2, c),
{
    let a = 3 * r1 + r1 / 3 + c;
    let b = 3 * r2 + r2 / 3 + c;
    if a % 9 == b % 9 {
        vstd::arithmetic::div_mod::lemma_fundamental_div_mod(a, 9);
        vstd::arithmetic::div_mod::lemma_fundamental_div_mod(b, 9);
        vstd::arithmetic::div_mod::lemma_fundamental_div_mod(r1, 3);
        vstd::arithmetic::div_mod::lemma_fundamental_div_mod(r2, 3);
        let q1 = r1 / 3;
        let q2 = r2 / 3;
        let s1 = r1 % 3;
        let s2 = r2 % 3;
        let k = a / 9 - b / 9;
        // a - b unfolds to 10 * (q1 - q2) + 3 * (s1 - s2), a multiple of 9
        // only when both differences vanish.
        assert(a - b == 9 * k);
        assert((q1 - q2) + 3 * (s1 - s2) == 9 * (k - (q1 - q2)));
        assert(k == q1 - q2);
        assert(q1 == q2 && s1 == s2);
    }
}

/// Within a 3x3 box of the base grid, distinct cells hold distinct digits.
proof fn lemma_pattern_box_distinct(r1: int, c1: int, r2: int, c2: int)
    requires
        in_bounds(r1, c1),
        in_bounds(r2, c2),
        same_box(r1, c1, r2, c2),
        !(r1 == r2 && c1 == c2),
    ensures
        pattern_cell(r1, c1) != pattern_cell(r2, c2),
{
    let a = 3 * r1 + r1 / 3 + c1;
    let b = 3 * r2 + r2 / 3 + c2;
    if a % 9 == b % 9 {
        vstd::arithmetic::div_mod::lemma_fundamental_div_mod(r1, 3);
        vstd::arithmetic::div_mod::lemma_fundamental_div_mod(r2, 3);
        vstd::arithmetic::div_mod::lemma_fundamental_div_mod(c1, 3);
        vstd::arithmetic::div_mod::lemma_fundamental_div_mod(c2, 3);
        // Same box: the row and column offsets within the box differ by
        // at most 2, so the keys differ by at most 8.
        assert(a - b == 3 * (r1 % 3 - r2 % 3) + (c1 % 3 - c2 % 3));
        lemma_mod9_injective(a, b);
        assert(r1 == r2 && c1 == c2);
    }
}

/// A grid that follows the base pattern everywhere is a complete,
/// rule-valid solution.
proof fn lemma_pattern_solution_ok(g: Seq<u8>)
    requires
        g.len() == 81,
        forall|r: int, c: int| in_bounds(r, c) ==> #[trigger] cell(g, r, c) == pattern_cell(r, c),
    ensures
        solution_ok(g),
{
    assert forall|i: int| 0 <= i < 81 implies g[i] <= 9 && g[i] != 0 by {
        let r = i / 9;
        let c = i % 9;
        assert(cell(g, r, c) == pattern_cell(r, c));
    }
    assert forall|r: int, c: int| in_bounds(r, c) implies #[trigger] move_ok(
        g,
        r,
        c,
        cell(g, r, c),
    ) by {
        let v = cell(g, r, c);
        if row_dup(g, r, c, v) {
            let c2 = choose|c2: int| 0 <= c2 < 9 && c2 != c && cell(g, r, c2) == v;
            lemma_pattern_row_distinct(r, c, c2);
        }
        if col_dup(g, r, c, v) {
            let r2 = choose|r2: int| 0 <= r2 < 9 && r2 != r && cell(g, r2, c) == v;
            lemma_pattern_col_distinct(r, r2, c);
        }
        if box_dup(g, r, c, v) {
            let (r2, c2) = choose|r2: int, c2: int|
                in_bounds(r2, c2) && same_box(r, c, r2, c2) && !(r2 == r && c2 == c) && cell(
                    g,
                    r2,
                    c2,
                ) == v;
            lemma_pattern_box_distinct(r, c, r2, c2);
        }
    }
}

/// Nine pairwise-distinct values, each a digit 1..=9, cover every digit.
proof fn lemma_nine_distinct_digits_cover(vals: Seq<int>, d: int)
    requires
        vals.len() == 9,
        vals.no_duplicates(),
        forall|i: int| 0 <= i < 9 ==> 1 <= #[trigger] vals[i] <= 9,
        1 <= d <= 9,
    ensures
        vals.contains(d),
{
    broadcast use vstd::seq_lib::seq_to_set_is_finite;

    vals.unique_seq_to_set();
    let digits = vstd::set_lib::set_int_range(1, 10);
    vstd::set_lib::lemma_int_range(1, 10);
    assert(vals.to_set().subset_of(digits)) by {
        assert forall|x: int| vals.to_set().contains(x) implies digits.contains(x) by {
            let i = choose|i: int| 0 <= i < vals.len() && vals[i] == x;
            assert(1 <= vals[i] <= 9);
        }
    }
    vstd::set_lib::lemma_subset_equality(vals.to_set(), digits);
    assert(digits.contains(d));
    assert(vals.to_set().contains(d));
}

/// Row `r` of a complete, conflict-free grid holds the digit `d`.
proof fn lemma_row_covers(g: Seq<u8>, r: int, d: u8)
    requires
        solution_ok(g),
        0 <= r < 9,
        1 <= d <= 9,
    ensures
        row_has(g, r, d),
{
    let vals = Seq::new(9, |c: int| cell(g, r, c) as int);
    assert forall|i: int, j: int|
        0 <= i < 9 && 0 <= j < 9 && i != j implies vals[i] != vals[j] by {
        assert(move_ok(g, r, i, cell(g, r, i)));
        assert(cell(g, r, i) != 0);
        if vals[i] == vals[j] {
            assert(cell(g, r, j) == cell(g, r, i));
            assert(row_dup(g, r, i, cell(g, r, i)));
        }
    }
    assert(vals.no_duplicates());
    assert forall|i: int| 0 <= i < 9 implies 1 <= #[trigger] vals[i] <= 9 by {
        assert(cell(g, r, i) != 0 && cell(g, r, i) <= 9);
    }
    lemma_nine_distinct_digits_cover(vals, d as int);
    let i = choose|i: int| 0 <= i < vals.len() && vals[i] == d as int;
    assert(cell(g, r, i) == d);
}

/// Column `c` of a complete, conflict-free grid holds the digit `d`.
proof fn lemma_col_covers(g: Seq<u8>, c: int, d: u8)
    requires
        solution_ok(g),
        0 <= c < 9,
        1 <= d <= 9,
    ensures
        col_has(g, c, d),
{
    let vals = Seq::new(9, |r: int| cell(g, r, c) as int);
    assert forall|i: int, j: int|
        0 <= i < 9 && 0 <= j < 9 && i != j implies vals[i] != vals[j] by {
        assert(move_ok(g, i, c, cell(g, i, c)));
        assert(cell(g, i, c) != 0);
        if vals[i] == vals[j] {
            assert(cell(g, j, c) == cell(g, i, c));
            assert(col_dup(g, i, c, cell(g, i, c)));
        }
    }
    assert(vals.no_duplicates());
    assert forall|i: int| 0 <= i < 9 implies 1 <= #[trigger] vals[i] <= 9 by {
        assert(cell(g, i, c) != 0 && cell(g, i, c) <= 9);
    }
    lemma_nine_distinct_digits_cover(vals, d as int);
    let i = choose|i: int| 0 <= i < vals.len() && vals[i] == d as int;
    assert(cell(g, i, c) == d);
}

/// The 3x3 box of (r, c) in a complete, conflict-free grid holds `d`.
proof fn lemma_box_covers(g: Seq<u8>, r: int, c: int, d: u8)
    requires
        solution_ok(g),
        in_bounds(r, c),
        1 <= d <= 9,
    ensures
        box_has(g, r, c, d),
{
    let br = 3 * (r / 3);
    let bc = 3 * (c / 3);
    let vals = Seq::new(9, |k: int| cell(g, br + k / 3, bc + k % 3) as int);
    assert forall|i: int, j: int|
        0 <= i < 9 && 0 <= j < 9 && i != j implies vals[i] != vals[j] by {
        let ri = br + i / 3;
        let ci = bc + i % 3;
        let rj = br + j / 3;
        let cj = bc + j % 3;
        assert(in_bounds(ri, ci) && in_bounds(rj, cj));
        assert(move_ok(g, ri, ci, cell(g, ri, ci)));
        assert(cell(g, ri, ci) != 0);
        if vals[i] == vals[j] {
            assert(!(ri == rj && ci == cj));
            assert(same_box(ri, ci, rj, cj));
            assert(cell(g, rj, cj) == cell(g, ri, ci));
            assert(box_dup(g, ri, ci, cell(g, ri, ci)));
        }
    }
    assert(vals.no_duplicates());
    assert forall|i: int| 0 <= i < 9 implies 1 <= #[trigger] vals[i] <= 9 by {
        assert(cell(g, br + i / 3, bc + i % 3) != 0 && cell(g, br + i / 3, bc + i % 3) <= 9);
    }
    lemma_nine_distinct_digits_cover(vals, d as int);
    let k = choose|k: int| 0 <= k < vals.len() && vals[k] == d as int;
    assert(cell(g, br + k / 3, bc + k % 3) == d);
    assert(in_bounds(br + k / 3, bc + k % 3));
    assert(same_box(r, c, br + k / 3, bc + k % 3));
    assert(box_has(g, r, c, d));
}

/// Law: in a complete, conflict-free, well-formed grid — any solution the
/// generator returns — every row, every column, and every 3x3 box is a
/// permutation of the digits 1..=9: each digit occurs in each unit (the
/// clauses below), and no digit occurs twice (`no_conflicts`, which
/// `solution_ok` carries).
pub proof fn lemma_solution_covers(g: Seq<u8>)
    requires
        solution_ok(g),
    ensures
        forall|r: int, d: u8| 0 <= r < 9 && 1 <= d <= 9 ==> #[trigger] row_has(g, r, d),
        forall|c: int, d: u8| 0 <= c < 9 && 1 <= d <= 9 ==> #[trigger] col_has(g, c, d),
        forall|r: int, c: int, d: u8|
            in_bounds(r, c) && 1 <= d <= 9 ==> #[trigger] box_has(g, r, c, d),
{
    assert forall|r: int, d: u8| 0 <= r < 9 && 1 <= d <= 9 implies #[trigger] row_has(
        g,
        r,
        d,
    ) by {
        lemma_row_covers(g, r, d);
    }
    assert forall|c: int, d: u8| 0 <= c < 9 && 1 <= d <= 9 implies #[trigger] col_has(
        g,
        c,
        d,
    ) by {
        lemma_col_covers(g, c, d);
    }
    assert forall|r: int, c: int, d: u8|
        in_bounds(r, c) && 1 <= d <= 9 implies #[trigger] box_has(g, r, c, d) by {
        lemma_box_covers(g, r, c, d);
    }
}

/// Two sequences with the same multiset hold the same elements: every
/// element of the second occurs somewhere in the first.
pub proof fn lemma_same_multiset_elements(s1: Seq<u8>, s2: Seq<u8>)
    requires
        s1.to_multiset() == s2.to_multiset(),
    ensures
        forall|i: int| 0 <= i < s2.len() ==> s1.contains(#[trigger] s2[i]),
{
    broadcast use vstd::seq_lib::group_to_multiset_ensures;

    assert forall|i: int| 0 <= i < s2.len() implies s1.contains(s2[i]) by {
        assert(s2.contains(s2[i]));
        assert(s2.to_multiset().count(s2[i]) > 0);
    }
}

} // verus!
