use sudoku::generator::{generate, Generator};

/// Checks that the nine values are a permutation of 1..=9.
fn is_permutation_of_digits(values: &[u8]) -> bool {
    let mut seen = [false; 10];
    if values.len() != 9 {
        return false;
    }
    for &v in values {
        if v < 1 || v > 9 || seen[v as usize] {
            return false;
        }
        seen[v as usize] = true;
    }
    true
}

#[test]
fn generated_grid_rows_columns_boxes_are_permutations() {
    let g = generate();
    assert_eq!(g.len(), 81);
    for r in 0..9 {
        let row: Vec<u8> = (0..9).map(|c| g[r * 9 + c]).collect();
        assert!(is_permutation_of_digits(&row), "row {r} is invalid: {row:?}");
    }
    for c in 0..9 {
        let col: Vec<u8> = (0..9).map(|r| g[r * 9 + c]).collect();
        assert!(is_permutation_of_digits(&col), "column {c} is invalid: {col:?}");
    }
    for br in [0, 3, 6] {
        for bc in [0, 3, 6] {
            let mut cells = Vec::new();
            for dr in 0..3 {
                for dc in 0..3 {
                    cells.push(g[(br + dr) * 9 + (bc + dc)]);
                }
            }
            assert!(
                is_permutation_of_digits(&cells),
                "box at ({br}, {bc}) is invalid: {cells:?}"
            );
        }
    }
}

#[test]
fn two_generated_grids_are_complete() {
    // Generation always succeeds; run it twice to exercise the
    // randomized search more than once.
    for _ in 0..2 {
        let g = generate();
        assert_eq!(g.len(), 81);
        assert!(g.iter().all(|&v| (1..=9).contains(&v)));
    }
}

#[test]
fn fresh_generator_starts_at_the_first_cell() {
    let generator = Generator::new();
    assert_eq!(generator.find_empty(), Some((0, 0)));
}

#[test]
fn every_digit_is_safe_on_an_empty_board() {
    let generator = Generator::new();
    for num in 1u8..=9 {
        assert!(generator.is_safe(4, 4, num));
    }
}

#[test]
fn filled_generator_has_no_empty_cell() {
    let mut generator = Generator::new();
    assert!(generator.fill());
    assert_eq!(generator.find_empty(), None);
}

#[test]
fn filled_generator_rejects_any_further_digit() {
    // After a fill, every row already holds each digit, so no placement
    // is safe anywhere.
    let mut generator = Generator::new();
    assert!(generator.fill());
    for num in 1u8..=9 {
        assert!(!generator.is_safe(0, 0, num));
    }
}
