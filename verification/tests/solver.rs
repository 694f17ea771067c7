use sudoku::{Solver, SudokuPuzzle};

fn example_solution_rows() -> Vec<&'static str> {
    vec![
        "534678912",
        "672195348",
        "198342567",
        "859761423",
        "426853791",
        "713924856",
        "961537284",
        "287419635",
        "345286179",
    ]
}

fn assert_same_cells(a: &SudokuPuzzle, b: &SudokuPuzzle) {
    for r in 0..9 {
        for c in 0..9 {
            assert_eq!(a.get(r, c), b.get(r, c), "cell ({}, {})", r, c);
        }
    }
}

fn assert_solved(s: &SudokuPuzzle) {
    assert_eq!(s.holes().len(), 0);
    assert!(s.is_legal());
    for r in 0..9 {
        for c in 0..9 {
            let v = s.get(r, c).expect("complete grid");
            assert!((1..=9).contains(&v));
        }
    }
}

#[test]
fn solve_example_matches_known_solution() {
    let solved = Solver::new(SudokuPuzzle::example())
        .solve()
        .expect("the example puzzle is solvable");
    assert_solved(&solved);
    let expected = SudokuPuzzle::new(example_solution_rows());
    assert_same_cells(&solved, &expected);
}

#[test]
fn solve_keeps_givens() {
    let p = SudokuPuzzle::example();
    let solved = Solver::new(SudokuPuzzle::example()).solve().unwrap();
    for r in 0..9 {
        for c in 0..9 {
            if let Some(v) = p.get(r, c) {
                assert_eq!(solved.get(r, c), Some(v));
            }
        }
    }
}

#[test]
fn solve_hard_example() {
    let solved = Solver::new(SudokuPuzzle::hard_example())
        .solve()
        .expect("the hard example puzzle is solvable");
    assert_solved(&solved);
    let p = SudokuPuzzle::hard_example();
    for r in 0..9 {
        for c in 0..9 {
            if let Some(v) = p.get(r, c) {
                assert_eq!(solved.get(r, c), Some(v));
            }
        }
    }
}

#[test]
fn solve_complete_grid_returns_it_unchanged() {
    let full = SudokuPuzzle::new(example_solution_rows());
    let solved = Solver::new(SudokuPuzzle::new(example_solution_rows()))
        .solve()
        .expect("a complete legal grid is its own solution");
    assert_same_cells(&solved, &full);
}

#[test]
fn solve_single_hole_forced() {
    // The full example solution with one cell blanked: the remaining row,
    // column, and block rule out eight of nine values, so the one legal
    // value is forced without branching.
    let mut rows = example_solution_rows();
    rows[0] = " 34678912";
    let solved = Solver::new(SudokuPuzzle::new(rows)).solve().unwrap();
    assert_eq!(solved.get(0, 0), Some(5));
    assert_same_cells(&solved, &SudokuPuzzle::new(example_solution_rows()));
}

#[test]
fn duplicate_in_row_unsolvable() {
    // Two 5s in row 0; the hole at (0, 8) needs 8 or 9, both of which sit
    // in column 8, so no value is legal there.
    let p = SudokuPuzzle::new(vec!["55123467 ", "        8", "        9"]);
    assert!(Solver::new(p).solve().is_none());
}

#[test]
fn duplicate_in_column_unsolvable() {
    // Two 5s in column 0; the hole at (2, 0) needs 5, which its column
    // already holds.
    let p = SudokuPuzzle::new(vec!["5", "5", " 12346789"]);
    assert!(Solver::new(p).solve().is_none());
}

#[test]
fn empty_grid_is_solvable() {
    let empty = SudokuPuzzle::new(vec![]);
    for r in 0..9 {
        for c in 0..9 {
            assert_eq!(empty.get(r, c), None);
        }
    }
    let solved = Solver::new(empty).solve().expect("an empty grid has completions");
    assert_solved(&solved);
}

#[test]
fn permitted_values_shrink_as_cells_fill() {
    let mut p = SudokuPuzzle::example();
    let before = p.permitted_values(8, 0).to_vec();
    assert_eq!(before, vec![1, 2, 3]);
    p.set(8, 1, 1);
    let after = p.permitted_values(8, 0).to_vec();
    assert_eq!(after, vec![2, 3]);
    for v in &after {
        assert!(before.contains(v));
    }
}

#[test]
fn new_parses_blanks_digits_and_short_rows() {
    let p = SudokuPuzzle::new(vec!["05", "", " 9"]);
    assert_eq!(p.get(0, 0), None);
    assert_eq!(p.get(0, 1), Some(5));
    assert_eq!(p.get(0, 2), None);
    assert_eq!(p.get(1, 0), None);
    assert_eq!(p.get(2, 1), Some(9));
    assert_eq!(p.get(8, 8), None);
}

#[test]
fn value_set_lists_members_in_ascending_order() {
    let p = SudokuPuzzle::example();
    let r = p.row(3).to_vec();
    assert_eq!(r, vec![0, 3, 6, 8]);
    let b = p.blk(2, 1).to_vec();
    assert_eq!(b, vec![0, 1, 4, 8, 9]);
}

#[test]
fn is_legal_spots_a_clash() {
    let p = SudokuPuzzle::example();
    assert!(p.is_legal());
    let mut q = SudokuPuzzle::example();
    // Row 0 already holds a 5 at (0, 0).
    q.set(0, 8, 5);
    assert!(!q.is_legal());
}
