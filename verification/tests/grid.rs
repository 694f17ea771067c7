use sudoku::{SudokuPuzzle, ValueSet};

fn value_set(vals: Vec<u8>) -> ValueSet {
    let mut s = ValueSet::empty();
    for v in vals {
        s.insert(v);
    }
    s
}

#[test]
fn get_01() {
    let p = SudokuPuzzle::example();
    assert_eq!(p.get(0, 0), Some(5));
}

#[test]
fn get_02() {
    let p = SudokuPuzzle::example();
    assert_eq!(p.get(5, 4), Some(2));
}

#[test]
fn get_03() {
    let p = SudokuPuzzle::example();
    assert_eq!(p.get(2, 6), None);
}

#[test]
fn set_01() {
    let mut p = SudokuPuzzle::example();
    p.set(5, 4, 8);
    assert_eq!(p.get(5, 4), Some(8));
}

#[test]
fn set_02() {
    let mut p = SudokuPuzzle::example();
    p.set(2, 6, 3);
    assert_eq!(p.get(2, 6), Some(3));
}

#[test]
fn row_01() {
    let p = SudokuPuzzle::example();
    let r = p.row(3);
    assert_eq!(r, value_set(vec![8, 0, 0, 0, 6, 0, 0, 0, 3]));
}

#[test]
fn row_02() {
    let p = SudokuPuzzle::example();
    let r = p.row(8);
    assert_eq!(r, value_set(vec![0, 0, 0, 0, 8, 0, 0, 7, 9]));
}

#[test]
fn col_01() {
    let p = SudokuPuzzle::example();
    let c = p.col(3);
    assert_eq!(c, value_set(vec![0, 1, 0, 0, 8, 0, 0, 4, 0]));
}

#[test]
fn col_02() {
    let p = SudokuPuzzle::example();
    let c = p.col(0);
    assert_eq!(c, value_set(vec![5, 6, 0, 8, 4, 7, 0, 0, 0]));
}

#[test]
fn blk_01() {
    let p = SudokuPuzzle::example();
    let b = p.blk(0, 0);
    assert_eq!(b, value_set(vec![5, 3, 0, 6, 0, 0, 0, 9, 8]));
}

#[test]
fn blk_02() {
    let p = SudokuPuzzle::example();
    let b = p.blk(2, 1);
    assert_eq!(b, value_set(vec![0, 0, 0, 4, 1, 9, 0, 8, 0]));
}

#[test]
fn permitted_values_01() {
    let p = SudokuPuzzle::example();
    assert_eq!(p.permitted_values(4, 4), value_set(vec![5]));
}

#[test]
fn permitted_values_02() {
    let p = SudokuPuzzle::example();
    assert_eq!(p.permitted_values(8, 0), value_set(vec![1, 2, 3]));
}

#[test]
fn holes_01() {
    let p = SudokuPuzzle::example();
    let actual_holes = vec![
        vec![2, 3, 5, 6, 7, 8],
        vec![1, 2, 6, 7, 8],
        vec![0, 3, 4, 5, 6, 8],
        vec![1, 2, 3, 5, 6, 7],
        vec![1, 2, 4, 6, 7],
        vec![1, 2, 3, 5, 6, 7],
        vec![0, 2, 3, 4, 5, 8],
        vec![0, 1, 2, 6, 7],
        vec![0, 1, 2, 3, 5, 6],
    ];
    let holes = p.holes();
    for (row, data) in actual_holes.iter().enumerate() {
        for &col in data {
            assert!(holes.contains(&(row, col)));
        }
    }
}
