use sudoku_engine::board_neighbours::column_indexes;
use sudoku_engine::board_neighbours::neighbours;
use sudoku_engine::board_neighbours::row_indexes;
use sudoku_engine::board_neighbours::square_indexes;
use sudoku_engine::board_neighbours::to_index;

#[test]
fn to_index_formula() {
    assert_eq!(to_index(0, 0), 0);
    assert_eq!(to_index(0, 8), 8);
    assert_eq!(to_index(1, 0), 9);
    assert_eq!(to_index(3, 4), 31);
    assert_eq!(to_index(8, 8), 80);
}

#[test]
fn to_index_is_injective_over_all_cells() {
    let mut seen = [false; 81];
    for row in 0..9 {
        for column in 0..9 {
            let idx = to_index(row, column);
            assert!(idx < 81);
            assert!(!seen[idx], "two coordinate pairs map to index {}", idx);
            seen[idx] = true;
        }
    }
    assert!(seen.iter().all(|&s| s));
}

#[test]
fn row_indexes_in_column_order() {
    let r = row_indexes(2);
    assert_eq!(r, vec![18, 19, 20, 21, 22, 23, 24, 25, 26]);
}

#[test]
fn column_indexes_in_row_order() {
    let c = column_indexes(3);
    assert_eq!(c, vec![3, 12, 21, 30, 39, 48, 57, 66, 75]);
}

#[test]
fn square_indexes_row_major() {
    let s = square_indexes(0, 0);
    assert_eq!(s, vec![0, 1, 2, 9, 10, 11, 18, 19, 20]);
    let s = square_indexes(1, 2);
    assert_eq!(s, vec![33, 34, 35, 42, 43, 44, 51, 52, 53]);
}

#[test]
fn neighbours_of_corner() {
    let mut n = neighbours(0, 0);
    n.sort();
    let expected = vec![
        1, 2, 3, 4, 5, 6, 7, 8, // rest of row 0
        9, 18, 27, 36, 45, 54, 63, 72, // rest of column 0
        10, 11, 19, 20, // rest of the top-left box
    ];
    let mut expected = expected;
    expected.sort();
    assert_eq!(n, expected);
}

#[test]
fn neighbours_twenty_distinct_never_self() {
    for row in 0..9 {
        for column in 0..9 {
            let idx = to_index(row, column);
            let n = neighbours(row, column);
            assert_eq!(n.len(), 20);
            for (i, &a) in n.iter().enumerate() {
                assert!(a < 81);
                assert_ne!(a, idx, "cell {} listed as its own neighbour", idx);
                for &b in &n[i + 1..] {
                    assert_ne!(a, b, "duplicate neighbour {} of cell {}", a, idx);
                }
            }
        }
    }
}
