use sudoku_engine::board::Board;
use sudoku_engine::board_neighbours::to_index;

#[test]
fn empty_grid_has_no_conflicts() {
    let mut b = Board::new();
    b.validate_all();
    for idx in 0..81 {
        assert!(!b.get_error(idx));
    }
}

#[test]
fn row_conflict_flags_both_cells() {
    let mut b = Board::new();
    b.set(to_index(0, 0), 5);
    b.set(to_index(0, 5), 5);
    b.validate_all();
    assert!(b.get_error(to_index(0, 0)));
    assert!(b.get_error(to_index(0, 5)));
    // an uninvolved cell stays clean
    assert!(!b.get_error(to_index(4, 4)));
}

#[test]
fn column_conflict_flags_both_cells() {
    let mut b = Board::new();
    b.set(to_index(1, 3), 7);
    b.set(to_index(8, 3), 7);
    b.validate_all();
    assert!(b.get_error(to_index(1, 3)));
    assert!(b.get_error(to_index(8, 3)));
    assert!(!b.get_error(to_index(0, 0)));
}

#[test]
fn box_conflict_flags_both_cells() {
    let mut b = Board::new();
    // (4,4) and (5,3) share the middle box but neither row nor column
    b.set(to_index(4, 4), 9);
    b.set(to_index(5, 3), 9);
    b.validate_all();
    assert!(b.get_error(to_index(4, 4)));
    assert!(b.get_error(to_index(5, 3)));
}

#[test]
fn equal_values_without_shared_group_do_not_conflict() {
    let mut b = Board::new();
    b.set(to_index(0, 0), 5);
    b.set(to_index(1, 4), 5);
    b.validate_all();
    assert!(!b.get_error(to_index(0, 0)));
    assert!(!b.get_error(to_index(1, 4)));
}

#[test]
fn zeros_never_conflict_with_each_other() {
    let mut b = Board::new();
    b.set(to_index(0, 0), 3);
    b.validate_all();
    // every other cell of the row is 0; none is flagged
    for column in 1..9 {
        assert!(!b.get_error(to_index(0, column)));
    }
    assert!(!b.get_error(to_index(0, 0)));
}

#[test]
fn validate_square_reports_per_cell() {
    let mut b = Board::new();
    b.set(to_index(2, 2), 4);
    b.set(to_index(2, 7), 4);
    assert!(!b.validate_square(2, 2));
    assert!(!b.validate_square(2, 7));
    assert!(b.validate_square(2, 3));
    assert!(b.validate_square(0, 0));
}

#[test]
fn from_array_stores_the_given_values() {
    let mut values = [0u8; 81];
    values[0] = 1;
    values[40] = 9;
    values[80] = 5;
    let b = Board::from_array(values);
    assert_eq!(b.get(0), 1);
    assert_eq!(b.get(40), 9);
    assert_eq!(b.get(80), 5);
    assert_eq!(b.get(1), 0);
}

#[test]
fn set_get_clear() {
    let mut b = Board::new();
    b.set(10, 8);
    assert_eq!(b.get(10), 8);
    b.set(10, 2);
    assert_eq!(b.get(10), 2);
    b.clear();
    for idx in 0..81 {
        assert_eq!(b.get(idx), 0);
    }
}

#[test]
fn revalidation_clears_stale_flags() {
    let mut b = Board::new();
    b.set(to_index(0, 0), 5);
    b.set(to_index(0, 5), 5);
    b.validate_all();
    assert!(b.get_error(to_index(0, 0)));
    b.set(to_index(0, 5), 6);
    b.validate_all();
    assert!(!b.get_error(to_index(0, 0)));
    assert!(!b.get_error(to_index(0, 5)));
}
