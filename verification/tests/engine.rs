use sudoku_engine::board::Board;
use sudoku_engine::board_neighbours::to_index;
use sudoku_engine::board_solving::BoardSolving;

fn export(bs: &BoardSolving) -> [u8; 81] {
    let mut board = Board::new();
    bs.write_board(&mut board);
    let mut out = [0u8; 81];
    for idx in 0..81 {
        out[idx] = board.get(idx);
    }
    out
}

/// A complete valid grid (rows are cyclic shifts of 1..9).
fn solved_grid() -> [u8; 81] {
    let shifts: [usize; 9] = [0, 3, 6, 1, 4, 7, 2, 5, 8];
    let mut g = [0u8; 81];
    for row in 0..9 {
        for column in 0..9 {
            g[9 * row + column] = (((shifts[row] + column) % 9) + 1) as u8;
        }
    }
    g
}

#[test]
fn assigning_the_same_digit_twice_in_a_row_is_a_contradiction() {
    let mut bs = BoardSolving::new();
    assert!(bs.set(0, 0, 5).is_ok());
    // (0,1) lost 5 in the first cascade: assigning it 5 must fail loudly
    assert!(bs.set(0, 1, 5).is_err());
}

#[test]
fn assigning_distinct_digits_in_a_row_is_fine() {
    let mut bs = BoardSolving::new();
    assert!(bs.set(0, 0, 5).is_ok());
    assert!(bs.set(0, 1, 6).is_ok());
    let g = export(&bs);
    assert_eq!(g[0], 5);
    assert_eq!(g[1], 6);
}

#[test]
fn zero_is_a_no_op_not_an_error() {
    let mut bs = BoardSolving::new();
    assert!(bs.set(4, 4, 0).is_ok());
    let g = export(&bs);
    assert_eq!(g, [0u8; 81]);
}

#[test]
fn eight_digits_force_the_ninth_in_the_row() {
    let mut bs = BoardSolving::new();
    for column in 0..8 {
        assert!(bs.set(0, column, column + 1).is_ok());
    }
    // (0,8) was never assigned, yet the cascade forced it to 9
    let g = export(&bs);
    for column in 0..9u8 {
        assert_eq!(g[usize::from(column)], column + 1);
    }
}

#[test]
fn export_is_idempotent() {
    let mut bs = BoardSolving::new();
    assert!(bs.set(0, 0, 1).is_ok());
    assert!(bs.set(3, 4, 7).is_ok());
    let first = export(&bs);
    let second = export(&bs);
    assert_eq!(first, second);
}

#[test]
fn export_overwrites_previous_board_values() {
    let bs = BoardSolving::new();
    let mut board = Board::new();
    board.set(17, 9);
    bs.write_board(&mut board);
    assert_eq!(board.get(17), 0);
}

#[test]
fn from_board_keeps_the_givens() {
    let mut b = Board::new();
    b.set(to_index(0, 0), 4);
    b.set(to_index(5, 7), 2);
    let bs = BoardSolving::from_board(&b).unwrap();
    let g = export(&bs);
    assert_eq!(g[usize::from(to_index(0, 0))], 4);
    assert_eq!(g[usize::from(to_index(5, 7))], 2);
}

#[test]
fn from_board_rejects_conflicting_givens() {
    let mut b = Board::new();
    b.set(to_index(0, 0), 5);
    b.set(to_index(0, 1), 5);
    assert!(BoardSolving::from_board(&b).is_err());
}

#[test]
fn from_board_of_empty_grid_is_a_fresh_engine() {
    let b = Board::new();
    let bs = BoardSolving::from_board(&b).unwrap();
    let g = export(&bs);
    assert_eq!(g, [0u8; 81]);
}

#[test]
fn solve_step_finds_a_hidden_single() {
    let mut bs = BoardSolving::new();
    // pin digit 1 in row 0 down to the single cell (0,2)
    assert!(bs.set(1, 3, 1).is_ok());
    assert!(bs.set(2, 6, 1).is_ok());
    assert!(bs.set(4, 0, 1).is_ok());
    assert!(bs.set(7, 1, 1).is_ok());
    let before = export(&bs);
    assert_eq!(before[2], 0);
    let progress = bs.solve_step().unwrap();
    assert!(progress);
    let after = export(&bs);
    assert_eq!(after[2], 1);
}

#[test]
fn solve_step_on_empty_engine_makes_no_progress_and_no_error() {
    let mut bs = BoardSolving::new();
    let progress = bs.solve_step().unwrap();
    assert!(!progress);
    assert_eq!(export(&bs), [0u8; 81]);
}

#[test]
fn repeated_solve_steps_reach_a_fixed_point_on_a_singles_puzzle() {
    let solution = solved_grid();
    let mut puzzle = solution;
    // blank five cells in distinct rows, columns, and boxes
    for &idx in &[to_index(0, 0), to_index(1, 4), to_index(2, 8), to_index(4, 2), to_index(7, 6)] {
        puzzle[usize::from(idx)] = 0;
    }
    let b = Board::from_array(puzzle);
    let mut bs = BoardSolving::from_board(&b).unwrap();
    let mut passes: u32 = 0;
    loop {
        let progress = bs.solve_step().unwrap();
        if !progress {
            break;
        }
        passes += 1;
        assert!(passes <= 82, "solve_step kept reporting progress");
    }
    let g = export(&bs);
    assert_eq!(g, solution);
}

#[test]
fn a_puzzle_beyond_singles_stalls_without_error() {
    // two givens cannot determine anything: the engine must stabilise
    // with unknowns left and report that as no progress, not as an error
    let mut b = Board::new();
    b.set(to_index(0, 0), 1);
    b.set(to_index(8, 8), 2);
    let mut bs = BoardSolving::from_board(&b).unwrap();
    let mut passes: u32 = 0;
    loop {
        let progress = bs.solve_step().unwrap();
        if !progress {
            break;
        }
        passes += 1;
        assert!(passes <= 82);
    }
    let g = export(&bs);
    assert_eq!(g[0], 1);
    assert_eq!(g[80], 2);
    assert!(g.iter().filter(|&&v| v == 0).count() > 0);
}

#[test]
fn last_write_wins_is_rejected_once_the_digit_is_eliminated() {
    let mut bs = BoardSolving::new();
    assert!(bs.set(0, 0, 3).is_ok());
    // re-assigning the same cell the same digit is harmless
    assert!(bs.set(0, 0, 3).is_ok());
    // but a digit no longer possible for the cell is a contradiction
    assert!(bs.set(0, 0, 4).is_err());
}
