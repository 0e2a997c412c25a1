use sudoku::board::{is_solved, is_valid};
use sudoku::solver::Sudoku;

/// A classic puzzle with a single solution; row 0 is `[5,3,0,0,7,0,0,0,0]`.
fn clue_board() -> [[u8; 9]; 9] {
    [
        [5, 3, 0, 0, 7, 0, 0, 0, 0],
        [6, 0, 0, 1, 9, 5, 0, 0, 0],
        [0, 9, 8, 0, 0, 0, 0, 6, 0],
        [8, 0, 0, 0, 6, 0, 0, 0, 3],
        [4, 0, 0, 8, 0, 3, 0, 0, 1],
        [7, 0, 0, 0, 2, 0, 0, 0, 6],
        [0, 6, 0, 0, 0, 0, 2, 8, 0],
        [0, 0, 0, 4, 1, 9, 0, 0, 5],
        [0, 0, 0, 0, 8, 0, 0, 7, 9],
    ]
}

/// The unique solution of `clue_board`.
fn solved_board() -> [[u8; 9]; 9] {
    [
        [5, 3, 4, 6, 7, 8, 9, 1, 2],
        [6, 7, 2, 1, 9, 5, 3, 4, 8],
        [1, 9, 8, 3, 4, 2, 5, 6, 7],
        [8, 5, 9, 7, 6, 1, 4, 2, 3],
        [4, 2, 6, 8, 5, 3, 7, 9, 1],
        [7, 1, 3, 9, 2, 4, 8, 5, 6],
        [9, 6, 1, 5, 3, 7, 2, 8, 4],
        [2, 8, 7, 4, 1, 9, 6, 3, 5],
        [3, 4, 5, 2, 8, 6, 1, 7, 9],
    ]
}

#[test]
fn new_and_get_board_round_trip() {
    let b = clue_board();
    let s = Sudoku::new(b);
    assert_eq!(s.get_board(), b);
}

#[test]
fn solve_on_solved_board_is_identity() {
    let b = solved_board();
    let mut s = Sudoku::new(b);
    assert!(s.solve());
    assert_eq!(s.get_board(), b);
}

#[test]
fn solve_finds_the_unique_solution() {
    let mut s = Sudoku::new(clue_board());
    assert!(s.solve());
    assert_eq!(s.get_board(), solved_board());
}

#[test]
fn solve_preserves_clues() {
    let clues = clue_board();
    let mut s = Sudoku::new(clues);
    assert!(s.solve());
    let out = s.get_board();
    for r in 0..9 {
        for c in 0..9 {
            if clues[r][c] != 0 {
                assert_eq!(out[r][c], clues[r][c]);
            }
        }
    }
}

#[test]
fn solve_result_is_solved() {
    let mut s = Sudoku::new(clue_board());
    assert!(s.solve());
    let out = s.get_board();
    assert!(is_valid(&out));
    assert!(is_solved(&out));
}

#[test]
fn solve_blank_board_yields_complete_grid() {
    let mut s = Sudoku::new([[0u8; 9]; 9]);
    assert!(s.solve());
    let out = s.get_board();
    assert!(is_solved(&out));
    // The scan order (row-major cells, ascending digits) fixes which of
    // the many completions comes out; its first row is forced digit by
    // digit.
    assert_eq!(out[0], [1, 2, 3, 4, 5, 6, 7, 8, 9]);
}

#[test]
fn solve_reports_unsolvable_and_restores_board() {
    // Cell (0,8) is the first empty cell and admits no digit: 1..=8 sit
    // in its row and 9 in its column.
    let mut b = [[0u8; 9]; 9];
    b[0] = [1, 2, 3, 4, 5, 6, 7, 8, 0];
    b[1][8] = 9;
    let mut s = Sudoku::new(b);
    assert!(!s.solve());
    assert_eq!(s.get_board(), b);
}

#[test]
fn full_but_invalid_board_is_not_reported_solved() {
    // Every cell filled with 1: nothing to search, but the grid violates
    // the invariants, so the outcome is unsolvable, board untouched.
    let b = [[1u8; 9]; 9];
    let mut s = Sudoku::new(b);
    assert!(!s.solve());
    assert_eq!(s.get_board(), b);
    assert!(!is_solved(&s.get_board()));
}

#[test]
fn contradictory_clues_are_unsolvable() {
    // A duplicated clue (8 twice in row 3) admits no completion; the
    // solver reports that and leaves the board exactly as it was.
    let mut b = clue_board();
    b[3][1] = 8; // row 3 already holds 8 at (3,0)
    let mut s = Sudoku::new(b);
    assert!(!s.solve());
    assert_eq!(s.get_board(), b);
}

#[test]
fn check_respects_row_column_and_block() {
    let s = Sudoku::new(clue_board());
    // (0,2) takes 4 in the unique solution.
    assert!(s.check((0, 2), 4));
    // 5 already sits in row 0, 8 in column 2, 9 in the top-left block.
    assert!(!s.check((0, 2), 5));
    assert!(!s.check((0, 2), 8));
    assert!(!s.check((0, 2), 9));
}
