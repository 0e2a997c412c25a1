use sudoku::board::{count_empty, is_blank, is_solved, is_valid, validate};

/// A classic puzzle with a single solution; row 0 is `[5,3,0,0,7,0,0,0,0]`.
fn clue_board() -> [[u8; 9]; 9] {
    [
        [5, 3, 0, 0, 7, 0, 0, 0, 0],
        [6, 0, 0, 1, 9, 5, 0, 0, 0],
        [0, 9, 8, 0, 0, 0, 0, 6, 0],
        [8, 0, 0, 0, 6, 0, 0, 0, 3],
        [4, 0, 0, 8, 0, 3, 0, 0, 1],
        [7, 0, 0, 0, 2, 0, 0, 0, 6],
        [0, 6, 0, 0, 0, 0, 2, 8, 0],
        [0, 0, 0, 4, 1, 9, 0, 0, 5],
        [0, 0, 0, 0, 8, 0, 0, 7, 9],
    ]
}

/// The unique solution of `clue_board`.
fn solved_board() -> [[u8; 9]; 9] {
    [
        [5, 3, 4, 6, 7, 8, 9, 1, 2],
        [6, 7, 2, 1, 9, 5, 3, 4, 8],
        [1, 9, 8, 3, 4, 2, 5, 6, 7],
        [8, 5, 9, 7, 6, 1, 4, 2, 3],
        [4, 2, 6, 8, 5, 3, 7, 9, 1],
        [7, 1, 3, 9, 2, 4, 8, 5, 6],
        [9, 6, 1, 5, 3, 7, 2, 8, 4],
        [2, 8, 7, 4, 1, 9, 6, 3, 5],
        [3, 4, 5, 2, 8, 6, 1, 7, 9],
    ]
}

#[test]
fn blank_board_is_blank() {
    let blank = [[0u8; 9]; 9];
    assert!(is_blank(&blank));
}

#[test]
fn clue_board_is_not_blank() {
    assert!(!is_blank(&clue_board()));
}

#[test]
fn full_valid_grid_is_solved() {
    let b = solved_board();
    assert!(is_valid(&b));
    assert!(is_solved(&b));
}

#[test]
fn partial_board_valid_but_not_solved() {
    // Row 0 holds [5,3,0,0,7,0,0,0,0] and a legal completion exists:
    // valid, but not solved while a zero is present.
    let b = clue_board();
    assert!(is_valid(&b));
    assert!(!is_solved(&b));
}

#[test]
fn row_duplicate_makes_board_invalid() {
    // Row 0 holds [5,3,5,0,7,0,0,0,0]: the duplicate 5 alone decides.
    let mut b = clue_board();
    b[0][2] = 5;
    assert!(!is_valid(&b));
    assert!(!is_solved(&b));
}

#[test]
fn column_duplicate_makes_board_invalid() {
    // Column 0 then holds 5 at rows 0 and 8.
    let mut b = clue_board();
    b[8][0] = 5;
    assert!(!is_valid(&b));
}

#[test]
fn block_duplicate_makes_board_invalid() {
    // Cells (0,4) and (1,4) sit in one block; both then hold 7.
    let mut b = clue_board();
    b[1][4] = 7;
    // The column sees 7 too, so plant a block-only clash instead:
    b[1][4] = 0;
    b[2][3] = 7; // block (0,1) now holds 7 at (0,4) and (2,3)
    assert!(!is_valid(&b));
}

#[test]
fn all_zero_board_is_valid_but_rejected_by_validate() {
    let blank = [[0u8; 9]; 9];
    // No duplicates to find: the three invariants hold...
    assert!(is_valid(&blank));
    // ...yet the boundary check rejects a board with no clue at all.
    assert!(!validate(&blank));
}

#[test]
fn validate_accepts_clue_board() {
    assert!(validate(&clue_board()));
}

#[test]
fn validate_rejects_duplicates() {
    let mut b = clue_board();
    b[0][2] = 5;
    assert!(!validate(&b));
}

#[test]
fn count_empty_counts_zeros() {
    assert_eq!(count_empty(&[[0u8; 9]; 9]), 81);
    assert_eq!(count_empty(&solved_board()), 0);
    assert_eq!(count_empty(&clue_board()), 51);
}

#[test]
fn values_above_nine_still_checked_for_duplicates() {
    // Out-of-range values are the boundary's contract violation, but the
    // validator still answers by the duplicate rule instead of crashing.
    let mut b = [[0u8; 9]; 9];
    b[3][2] = 200;
    b[3][7] = 200;
    assert!(!is_valid(&b));
}
