//! The board model and the validator.
//!
//! Spec-level predicates define what it means for a grid to respect the
//! Sudoku constraints (no duplicate non-zero value in any row, column or
//! 3x3 block), to be fully filled, solved, or blank. The executable
//! predicates are proved to decide exactly those definitions.

use vstd::prelude::*;

verus! {

/// The cell at row `r`, column `c` of a grid.
pub open spec fn cell(b: [[u8; 9]; 9], r: int, c: int) -> u8 {
    b@[r]@[c]
}

/// Within row `r`, non-zero values are pairwise distinct.
pub open spec fn row_ok(b: [[u8; 9]; 9], r: int) -> bool {
    forall|c1: int, c2: int|
        0 <= c1 < 9 && 0 <= c2 < 9 && c1 != c2 && cell(b, r, c1) != 0
            ==> cell(b, r, c1) != cell(b, r, c2)
}

/// Within column `c`, non-zero values are pairwise distinct.
pub open spec fn col_ok(b: [[u8; 9]; 9], c: int) -> bool {
    forall|r1: int, r2: int|
        0 <= r1 < 9 && 0 <= r2 < 9 && r1 != r2 && cell(b, r1, c) != 0
            ==> cell(b, r1, c) != cell(b, r2, c)
}

/// Within the 3x3 block whose top-left corner is `(br * 3, bc * 3)`,
/// non-zero values are pairwise distinct.
pub open spec fn block_ok(b: [[u8; 9]; 9], br: int, bc: int) -> bool {
    forall|i1: int, j1: int, i2: int, j2: int|
        0 <= i1 < 3 && 0 <= j1 < 3 && 0 <= i2 < 3 && 0 <= j2 < 3
            && (i1, j1) != (i2, j2) && #[trigger] cell(b, br * 3 + i1, bc * 3 + j1) != 0
            ==> cell(b, br * 3 + i1, bc * 3 + j1) != #[trigger] cell(b, br * 3 + i2, bc * 3 + j2)
}

/// All nine rows hold pairwise-distinct non-zero values.
pub open spec fn rows_ok(b: [[u8; 9]; 9]) -> bool {
    forall|r: int| 0 <= r < 9 ==> row_ok(b, r)
}

/// All nine columns hold pairwise-distinct non-zero values.
pub open spec fn cols_ok(b: [[u8; 9]; 9]) -> bool {
    forall|c: int| 0 <= c < 9 ==> col_ok(b, c)
}

/// All nine 3x3 blocks hold pairwise-distinct non-zero values.
pub open spec fn blocks_ok(b: [[u8; 9]; 9]) -> bool {
    forall|br: int, bc: int| 0 <= br < 3 && 0 <= bc < 3 ==> block_ok(b, br, bc)
}

/// The grid violates no Sudoku constraint: every row, column and block
/// holds pairwise-distinct non-zero values. Zero (empty) cells never count
/// as duplicates, so an all-zero grid satisfies this.
pub open spec fn board_ok(b: [[u8; 9]; 9]) -> bool {
    rows_ok(b) && cols_ok(b) && blocks_ok(b)
}

/// Every cell is filled (no zeros).
pub open spec fn full(b: [[u8; 9]; 9]) -> bool {
    forall|r: int, c: int| 0 <= r < 9 && 0 <= c < 9 ==> cell(b, r, c) != 0
}

/// The grid is solved: no constraint violated and no empty cell.
pub open spec fn solved(b: [[u8; 9]; 9]) -> bool {
    board_ok(b) && full(b)
}

/// Every cell holds a value in `0..=9`, the only values a Sudoku grid
/// may carry.
pub open spec fn digits_ok(b: [[u8; 9]; 9]) -> bool {
    forall|r: int, c: int| 0 <= r < 9 && 0 <= c < 9 ==> cell(b, r, c) <= 9
}

/// Every cell is empty.
pub open spec fn blank(b: [[u8; 9]; 9]) -> bool {
    forall|r: int, c: int| 0 <= r < 9 && 0 <= c < 9 ==> cell(b, r, c) == 0
}

/// The number of zeros in row `r` among the first `c` columns.
pub open spec fn zeros_in_row(b: [[u8; 9]; 9], r: int, c: int) -> nat
    decreases c,
{
    if c <= 0 {
        0
    } else {
        zeros_in_row(b, r, c - 1) + (if cell(b, r, c - 1) == 0 {
            1nat
        } else {
            0nat
        })
    }
}

/// The number of zeros in the first `r` full rows.
pub open spec fn zeros_upto(b: [[u8; 9]; 9], r: int) -> nat
    decreases r,
{
    if r <= 0 {
        0
    } else {
        zeros_upto(b, r - 1) + zeros_in_row(b, r - 1, 9)
    }
}

/// The total number of empty (zero) cells in the grid.
pub open spec fn num_zeros(b: [[u8; 9]; 9]) -> nat {
    zeros_upto(b, 9)
}


/// Grids that agree on the first `c` cells of row `r` hold the same
/// number of zeros there.
proof fn lemma_zeros_row_agree(b1: [[u8; 9]; 9], b2: [[u8; 9]; 9], r: int, c: int)
    requires
        forall|j: int| 0 <= j < c ==> cell(b1, r, j) == cell(b2, r, j),
    ensures
        zeros_in_row(b1, r, c) == zeros_in_row(b2, r, c),
    decreases c,
{
    if c > 0 {
        lemma_zeros_row_agree(b1, b2, r, c - 1);
    }
}

/// Filling the single zero cell `(r, x)` lowers the zero count of row `r`
/// by one once the scan passes column `x`.
proof fn lemma_zeros_row_flip(b1: [[u8; 9]; 9], b2: [[u8; 9]; 9], r: int, x: int, c: int)
    requires
        0 <= x,
        cell(b1, r, x) == 0,
        cell(b2, r, x) != 0,
        forall|j: int| 0 <= j < c && j != x ==> cell(b1, r, j) == cell(b2, r, j),
    ensures
        x < c ==> zeros_in_row(b2, r, c) + 1 == zeros_in_row(b1, r, c),
        x >= c ==> zeros_in_row(b2, r, c) == zeros_in_row(b1, r, c),
    decreases c,
{
    if c > 0 {
        lemma_zeros_row_flip(b1, b2, r, x, c - 1);
    }
}

/// Filling the single zero cell `(y, x)` lowers the zero count of the
/// first `r` rows by one once the scan passes row `y`.
proof fn lemma_zeros_upto_flip(b1: [[u8; 9]; 9], b2: [[u8; 9]; 9], y: int, x: int, r: int)
    requires
        0 <= y < 9,
        0 <= x < 9,
        r <= 9,
        cell(b1, y, x) == 0,
        cell(b2, y, x) != 0,
        forall|a: int, c: int|
            0 <= a < 9 && 0 <= c < 9 && (a, c) != (y, x) ==> cell(b2, a, c) == cell(b1, a, c),
    ensures
        y < r ==> zeros_upto(b2, r) + 1 == zeros_upto(b1, r),
        y >= r ==> zeros_upto(b2, r) == zeros_upto(b1, r),
    decreases r,
{
    if r > 0 {
        lemma_zeros_upto_flip(b1, b2, y, x, r - 1);
        if r - 1 == y {
            lemma_zeros_row_flip(b1, b2, y, x, 9);
        } else {
            lemma_zeros_row_agree(b1, b2, r - 1, 9);
        }
    }
}

/// Filling one empty cell lowers the grid's zero count by exactly one.
pub proof fn lemma_num_zeros_update(b1: [[u8; 9]; 9], b2: [[u8; 9]; 9], y: int, x: int)
    requires
        0 <= y < 9,
        0 <= x < 9,
        cell(b1, y, x) == 0,
        cell(b2, y, x) != 0,
        forall|a: int, c: int|
            0 <= a < 9 && 0 <= c < 9 && (a, c) != (y, x) ==> cell(b2, a, c) == cell(b1, a, c),
    ensures
        num_zeros(b2) + 1 == num_zeros(b1),
{
    lemma_zeros_upto_flip(b1, b2, y, x, 9);
}

/// Grids whose cells all agree are one and the same value.
pub proof fn lemma_boards_equal(b1: [[u8; 9]; 9], b2: [[u8; 9]; 9])
    requires
        forall|r: int, c: int| 0 <= r < 9 && 0 <= c < 9 ==> cell(b1, r, c) == cell(b2, r, c),
    ensures
        b1 == b2,
{
    broadcast use vstd::array::axiom_array_ext_equal;

    assert forall|r: int| 0 <= r < 9 implies b1@[r] == b2@[r] by {
        assert forall|c: int| 0 <= c < 9 implies b1@[r]@[c] == b2@[r]@[c] by {
            assert(cell(b1, r, c) == cell(b2, r, c));
        }
        assert(b1@[r] =~= b2@[r]);
    }
    assert(b1 =~= b2);
}

/// True iff the grid violates no Sudoku constraint: no duplicate non-zero
/// value in any row, column or 3x3 block. Zero cells are ignored, so an
/// all-zero grid is valid here; see `validate` for the boundary policy.
/// Returns `false` as soon as one violation is found.
pub fn is_valid(board: &[[u8; 9]; 9]) -> (res: bool)
    ensures
        res == board_ok(*board),
{
    // rows
    for i in 0..9
        invariant
            forall|r: int| 0 <= r < i ==> row_ok(*board, r),
    {
        for c1 in 0..9
            invariant
                i < 9,
                forall|a: int, c: int|
                    0 <= a < c1 && 0 <= c < 9 && a != c && cell(*board, i as int, a) != 0
                        ==> cell(*board, i as int, a) != cell(*board, i as int, c),
        {
            if board[i][c1] != 0 {
                for c2 in 0..9
                    invariant
                        i < 9,
                        c1 < 9,
                        cell(*board, i as int, c1 as int) != 0,
                        forall|c: int|
                            0 <= c < c2 && c1 != c
                                ==> cell(*board, i as int, c1 as int) != cell(
                                *board,
                                i as int,
                                c,
                            ),
                {
                    if c2 != c1 && board[i][c2] == board[i][c1] {
                        assert(cell(*board, i as int, c2 as int) == cell(
                            *board,
                            i as int,
                            c1 as int,
                        ));
                        assert(!row_ok(*board, i as int));
                        return false;
                    }
                }
            }
        }
    }
    // columns
    for j in 0..9
        invariant
            rows_ok(*board),
            forall|c: int| 0 <= c < j ==> col_ok(*board, c),
    {
        for r1 in 0..9
            invariant
                j < 9,
                forall|a: int, r: int|
                    0 <= a < r1 && 0 <= r < 9 && a != r && cell(*board, a, j as int) != 0
                        ==> cell(*board, a, j as int) != cell(*board, r, j as int),
        {
            if board[r1][j] != 0 {
                for r2 in 0..9
                    invariant
                        j < 9,
                        r1 < 9,
                        cell(*board, r1 as int, j as int) != 0,
                        forall|r: int|
                            0 <= r < r2 && r1 != r
                                ==> cell(*board, r1 as int, j as int) != cell(
                                *board,
                                r,
                                j as int,
                            ),
                {
                    if r2 != r1 && board[r2][j] == board[r1][j] {
                        assert(cell(*board, r2 as int, j as int) == cell(
                            *board,
                            r1 as int,
                            j as int,
                        ));
                        assert(!col_ok(*board, j as int));
                        return false;
                    }
                }
            }
        }
    }
    // 3x3 blocks
    for br in 0..3
        invariant
            rows_ok(*board),
            cols_ok(*board),
            forall|a: int, c: int| 0 <= a < br && 0 <= c < 3 ==> block_ok(*board, a, c),
    {
        for bc in 0..3
            invariant
                br < 3,
                forall|a: int, c: int| 0 <= a < br && 0 <= c < 3 ==> block_ok(*board, a, c),
                forall|c: int| 0 <= c < bc ==> block_ok(*board, br as int, c),
        {
            if !block_free_of_duplicates(board, br, bc) {
                assert(!blocks_ok(*board));
                return false;
            }
        }
    }
    true
}

/// True iff the 3x3 block with top-left corner `(br * 3, bc * 3)` holds no
/// duplicate non-zero value.
fn block_free_of_duplicates(board: &[[u8; 9]; 9], br: usize, bc: usize) -> (res: bool)
    requires
        br < 3,
        bc < 3,
    ensures
        res == block_ok(*board, br as int, bc as int),
{
    for i1 in 0..3
        invariant
            br < 3,
            bc < 3,
            forall|a: int, c: int, i2: int, j2: int|
                0 <= a < i1 && 0 <= c < 3 && 0 <= i2 < 3 && 0 <= j2 < 3 && (a, c) != (i2, j2)
                    && #[trigger] cell(*board, br * 3 + a, bc * 3 + c) != 0
                    ==> cell(*board, br * 3 + a, bc * 3 + c) != #[trigger] cell(
                    *board,
                    br * 3 + i2,
                    bc * 3 + j2,
                ),
    {
        for j1 in 0..3
            invariant
                br < 3,
                bc < 3,
                i1 < 3,
                forall|a: int, c: int, i2: int, j2: int|
                    0 <= a < 3 && 0 <= c < 3 && 0 <= i2 < 3 && 0 <= j2 < 3 && (a, c) != (i2, j2)
                        && (a < i1 || (a == i1 && c < j1))
                        && #[trigger] cell(*board, br * 3 + a, bc * 3 + c) != 0
                        ==> cell(*board, br * 3 + a, bc * 3 + c) != #[trigger] cell(
                        *board,
                        br * 3 + i2,
                        bc * 3 + j2,
                    ),
        {
            if board[br * 3 + i1][bc * 3 + j1] != 0 {
                for i2 in 0..3
                    invariant
                        br < 3,
                        bc < 3,
                        i1 < 3,
                        j1 < 3,
                        cell(*board, br * 3 + i1 as int, bc * 3 + j1 as int) != 0,
                        forall|a: int, c: int|
                            0 <= a < i2 && 0 <= c < 3 && (i1 as int, j1 as int) != (a, c)
                                ==> cell(*board, br * 3 + i1 as int, bc * 3 + j1 as int)
                                != #[trigger] cell(*board, br * 3 + a, bc * 3 + c),
                {
                    for j2 in 0..3
                        invariant
                            br < 3,
                            bc < 3,
                            i1 < 3,
                            j1 < 3,
                            i2 < 3,
                            cell(*board, br * 3 + i1 as int, bc * 3 + j1 as int) != 0,
                            forall|a: int, c: int|
                                0 <= a < i2 && 0 <= c < 3 && (i1 as int, j1 as int) != (a, c)
                                    ==> cell(*board, br * 3 + i1 as int, bc * 3 + j1 as int)
                                    != #[trigger] cell(*board, br * 3 + a, bc * 3 + c),
                            forall|c: int|
                                0 <= c < j2 && (i1 as int, j1 as int) != (i2 as int, c)
                                    ==> cell(*board, br * 3 + i1 as int, bc * 3 + j1 as int)
                                    != #[trigger] cell(*board, br * 3 + i2 as int, bc * 3 + c),
                    {
                        if (i2 != i1 || j2 != j1)
                            && board[br * 3 + i2][bc * 3 + j2] == board[br * 3 + i1][bc * 3 + j1] {
                            assert(cell(*board, br * 3 + i2 as int, bc * 3 + j2 as int) == cell(
                                *board,
                                br * 3 + i1 as int,
                                bc * 3 + j1 as int,
                            ));
                            assert(!block_ok(*board, br as int, bc as int));
                            return false;
                        }
                    }
                }
            }
        }
    }
    true
}

/// True iff every cell of the grid is zero.
pub fn is_blank(board: &[[u8; 9]; 9]) -> (r: bool)
    ensures
        r == blank(*board),
{
    for i in 0..9
        invariant
            forall|r: int, c: int| 0 <= r < i && 0 <= c < 9 ==> cell(*board, r, c) == 0,
    {
        for j in 0..9
            invariant
                i < 9,
                forall|r: int, c: int| 0 <= r < i && 0 <= c < 9 ==> cell(*board, r, c) == 0,
                forall|c: int| 0 <= c < j ==> cell(*board, i as int, c) == 0,
        {
            if board[i][j] != 0 {
                assert(cell(*board, i as int, j as int) != 0);
                return false;
            }
        }
    }
    true
}

/// True iff the grid is solved: no constraint violated and no empty cell.
/// Returns `false` as soon as an empty cell or a duplicate is found.
pub fn is_solved(board: &[[u8; 9]; 9]) -> (res: bool)
    ensures
        res == solved(*board),
{
    for i in 0..9
        invariant
            forall|r: int, c: int| 0 <= r < i && 0 <= c < 9 ==> cell(*board, r, c) != 0,
    {
        for j in 0..9
            invariant
                i < 9,
                forall|r: int, c: int| 0 <= r < i && 0 <= c < 9 ==> cell(*board, r, c) != 0,
                forall|c: int| 0 <= c < j ==> cell(*board, i as int, c) != 0,
        {
            if board[i][j] == 0 {
                assert(cell(*board, i as int, j as int) == 0);
                return false;
            }
        }
    }
    is_valid(board)
}

/// The number of empty (zero) cells in the grid.
pub fn count_empty(board: &[[u8; 9]; 9]) -> (n: usize)
    ensures
        n == num_zeros(*board),
{
    let mut n: usize = 0;
    for i in 0..9
        invariant
            n == zeros_upto(*board, i as int),
            n <= 9 * (i as int),
    {
        for j in 0..9
            invariant
                i < 9,
                n == zeros_upto(*board, i as int) + zeros_in_row(*board, i as int, j as int),
                n <= 9 * (i as int) + (j as int),
        {
            if board[i][j] == 0 {
                n = n + 1;
            }
        }
    }
    n
}

/// The caller-facing validity check: the grid must violate no Sudoku
/// constraint and must not be entirely empty. An all-zero grid is rejected
/// here by policy, so that a blank board is never handed to the solver;
/// `is_valid` itself does not special-case blankness.
pub fn validate(board: &[[u8; 9]; 9]) -> (res: bool)
    ensures
        res == (board_ok(*board) && !blank(*board)),
{
    is_valid(board) && !is_blank(board)
}

} // verus!
