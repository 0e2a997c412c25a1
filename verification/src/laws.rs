//! Stated laws of the validator and the solver.
//!
//! Each proof function records, over the spec-level board predicates, a
//! guarantee that the executable functions then enjoy through their
//! contracts: `is_solved` decides `solved`, `is_valid` decides
//! `board_ok`, and `solve` answers `true` exactly with the least
//! completion whenever one exists.

use vstd::prelude::*;

use crate::board::{blank, block_ok, board_ok, cell, col_ok, digits_ok, full, row_ok, solved};
use crate::solver::{agree_below, cell_at, lex_le, solution_of};

verus! {

/// A grid with no empty cell and no constraint violation is solved, so
/// `is_solved` returns `true` on every such grid.
pub proof fn lemma_full_and_ok_is_solved(b: [[u8; 9]; 9])
    requires
        board_ok(b),
        full(b),
    ensures
        solved(b),
{
}

/// A non-zero value that occurs twice within one row makes the grid
/// invalid, whatever the rest of the grid holds: `is_valid` returns
/// `false` on it.
pub proof fn lemma_row_duplicate_invalid(b: [[u8; 9]; 9], r: int, c1: int, c2: int)
    requires
        0 <= r < 9,
        0 <= c1 < 9,
        0 <= c2 < 9,
        c1 != c2,
        cell(b, r, c1) != 0,
        cell(b, r, c1) == cell(b, r, c2),
    ensures
        !board_ok(b),
{
    assert(!row_ok(b, r));
}

/// A non-zero value that occurs twice within one column makes the grid
/// invalid, whatever the rest of the grid holds.
pub proof fn lemma_col_duplicate_invalid(b: [[u8; 9]; 9], c: int, r1: int, r2: int)
    requires
        0 <= c < 9,
        0 <= r1 < 9,
        0 <= r2 < 9,
        r1 != r2,
        cell(b, r1, c) != 0,
        cell(b, r1, c) == cell(b, r2, c),
    ensures
        !board_ok(b),
{
    assert(!col_ok(b, c));
}

/// A non-zero value that occurs twice within one 3x3 block makes the
/// grid invalid, whatever the rest of the grid holds.
pub proof fn lemma_block_duplicate_invalid(b: [[u8; 9]; 9], r1: int, c1: int, r2: int, c2: int)
    requires
        0 <= r1 < 9,
        0 <= c1 < 9,
        0 <= r2 < 9,
        0 <= c2 < 9,
        (r1, c1) != (r2, c2),
        r1 / 3 == r2 / 3,
        c1 / 3 == c2 / 3,
        cell(b, r1, c1) != 0,
        cell(b, r1, c1) == cell(b, r2, c2),
    ensures
        !board_ok(b),
{
    let br = r1 / 3;
    let bc = c1 / 3;
    assert(cell(b, br * 3 + (r1 - br * 3), bc * 3 + (c1 - bc * 3)) != 0);
    assert(cell(b, br * 3 + (r2 - br * 3), bc * 3 + (c2 - bc * 3)) == cell(b, r2, c2));
    assert(!block_ok(b, br, bc));
}

/// One complete Sudoku grid, written out as a witness.
spec fn witness_grid() -> [[u8; 9]; 9] {
    [
        [1u8, 2, 3, 4, 5, 6, 7, 8, 9],
        [4u8, 5, 6, 7, 8, 9, 1, 2, 3],
        [7u8, 8, 9, 1, 2, 3, 4, 5, 6],
        [2u8, 1, 4, 3, 6, 5, 8, 9, 7],
        [3u8, 6, 5, 8, 9, 7, 2, 1, 4],
        [8u8, 9, 7, 2, 1, 4, 3, 6, 5],
        [5u8, 3, 1, 6, 4, 2, 9, 7, 8],
        [6u8, 4, 2, 9, 7, 8, 5, 3, 1],
        [9u8, 7, 8, 5, 3, 1, 6, 4, 2],
    ]
}

/// A board of all zeros constrains nothing, so it always has a
/// completion; by `solve`'s completeness guarantee, the solver therefore
/// returns `true` on it (with some valid complete grid as the outcome,
/// per its other guarantees).
#[verifier::rlimit(60)]
pub proof fn lemma_blank_board_is_solvable(b: [[u8; 9]; 9])
    requires
        blank(b),
    ensures
        exists|s: [[u8; 9]; 9]| solution_of(s, b),
{
    let s = witness_grid();
    assert(board_ok(s));
    assert(full(s));
    assert(digits_ok(s));
    assert forall|r: int, c: int|
        0 <= r < 9 && 0 <= c < 9 && cell(b, r, c) != 0 implies cell(s, r, c) == cell(
        b,
        r,
        c,
    ) by {
        assert(cell(b, r, c) == 0);
    }
    assert(solution_of(s, b));
}

/// A puzzle with exactly one completion admits no other outcome: any
/// solved grid that extends its clues — such as the grid a successful
/// `solve` leaves behind — is that one completion.
pub proof fn lemma_unique_solution_is_the_outcome(
    b: [[u8; 9]; 9],
    s: [[u8; 9]; 9],
    out: [[u8; 9]; 9],
)
    requires
        solution_of(s, b),
        forall|t: [[u8; 9]; 9]| solution_of(t, b) ==> t == s,
        solution_of(out, b),
    ensures
        out == s,
{
}

/// The row-major lexicographic order on grids is antisymmetric: grids
/// that come no later than one another coincide.
proof fn lemma_lex_le_antisymmetric(a: [[u8; 9]; 9], b: [[u8; 9]; 9])
    requires
        lex_le(a, b),
        lex_le(b, a),
    ensures
        a == b,
{
    if a != b {
        let p1 = choose|p: int| 0 <= p < 81 && #[trigger] agree_below(a, b, p) && cell_at(a, p)
            < cell_at(b, p);
        let p2 = choose|p: int| 0 <= p < 81 && #[trigger] agree_below(b, a, p) && cell_at(b, p)
            < cell_at(a, p);
        if p1 < p2 {
            assert(cell_at(b, p1) == cell_at(a, p1));
        } else if p2 < p1 {
            assert(cell_at(a, p2) == cell_at(b, p2));
        }
    }
}

/// The solver's outcome is reproducible: a board has at most one
/// completion that comes first in the row-major lexicographic order,
/// and `solve` promises exactly that completion, so equal inputs give
/// equal outputs.
pub proof fn lemma_least_completion_is_unique(
    b: [[u8; 9]; 9],
    out1: [[u8; 9]; 9],
    out2: [[u8; 9]; 9],
)
    requires
        solution_of(out1, b),
        solution_of(out2, b),
        forall|t: [[u8; 9]; 9]| solution_of(t, b) ==> lex_le(out1, t),
        forall|t: [[u8; 9]; 9]| solution_of(t, b) ==> lex_le(out2, t),
    ensures
        out1 == out2,
{
    assert(lex_le(out1, out2));
    assert(lex_le(out2, out1));
    lemma_lex_le_antisymmetric(out1, out2);
}

} // verus!
