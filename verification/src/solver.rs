//! The backtracking solver.
//!
//! `Sudoku` owns a grid and fills its empty cells by depth-first search:
//! it picks the first empty cell in row-major order, tries the digits 1
//! through 9 in ascending order, keeps a digit only if it conflicts with
//! no cell in the same row, column or block, and undoes the placement when
//! the recursive search below it fails.

use vstd::prelude::*;

use crate::board::{
    block_ok, board_ok, cell, col_ok, digits_ok, full, is_valid, num_zeros, row_ok, solved,
};

verus! {

/// Digit `v` can be placed at row `y`, column `x`: no cell of column `x`,
/// of row `y`, or of the 3x3 block containing `(y, x)` already holds `v`.
/// (The cell itself is inspected too, as the search only probes empty
/// cells with non-zero digits.)
pub open spec fn can_place(b: [[u8; 9]; 9], y: int, x: int, v: u8) -> bool {
    &&& forall|i: int| 0 <= i < 9 ==> cell(b, i, x) != v
    &&& forall|j: int| 0 <= j < 9 ==> cell(b, y, j) != v
    &&& forall|i: int, j: int|
        0 <= i < 3 && 0 <= j < 3 ==> #[trigger] cell(b, (y / 3) * 3 + i, (x / 3) * 3 + j) != v
}

/// Every cell that is filled in `b1` holds the same digit in `b2`: `b2`
/// may only fill cells that were empty in `b1`.
pub open spec fn extends(b1: [[u8; 9]; 9], b2: [[u8; 9]; 9]) -> bool {
    forall|r: int, c: int|
        0 <= r < 9 && 0 <= c < 9 && cell(b1, r, c) != 0 ==> cell(b2, r, c) == cell(b1, r, c)
}

/// The two grids agree everywhere except possibly at `(y, x)`.
pub open spec fn same_except(b1: [[u8; 9]; 9], b2: [[u8; 9]; 9], y: int, x: int) -> bool {
    forall|r: int, c: int|
        0 <= r < 9 && 0 <= c < 9 && (r, c) != (y, x) ==> cell(b2, r, c) == cell(b1, r, c)
}

/// The cell at flat row-major position `p` of a grid.
pub open spec fn cell_at(b: [[u8; 9]; 9], p: int) -> u8 {
    cell(b, p / 9, p % 9)
}

/// The grids agree at every row-major position below `p`.
pub open spec fn agree_below(a: [[u8; 9]; 9], b: [[u8; 9]; 9], p: int) -> bool {
    forall|q: int| 0 <= q < p ==> cell_at(a, q) == cell_at(b, q)
}

/// `a` comes no later than `b` in the row-major lexicographic order on
/// grids: the grids are equal, or `a` holds the smaller value at the
/// first position where they differ.
pub open spec fn lex_le(a: [[u8; 9]; 9], b: [[u8; 9]; 9]) -> bool {
    a == b || exists|p: int| 0 <= p < 81 && #[trigger] agree_below(a, b, p) && cell_at(a, p) < cell_at(b, p)
}

/// A full grid is its own only completion.
proof fn lemma_full_solution_is_self(b: [[u8; 9]; 9], s: [[u8; 9]; 9])
    requires
        full(b),
        solution_of(s, b),
    ensures
        s == b,
{
    assert forall|r: int, c: int| 0 <= r < 9 && 0 <= c < 9 implies cell(s, r, c) == cell(
        b,
        r,
        c,
    ) by {
        assert(cell(b, r, c) != 0);
    }
    crate::board::lemma_boards_equal(s, b);
}

/// Two grids that both carry the clues of `b0`, whose first empty cell
/// in row-major order is `(y, x)`, agree up to that cell; so the one
/// holding the smaller value there comes first in the lexicographic
/// order.
proof fn lemma_lex_smaller_at_first_empty(
    b0: [[u8; 9]; 9],
    fin: [[u8; 9]; 9],
    s: [[u8; 9]; 9],
    y: int,
    x: int,
)
    requires
        0 <= y < 9,
        0 <= x < 9,
        forall|i: int, j: int|
            0 <= i < 9 && 0 <= j < 9 && (i < y || (i == y && j < x)) ==> cell(b0, i, j) != 0,
        extends(b0, fin),
        extends(b0, s),
        cell(fin, y, x) < cell(s, y, x),
    ensures
        lex_le(fin, s),
{
    let p0 = y * 9 + x;
    assert(0 <= p0 < 81);
    assert(p0 / 9 == y && p0 % 9 == x);
    assert forall|q: int| 0 <= q < p0 implies cell_at(fin, q) == cell_at(s, q) by {
        let i = q / 9;
        let j = q % 9;
        assert(q == 9 * i + j && 0 <= j < 9);
        assert(i < y || (i == y && j < x));
        assert(cell(b0, i, j) != 0);
        assert(cell(fin, i, j) == cell(b0, i, j));
        assert(cell(s, i, j) == cell(b0, i, j));
    }
    assert(agree_below(fin, s, p0));
    assert(cell_at(fin, p0) < cell_at(s, p0));
}

/// Placing a legal digit in an empty cell keeps the grid free of
/// constraint violations: every other cell is unchanged, and the new
/// digit clashes with no cell of its row, column or block.
proof fn lemma_place_keeps_ok(b1: [[u8; 9]; 9], b2: [[u8; 9]; 9], y: int, x: int, v: u8)
    requires
        0 <= y < 9,
        0 <= x < 9,
        board_ok(b1),
        can_place(b1, y, x, v),
        v != 0,
        same_except(b1, b2, y, x),
        cell(b2, y, x) == v,
    ensures
        board_ok(b2),
{
    assert forall|r: int| 0 <= r < 9 implies row_ok(b2, r) by {
        assert(row_ok(b1, r));
        assert forall|c1: int, c2: int|
            0 <= c1 < 9 && 0 <= c2 < 9 && c1 != c2 && cell(b2, r, c1) != 0 implies cell(b2, r, c1)
            != cell(b2, r, c2) by {
            if r == y && c1 == x {
                assert(cell(b2, r, c2) == cell(b1, r, c2));
                assert(cell(b1, y, c2) != v);
            } else if r == y && c2 == x {
                assert(cell(b2, r, c1) == cell(b1, r, c1));
                assert(cell(b1, y, c1) != v);
            } else {
                assert(cell(b2, r, c1) == cell(b1, r, c1));
                assert(cell(b2, r, c2) == cell(b1, r, c2));
            }
        }
    }
    assert forall|c: int| 0 <= c < 9 implies col_ok(b2, c) by {
        assert(col_ok(b1, c));
        assert forall|r1: int, r2: int|
            0 <= r1 < 9 && 0 <= r2 < 9 && r1 != r2 && cell(b2, r1, c) != 0 implies cell(b2, r1, c)
            != cell(b2, r2, c) by {
            if c == x && r1 == y {
                assert(cell(b2, r2, c) == cell(b1, r2, c));
                assert(cell(b1, r2, x) != v);
            } else if c == x && r2 == y {
                assert(cell(b2, r1, c) == cell(b1, r1, c));
                assert(cell(b1, r1, x) != v);
            } else {
                assert(cell(b2, r1, c) == cell(b1, r1, c));
                assert(cell(b2, r2, c) == cell(b1, r2, c));
            }
        }
    }
    assert forall|br: int, bc: int| 0 <= br < 3 && 0 <= bc < 3 implies block_ok(b2, br, bc) by {
        assert(block_ok(b1, br, bc));
        assert forall|i1: int, j1: int, i2: int, j2: int|
            0 <= i1 < 3 && 0 <= j1 < 3 && 0 <= i2 < 3 && 0 <= j2 < 3 && (i1, j1) != (i2, j2)
                && #[trigger] cell(b2, br * 3 + i1, bc * 3 + j1) != 0 implies cell(
                b2,
                br * 3 + i1,
                bc * 3 + j1,
            ) != #[trigger] cell(b2, br * 3 + i2, bc * 3 + j2) by {
            if br == y / 3 && bc == x / 3 && br * 3 + i1 == y && bc * 3 + j1 == x {
                assert(cell(b2, br * 3 + i2, bc * 3 + j2) == cell(b1, br * 3 + i2, bc * 3 + j2));
                assert(cell(b1, (y / 3) * 3 + i2, (x / 3) * 3 + j2) != v);
            } else if br == y / 3 && bc == x / 3 && br * 3 + i2 == y && bc * 3 + j2 == x {
                assert(cell(b2, br * 3 + i1, bc * 3 + j1) == cell(b1, br * 3 + i1, bc * 3 + j1));
                assert(cell(b1, (y / 3) * 3 + i1, (x / 3) * 3 + j1) != v);
            } else {
                assert(cell(b2, br * 3 + i1, bc * 3 + j1) == cell(b1, br * 3 + i1, bc * 3 + j1));
                assert(cell(b2, br * 3 + i2, bc * 3 + j2) == cell(b1, br * 3 + i2, bc * 3 + j2));
            }
        }
    }
}

/// `s` completes the grid `b`: it is solved, carries only the digits
/// 1..=9 (with every cell filled, `digits_ok` leaves exactly those), and
/// agrees with `b` on every filled cell of `b`.
pub open spec fn solution_of(s: [[u8; 9]; 9], b: [[u8; 9]; 9]) -> bool {
    solved(s) && digits_ok(s) && extends(b, s)
}

/// In a completion `s` of `b`, the digit that `s` holds at an empty cell
/// of `b` can legally be placed there: `s` itself keeps that digit apart
/// from every equal digit of its row, column and block, and `b` holds at
/// most the cells of `s`.
proof fn lemma_solution_can_place(b: [[u8; 9]; 9], s: [[u8; 9]; 9], y: int, x: int)
    requires
        solution_of(s, b),
        0 <= y < 9,
        0 <= x < 9,
        cell(b, y, x) == 0,
    ensures
        can_place(b, y, x, cell(s, y, x)),
        1 <= cell(s, y, x) <= 9,
{
    let d = cell(s, y, x);
    assert(d != 0);
    assert forall|i: int| 0 <= i < 9 implies cell(b, i, x) != d by {
        if i != y && cell(b, i, x) != 0 {
            assert(cell(s, i, x) == cell(b, i, x));
            assert(col_ok(s, x));
            assert(cell(s, y, x) != cell(s, i, x));
        }
    }
    assert forall|j: int| 0 <= j < 9 implies cell(b, y, j) != d by {
        if j != x && cell(b, y, j) != 0 {
            assert(cell(s, y, j) == cell(b, y, j));
            assert(row_ok(s, y));
            assert(cell(s, y, x) != cell(s, y, j));
        }
    }
    let br = y / 3;
    let bc = x / 3;
    let i0 = y - br * 3;
    let j0 = x - bc * 3;
    assert forall|i: int, j: int|
        0 <= i < 3 && 0 <= j < 3 implies #[trigger] cell(b, (y / 3) * 3 + i, (x / 3) * 3 + j)
        != d by {
        let r2 = br * 3 + i;
        let c2 = bc * 3 + j;
        if (r2, c2) != (y, x) && cell(b, r2, c2) != 0 {
            assert(cell(s, r2, c2) == cell(b, r2, c2));
            assert(block_ok(s, br, bc));
            assert(cell(s, br * 3 + i0, bc * 3 + j0) != 0);
            assert(cell(s, br * 3 + i0, bc * 3 + j0) != cell(s, br * 3 + i, bc * 3 + j));
        }
    }
}

/// A board that has a completion violates no constraint itself and
/// carries only values 0..=9: each of its filled cells reappears in the
/// completion, whose rows, columns and blocks are duplicate-free and
/// whose values are in range.
proof fn lemma_solution_implies_ok(b: [[u8; 9]; 9], s: [[u8; 9]; 9])
    requires
        solution_of(s, b),
    ensures
        board_ok(b),
        digits_ok(b),
{
    assert forall|r: int| 0 <= r < 9 implies row_ok(b, r) by {
        assert(row_ok(s, r));
        assert forall|c1: int, c2: int|
            0 <= c1 < 9 && 0 <= c2 < 9 && c1 != c2 && cell(b, r, c1) != 0 implies cell(b, r, c1)
            != cell(b, r, c2) by {
            assert(cell(s, r, c1) == cell(b, r, c1));
            if cell(b, r, c2) != 0 {
                assert(cell(s, r, c2) == cell(b, r, c2));
                assert(cell(s, r, c1) != cell(s, r, c2));
            }
        }
    }
    assert forall|c: int| 0 <= c < 9 implies col_ok(b, c) by {
        assert(col_ok(s, c));
        assert forall|r1: int, r2: int|
            0 <= r1 < 9 && 0 <= r2 < 9 && r1 != r2 && cell(b, r1, c) != 0 implies cell(b, r1, c)
            != cell(b, r2, c) by {
            assert(cell(s, r1, c) == cell(b, r1, c));
            if cell(b, r2, c) != 0 {
                assert(cell(s, r2, c) == cell(b, r2, c));
                assert(cell(s, r1, c) != cell(s, r2, c));
            }
        }
    }
    assert forall|br: int, bc: int| 0 <= br < 3 && 0 <= bc < 3 implies block_ok(b, br, bc) by {
        assert(block_ok(s, br, bc));
        assert forall|i1: int, j1: int, i2: int, j2: int|
            0 <= i1 < 3 && 0 <= j1 < 3 && 0 <= i2 < 3 && 0 <= j2 < 3 && (i1, j1) != (i2, j2)
                && #[trigger] cell(b, br * 3 + i1, bc * 3 + j1) != 0 implies cell(
            b,
            br * 3 + i1,
            bc * 3 + j1,
        ) != #[trigger] cell(b, br * 3 + i2, bc * 3 + j2) by {
            assert(cell(s, br * 3 + i1, bc * 3 + j1) == cell(b, br * 3 + i1, bc * 3 + j1));
            if cell(b, br * 3 + i2, bc * 3 + j2) != 0 {
                assert(cell(s, br * 3 + i2, bc * 3 + j2) == cell(b, br * 3 + i2, bc * 3 + j2));
                assert(cell(s, br * 3 + i1, bc * 3 + j1) != cell(s, br * 3 + i2, bc * 3 + j2));
            }
        }
    }
    assert forall|r: int, c: int| 0 <= r < 9 && 0 <= c < 9 implies cell(b, r, c) <= 9 by {
        if cell(b, r, c) != 0 {
            assert(cell(s, r, c) == cell(b, r, c));
        }
    }
}

/// A completion of `b0` that holds `v` at `(y, x)` is also a completion
/// of the grid `b1` obtained from `b0` by placing `v` at `(y, x)`.
proof fn lemma_solution_of_placed(
    b0: [[u8; 9]; 9],
    b1: [[u8; 9]; 9],
    s: [[u8; 9]; 9],
    y: int,
    x: int,
    v: u8,
)
    requires
        solution_of(s, b0),
        cell(s, y, x) == v,
        0 <= y < 9,
        0 <= x < 9,
        same_except(b0, b1, y, x),
        cell(b1, y, x) == v,
    ensures
        solution_of(s, b1),
{
    assert forall|r: int, c: int|
        0 <= r < 9 && 0 <= c < 9 && cell(b1, r, c) != 0 implies cell(s, r, c) == cell(
        b1,
        r,
        c,
    ) by {
        if (r, c) != (y, x) {
            assert(cell(b1, r, c) == cell(b0, r, c));
        }
    }
}

/// A 9x9 Sudoku grid together with the backtracking search that solves it.
pub struct Sudoku {
    board: [[u8; 9]; 9],
}

impl View for Sudoku {
    type V = [[u8; 9]; 9];

    closed spec fn view(&self) -> [[u8; 9]; 9] {
        self.board
    }
}

impl Sudoku {
    /// Wraps a caller-supplied grid.
    pub fn new(board: [[u8; 9]; 9]) -> (s: Self)
        ensures
            s@ == board,
    {
        Self { board }
    }

    /// Hands the grid back to the caller.
    pub fn get_board(&self) -> (b: [[u8; 9]; 9])
        ensures
            b == self@,
    {
        self.board
    }

    /// The first empty cell in row-major order (lowest row, then lowest
    /// column), or `None` when every cell is filled.
    fn find_empty_cell(&self) -> (r: Option<(usize, usize)>)
        ensures
            match r {
                Some(p) => p.0 < 9 && p.1 < 9 && cell(self@, p.0 as int, p.1 as int) == 0
                    && forall|i: int, j: int|
                    0 <= i < 9 && 0 <= j < 9 && (i < p.0 || (i == p.0 && j < p.1))
                        ==> cell(self@, i, j) != 0,
                None => full(self@),
            },
    {
        for i in 0..9
            invariant
                forall|r: int, c: int| 0 <= r < i && 0 <= c < 9 ==> cell(self@, r, c) != 0,
        {
            for j in 0..9
                invariant
                    i < 9,
                    forall|r: int, c: int| 0 <= r < i && 0 <= c < 9 ==> cell(self@, r, c) != 0,
                    forall|c: int| 0 <= c < j ==> cell(self@, i as int, c) != 0,
            {
                if self.board[i][j] == 0 {
                    return Some((i, j));
                }
            }
        }
        None
    }

    /// True iff `value` can be placed at the cell `index_tuple` (given as
    /// `(row, column)`) without clashing with any cell of the same row,
    /// column or 3x3 block.
    pub fn check(&self, index_tuple: (usize, usize), value: u8) -> (r: bool)
        requires
            index_tuple.0 < 9,
            index_tuple.1 < 9,
        ensures
            r == can_place(self@, index_tuple.0 as int, index_tuple.1 as int, value),
    {
        let (y, x) = index_tuple;

        // the column of the cell
        for i in 0..9
            invariant
                y == index_tuple.0,
                x == index_tuple.1,
                y < 9,
                x < 9,
                forall|k: int| 0 <= k < i ==> cell(self@, k, x as int) != value,
        {
            if self.board[i][x] == value {
                assert(cell(self@, i as int, x as int) == value);
                return false;
            }
        }
        // the row of the cell
        for j in 0..9
            invariant
                y == index_tuple.0,
                x == index_tuple.1,
                y < 9,
                x < 9,
                forall|k: int| 0 <= k < j ==> cell(self@, y as int, k) != value,
        {
            if self.board[y][j] == value {
                assert(cell(self@, y as int, j as int) == value);
                return false;
            }
        }
        // the 3x3 block of the cell
        let sec_row = y / 3;
        let sec_col = x / 3;
        for i in 0..3
            invariant
                y == index_tuple.0,
                x == index_tuple.1,
                y < 9,
                x < 9,
                sec_row == y / 3,
                sec_col == x / 3,
                forall|a: int, c: int|
                    0 <= a < i && 0 <= c < 3
                        ==> #[trigger] cell(self@, (y / 3) * 3 + a, (x / 3) * 3 + c) != value,
        {
            for j in 0..3
                invariant
                    y == index_tuple.0,
                    x == index_tuple.1,
                    y < 9,
                    x < 9,
                    i < 3,
                    sec_row == y / 3,
                    sec_col == x / 3,
                    forall|a: int, c: int|
                        0 <= a < i && 0 <= c < 3
                            ==> #[trigger] cell(self@, (y / 3) * 3 + a, (x / 3) * 3 + c) != value,
                    forall|c: int|
                        0 <= c < j ==> #[trigger] cell(self@, (y / 3) * 3 + i as int, (x / 3) * 3 + c)
                            != value,
            {
                if self.board[sec_row * 3 + i][sec_col * 3 + j] == value {
                    assert(cell(self@, (y as int / 3) * 3 + i as int, (x as int / 3) * 3 + j as int)
                        == value);
                    return false;
                }
            }
        }
        true
    }

    /// The backtracking worker behind `solve`: on a grid that violates
    /// no constraint, fills every empty cell with a digit 1..=9, trying
    /// cells in row-major order and digits in ascending order. On `true`
    /// the grid is solved (and is the least completion in that order);
    /// the pre-filled clues are never altered, and on `false` the grid
    /// is left exactly as it was, no completion existing.
    fn search(&mut self) -> (r: bool)
        requires
            board_ok(old(self)@),
        ensures
            extends(old(self)@, final(self)@),
            !r ==> final(self)@ == old(self)@,
            r ==> solved(final(self)@),
            digits_ok(old(self)@) ==> digits_ok(final(self)@),
            full(old(self)@) ==> r && final(self)@ == old(self)@,
            forall|s: [[u8; 9]; 9]| solution_of(s, old(self)@) ==> r,
            r ==> forall|s: [[u8; 9]; 9]| solution_of(s, old(self)@) ==> lex_le(final(self)@, s),
        decreases num_zeros(self@),
    {
        let empty_cell = self.find_empty_cell();

        match empty_cell {
            Some((y, x)) => {
                assert(cell(self@, y as int, x as int) == 0);
                assert(!full(self@));
                proof {
                    assert forall|s: [[u8; 9]; 9]| solution_of(s, self@) implies cell(
                        s,
                        y as int,
                        x as int,
                    ) >= 1 by {
                        assert(cell(s, y as int, x as int) != 0);
                    }
                }
                let mut val: u8 = 1;
                while val <= 9
                    invariant
                        y < 9,
                        x < 9,
                        self@ == old(self)@,
                        board_ok(old(self)@),
                        cell(self@, y as int, x as int) == 0,
                        1 <= val <= 10,
                        forall|i: int, j: int|
                            0 <= i < 9 && 0 <= j < 9 && (i < y || (i == y && j < x))
                                ==> cell(old(self)@, i, j) != 0,
                        forall|s: [[u8; 9]; 9]| solution_of(s, old(self)@) ==> cell(
                            s,
                            y as int,
                            x as int,
                        ) >= val,
                    decreases 10 - val,
                {
                    if self.check((y, x), val) {
                        let ghost b0 = self@;
                        self.board[y][x] = val;
                        let ghost b1 = self@;
                        proof {
                            crate::board::lemma_num_zeros_update(b0, b1, y as int, x as int);
                            lemma_place_keeps_ok(b0, b1, y as int, x as int, val);
                        }
                        if self.search() {
                            proof {
                                assert(extends(b0, b1));
                                assert(extends(b0, self@)) by {
                                    assert forall|a: int, c: int|
                                        0 <= a < 9 && 0 <= c < 9 && cell(b0, a, c) != 0 implies cell(
                                        self@,
                                        a,
                                        c,
                                    ) == cell(b0, a, c) by {
                                        assert(cell(b1, a, c) == cell(b0, a, c));
                                    }
                                }
                                if digits_ok(b0) {
                                    assert forall|a: int, c: int|
                                        0 <= a < 9 && 0 <= c < 9 implies cell(b1, a, c) <= 9 by {
                                        if (a, c) != (y as int, x as int) {
                                            assert(cell(b1, a, c) == cell(b0, a, c));
                                        }
                                    }
                                    assert(digits_ok(b1));
                                }
                                assert forall|s: [[u8; 9]; 9]| solution_of(s, b0) implies lex_le(
                                    self@,
                                    s,
                                ) by {
                                    if cell(s, y as int, x as int) == val {
                                        // the recursive search already returned
                                        // the least completion of the placed grid
                                        lemma_solution_of_placed(
                                            b0,
                                            b1,
                                            s,
                                            y as int,
                                            x as int,
                                            val,
                                        );
                                    } else {
                                        // any completion holding a larger digit
                                        // here comes later in the order
                                        assert(cell(s, y as int, x as int) >= val);
                                        assert(cell(self@, y as int, x as int) == val);
                                        lemma_lex_smaller_at_first_empty(
                                            b0,
                                            self@,
                                            s,
                                            y as int,
                                            x as int,
                                        );
                                    }
                                }
                            }
                            return true;
                        }
                        self.board[y][x] = 0;
                        proof {
                            crate::board::lemma_boards_equal(self@, b0);
                            assert forall|s: [[u8; 9]; 9]| solution_of(s, old(self)@) implies cell(
                                s,
                                y as int,
                                x as int,
                            ) >= val + 1 by {
                                if cell(s, y as int, x as int) == val {
                                    // such a completion would also complete the
                                    // placed grid, which the recursive search
                                    // has just exhausted
                                    lemma_solution_of_placed(b0, b1, s, y as int, x as int, val);
                                    assert(false);
                                }
                            }
                        }
                    } else {
                        proof {
                            assert forall|s: [[u8; 9]; 9]| solution_of(s, old(self)@) implies cell(
                                s,
                                y as int,
                                x as int,
                            ) >= val + 1 by {
                                if cell(s, y as int, x as int) == val {
                                    // such a completion would make the digit
                                    // placeable, which the check just refuted
                                    lemma_solution_can_place(self@, s, y as int, x as int);
                                    assert(false);
                                }
                            }
                        }
                    }
                    val = val + 1;
                }
                proof {
                    assert forall|s: [[u8; 9]; 9]| solution_of(s, old(self)@) implies false by {
                        assert(cell(s, y as int, x as int) >= 10);
                        assert(cell(s, y as int, x as int) <= 9);
                    }
                }
                assert(!full(old(self)@));
                false
            },
            None => {
                proof {
                    assert forall|s: [[u8; 9]; 9]| solution_of(s, self@) implies lex_le(
                        self@,
                        s,
                    ) by {
                        lemma_full_solution_is_self(self@, s);
                    }
                }
                true
            },
        }
    }

    /// Solves the board: checks that the grid violates no constraint,
    /// then fills every empty cell with a digit 1..=9 by backtracking
    /// search (cells in row-major order, digits in ascending order).
    /// On `true` the grid is solved, its clues untouched, and it is the
    /// lexicographically least completion of the input; on `false` the
    /// grid is left exactly as it was. For a grid carrying only values
    /// 0..=9, `true` comes exactly when a completion exists, so `false`
    /// reports an unsolvable puzzle, contradictory clues included.
    pub fn solve(&mut self) -> (r: bool)
        ensures
            extends(old(self)@, final(self)@),
            !r ==> final(self)@ == old(self)@,
            r ==> solved(final(self)@),
            digits_ok(old(self)@) ==> digits_ok(final(self)@),
            solved(old(self)@) ==> r && final(self)@ == old(self)@,
            forall|s: [[u8; 9]; 9]| solution_of(s, old(self)@) ==> r,
            digits_ok(old(self)@) ==> (r <==> exists|s: [[u8; 9]; 9]|
                solution_of(s, old(self)@)),
            r ==> forall|s: [[u8; 9]; 9]| solution_of(s, old(self)@) ==> lex_le(final(self)@, s),
    {
        if !is_valid(&self.board) {
            proof {
                assert forall|s: [[u8; 9]; 9]| !solution_of(s, self@) by {
                    if solution_of(s, self@) {
                        // a completion would force the clues themselves
                        // to be duplicate-free
                        lemma_solution_implies_ok(self@, s);
                    }
                }
            }
            return false;
        }
        let r = self.search();
        proof {
            if r && digits_ok(old(self)@) {
                assert(solution_of(self@, old(self)@));
            }
        }
        r
    }
}

} // verus!
