//! Coordinates on a square grid: the cells a pushed piece passes, the
//! row-major position of a cell, and the four lines through a cell.
use vstd::prelude::*;

use crate::board::Side;

verus! {

/// The cell `d` steps inward from the edge cell at offset `p` of side `s`
/// on a board of size `n`; `d == 0` is the edge cell itself.
pub open spec fn along(n: int, s: Side, p: int, d: int) -> (int, int) {
    match s {
        Side::North => (d, p),
        Side::East => (p, n - 1 - d),
        Side::South => (n - 1 - d, p),
        Side::West => (p, d),
    }
}

/// The edge cell a move from side `s` at offset `p` enters through.
pub open spec fn origin(n: int, s: Side, p: int) -> (int, int) {
    along(n, s, p, 0)
}

/// Position of cell `(r, c)` in the row-major sequence of cells.
pub open spec fn cell_index(n: int, r: int, c: int) -> int {
    r * n + c
}

/// Cells that stay in bounds have distinct, in-range positions.
pub(crate) proof fn lemma_cell_index(n: int, r: int, c: int)
    requires
        0 <= r < n,
        0 <= c < n,
    ensures
        0 <= cell_index(n, r, c) < n * n,
        forall|r2: int, c2: int|
            0 <= r2 < n && 0 <= c2 < n && #[trigger] cell_index(n, r2, c2) == cell_index(n, r, c)
                ==> r2 == r && c2 == c,
{
    assert(0 <= r * n + c < n * n) by (nonlinear_arith)
        requires
            0 <= r < n,
            0 <= c < n,
    ;
    assert forall|r2: int, c2: int|
        0 <= r2 < n && 0 <= c2 < n && #[trigger] cell_index(n, r2, c2) == cell_index(
            n,
            r,
            c,
        ) implies r2 == r && c2 == c by {
        assert(r2 == r && c2 == c) by (nonlinear_arith)
            requires
                0 <= r < n,
                0 <= c < n,
                0 <= r2 < n,
                0 <= c2 < n,
                r2 * n + c2 == r * n + c,
        ;
    }
}

/// The four lines through a cell that a win is looked for along.
#[derive(Clone, Copy, Debug, PartialEq, Eq, Structural)]
pub enum Line {
    Row,
    Column,
    /// From the north-west to the south-east.
    Diagonal,
    /// From the south-west to the north-east.
    AntiDiagonal,
}

pub open spec fn min(a: int, b: int) -> int {
    if a <= b { a } else { b }
}

pub open spec fn max(a: int, b: int) -> int {
    if a >= b { a } else { b }
}

/// The first cell of `line` through `(r, c)`: the west end of a row, the
/// north end of a column, the north-west end of a diagonal and the
/// south-west end of an anti-diagonal.
pub open spec fn line_start(n: int, line: Line, r: int, c: int) -> (int, int) {
    match line {
        Line::Row => (r, 0),
        Line::Column => (0, c),
        Line::Diagonal => (r - min(r, c), c - min(r, c)),
        Line::AntiDiagonal => (r + min(n - 1 - r, c), c - min(n - 1 - r, c)),
    }
}

/// The number of cells of `line` through `(r, c)`.
pub open spec fn line_len(n: int, line: Line, r: int, c: int) -> int {
    let s = line_start(n, line, r, c);
    match line {
        Line::Row => n,
        Line::Column => n,
        Line::Diagonal => n - max(s.0, s.1),
        Line::AntiDiagonal => min(s.0 + 1, n - s.1),
    }
}

/// The `k`-th cell of `line` through `(r, c)`, counted from its start.
pub open spec fn line_pos(n: int, line: Line, r: int, c: int, k: int) -> (int, int) {
    let s = line_start(n, line, r, c);
    match line {
        Line::Row => (r, k),
        Line::Column => (k, c),
        Line::Diagonal => (s.0 + k, s.1 + k),
        Line::AntiDiagonal => (s.0 - k, s.1 + k),
    }
}

pub(crate) proof fn lemma_line_pos_in_bounds(n: int, line: Line, r: int, c: int, k: int)
    requires
        0 <= r < n,
        0 <= c < n,
        0 <= k < line_len(n, line, r, c),
    ensures
        0 <= line_pos(n, line, r, c, k).0 < n,
        0 <= line_pos(n, line, r, c, k).1 < n,
{
}

/// The cell after `q` going inward from side `s` on a board of size `n`;
/// leaving the board past the far edge gives row or column `n`.
pub open spec fn advance(n: int, s: Side, q: (int, int)) -> (int, int) {
    match s {
        Side::North => (q.0 + 1, q.1),
        Side::East => if q.1 == 0 {
            (q.0, n)
        } else {
            (q.0, q.1 - 1)
        },
        Side::South => if q.0 == 0 {
            (n, q.1)
        } else {
            (q.0 - 1, q.1)
        },
        Side::West => (q.0, q.1 + 1),
    }
}

} // verus!
