//! The game board: a square grid into which pieces are pushed from the four
//! edges, with legal-move enumeration and four-in-a-row detection.
use vstd::prelude::*;

use crate::counting::{
    lemma_count_pairs_lower, count_pairs, count_side, empty_count, lemma_count_side_all, lemma_count_side_bound,
    lemma_count_side_none, lemma_count_side_shift, lemma_count_side_single, lemma_empty_count_all,
    lemma_empty_count_bound, lemma_empty_count_update,
};
use crate::grid::{
    advance, along, cell_index, lemma_cell_index, lemma_line_pos_in_bounds, line_len, line_pos,
    line_start, origin, Line,
};
use crate::rng::sample_indices;
use vstd::arithmetic::div_mod::{lemma_fundamental_div_mod, lemma_mod_pos_bound};

verus! {

/// The error a move that does not resolve against the board reports.
#[derive(Clone, Copy, Debug, PartialEq, Eq, Structural)]
pub enum Error {
    IllegalMove(Move),
}

pub type Result<T> = core::result::Result<T, Error>;

/// What a cell of the grid holds.
#[derive(Clone, Copy, Debug, PartialEq, Eq, Structural)]
pub enum Entry {
    Empty,
    Block,
    Player1,
    Player2,
}

impl Entry {
    /// The entry `flip` turns `self` into.
    pub open spec fn flipped(self) -> Entry {
        match self {
            Entry::Empty => Entry::Block,
            Entry::Block => Entry::Empty,
            Entry::Player1 => Entry::Player2,
            Entry::Player2 => Entry::Player1,
        }
    }

    pub fn is_empty(self) -> (r: bool)
        ensures
            r == (self is Empty),
    {
        self == Entry::Empty
    }

    /// Swaps the two players, and empty with block.
    pub fn flip(self) -> (r: Entry)
        ensures
            r == self.flipped(),
    {
        match self {
            Entry::Empty => Entry::Block,
            Entry::Block => Entry::Empty,
            Entry::Player1 => Entry::Player2,
            Entry::Player2 => Entry::Player1,
        }
    }
}

/// The edge a piece is pushed in from.
#[derive(Clone, Copy, Debug, PartialEq, Eq, Structural)]
pub enum Side {
    North,
    East,
    South,
    West,
}

impl Side {
    /// The side that follows `self` in the enumeration order North, East,
    /// South, West.
    pub open spec fn next(self) -> Option<Side> {
        match self {
            Side::North => Some(Side::East),
            Side::East => Some(Side::South),
            Side::South => Some(Side::West),
            Side::West => None,
        }
    }

    pub fn succ(self) -> (r: Option<Side>)
        ensures
            r == self.next(),
    {
        match self {
            Side::North => Some(Side::East),
            Side::East => Some(Side::South),
            Side::South => Some(Side::West),
            Side::West => None,
        }
    }
}

#[derive(Clone, Copy, Debug, PartialEq, Eq, Structural)]
pub enum GameState {
    Ongoing,
    Drawn,
    Won,
}

/// A move as given: the side a piece is pushed in from and the offset along
/// that side. Nothing about it is checked until it is resolved against a
/// board.
#[derive(Clone, Copy, Debug, PartialEq, Eq, Structural)]
pub struct Move {
    side: Side,
    pos: usize,
}

impl Move {
    pub closed spec fn side_of(self) -> Side {
        self.side
    }

    pub closed spec fn pos_of(self) -> int {
        self.pos as int
    }

    /// The move from side `side` at offset `pos`.
    pub closed spec fn make(side: Side, pos: int) -> Move {
        Move { side, pos: pos as usize }
    }

    pub broadcast proof fn lemma_make(side: Side, pos: int)
        requires
            0 <= pos <= usize::MAX,
        ensures
            (#[trigger] Move::make(side, pos)).side_of() == side,
            Move::make(side, pos).pos_of() == pos,
    {
    }

    /// A move is its side and offset.
    pub proof fn lemma_ext(a: Move, b: Move)
        requires
            a.side_of() == b.side_of(),
            a.pos_of() == b.pos_of(),
        ensures
            a == b,
    {
    }

    pub fn new(side: Side, pos: usize) -> (r: Move)
        ensures
            r.side_of() == side,
            r.pos_of() == pos,
            r == Move::make(side, pos as int),
    {
        Move { side, pos }
    }
}

/// A move resolved against a board: where the piece lands and whether it
/// completes four in a row. Only `Move::annotated` makes one.
#[derive(Clone, Copy, Debug, PartialEq, Eq, Structural)]
pub struct LegalMove {
    base: Move,
    row: usize,
    col: usize,
    is_winning: bool,
}

/// What the constructors of moves and resolved moves give back.
pub broadcast group group_move_specs {
    Move::lemma_make,
    LegalMove::lemma_make,
}

impl LegalMove {
    pub closed spec fn base_of(self) -> Move {
        self.base
    }

    pub closed spec fn row_of(self) -> int {
        self.row as int
    }

    pub closed spec fn col_of(self) -> int {
        self.col as int
    }

    pub closed spec fn wins(self) -> bool {
        self.is_winning
    }

    /// The resolution of `base` landing on `(row, col)`, winning or not.
    pub closed spec fn make(base: Move, row: int, col: int, wins: bool) -> LegalMove {
        LegalMove { base, row: row as usize, col: col as usize, is_winning: wins }
    }

    pub broadcast proof fn lemma_make(base: Move, row: int, col: int, wins: bool)
        requires
            0 <= row <= usize::MAX,
            0 <= col <= usize::MAX,
        ensures
            (#[trigger] LegalMove::make(base, row, col, wins)).base_of() == base,
            LegalMove::make(base, row, col, wins).row_of() == row,
            LegalMove::make(base, row, col, wins).col_of() == col,
            LegalMove::make(base, row, col, wins).wins() == wins,
    {
    }

    /// A resolved move is its move, landing cell and winning flag.
    pub proof fn lemma_ext(a: LegalMove, b: LegalMove)
        requires
            a.base_of() == b.base_of(),
            a.row_of() == b.row_of(),
            a.col_of() == b.col_of(),
            a.wins() == b.wins(),
        ensures
            a == b,
    {
    }

    pub fn is_winning(&self) -> (r: bool)
        ensures
            r == self.wins(),
    {
        self.is_winning
    }
}

/// On a board of size `n` with cells `cells`, the edge cell of side `s` at
/// offset `p` exists and is empty.
pub open spec fn edge_open(n: int, cells: Seq<Entry>, s: Side, p: int) -> bool {
    0 <= p < n && cells[cell_index(n, origin(n, s, p).0, origin(n, s, p).1)] is Empty
}

/// The number of `(side, offset)` pairs whose edge cell is empty.
pub open spec fn open_pairs(n: int, cells: Seq<Entry>) -> nat {
    count_pairs(n, |s: Side, p: int| edge_open(n, cells, s, p))
}

/// The mathematical model of a board.
pub struct BoardModel {
    pub size: nat,
    pub cells: Seq<Entry>,
    pub active: Entry,
    pub nlegal: nat,
    pub state: GameState,
}

impl BoardModel {
    pub open spec fn in_bounds(self, r: int, c: int) -> bool {
        0 <= r < self.size && 0 <= c < self.size
    }

    pub open spec fn cell(self, r: int, c: int) -> Entry {
        self.cells[cell_index(self.size as int, r, c)]
    }

    /// The edge cell of side `s` at offset `p` exists and is empty.
    pub open spec fn is_open(self, s: Side, p: int) -> bool {
        edge_open(self.size as int, self.cells, s, p)
    }

    /// The number of `(side, offset)` pairs whose edge cell is empty.
    pub open spec fn open_count(self) -> nat {
        open_pairs(self.size as int, self.cells)
    }

    /// The number of empty cells.
    pub open spec fn num_empty(self) -> nat {
        empty_count(self.cells)
    }

    /// As many cells as the size asks for, the count of open edge entries
    /// up to date, and a player to move.
    pub open spec fn wf(self) -> bool {
        &&& self.size <= usize::MAX
        &&& self.cells.len() == self.size * self.size
        &&& self.nlegal == self.open_count()
        &&& self.active is Player1 || self.active is Player2
    }

    /// The board with cell `(r, c)` set to `e`, and the count of open edge
    /// entries brought up to date.
    pub open spec fn placed(self, r: int, c: int, e: Entry) -> BoardModel {
        let b = BoardModel {
            cells: self.cells.update(cell_index(self.size as int, r, c), e),
            ..self
        };
        BoardModel { nlegal: b.open_count(), ..b }
    }

    /// How many `(side, offset)` pairs have `(r, c)` as their edge cell.
    pub open spec fn edge_multiplicity(self, r: int, c: int) -> nat {
        (if r == 0 { 1nat } else { 0nat }) + (if r == self.size - 1 { 1nat } else { 0nat }) + (
        if c == 0 { 1nat } else { 0nat }) + (if c == self.size - 1 { 1nat } else { 0nat })
    }
}

impl BoardModel {
    /// At most `4 * size` pairs can be open.
    pub proof fn lemma_open_count_bound(self)
        ensures
            self.open_count() <= 4 * self.size,
    {
        let n = self.size as int;
        let f = |s: Side, p: int| edge_open(n, self.cells, s, p);
        lemma_count_side_bound(n, Side::North, 0, f);
        lemma_count_side_bound(n, Side::East, 0, f);
        lemma_count_side_bound(n, Side::South, 0, f);
        lemma_count_side_bound(n, Side::West, 0, f);
    }

    /// Writing `e` at `(r, c)` changes the number of open pairs by the edge
    /// multiplicity of the cell, with the sign of its change in emptiness.
    pub proof fn lemma_placed_open_count(self, r: int, c: int, e: Entry)
        requires
            self.wf(),
            self.in_bounds(r, c),
        ensures
            self.cell(r, c) is Empty && !(e is Empty) ==> self.placed(r, c, e).open_count()
                + self.edge_multiplicity(r, c) == self.open_count(),
            !(self.cell(r, c) is Empty) && e is Empty ==> self.placed(r, c, e).open_count()
                == self.open_count() + self.edge_multiplicity(r, c),
            (self.cell(r, c) is Empty) == (e is Empty) ==> self.placed(r, c, e).open_count()
                == self.open_count(),
    {
        let n = self.size as int;
        let b2 = self.placed(r, c, e);
        let f = |s: Side, p: int| edge_open(n, self.cells, s, p);
        let g = |s: Side, p: int| edge_open(n, b2.cells, s, p);
        let h = |s: Side, p: int| origin(n, s, p) == (r, c);
        let d = (if e is Empty { 1int } else { 0int }) - (if self.cell(r, c) is Empty {
            1int
        } else {
            0int
        });
        lemma_cell_index(n, r, c);
        assert forall|s: Side, q: int| 0 <= q < n implies (if #[trigger] g(s, q) { 1int } else { 0int }) == (
        if f(s, q) { 1int } else { 0int }) + d * (if h(s, q) { 1int } else { 0int }) by {
            let o = origin(n, s, q);
            assert(0 <= o.0 < n && 0 <= o.1 < n);
            lemma_cell_index(n, o.0, o.1);
            if o == (r, c) {
                assert(b2.cell(o.0, o.1) == e);
            } else {
                assert(cell_index(n, o.0, o.1) != cell_index(n, r, c));
                assert(b2.cell(o.0, o.1) == self.cell(o.0, o.1));
            }
        }
        lemma_count_side_shift(n, Side::North, 0, f, g, h, d);
        lemma_count_side_shift(n, Side::East, 0, f, g, h, d);
        lemma_count_side_shift(n, Side::South, 0, f, g, h, d);
        lemma_count_side_shift(n, Side::West, 0, f, g, h, d);
        if r == 0 {
            lemma_count_side_single(n, Side::North, 0, c, h);
        } else {
            lemma_count_side_none(n, Side::North, 0, h);
        }
        if c == n - 1 {
            lemma_count_side_single(n, Side::East, 0, r, h);
        } else {
            lemma_count_side_none(n, Side::East, 0, h);
        }
        if r == n - 1 {
            lemma_count_side_single(n, Side::South, 0, c, h);
        } else {
            lemma_count_side_none(n, Side::South, 0, h);
        }
        if c == 0 {
            lemma_count_side_single(n, Side::West, 0, r, h);
        } else {
            lemma_count_side_none(n, Side::West, 0, h);
        }
        let (h1, h2, h3, h4) = (
            count_side(n, Side::North, 0, h) as int,
            count_side(n, Side::East, 0, h) as int,
            count_side(n, Side::South, 0, h) as int,
            count_side(n, Side::West, 0, h) as int,
        );
        assert(d * (h1 + h2 + h3 + h4) == d * h1 + d * h2 + d * h3 + d * h4) by (nonlinear_arith);
        let m = self.edge_multiplicity(r, c) as int;
        assert(h1 + h2 + h3 + h4 == m);
        assert(d == 1 || d == -1 || d == 0);
        assert(d * m == if d == 1 { m } else if d == -1 { -m } else { 0 }) by (nonlinear_arith)
            requires
                d == 1 || d == -1 || d == 0,
        ;
    }
}

impl BoardModel {
    /// Where a piece pushed in from side `s` at offset `p`, having reached
    /// the cell `d` steps in, comes to rest: it moves on while the next cell
    /// inward exists and is empty.
    pub open spec fn slide(self, s: Side, p: int, d: int) -> int
        decreases self.size - d,
    {
        let n = self.size as int;
        if 0 <= d && d + 1 < n && self.cell(along(n, s, p, d + 1).0, along(n, s, p, d + 1).1) is Empty {
            self.slide(s, p, d + 1)
        } else {
            d
        }
    }

    /// The cell a piece pushed in from side `s` at offset `p` lands on, if
    /// its edge cell is open.
    pub open spec fn landing(self, s: Side, p: int) -> Option<(int, int)> {
        if self.is_open(s, p) {
            Some(along(self.size as int, s, p, self.slide(s, p, 0)))
        } else {
            None
        }
    }

    /// The `k`-th cell of the line counts for the player to move, taking
    /// `(r, c)` as already theirs.
    pub open spec fn counts_as_if(self, line: Line, r: int, c: int, k: int) -> bool {
        let q = line_pos(self.size as int, line, r, c, k);
        q == (r, c) || self.cell(q.0, q.1) == self.active
    }

    pub open spec fn four_as_if(self, line: Line, r: int, c: int, k: int) -> bool {
        &&& self.counts_as_if(line, r, c, k)
        &&& self.counts_as_if(line, r, c, k + 1)
        &&& self.counts_as_if(line, r, c, k + 2)
        &&& self.counts_as_if(line, r, c, k + 3)
    }

    /// Four consecutive cells of `line` through `(r, c)` count for the
    /// player to move, taking `(r, c)` as theirs.
    pub open spec fn wins_along(self, line: Line, r: int, c: int) -> bool {
        exists|k: int|
            0 <= k && k + 4 <= line_len(self.size as int, line, r, c) && #[trigger] self.four_as_if(
                line,
                r,
                c,
                k,
            )
    }

    /// A piece of the player to move at `(r, c)` would give four in a row
    /// along one of the lines through `(r, c)`.
    pub open spec fn wins_at(self, r: int, c: int) -> bool {
        ||| self.wins_along(Line::Row, r, c)
        ||| self.wins_along(Line::Column, r, c)
        ||| self.wins_along(Line::Diagonal, r, c)
        ||| self.wins_along(Line::AntiDiagonal, r, c)
    }

    pub open spec fn holds(self, line: Line, r: int, c: int, k: int, e: Entry) -> bool {
        let q = line_pos(self.size as int, line, r, c, k);
        self.cell(q.0, q.1) == e
    }

    pub open spec fn four_of(self, line: Line, r: int, c: int, k: int, e: Entry) -> bool {
        &&& self.holds(line, r, c, k, e)
        &&& self.holds(line, r, c, k + 1, e)
        &&& self.holds(line, r, c, k + 2, e)
        &&& self.holds(line, r, c, k + 3, e)
    }

    /// Four consecutive cells holding `e` stand on one of the lines through
    /// `(r, c)`.
    pub open spec fn four_in_a_row(self, r: int, c: int, e: Entry) -> bool {
        exists|line: Line, k: int|
            0 <= k && k + 4 <= line_len(self.size as int, line, r, c) && #[trigger] self.four_of(
                line,
                r,
                c,
                k,
                e,
            )
    }

    /// What `Move::annotated` makes of `m`: the landing cell and whether it
    /// wins, or `None` if the edge cell is taken or off the board.
    pub open spec fn annotated(self, m: Move) -> Option<LegalMove> {
        match self.landing(m.side_of(), m.pos_of()) {
            Some(q) => Some(LegalMove::make(m, q.0, q.1, self.wins_at(q.0, q.1))),
            None => None,
        }
    }

    /// `l` is what its move resolves to on this board.
    pub open spec fn resolves(self, l: LegalMove) -> bool {
        self.annotated(l.base_of()) == Some(l)
    }

    /// The board after the player to move puts a piece on `(r, c)`: won
    /// if that wins, drawn if no edge entry is left open, and otherwise
    /// with the other player to move.
    pub open spec fn played(self, r: int, c: int, wins: bool) -> BoardModel {
        let b = self.placed(r, c, self.active);
        if wins {
            BoardModel { state: GameState::Won, ..b }
        } else if b.nlegal == 0 {
            BoardModel { state: GameState::Drawn, ..b }
        } else {
            BoardModel { active: self.active.flipped(), ..b }
        }
    }

    /// The board after the player to move plays `l`.
    pub open spec fn after(self, l: LegalMove) -> BoardModel {
        self.played(l.row_of(), l.col_of(), l.wins())
    }

    /// The moves of side `s` from offset `p` on that resolve, in order of
    /// offset.
    pub open spec fn side_moves(self, s: Side, p: int) -> Seq<LegalMove>
        decreases self.size - p,
    {
        if 0 <= p < self.size {
            let m = Move::make(s, p);
            let here = match self.annotated(m) {
                Some(l) => seq![l],
                None => Seq::empty(),
            };
            here + self.side_moves(s, p + 1)
        } else {
            Seq::empty()
        }
    }

    /// The moves of the sides after `s` that resolve.
    pub open spec fn moves_after(self, s: Side) -> Seq<LegalMove> {
        match s {
            Side::North => self.side_moves(Side::East, 0) + self.side_moves(Side::South, 0)
                + self.side_moves(Side::West, 0),
            Side::East => self.side_moves(Side::South, 0) + self.side_moves(Side::West, 0),
            Side::South => self.side_moves(Side::West, 0),
            Side::West => Seq::empty(),
        }
    }

    /// Every move that resolves, North then East then South then West, by
    /// increasing offset within each side.
    pub open spec fn legal_moves(self) -> Seq<LegalMove> {
        self.side_moves(Side::North, 0) + self.moves_after(Side::North)
    }
}

impl BoardModel {
    proof fn lemma_slide(self, s: Side, p: int, d: int)
        requires
            0 <= p < self.size,
            0 <= d < self.size,
            self.cell(along(self.size as int, s, p, d).0, along(self.size as int, s, p, d).1) is Empty,
        ensures
            d <= self.slide(s, p, d) < self.size,
            self.cell(
                along(self.size as int, s, p, self.slide(s, p, d)).0,
                along(self.size as int, s, p, self.slide(s, p, d)).1,
            ) is Empty,
        decreases self.size - d,
    {
        let n = self.size as int;
        if d + 1 < n && self.cell(along(n, s, p, d + 1).0, along(n, s, p, d + 1).1) is Empty {
            self.lemma_slide(s, p, d + 1);
        }
    }

    /// A resolved move lands on an empty cell of the board, and its winning
    /// flag is the win check at that cell.
    pub proof fn lemma_resolves(self, l: LegalMove)
        requires
            self.wf(),
            self.resolves(l),
        ensures
            self.in_bounds(l.row_of(), l.col_of()),
            self.cell(l.row_of(), l.col_of()) is Empty,
            l.wins() == self.wins_at(l.row_of(), l.col_of()),
            self.landing(l.base_of().side_of(), l.base_of().pos_of()) == Some((l.row_of(), l.col_of())),
    {
        let m = l.base;
        self.lemma_slide(m.side, m.pos as int, 0);
        assert(m.side_of() == m.side && m.pos_of() == m.pos);
    }

    proof fn lemma_side_moves(self, s: Side, p: int)
        requires
            self.wf(),
            0 <= p,
        ensures
            self.side_moves(s, p).len() == count_side(
                self.size as int,
                s,
                p,
                |s: Side, q: int| edge_open(self.size as int, self.cells, s, q),
            ),
            forall|i: int|
                0 <= i < self.side_moves(s, p).len() ==> self.resolves(#[trigger] self.side_moves(s, p)[i]),
        decreases self.size - p,
    {
        if 0 <= p < self.size {
            self.lemma_side_moves(s, p + 1);
            let m = Move::make(s, p);
            let here = match self.annotated(m) {
                Some(l) => seq![l],
                None => Seq::<LegalMove>::empty(),
            };
            let rest = self.side_moves(s, p + 1);
            assert(self.side_moves(s, p) == here + rest);
            assert forall|i: int| 0 <= i < self.side_moves(s, p).len() implies self.resolves(
                #[trigger] self.side_moves(s, p)[i],
            ) by {
                if i >= here.len() {
                    assert(self.side_moves(s, p)[i] == rest[i - here.len()]);
                }
            }
        }
    }

    /// What a move resolves to: it resolves exactly when its edge cell is
    /// on the board and empty, and then to itself, its landing cell (an
    /// empty cell of the board) and the win check there.
    pub proof fn lemma_annotated(self, m: Move)
        requires
            self.wf(),
        ensures
            self.annotated(m) is Some <==> self.is_open(m.side_of(), m.pos_of()),
            self.annotated(m) matches Some(l) ==> {
                &&& l.base_of() == m
                &&& self.landing(m.side_of(), m.pos_of()) == Some((l.row_of(), l.col_of()))
                &&& self.in_bounds(l.row_of(), l.col_of())
                &&& self.cell(l.row_of(), l.col_of()) is Empty
                &&& l.wins() == self.wins_at(l.row_of(), l.col_of())
                &&& self.resolves(l)
            },
    {
        if self.is_open(m.side_of(), m.pos_of()) {
            self.lemma_slide(m.side, m.pos as int, 0);
        }
    }

    /// The resolved moves of a board are exactly the listed legal moves.
    pub proof fn lemma_resolves_listed(self, l: LegalMove)
        requires
            self.wf(),
        ensures
            self.resolves(l) <==> self.legal_moves().contains(l),
    {
        self.lemma_legal_moves();
        if self.resolves(l) {
            let m = l.base_of();
            let s = m.side_of();
            let p = m.pos_of();
            self.lemma_annotated(m);
            self.lemma_side_moves_contain(s, 0, p, l);
            let a = self.side_moves(Side::North, 0);
            let b = self.side_moves(Side::East, 0);
            let c = self.side_moves(Side::South, 0);
            let d = self.side_moves(Side::West, 0);
            let all = self.legal_moves();
            assert(all =~= a + (b + c + d));
            let k = choose|k: int| 0 <= k < self.side_moves(s, 0).len() && self.side_moves(s, 0)[k] == l;
            let off = match s {
                Side::North => 0int,
                Side::East => a.len() as int,
                Side::South => (a.len() + b.len()) as int,
                Side::West => (a.len() + b.len() + c.len()) as int,
            };
            assert(all[off + k] == l);
        }
    }

    proof fn lemma_side_moves_contain(self, s: Side, p: int, q: int, l: LegalMove)
        requires
            self.wf(),
            0 <= p <= q < self.size,
            self.annotated(Move::make(s, q)) == Some(l),
        ensures
            exists|k: int| 0 <= k < self.side_moves(s, p).len() && self.side_moves(s, p)[k] == l,
        decreases q - p,
    {
        let here = match self.annotated(Move::make(s, p)) {
            Some(x) => seq![x],
            None => Seq::<LegalMove>::empty(),
        };
        let rest = self.side_moves(s, p + 1);
        assert(self.side_moves(s, p) == here + rest);
        if p == q {
            assert(self.side_moves(s, p)[0] == l);
        } else {
            self.lemma_side_moves_contain(s, p + 1, q, l);
            let k = choose|k: int| 0 <= k < rest.len() && rest[k] == l;
            assert(self.side_moves(s, p)[here.len() + k] == l);
        }
    }

    /// The count of open edge entries is the number of legal moves, and
    /// every listed move resolves on this board.
    pub proof fn lemma_legal_moves(self)
        requires
            self.wf(),
        ensures
            self.legal_moves().len() == self.nlegal,
            forall|i: int|
                0 <= i < self.legal_moves().len() ==> self.resolves(#[trigger] self.legal_moves()[i]),
    {
        let a = self.side_moves(Side::North, 0);
        let b = self.side_moves(Side::East, 0);
        let c = self.side_moves(Side::South, 0);
        let d = self.side_moves(Side::West, 0);
        self.lemma_side_moves(Side::North, 0);
        self.lemma_side_moves(Side::East, 0);
        self.lemma_side_moves(Side::South, 0);
        self.lemma_side_moves(Side::West, 0);
        let all = self.legal_moves();
        assert(all == a + (b + c + d));
        assert forall|i: int| 0 <= i < all.len() implies self.resolves(#[trigger] all[i]) by {
            if i < a.len() {
                assert(all[i] == a[i]);
            } else if i < a.len() + b.len() {
                assert(all[i] == b[i - a.len()]);
            } else if i < a.len() + b.len() + c.len() {
                assert(all[i] == c[i - a.len() - b.len()]);
            } else {
                assert(all[i] == d[i - a.len() - b.len() - c.len()]);
            }
        }
    }

    /// Playing a resolved move keeps the board consistent and fills one
    /// empty cell.
    pub proof fn lemma_after(self, l: LegalMove)
        requires
            self.wf(),
            self.resolves(l),
        ensures
            self.after(l).wf(),
            self.after(l).size == self.size,
            self.after(l).num_empty() + 1 == self.num_empty(),
            self.after(l).state is Ongoing ==> self.after(l).nlegal > 0,
    {
        self.lemma_resolves(l);
        let n = self.size as int;
        lemma_cell_index(n, l.row_of(), l.col_of());
        lemma_empty_count_update(self.cells, cell_index(n, l.row_of(), l.col_of()), self.active);
    }

    /// A board with a legal move has an empty cell.
    pub proof fn lemma_num_empty_positive(self, l: LegalMove)
        requires
            self.wf(),
            self.resolves(l),
        ensures
            self.num_empty() >= 1,
    {
        self.lemma_after(l);
    }

    /// The number of empty cells is at most the number of cells.
    pub proof fn lemma_num_empty_bound(self)
        ensures
            self.num_empty() <= self.cells.len(),
    {
        lemma_empty_count_bound(self.cells);
    }
}

impl BoardModel {
    /// The cells of a line through `(r, c)` that count for the player to
    /// move, taking `(r, c)` as theirs, are those that hold their piece once
    /// it is placed at `(r, c)`.
    proof fn lemma_counts_as_if_placed(self, line: Line, r: int, c: int, k: int)
        requires
            self.wf(),
            self.in_bounds(r, c),
            0 <= k < line_len(self.size as int, line, r, c),
        ensures
            self.counts_as_if(line, r, c, k) == self.placed(r, c, self.active).holds(
                line,
                r,
                c,
                k,
                self.active,
            ),
    {
        let n = self.size as int;
        let q = line_pos(n, line, r, c, k);
        lemma_line_pos_in_bounds(n, line, r, c, k);
        lemma_cell_index(n, r, c);
        lemma_cell_index(n, q.0, q.1);
        if q != (r, c) {
            assert(cell_index(n, q.0, q.1) != cell_index(n, r, c));
        }
    }
}

/// The win check at a cell, made before the move, agrees with looking for
/// four in a row of the mover's pieces from scratch once the piece stands
/// on that cell.
pub proof fn lemma_win_check_consistent(b: BoardModel, r: int, c: int)
    requires
        b.wf(),
        b.in_bounds(r, c),
    ensures
        b.wins_at(r, c) == b.placed(r, c, b.active).four_in_a_row(r, c, b.active),
{
    let p = b.placed(r, c, b.active);
    let e = b.active;
    let n = b.size as int;
    assert forall|line: Line, k: int|
        0 <= k && k + 4 <= line_len(n, line, r, c) implies #[trigger] b.four_as_if(line, r, c, k)
        == p.four_of(line, r, c, k, e) by {
        b.lemma_counts_as_if_placed(line, r, c, k);
        b.lemma_counts_as_if_placed(line, r, c, k + 1);
        b.lemma_counts_as_if_placed(line, r, c, k + 2);
        b.lemma_counts_as_if_placed(line, r, c, k + 3);
    }
    if b.wins_at(r, c) {
        let line = if b.wins_along(Line::Row, r, c) {
            Line::Row
        } else if b.wins_along(Line::Column, r, c) {
            Line::Column
        } else if b.wins_along(Line::Diagonal, r, c) {
            Line::Diagonal
        } else {
            Line::AntiDiagonal
        };
        let k = choose|k: int|
            0 <= k && k + 4 <= line_len(n, line, r, c) && #[trigger] b.four_as_if(line, r, c, k);
        assert(p.four_of(line, r, c, k, e));
    }
    if p.four_in_a_row(r, c, e) {
        let (line, k) = choose|line: Line, k: int|
            0 <= k && k + 4 <= line_len(n, line, r, c) && #[trigger] p.four_of(line, r, c, k, e);
        assert(b.four_as_if(line, r, c, k));
        assert(b.wins_along(line, r, c));
    }
}

/// The pairs whose edge cell is `(r, c)`, on a board of size `n`.
pub open spec fn enters_at(n: int, r: int, c: int) -> spec_fn(Side, int) -> bool {
    |s: Side, p: int| origin(n, s, p) == (r, c)
}

impl BoardModel {
    /// As many pairs enter through `(r, c)` as its edge multiplicity says.
    proof fn lemma_enters_at_count(self, r: int, c: int)
        requires
            self.in_bounds(r, c),
        ensures
            count_pairs(self.size as int, enters_at(self.size as int, r, c)) == self.edge_multiplicity(r, c),
    {
        let n = self.size as int;
        let h = enters_at(n, r, c);
        if r == 0 {
            lemma_count_side_single(n, Side::North, 0, c, h);
        } else {
            lemma_count_side_none(n, Side::North, 0, h);
        }
        if c == n - 1 {
            lemma_count_side_single(n, Side::East, 0, r, h);
        } else {
            lemma_count_side_none(n, Side::East, 0, h);
        }
        if r == n - 1 {
            lemma_count_side_single(n, Side::South, 0, c, h);
        } else {
            lemma_count_side_none(n, Side::South, 0, h);
        }
        if c == 0 {
            lemma_count_side_single(n, Side::West, 0, r, h);
        } else {
            lemma_count_side_none(n, Side::West, 0, h);
        }
    }

    /// A move that leaves no edge entry open lands where every legal move
    /// lands: all open pairs enter through that one cell, which is either
    /// entered by a single pair or a corner whose neighbours inward are
    /// taken.
    pub proof fn lemma_drawing_move(self, l: LegalMove, l2: LegalMove)
        requires
            self.wf(),
            self.resolves(l),
            self.resolves(l2),
            self.placed(l.row_of(), l.col_of(), self.active).nlegal == 0,
        ensures
            l2.row_of() == l.row_of(),
            l2.col_of() == l.col_of(),
            self.after(l2) == self.after(l),
    {
        let n = self.size as int;
        let (r, c) = (l.row_of(), l.col_of());
        self.lemma_resolves(l);
        self.lemma_resolves(l2);
        self.lemma_placed_open_count(r, c, self.active);
        self.lemma_enters_at_count(r, c);
        lemma_cell_index(n, r, c);
        let f = enters_at(n, r, c);
        let g = |s: Side, p: int| edge_open(n, self.cells, s, p);
        let h = |s: Side, p: int| edge_open(n, self.cells, s, p) && origin(n, s, p) != (r, c);
        assert forall|s: Side, q: int| 0 <= q < n implies (if #[trigger] g(s, q) { 1int } else { 0int })
            == (if f(s, q) { 1int } else { 0int }) + 1 * (if h(s, q) { 1int } else { 0int }) by {}
        lemma_count_side_shift(n, Side::North, 0, f, g, h, 1);
        lemma_count_side_shift(n, Side::East, 0, f, g, h, 1);
        lemma_count_side_shift(n, Side::South, 0, f, g, h, 1);
        lemma_count_side_shift(n, Side::West, 0, f, g, h, 1);
        assert(count_pairs(n, h) == 0);
        let (s1, p1) = (l.base_of().side_of(), l.base_of().pos_of());
        let (s2, p2) = (l2.base_of().side_of(), l2.base_of().pos_of());
        if h(s1, p1) {
            lemma_count_pairs_lower(n, h, s1, p1, s1, p1);
        }
        if h(s2, p2) {
            lemma_count_pairs_lower(n, h, s2, p2, s2, p2);
        }
        assert(origin(n, s1, p1) == (r, c));
        assert(origin(n, s2, p2) == (r, c));
        if (s1, p1) == (s2, p2) {
            Move::lemma_ext(l.base_of(), l2.base_of());
        } else {
            lemma_count_pairs_lower(n, f, s1, p1, s2, p2);
            if n > 1 {
                let nx = along(n, s2, p2, 1);
                let (s3, p3) = match s2 {
                    Side::North => if p2 == 0 { (Side::West, 1) } else { (Side::East, 1) },
                    Side::East => if p2 == 0 { (Side::North, n - 2) } else { (Side::South, n - 2) },
                    Side::South => if p2 == 0 { (Side::West, n - 2) } else { (Side::East, n - 2) },
                    Side::West => if p2 == 0 { (Side::North, 1) } else { (Side::South, 1) },
                };
                assert(origin(n, s3, p3) == nx);
                if self.cell(nx.0, nx.1) is Empty {
                    assert(h(s3, p3));
                    lemma_count_pairs_lower(n, h, s3, p3, s3, p3);
                }
            }
        }
        let q2 = along(n, s2, p2, self.slide(s2, p2, 0));
        assert(q2 == (r, c));
    }
}

/// A square grid of entries, the player to move, the number of open edge
/// entries, and the outcome so far.
#[derive(Debug)]
pub struct Board {
    size: usize,
    active: Entry,
    nlegal: usize,
    state: GameState,
    data: Vec<Entry>,
}

impl View for Board {
    type V = BoardModel;

    closed spec fn view(&self) -> BoardModel {
        BoardModel {
            size: self.size as nat,
            cells: self.data@,
            active: self.active,
            nlegal: self.nlegal as nat,
            state: self.state,
        }
    }
}

impl Clone for Board {
    fn clone(&self) -> (r: Board)
        ensures
            r@ == self@,
    {
        let mut data: Vec<Entry> = Vec::new();
        let mut i: usize = 0;
        while i < self.data.len()
            invariant
                i <= self.data@.len(),
                data@ == self.data@.subrange(0, i as int),
            decreases self.data@.len() - i,
        {
            data.push(self.data[i]);
            i += 1;
        }
        assert(data@ =~= self.data@);
        Board { size: self.size, active: self.active, nlegal: self.nlegal, state: self.state, data }
    }
}

impl Board {
    /// The board is consistent: as many cells as the size asks for, the
    /// count of open edge entries up to date, a player to move, and room
    /// in `usize` for the count of edge entries.
    pub open spec fn wf(&self) -> bool {
        &&& self@.wf()
        &&& self@.size * self@.size <= usize::MAX
        &&& 4 * self@.size <= usize::MAX
    }

    /// An empty board of the given size with the first player to move.
    pub fn new(size: usize) -> (b: Board)
        requires
            size * size <= usize::MAX,
            4 * size <= usize::MAX,
        ensures
            b.wf(),
            b@.size == size,
            b@.active == Entry::Player1,
            b@.state == GameState::Ongoing,
            b@.nlegal == 4 * size,
            forall|r: int, c: int| b@.in_bounds(r, c) ==> #[trigger] b@.cell(r, c) == Entry::Empty,
            forall|i: int| 0 <= i < b@.cells.len() ==> #[trigger] b@.cells[i] == Entry::Empty,
    {
        let len = size * size;
        let mut data: Vec<Entry> = Vec::new();
        let mut i: usize = 0;
        while i < len
            invariant
                i <= len,
                data@.len() == i,
                forall|j: int| 0 <= j < i ==> data@[j] == Entry::Empty,
            decreases len - i,
        {
            data.push(Entry::Empty);
            i += 1;
        }
        let b = Board { size, active: Entry::Player1, nlegal: size * 4, state: GameState::Ongoing, data };
        proof {
            let n = size as int;
            let f = |s: Side, p: int| edge_open(n, b@.cells, s, p);
            let t = |s: Side, p: int| true;
            assert forall|s: Side, q: int| 0 <= q < n implies (if #[trigger] f(s, q) { 1int } else { 0int })
                == (if t(s, q) { 1int } else { 0int }) + 0 * (if t(s, q) { 1int } else { 0int }) by {
                let o = origin(n, s, q);
                lemma_cell_index(n, o.0, o.1);
            }
            lemma_count_side_shift(n, Side::North, 0, t, f, t, 0);
            lemma_count_side_shift(n, Side::East, 0, t, f, t, 0);
            lemma_count_side_shift(n, Side::South, 0, t, f, t, 0);
            lemma_count_side_shift(n, Side::West, 0, t, f, t, 0);
            lemma_count_side_all(n, Side::North, 0, t);
            lemma_count_side_all(n, Side::East, 0, t);
            lemma_count_side_all(n, Side::South, 0, t);
            lemma_count_side_all(n, Side::West, 0, t);
            assert forall|r: int, c: int| b@.in_bounds(r, c) implies #[trigger] b@.cell(r, c) == Entry::Empty by {
                lemma_cell_index(n, r, c);
            }
        }
        b
    }

    /// The cell at position `index` of the row-major order.
    fn pos_for(&self, index: usize) -> (q: (usize, usize))
        requires
            self.wf(),
            index < self.data@.len(),
        ensures
            self@.in_bounds(q.0 as int, q.1 as int),
            cell_index(self@.size as int, q.0 as int, q.1 as int) == index,
    {
        let n = self.size;
        proof {
            let (i, m) = (index as int, n as int);
            assert(m > 0) by (nonlinear_arith)
                requires
                    i < m * m,
                    0 <= i,
                    0 <= m,
            ;
            lemma_fundamental_div_mod(i, m);
            lemma_mod_pos_bound(i, m);
            let q = i / m;
            assert(q < m) by (nonlinear_arith)
                requires
                    i == m * q + i % m,
                    0 <= i % m,
                    i < m * m,
                    m > 0,
            ;
            assert(q >= 0) by (nonlinear_arith)
                requires
                    i == m * q + i % m,
                    i % m < m,
                    i >= 0,
                    m > 0,
            ;
            assert(q * m == m * q) by (nonlinear_arith);
        }
        (index / n, index % n)
    }

    /// A board of the given size with `filled` distinct cells (or every
    /// cell, if there are fewer) made blocks, chosen uniformly at random.
    pub fn generate(size: usize, filled: usize) -> (b: Board)
        requires
            size * size <= usize::MAX,
            4 * size <= usize::MAX,
        ensures
            b.wf(),
            b@.size == size,
            b@.active == Entry::Player1,
            b@.state == GameState::Ongoing,
            forall|i: int| 0 <= i < b@.cells.len() ==> #[trigger] b@.cells[i] is Empty || b@.cells[i] is Block,
            b@.num_empty() == size * size - (if filled <= size * size { filled as int } else { size * size }),
    {
        let len = size * size;
        let amount = if filled <= len { filled } else { len };
        let picks = sample_indices(len, amount);
        Board::place_blocks(size, &picks)
    }

    /// A board of the given size, the first player to move, with blocks on
    /// exactly the cells whose row-major positions are in `picks`.
    pub fn place_blocks(size: usize, picks: &Vec<usize>) -> (b: Board)
        requires
            size * size <= usize::MAX,
            4 * size <= usize::MAX,
            picks@.no_duplicates(),
            forall|i: int| 0 <= i < picks@.len() ==> #[trigger] picks@[i] < size * size,
        ensures
            b.wf(),
            b@.size == size,
            b@.active == Entry::Player1,
            b@.state == GameState::Ongoing,
            forall|i: int|
                0 <= i < size * size ==> #[trigger] b@.cells[i] == if picks@.contains(i as usize) {
                    Entry::Block
                } else {
                    Entry::Empty
                },
            b@.num_empty() == size * size - picks@.len(),
    {
        let mut b = Board::new(size);
        let len = b.data.len();
        let amount = picks.len();
        proof {
            lemma_empty_count_all(b@.cells);
        }
        let mut k: usize = 0;
        while k < picks.len()
            invariant
                b.wf(),
                b@.size == size,
                b@.active == Entry::Player1,
                b@.state == GameState::Ongoing,
                len == b@.cells.len(),
                picks@.len() == amount,
                picks@.no_duplicates(),
                forall|i: int| 0 <= i < picks@.len() ==> picks@[i] < len,
                k <= picks@.len(),
                forall|j: int|
                    0 <= j < len ==> #[trigger] b@.cells[j] == if picks@.subrange(0, k as int).contains(
                        j as usize,
                    ) {
                        Entry::Block
                    } else {
                        Entry::Empty
                    },
                b@.num_empty() + k == len,
            decreases picks@.len() - k,
        {
            let i = picks[k];
            let (row, col) = b.pos_for(i);
            let ghost before = b@;
            proof {
                assert(!picks@.subrange(0, k as int).contains(i)) by {
                    if picks@.subrange(0, k as int).contains(i) {
                        let t = choose|t: int| 0 <= t < k && picks@.subrange(0, k as int)[t] == i;
                        assert(picks@[t] == picks@[k as int]);
                    }
                }
                lemma_empty_count_update(before.cells, i as int, Entry::Block);
            }
            b.set(row, col, Entry::Block);
            proof {
                assert forall|j: int| 0 <= j < len implies #[trigger] b@.cells[j] == if picks@.subrange(
                    0,
                    k + 1,
                ).contains(j as usize) {
                    Entry::Block
                } else {
                    Entry::Empty
                } by {
                    let s0 = picks@.subrange(0, k as int);
                    let s1 = picks@.subrange(0, k + 1);
                    assert(s1 == s0.push(i));
                    if j == i as int {
                        assert(s1[k as int] == i);
                    } else {
                        if s1.contains(j as usize) {
                            let t = choose|t: int| 0 <= t < k + 1 && s1[t] == j as usize;
                            assert(s0[t] == j as usize);
                        }
                        if s0.contains(j as usize) {
                            let t = choose|t: int| 0 <= t < k && s0[t] == j as usize;
                            assert(s1[t] == j as usize);
                        }
                    }
                }
            }
            k = k + 1;
        }
        proof {
            assert(picks@.subrange(0, k as int) =~= picks@);
        }
        b
    }

    pub fn size(&self) -> (r: usize)
        ensures
            r == self@.size,
    {
        self.size
    }

    pub fn active(&self) -> (r: Entry)
        ensures
            r == self@.active,
    {
        self.active
    }

    pub fn state(&self) -> (r: GameState)
        ensures
            r == self@.state,
    {
        self.state
    }

    /// The number of open `(side, offset)` entry points.
    pub fn nlegal(&self) -> (r: usize)
        ensures
            r == self@.nlegal,
    {
        self.nlegal
    }

    fn index_for(&self, row: usize, col: usize) -> (i: usize)
        requires
            self.wf(),
            self@.in_bounds(row as int, col as int),
        ensures
            i == cell_index(self@.size as int, row as int, col as int),
            i < self.data@.len(),
    {
        proof {
            lemma_cell_index(self.size as int, row as int, col as int);
        }
        row * self.size + col
    }

    /// The entry at `(row, col)`, or `None` off the board.
    pub fn get(&self, row: usize, col: usize) -> (r: Option<Entry>)
        requires
            self.wf(),
        ensures
            r == if self@.in_bounds(row as int, col as int) {
                Some(self@.cell(row as int, col as int))
            } else {
                None::<Entry>
            },
    {
        if row < self.size && col < self.size {
            Some(self.data[self.index_for(row, col)])
        } else {
            None
        }
    }

    /// Writes `entry` at `(row, col)` and brings the count of open edge
    /// entries up to date.
    pub fn set(&mut self, row: usize, col: usize, entry: Entry)
        requires
            old(self).wf(),
            old(self)@.in_bounds(row as int, col as int),
        ensures
            final(self).wf(),
            final(self)@ == old(self)@.placed(row as int, col as int, entry),
            old(self)@.cell(row as int, col as int) is Empty && !(entry is Empty) ==> final(self)@.nlegal
                + old(self)@.edge_multiplicity(row as int, col as int) == old(self)@.nlegal,
            !(old(self)@.cell(row as int, col as int) is Empty) && entry is Empty ==> final(self)@.nlegal
                == old(self)@.nlegal + old(self)@.edge_multiplicity(row as int, col as int),
            (old(self)@.cell(row as int, col as int) is Empty) == (entry is Empty) ==> final(self)@.nlegal
                == old(self)@.nlegal,
    {
        let i = self.index_for(row, col);
        let was_empty = self.data[i].is_empty();
        let now_empty = entry.is_empty();
        proof {
            self@.lemma_placed_open_count(row as int, col as int, entry);
            self@.placed(row as int, col as int, entry).lemma_open_count_bound();
        }
        let last = self.size - 1;
        let mult: usize = (if row == 0 { 1usize } else { 0 }) + (if row == last { 1usize } else { 0 })
            + (if col == 0 { 1usize } else { 0 }) + (if col == last { 1usize } else { 0 });
        assert(mult == self@.edge_multiplicity(row as int, col as int));
        if was_empty && !now_empty {
            self.nlegal = self.nlegal - mult;
        } else if !was_empty && now_empty {
            self.nlegal = self.nlegal + mult;
        }
        self.data.set(i, entry);
    }
}

impl Board {
    /// The `k`-th cell of `line` through `(row, col)`, and the line's length.
    fn line_cell(&self, line: Line, row: usize, col: usize, k: usize) -> (q: (usize, usize))
        requires
            self.wf(),
            self@.in_bounds(row as int, col as int),
            k < line_len(self@.size as int, line, row as int, col as int),
        ensures
            q.0 as int == line_pos(self@.size as int, line, row as int, col as int, k as int).0,
            q.1 as int == line_pos(self@.size as int, line, row as int, col as int, k as int).1,
            self@.in_bounds(q.0 as int, q.1 as int),
    {
        let n = self.size;
        match line {
            Line::Row => (row, k),
            Line::Column => (k, col),
            Line::Diagonal => {
                let d = if row <= col { row } else { col };
                (row - d + k, col - d + k)
            },
            Line::AntiDiagonal => {
                let d = if n - 1 - row <= col { n - 1 - row } else { col };
                (row + d - k, col - d + k)
            },
        }
    }

    fn line_length(&self, line: Line, row: usize, col: usize) -> (len: usize)
        requires
            self.wf(),
            self@.in_bounds(row as int, col as int),
        ensures
            len as int == line_len(self@.size as int, line, row as int, col as int),
            len <= self@.size,
    {
        let n = self.size;
        match line {
            Line::Row => n,
            Line::Column => n,
            Line::Diagonal => {
                let d = if row <= col { row } else { col };
                let (r0, c0) = (row - d, col - d);
                n - if r0 >= c0 { r0 } else { c0 }
            },
            Line::AntiDiagonal => {
                let d = if n - 1 - row <= col { n - 1 - row } else { col };
                let (r0, c0) = (row + d, col - d);
                if r0 + 1 <= n - c0 { r0 + 1 } else { n - c0 }
            },
        }
    }

    /// Scans `line` through `(row, col)` for a run of four cells that count
    /// for the player to move, `(row, col)` counting whatever it holds.
    fn is_winning_along(&self, line: Line, row: usize, col: usize) -> (r: bool)
        requires
            self.wf(),
            self@.in_bounds(row as int, col as int),
        ensures
            r == self@.wins_along(line, row as int, col as int),
    {
        let ghost b = self@;
        let ghost (r, c) = (row as int, col as int);
        let len = self.line_length(line, row, col);
        let mut n: usize = 0;
        let mut k: usize = 0;
        while k < len
            invariant
                self.wf(),
                b == self@,
                r == row,
                c == col,
                b.in_bounds(r, c),
                len as int == line_len(b.size as int, line, r, c),
                k <= len,
                n <= k,
                n < 4,
                forall|i: int| k - n <= i < k ==> #[trigger] b.counts_as_if(line, r, c, i),
                n < k ==> !b.counts_as_if(line, r, c, k - 1 - n),
                forall|i: int| 0 <= i && i + 4 <= k ==> !#[trigger] b.four_as_if(line, r, c, i),
            decreases len - k,
        {
            let (row1, col1) = self.line_cell(line, row, col, k);
            let is_this = row1 == row && col1 == col;
            let is_active = self.data[self.index_for(row1, col1)] == self.active;
            let is_match = is_this || is_active;
            assert(is_match == b.counts_as_if(line, r, c, k as int));
            if is_match {
                n = n + 1;
                if n >= 4 {
                    assert(b.four_as_if(line, r, c, k - 3));
                    return true;
                }
            } else {
                n = 0;
            }
            proof {
                let kk = k as int;
                if kk + 1 >= 4 {
                    let i = kk - 3;
                    if n < kk + 1 {
                        assert(!b.counts_as_if(line, r, c, kk - n));
                    }
                    assert(!b.four_as_if(line, r, c, i));
                }
            }
            k = k + 1;
        }
        false
    }

    fn is_winning(&self, row: usize, col: usize) -> (r: bool)
        requires
            self.wf(),
            self@.in_bounds(row as int, col as int),
        ensures
            r == self@.wins_at(row as int, col as int),
    {
        self.is_winning_along(Line::Row, row, col) || self.is_winning_along(Line::Column, row, col)
            || self.is_winning_along(Line::Diagonal, row, col) || self.is_winning_along(
            Line::AntiDiagonal,
            row,
            col,
        )
    }
}

impl Move {
    /// The cell `d` steps inward from this move's edge cell.
    fn step(&self, b: &Board, d: usize) -> (q: (usize, usize))
        requires
            b.wf(),
            (self.pos as int) < b@.size,
            d < b@.size,
        ensures
            q.0 as int == along(b@.size as int, self.side, self.pos as int, d as int).0,
            q.1 as int == along(b@.size as int, self.side, self.pos as int, d as int).1,
            b@.in_bounds(q.0 as int, q.1 as int),
    {
        let n = b.size;
        match self.side {
            Side::North => (d, self.pos),
            Side::East => (self.pos, n - 1 - d),
            Side::South => (n - 1 - d, self.pos),
            Side::West => (self.pos, d),
        }
    }

    fn origin(&self, b: &Board) -> (q: (usize, usize))
        requires
            b.wf(),
            (self.pos as int) < b@.size,
        ensures
            q.0 as int == origin(b@.size as int, self.side, self.pos as int).0,
            q.1 as int == origin(b@.size as int, self.side, self.pos as int).1,
            b@.in_bounds(q.0 as int, q.1 as int),
    {
        self.step(b, 0)
    }

    /// The edge cell this move enters through is on the board and empty.
    pub fn is_legal(&self, b: &Board) -> (r: bool)
        requires
            b.wf(),
        ensures
            r == b@.is_open(self.side_of(), self.pos_of()),
    {
        if self.pos < b.size {
            let (row, col) = self.origin(b);
            match b.get(row, col) {
                Some(e) => e.is_empty(),
                None => false,
            }
        } else {
            false
        }
    }

    /// A cursor on this move's edge cell, or off the board if the offset
    /// is.
    fn iter<'b>(&self, b: &'b Board) -> (it: MoveVectorIter<'b>)
        requires
            b.wf(),
        ensures
            it.wf(),
            it.board_of() == b@,
            it.side_of() == self.side,
            (self.pos as int) < b@.size ==> it.cursor() == origin(b@.size as int, self.side, self.pos as int),
            (self.pos as int) >= b@.size ==> !b@.in_bounds(it.cursor().0, it.cursor().1),
    {
        let (row, col) = if self.pos < b.size {
            self.origin(b)
        } else {
            (b.size, b.size)
        };
        MoveVectorIter { board: b, side: self.side, row, col }
    }

    /// The cell the pushed piece comes to rest on: the last of the empty
    /// cells met going inward from the edge cell, if that one is empty.
    fn target(&self, b: &Board) -> (r: Option<(usize, usize)>)
        requires
            b.wf(),
        ensures
            r matches Some(q) ==> b@.landing(self.side, self.pos as int) == Some(
                (q.0 as int, q.1 as int),
            ),
            r matches Some(q) ==> b@.in_bounds(q.0 as int, q.1 as int),
            r is None ==> b@.landing(self.side, self.pos as int) is None,
    {
        let ghost bm = b@;
        let ghost n = bm.size as int;
        let ghost s = self.side;
        let ghost p = self.pos as int;
        let mut it = self.iter(b);
        let mut last: Option<(usize, usize)> = None;
        let ghost mut d: int = 0;
        loop
            invariant_except_break
                p < n && d < n ==> it.cursor() == along(n, s, p, d),
                p < n && d == n ==> !bm.in_bounds(it.cursor().0, it.cursor().1),
                p >= n ==> d == 0 && !bm.in_bounds(it.cursor().0, it.cursor().1),
            invariant
                b.wf(),
                bm == b@,
                n == bm.size,
                s == self.side,
                p == self.pos,
                it.wf(),
                it.board_of() == bm,
                it.side_of() == s,
                0 <= d <= n,
                d == 0 <==> last is None,
                d > 0 ==> (last matches Some(q) && q.0 as int == along(n, s, p, d - 1).0 && q.1 as int
                    == along(n, s, p, d - 1).1),
                d > 0 ==> bm.cell(origin(n, s, p).0, origin(n, s, p).1) is Empty,
                d > 0 ==> bm.slide(s, p, 0) == bm.slide(s, p, d - 1),
            ensures
                last is None ==> bm.landing(s, p) is None,
                last matches Some(q) ==> (bm.landing(s, p) == Some((q.0 as int, q.1 as int))
                    && bm.in_bounds(q.0 as int, q.1 as int)),
            decreases n - d,
        {
            match it.next() {
                Some((row, col, e)) => {
                    if e.is_empty() {
                        last = Some((row, col));
                        proof {
                            d = d + 1;
                        }
                    } else {
                        break;
                    }
                },
                None => {
                    break;
                },
            }
        }
        last
    }

    /// Resolves this move against `b`: where the piece lands and whether
    /// that gives four in a row; `None` if the edge cell is taken or the
    /// offset is off the board.
    pub fn annotated(&self, b: &Board) -> (r: Option<LegalMove>)
        requires
            b.wf(),
        ensures
            r == b@.annotated(*self),
            r is Some <==> b@.is_open(self.side_of(), self.pos_of()),
            r matches Some(l) ==> {
                &&& l.base_of() == *self
                &&& b@.landing(self.side_of(), self.pos_of()) == Some((l.row_of(), l.col_of()))
                &&& b@.in_bounds(l.row_of(), l.col_of())
                &&& l.wins() == b@.wins_at(l.row_of(), l.col_of())
                &&& b@.resolves(l)
            },
    {
        proof {
            b@.lemma_annotated(*self);
        }
        match self.target(b) {
            Some((row, col)) => {
                let is_winning = b.is_winning(row, col);
                Some(LegalMove { base: *self, row, col, is_winning })
            },
            None => None,
        }
    }
}

impl Board {
    /// `m` is what its move resolves to on this board, so that it may be
    /// played here.
    pub fn accepts(&self, m: &LegalMove) -> (r: bool)
        requires
            self.wf(),
        ensures
            r == self@.resolves(*m),
    {
        match m.base.annotated(self) {
            Some(l) => l == *m,
            None => false,
        }
    }

    /// Plays a move that resolves on this board: the player to move takes
    /// the landing cell; the game is won if the move was flagged winning,
    /// drawn if no edge entry is left open, and otherwise the turn passes.
    pub fn make_legal_move(&mut self, m: LegalMove) -> (r: GameState)
        requires
            old(self).wf(),
            old(self)@.state == GameState::Ongoing,
            old(self)@.resolves(m),
        ensures
            final(self).wf(),
            final(self)@ == old(self)@.after(m),
            r == final(self)@.state,
    {
        proof {
            self@.lemma_resolves(m);
        }
        let active = self.active;
        self.set(m.row, m.col, active);
        if m.is_winning {
            self.state = GameState::Won;
        } else if self.nlegal == 0 {
            self.state = GameState::Drawn;
        } else {
            self.active = active.flip();
        }
        self.state
    }

    /// Resolves `m` and plays it, or reports it illegal and leaves the
    /// board as it was.
    pub fn make_move(&mut self, m: Move) -> (r: Result<GameState>)
        requires
            old(self).wf(),
            old(self)@.is_open(m.side_of(), m.pos_of()) ==> old(self)@.state == GameState::Ongoing,
        ensures
            final(self).wf(),
            !old(self)@.is_open(m.side_of(), m.pos_of()) ==> r == Err::<GameState, Error>(
                Error::IllegalMove(m),
            ) && final(self)@ == old(self)@,
            old(self)@.landing(m.side_of(), m.pos_of()) matches Some(q) ==> {
                &&& final(self)@ == old(self)@.played(q.0, q.1, old(self)@.wins_at(q.0, q.1))
                &&& final(self)@.cells == old(self)@.cells.update(
                    cell_index(old(self)@.size as int, q.0, q.1),
                    old(self)@.active,
                )
                &&& old(self)@.in_bounds(q.0, q.1)
                &&& final(self)@.cell(q.0, q.1) == old(self)@.active
                &&& r == Ok::<GameState, Error>(final(self)@.state)
            },
            old(self)@.annotated(m) matches Some(l) ==> final(self)@ == old(self)@.after(l),
    {
        proof {
            self@.lemma_annotated(m);
        }
        let ghost b0 = self@;
        let r = match m.annotated(self) {
            Some(l) => Ok(self.make_legal_move(l)),
            None => Err(Error::IllegalMove(m)),
        };
        proof {
            if let Some(q) = b0.landing(m.side_of(), m.pos_of()) {
                lemma_cell_index(b0.size as int, q.0, q.1);
            }
        }
        r
    }

    /// Hands the turn to the other player without a move.
    pub fn pass(&mut self)
        requires
            old(self).wf(),
            old(self)@.state == GameState::Ongoing,
        ensures
            final(self).wf(),
            final(self)@ == (BoardModel { active: old(self)@.active.flipped(), ..old(self)@ }),
    {
        self.active = self.active.flip();
    }
}

impl Move {
    /// The move after this one in enumeration order: the next offset on
    /// the same side, else offset 0 of the next side.
    pub open spec fn next_on(self, n: int) -> Option<Move> {
        if self.pos_of() + 1 < n {
            Some(Move::make(self.side_of(), self.pos_of() + 1))
        } else {
            match self.side_of().next() {
                Some(s) => Some(Move::make(s, 0)),
                None => None,
            }
        }
    }

    fn succ(&self, b: &Board) -> (r: Option<Move>)
        requires
            b.wf(),
            self.pos <= b@.size,
        ensures
            r == self.next_on(b@.size as int),
    {
        if self.pos + 1 < b.size {
            Some(Move::new(self.side, self.pos + 1))
        } else {
            match self.side.succ() {
                Some(side) => Some(Move::new(side, 0)),
                None => None,
            }
        }
    }
}

impl BoardModel {
    /// The moves that resolve, from `base` on in enumeration order.
    pub open spec fn moves_from(self, base: Option<Move>) -> Seq<LegalMove> {
        match base {
            None => Seq::empty(),
            Some(m) => self.side_moves(m.side_of(), m.pos_of()) + self.moves_after(m.side_of()),
        }
    }

    proof fn lemma_moves_from_step(self, base: Move)
        requires
            self.wf(),
            base.pos <= self.size,
        ensures
            self.moves_from(Some(base)) == (match self.annotated(base) {
                Some(l) => seq![l],
                None => Seq::<LegalMove>::empty(),
            }) + self.moves_from(base.next_on(self.size as int)),
    {
        let n = self.size as int;
        let here = match self.annotated(base) {
            Some(l) => seq![l],
            None => Seq::<LegalMove>::empty(),
        };
        let s = base.side;
        let p = base.pos as int;
        let next = base.next_on(n);
        let rest = self.moves_after(s);
        if p + 1 < n {
            assert(Move::make(s, p) == base);
            assert(self.side_moves(s, p) == here + self.side_moves(s, p + 1));
            assert(next == Some(Move::make(s, p + 1)));
            assert(self.moves_from(next) == self.side_moves(s, p + 1) + rest);
            assert((here + self.side_moves(s, p + 1)) + rest =~= here + (self.side_moves(s, p + 1) + rest));
        } else {
            if p < n {
                assert(Move::make(s, p) == base);
                assert(self.side_moves(s, p) == here + self.side_moves(s, p + 1));
            } else {
                assert(here.len() == 0);
            }
            assert(self.side_moves(s, p + 1).len() == 0);
            assert(self.side_moves(s, p) =~= here);
            lemma_moves_after_step(self, s);
        }
    }
}

/// Past the last offset of side `s`, the moves after `s` are those of the
/// next side and the sides after it.
proof fn lemma_moves_after_step(b: BoardModel, s: Side)
    ensures
        b.moves_after(s) =~= match s.next() {
            Some(s2) => b.side_moves(s2, 0) + b.moves_after(s2),
            None => Seq::<LegalMove>::empty(),
        },
{
    match s {
        Side::North => {
            let (e, so, w) = (b.side_moves(Side::East, 0), b.side_moves(Side::South, 0), b.side_moves(Side::West, 0));
            assert((e + so) + w =~= e + (so + w));
        },
        _ => {},
    }
}

/// The legal moves of a board, produced one at a time in enumeration
/// order: North then East then South then West, by increasing offset.
pub struct LegalMovesIter<'a> {
    board: &'a Board,
    base: Option<Move>,
}

impl<'a> LegalMovesIter<'a> {
    /// The board whose moves are listed.
    pub closed spec fn board_of(&self) -> BoardModel {
        self.board@
    }

    /// The moves still to come.
    pub closed spec fn remaining(&self) -> Seq<LegalMove> {
        self.board@.moves_from(self.base)
    }

    pub closed spec fn wf(&self) -> bool {
        &&& self.board.wf()
        &&& self.base matches Some(m) ==> m.pos <= self.board@.size
    }

    spec fn moves_left(&self) -> int {
        let n = self.board@.size as int;
        match self.base {
            None => 0,
            Some(m) => (match m.side {
                Side::North => 3 * (n + 1),
                Side::East => 2 * (n + 1),
                Side::South => n + 1,
                Side::West => 0,
            }) + (n - m.pos) + 1,
        }
    }

    proof fn lemma_bound(&self)
        requires
            self.wf(),
        ensures
            self.remaining().len() <= 4 * self.board@.size,
    {
        let b = self.board@;
        let n = b.size as int;
        let f = |s: Side, q: int| edge_open(n, b.cells, s, q);
        b.lemma_side_moves(Side::North, 0);
        b.lemma_side_moves(Side::East, 0);
        b.lemma_side_moves(Side::South, 0);
        b.lemma_side_moves(Side::West, 0);
        lemma_count_side_bound(n, Side::North, 0, f);
        lemma_count_side_bound(n, Side::East, 0, f);
        lemma_count_side_bound(n, Side::South, 0, f);
        lemma_count_side_bound(n, Side::West, 0, f);
        if let Some(m) = self.base {
            b.lemma_side_moves(m.side, m.pos as int);
            lemma_count_side_bound(n, m.side, m.pos as int, f);
        }
    }

    /// The next legal move, or `None` once all have been produced.
    pub fn next(&mut self) -> (r: Option<LegalMove>)
        requires
            old(self).wf(),
        ensures
            final(self).wf(),
            final(self).board_of() == old(self).board_of(),
            r is None <==> old(self).remaining().len() == 0,
            r matches Some(l) ==> old(self).remaining() == seq![l] + final(self).remaining(),
            r is None ==> final(self).remaining().len() == 0,
    {
        let ghost all = self.remaining();
        loop
            invariant
                self.wf(),
                self.board_of() == old(self).board_of(),
                self.remaining() == all,
                all == old(self).remaining(),
            decreases self.moves_left(),
        {
            match self.base {
                None => {
                    return None;
                },
                Some(base) => {
                    let ghost b = self.board@;
                    let succ = base.succ(self.board);
                    let r = base.annotated(self.board);
                    proof {
                        b.lemma_moves_from_step(base);
                    }
                    self.base = succ;
                    if r.is_some() {
                        return r;
                    }
                },
            }
        }
    }

    /// The number of moves still to come.
    pub fn count(self) -> (r: usize)
        requires
            self.wf(),
        ensures
            r == self.remaining().len(),
    {
        proof {
            self.lemma_bound();
        }
        let ghost total = self.remaining().len();
        let mut it = self;
        let mut c: usize = 0;
        loop
            invariant
                it.wf(),
                total == self.remaining().len(),
                c + it.remaining().len() == total,
                total <= 4 * it.board_of().size,
                4 * it.board_of().size <= usize::MAX,
            decreases it.remaining().len(),
        {
            match it.next() {
                Some(_) => {
                    c = c + 1;
                },
                None => {
                    return c;
                },
            }
        }
    }

    /// Skips `k` moves and produces the one after them.
    pub fn nth(&mut self, k: usize) -> (r: Option<LegalMove>)
        requires
            old(self).wf(),
        ensures
            final(self).wf(),
            final(self).board_of() == old(self).board_of(),
            r == if k < old(self).remaining().len() {
                Some(old(self).remaining()[k as int])
            } else {
                None::<LegalMove>
            },
    {
        let ghost all = self.remaining();
        let mut i: usize = 0;
        while i < k
            invariant
                self.wf(),
                self.board_of() == old(self).board_of(),
                all == old(self).remaining(),
                i <= k,
                i <= all.len() ==> self.remaining() == all.subrange(i as int, all.len() as int),
                i > all.len() ==> self.remaining().len() == 0,
            decreases k - i,
        {
            let ghost before = self.remaining();
            let _ = self.next();
            proof {
                if i < all.len() {
                    assert(self.remaining() =~= before.subrange(1, before.len() as int));
                    assert(self.remaining() =~= all.subrange(i + 1, all.len() as int));
                }
            }
            i = i + 1;
        }
        let r = self.next();
        proof {
            if k < all.len() {
                assert(all.subrange(k as int, all.len() as int)[0] == all[k as int]);
            }
        }
        r
    }
}

impl Board {
    /// All legal moves of this board, in enumeration order.
    pub fn legal_moves_iter(&self) -> (r: LegalMovesIter)
        requires
            self.wf(),
        ensures
            r.wf(),
            r.board_of() == self@,
            r.remaining() == self@.legal_moves(),
    {
        let r = LegalMovesIter { board: self, base: Some(Move::new(Side::North, 0)) };
        assert(r.remaining() =~= self@.legal_moves());
        r
    }
}

/// A cursor over the cells a piece pushed in from one side passes:
/// from the edge cell inward, each with its entry, until it leaves the
/// board.
#[derive(Clone, Copy, Debug)]
pub struct MoveVectorIter<'a> {
    board: &'a Board,
    side: Side,
    row: usize,
    col: usize,
}

impl<'a> MoveVectorIter<'a> {
    pub closed spec fn board_of(&self) -> BoardModel {
        self.board@
    }

    pub closed spec fn side_of(&self) -> Side {
        self.side
    }

    /// The cell the cursor is on, which may be off the board.
    pub closed spec fn cursor(&self) -> (int, int) {
        (self.row as int, self.col as int)
    }

    pub closed spec fn wf(&self) -> bool {
        self.board.wf()
    }

    /// The cell under the cursor with its entry, moving the cursor one
    /// cell inward; `None` once the cursor is off the board.
    pub fn next(&mut self) -> (r: Option<(usize, usize, Entry)>)
        requires
            old(self).wf(),
        ensures
            final(self).wf(),
            final(self).board_of() == old(self).board_of(),
            final(self).side_of() == old(self).side_of(),
            old(self).board_of().in_bounds(old(self).cursor().0, old(self).cursor().1) ==> {
                &&& (r matches Some(t) && t.0 == old(self).cursor().0 && t.1 == old(self).cursor().1
                    && t.2 == old(self).board_of().cell(old(self).cursor().0, old(self).cursor().1))
                &&& final(self).cursor() == advance(
                    old(self).board_of().size as int,
                    old(self).side_of(),
                    old(self).cursor(),
                )
            },
            !old(self).board_of().in_bounds(old(self).cursor().0, old(self).cursor().1) ==> r is None
                && final(self).cursor() == old(self).cursor(),
    {
        let n = self.board.size;
        if self.row >= n || self.col >= n {
            None
        } else {
            let entry = self.board.data[self.board.index_for(self.row, self.col)];
            let result = (self.row, self.col, entry);
            match self.side {
                Side::North => self.row = self.row + 1,
                Side::East => self.col = if self.col == 0 {
                    n
                } else {
                    self.col - 1
                },
                Side::South => self.row = if self.row == 0 {
                    n
                } else {
                    self.row - 1
                },
                Side::West => self.col = self.col + 1,
            }
            Some(result)
        }
    }
}

} // verus!
