//! Counting over the edge entries of a board and over its cells.
use vstd::prelude::*;

use crate::board::{Entry, Side};

verus! {

/// How many of the offsets `p..n` of side `s` satisfy `f`.
pub open spec fn count_side(n: int, s: Side, p: int, f: spec_fn(Side, int) -> bool) -> nat
    decreases n - p,
{
    if p < n {
        (if f(s, p) { 1nat } else { 0nat }) + count_side(n, s, p + 1, f)
    } else {
        0
    }
}

/// How many `(side, offset)` pairs, over all four sides, satisfy `f`.
pub open spec fn count_pairs(n: int, f: spec_fn(Side, int) -> bool) -> nat {
    count_side(n, Side::North, 0, f) + count_side(n, Side::East, 0, f) + count_side(
        n,
        Side::South,
        0,
        f,
    ) + count_side(n, Side::West, 0, f)
}

/// How many cells of `cells` are empty.
pub open spec fn empty_count(cells: Seq<Entry>) -> nat
    decreases cells.len(),
{
    if cells.len() == 0 {
        0
    } else {
        empty_count(cells.drop_last()) + (if cells.last() is Empty { 1nat } else { 0nat })
    }
}

/// Counting is linear: where `g` and `f` differ by `d` times `h` at every
/// pair, so do their counts.
pub(crate) proof fn lemma_count_side_shift(
    n: int,
    s: Side,
    p: int,
    f: spec_fn(Side, int) -> bool,
    g: spec_fn(Side, int) -> bool,
    h: spec_fn(Side, int) -> bool,
    d: int,
)
    requires
        forall|q: int|
            p <= q < n ==> (if #[trigger] g(s, q) { 1int } else { 0int }) == (if f(s, q) { 1int } else { 0int })
                + d * (if h(s, q) { 1int } else { 0int }),
    ensures
        count_side(n, s, p, g) == count_side(n, s, p, f) + d * count_side(n, s, p, h),
    decreases n - p,
{
    if p < n {
        lemma_count_side_shift(n, s, p + 1, f, g, h, d);
        let a = count_side(n, s, p, h) as int;
        let x = if h(s, p) { 1int } else { 0int };
        let b = count_side(n, s, p + 1, h) as int;
        assert(a == x + b);
        assert(count_side(n, s, p, g) == (if g(s, p) { 1int } else { 0int }) + count_side(n, s, p + 1, g));
        assert(count_side(n, s, p, f) == (if f(s, p) { 1int } else { 0int }) + count_side(n, s, p + 1, f));
        assert(d * a == d * x + d * b) by (nonlinear_arith)
            requires
                a == x + b,
        ;
    } else {
        assert(count_side(n, s, p, h) == 0);
        assert(d * count_side(n, s, p, h) == 0) by (nonlinear_arith)
            requires
                count_side(n, s, p, h) == 0,
        ;
    }
}

pub(crate) proof fn lemma_count_side_bound(n: int, s: Side, p: int, f: spec_fn(Side, int) -> bool)
    requires
        0 <= p,
    ensures
        count_side(n, s, p, f) <= if p < n { n - p } else { 0 },
    decreases n - p,
{
    if p < n {
        lemma_count_side_bound(n, s, p + 1, f);
    }
}

/// Exactly the offset `q` of side `s` (if it is at least `p`) satisfies `f`.
pub(crate) proof fn lemma_count_side_single(n: int, s: Side, p: int, q: int, f: spec_fn(Side, int) -> bool)
    requires
        forall|x: int| p <= x < n ==> (#[trigger] f(s, x) <==> x == q),
    ensures
        count_side(n, s, p, f) == if p <= q < n { 1nat } else { 0nat },
    decreases n - p,
{
    if p < n {
        lemma_count_side_single(n, s, p + 1, q, f);
    }
}

/// No offset of side `s` from `p` on satisfies `f`.
pub(crate) proof fn lemma_count_side_none(n: int, s: Side, p: int, f: spec_fn(Side, int) -> bool)
    requires
        forall|x: int| p <= x < n ==> !#[trigger] f(s, x),
    ensures
        count_side(n, s, p, f) == 0,
    decreases n - p,
{
    if p < n {
        lemma_count_side_none(n, s, p + 1, f);
    }
}

pub(crate) proof fn lemma_count_side_all(n: int, s: Side, p: int, f: spec_fn(Side, int) -> bool)
    requires
        0 <= p,
        forall|x: int| p <= x < n ==> #[trigger] f(s, x),
    ensures
        count_side(n, s, p, f) == if p < n { n - p } else { 0 },
    decreases n - p,
{
    if p < n {
        lemma_count_side_all(n, s, p + 1, f);
    }
}

/// Writing one cell changes the count of empty cells by its change in
/// emptiness.
pub(crate) proof fn lemma_empty_count_update(cells: Seq<Entry>, i: int, e: Entry)
    requires
        0 <= i < cells.len(),
    ensures
        empty_count(cells.update(i, e)) + (if cells[i] is Empty { 1int } else { 0int })
            == empty_count(cells) + (if e is Empty { 1int } else { 0int }),
    decreases cells.len(),
{
    let u = cells.update(i, e);
    if i == cells.len() - 1 {
        assert(u.drop_last() =~= cells.drop_last());
    } else {
        lemma_empty_count_update(cells.drop_last(), i, e);
        assert(u.drop_last() =~= cells.drop_last().update(i, e));
    }
}

pub(crate) proof fn lemma_empty_count_all(cells: Seq<Entry>)
    requires
        forall|i: int| 0 <= i < cells.len() ==> cells[i] is Empty,
    ensures
        empty_count(cells) == cells.len(),
    decreases cells.len(),
{
    if cells.len() > 0 {
        lemma_empty_count_all(cells.drop_last());
    }
}

pub(crate) proof fn lemma_empty_count_bound(cells: Seq<Entry>)
    ensures
        empty_count(cells) <= cells.len(),
    decreases cells.len(),
{
    if cells.len() > 0 {
        lemma_empty_count_bound(cells.drop_last());
    }
}

/// A satisfying offset from `p` on makes the count positive.
pub(crate) proof fn lemma_count_side_one(n: int, s: Side, p: int, q: int, f: spec_fn(Side, int) -> bool)
    requires
        p <= q < n,
        f(s, q),
    ensures
        count_side(n, s, p, f) >= 1,
    decreases q - p,
{
    if p < q {
        lemma_count_side_one(n, s, p + 1, q, f);
    }
}

/// Two satisfying offsets from `p` on make the count at least two.
pub(crate) proof fn lemma_count_side_two(
    n: int,
    s: Side,
    p: int,
    q1: int,
    q2: int,
    f: spec_fn(Side, int) -> bool,
)
    requires
        p <= q1 < q2 < n,
        f(s, q1),
        f(s, q2),
    ensures
        count_side(n, s, p, f) >= 2,
    decreases q1 - p,
{
    if p < q1 {
        lemma_count_side_two(n, s, p + 1, q1, q2, f);
    } else {
        lemma_count_side_one(n, s, p + 1, q2, f);
    }
}

/// A satisfying pair makes the count of pairs positive; two distinct ones
/// make it at least two.
pub(crate) proof fn lemma_count_pairs_lower(
    n: int,
    f: spec_fn(Side, int) -> bool,
    s1: Side,
    p1: int,
    s2: Side,
    p2: int,
)
    requires
        0 <= p1 < n,
        0 <= p2 < n,
        f(s1, p1),
        f(s2, p2),
    ensures
        count_pairs(n, f) >= 1,
        (s1, p1) != (s2, p2) ==> count_pairs(n, f) >= 2,
{
    lemma_count_side_one(n, s1, 0, p1, f);
    lemma_count_side_one(n, s2, 0, p2, f);
    if s1 == s2 && p1 < p2 {
        lemma_count_side_two(n, s1, 0, p1, p2, f);
    } else if s1 == s2 && p2 < p1 {
        lemma_count_side_two(n, s1, 0, p2, p1, f);
    }
}

} // verus!
