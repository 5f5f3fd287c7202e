//! Players: anything that picks a move for the side to move.
use vstd::prelude::*;

use crate::board::{Board, GameState, LegalMove};
use crate::rng::random_below;

verus! {

/// Picks a move for the player to move on `b`.
pub trait Player {
    fn choose_move(&self, b: &Board) -> (r: LegalMove)
        requires
            b.wf(),
            b@.state == GameState::Ongoing,
            b@.nlegal > 0,
        ensures
            b@.resolves(r),
            b@.legal_moves().contains(r),
    ;
}

/// The first legal move that wins, if there is one; otherwise a legal move
/// drawn uniformly at random.
pub fn choose_winning_or_random(b: &Board) -> (r: LegalMove)
    requires
        b.wf(),
        b@.nlegal > 0,
    ensures
        exists|i: int| 0 <= i < b@.legal_moves().len() && b@.legal_moves()[i] == r,
        r.wins() <==> exists|i: int|
            0 <= i < b@.legal_moves().len() && (#[trigger] b@.legal_moves()[i]).wins(),
        r.wins() ==> exists|i: int|
            0 <= i < b@.legal_moves().len() && b@.legal_moves()[i] == r && forall|j: int|
                0 <= j < i ==> !(#[trigger] b@.legal_moves()[j]).wins(),
{
    proof {
        b@.lemma_legal_moves();
        b@.lemma_open_count_bound();
    }
    let ghost all = b@.legal_moves();
    let mut it = b.legal_moves_iter();
    let mut m = match it.next() {
        Some(m) => m,
        None => unreached(),
    };
    assert(all[0] == m);
    if m.is_winning() {
        return m;
    }
    let mut i: usize = 1;
    let mut at: usize = 0;
    loop
        invariant
            it.wf(),
            it.board_of() == b@,
            all == b@.legal_moves(),
            all.len() == b@.nlegal,
            1 <= i <= all.len(),
            all.len() <= usize::MAX,
            it.remaining() == all.subrange(i as int, all.len() as int),
            at < i,
            all[at as int] == m,
            forall|j: int| 0 <= j < i ==> !(#[trigger] all[j]).wins(),
        decreases all.len() - i,
    {
        let ghost before = it.remaining();
        match it.next() {
            None => {
                return m;
            },
            Some(m1) => {
                assert(before[0] == m1);
                assert(all[i as int] == m1);
                assert(it.remaining() =~= before.subrange(1, before.len() as int));
                assert(it.remaining() =~= all.subrange(i + 1, all.len() as int));
                if m1.is_winning() {
                    return m1;
                }
                if random_below(i + 1) == 0 {
                    m = m1;
                    at = i;
                }
                i = i + 1;
            },
        }
    }
}

/// A player that takes a winning move when there is one and otherwise
/// moves at random.
pub struct RandomPlayer;

impl Player for RandomPlayer {
    fn choose_move(&self, b: &Board) -> (r: LegalMove) {
        let r = choose_winning_or_random(b);
        proof {
            b@.lemma_legal_moves();
            b@.lemma_resolves_listed(r);
        }
        r
    }
}

} // verus!
