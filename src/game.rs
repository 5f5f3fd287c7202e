//! The outcome of a position under best play by both sides.
use vstd::prelude::*;

use crate::board::{BoardModel, GameState};

verus! {

/// The outcome of best play from board `b` for the player to move there:
/// 1 a win, 0 a draw, -1 a loss. A won game is lost for the player who
/// would move next; a drawn game, or one with no move left, is a draw.
pub open spec fn game_value(b: BoardModel) -> int
    decreases b.num_empty(), b.legal_moves().len() + 1,
{
    if b.state == GameState::Won {
        -1
    } else if b.state == GameState::Drawn || !b.wf() || b.legal_moves().len() == 0 {
        0
    } else {
        best_reply(b, 0)
    }
}

/// The best outcome the player to move on `b` reaches through one of the
/// legal moves from position `k` on (a loss if there is none).
pub open spec fn best_reply(b: BoardModel, k: int) -> int
    decreases b.num_empty(), b.legal_moves().len() - k,
    via best_reply_decreases
{
    if !b.wf() || k < 0 || k >= b.legal_moves().len() {
        -1
    } else {
        let here = -game_value(b.after(b.legal_moves()[k]));
        let rest = best_reply(b, k + 1);
        if here >= rest {
            here
        } else {
            rest
        }
    }
}

#[via_fn]
proof fn best_reply_decreases(b: BoardModel, k: int) {
    if b.wf() && 0 <= k < b.legal_moves().len() {
        b.lemma_legal_moves();
        b.lemma_after(b.legal_moves()[k]);
    }
}

/// The outcome of a position is a win, a draw or a loss.
pub proof fn lemma_game_value_range(b: BoardModel)
    ensures
        -1 <= game_value(b) <= 1,
    decreases b.num_empty(),
{
    if b.state != GameState::Won && b.state != GameState::Drawn && b.wf() && b.legal_moves().len()
        > 0 {
        b.lemma_legal_moves();
        assert forall|j: int| 0 <= j < b.legal_moves().len() implies -1 <= #[trigger] game_value(
            b.after(b.legal_moves()[j]),
        ) <= 1 by {
            b.lemma_after(b.legal_moves()[j]);
            lemma_game_value_range(b.after(b.legal_moves()[j]));
        }
        lemma_best_reply_range(b, 0);
    }
}

proof fn lemma_best_reply_range(b: BoardModel, k: int)
    requires
        b.wf(),
        0 <= k,
        forall|j: int|
            0 <= j < b.legal_moves().len() ==> -1 <= #[trigger] game_value(b.after(b.legal_moves()[j]))
                <= 1,
    ensures
        -1 <= best_reply(b, k) <= 1,
    decreases b.legal_moves().len() - k,
{
    if k < b.legal_moves().len() {
        lemma_best_reply_range(b, k + 1);
        let g = game_value(b.after(b.legal_moves()[k]));
        assert(-1 <= g <= 1);
    }
}

/// The best reply is at least what any one of the moves gives.
pub proof fn lemma_best_reply_ge(b: BoardModel, k: int, j: int)
    requires
        b.wf(),
        0 <= k <= j < b.legal_moves().len(),
    ensures
        best_reply(b, k) >= -game_value(b.after(b.legal_moves()[j])),
    decreases j - k,
{
    if k < j {
        lemma_best_reply_ge(b, k + 1, j);
    }
}

/// Where every move from `k` on gives `t`, so does the best of them.
pub proof fn lemma_best_reply_all(b: BoardModel, k: int, t: int)
    requires
        b.wf(),
        0 <= k < b.legal_moves().len(),
        t >= -1,
        forall|j: int|
            k <= j < b.legal_moves().len() ==> -game_value(#[trigger] b.after(b.legal_moves()[j])) == t,
    ensures
        best_reply(b, k) == t,
    decreases b.legal_moves().len() - k,
{
    if k + 1 < b.legal_moves().len() {
        lemma_best_reply_all(b, k + 1, t);
    } else {
        assert(best_reply(b, k + 1) == -1);
    }
    assert(-game_value(b.after(b.legal_moves()[k])) == t);
}

/// A move that leaves the opponent lost wins the position.
pub proof fn lemma_win_through(b: BoardModel, j: int)
    requires
        b.wf(),
        b.state == GameState::Ongoing,
        0 <= j < b.legal_moves().len(),
        game_value(b.after(b.legal_moves()[j])) == -1,
    ensures
        game_value(b) == 1,
{
    lemma_best_reply_ge(b, 0, j);
    lemma_game_value_range(b);
}

/// A position where every move leaves the opponent winning is lost.
pub proof fn lemma_loss_through_all(b: BoardModel)
    requires
        b.wf(),
        b.state == GameState::Ongoing,
        b.legal_moves().len() > 0,
        forall|j: int|
            0 <= j < b.legal_moves().len() ==> game_value(#[trigger] b.after(b.legal_moves()[j])) == 1,
    ensures
        game_value(b) == -1,
{
    lemma_best_reply_all(b, 0, -1);
}

/// Where no move from `k` on gives more than `t`, neither does the best.
pub proof fn lemma_best_reply_le(b: BoardModel, k: int, t: int)
    requires
        b.wf(),
        0 <= k,
        t >= -1,
        forall|j: int|
            k <= j < b.legal_moves().len() ==> -game_value(#[trigger] b.after(b.legal_moves()[j])) <= t,
    ensures
        best_reply(b, k) <= t,
    decreases b.legal_moves().len() - k,
{
    if k < b.legal_moves().len() {
        lemma_best_reply_le(b, k + 1, t);
        assert(-game_value(b.after(b.legal_moves()[k])) <= t);
    }
}

/// A position where every move leaves the opponent a win or a draw, and
/// one a draw, is drawn.
pub proof fn lemma_draw_through(b: BoardModel, k: int)
    requires
        b.wf(),
        b.state == GameState::Ongoing,
        0 <= k < b.legal_moves().len(),
        game_value(b.after(b.legal_moves()[k])) == 0,
        forall|j: int|
            0 <= j < b.legal_moves().len() ==> 0 <= game_value(#[trigger] b.after(b.legal_moves()[j])),
    ensures
        game_value(b) == 0,
{
    lemma_best_reply_ge(b, 0, k);
    lemma_best_reply_le(b, 0, 0);
}

} // verus!
