//! Monte Carlo tree search with exact endgame folding.
//!
//! Scores and play counts are kept in halves, so that the Jeffreys prior of
//! one half and a drawn playout are whole numbers: a loss is 0, a draw 1
//! and a win 2. A node's score is from the point of view of the player who
//! moved into it; its verdicts (`CertainWin` and so on) are from the point of
//! view of the player to move there.
use vstd::prelude::*;

use std::time::Duration;

use crate::board::{Board, BoardModel, GameState, LegalMove};
use crate::clock::{at_least, elapsed, now};
use crate::game::{
    game_value, lemma_best_reply_all, lemma_draw_through, lemma_loss_through_all, lemma_win_through,
};
use crate::player::{choose_winning_or_random, Player};
use crate::rng::random_below;

verus! {

/// Half a point: the weight of the prior on each of win and loss.
pub const PRIOR: u64 = 1;

/// The score of a loss, a draw and a win, in halves.
pub const LOSS: u64 = 0;

pub const DRAW: u64 = 1;

pub const WIN: u64 = 2;

/// A win probability of one, on the scale of the sampler's draws.
pub const CERTAIN: u64 = 0xFFFF_FFFF_FFFF_FFFF;

/// Draws win probabilities for Thompson sampling.
pub trait WinRateSampler {
    /// A draw from the Beta distribution with parameters `wins / 2` and
    /// `losses / 2` (both counted in halves, so `1` is the prior of one
    /// half), as a fraction of `CERTAIN`.
    fn sample(&self, wins: u64, losses: u64) -> u64;
}

/// A proven outcome: how many moves it is away, and which child (in the
/// order of the board's legal moves) leads to it.
#[derive(Clone, Copy, Debug, PartialEq, Eq, Structural)]
pub struct Certain {
    depth: usize,
    index: usize,
}

impl Certain {
    pub closed spec fn depth_of(self) -> int {
        self.depth as int
    }

    pub closed spec fn index_of(self) -> int {
        self.index as int
    }

    fn new(depth: usize, index: usize) -> (r: Certain)
        ensures
            r.depth_of() == depth,
            r.index_of() == index,
    {
        Certain { depth, index }
    }

    /// The same outcome seen from the parent, which reaches it through
    /// child `index`.
    fn parent(&self, index: usize) -> (r: Certain)
        requires
            self.depth < usize::MAX,
        ensures
            r.depth_of() == self.depth_of() + 1,
            r.index_of() == index,
    {
        Certain::new(self.depth + 1, index)
    }

    pub fn depth(&self) -> (r: usize)
        ensures
            r == self.depth_of(),
    {
        self.depth
    }

    pub fn index(&self) -> (r: usize)
        ensures
            r == self.index_of(),
    {
        self.index
    }
}

/// Statistics of a node still in doubt, with one child per legal move.
#[derive(Debug)]
pub struct Probabilistic {
    score: u64,
    nplay: u64,
    children: Vec<Node>,
}

impl Probabilistic {
    pub closed spec fn score_of(self) -> int {
        self.score as int
    }

    pub closed spec fn nplay_of(self) -> int {
        self.nplay as int
    }

    pub closed spec fn children_of(self) -> Seq<Node> {
        self.children@
    }

    /// The accumulated score, in halves, prior included.
    pub fn score(&self) -> (r: u64)
        ensures
            r == self.score_of(),
    {
        self.score
    }

    /// The number of playouts, in halves, prior included.
    pub fn nplay(&self) -> (r: u64)
        ensures
            r == self.nplay_of(),
    {
        self.nplay
    }

    /// One child per legal move, in the order of the legal moves.
    pub fn children(&self) -> (r: &Vec<Node>)
        ensures
            r@ == self.children_of(),
    {
        &self.children
    }
}

/// A node of the search tree.
#[derive(Debug)]
pub enum Node {
    Unvisited,
    Probabilistic(Probabilistic),
    CertainLoss(Certain),
    CertainWin(Certain),
    CertainDraw(Certain),
}

/// The ordering key of a child during selection: its class first, then
/// its sampled win probability, then a depth preference.
#[derive(Clone, Copy, Debug, PartialEq, Eq, Structural)]
pub struct RankKey {
    pub ordinal: u8,
    pub value: u64,
    pub tie: i128,
}

/// `a` does not rank above `b`, comparing the fields in order.
pub open spec fn key_le(a: RankKey, b: RankKey) -> bool {
    ||| a.ordinal < b.ordinal
    ||| a.ordinal == b.ordinal && a.value < b.value
    ||| a.ordinal == b.ordinal && a.value == b.value && a.tie <= b.tie
}

fn key_le_exec(a: &RankKey, b: &RankKey) -> (r: bool)
    ensures
        r == key_le(*a, *b),
{
    a.ordinal < b.ordinal || (a.ordinal == b.ordinal && (a.value < b.value || (a.value == b.value
        && a.tie <= b.tie)))
}

/// The position of the last greatest key.
pub fn pick_last_max(keys: &Vec<RankKey>) -> (r: usize)
    requires
        keys@.len() > 0,
    ensures
        r < keys@.len(),
        forall|j: int| 0 <= j < keys@.len() ==> key_le(#[trigger] keys@[j], keys@[r as int]),
        forall|j: int| r < j < keys@.len() ==> !key_le(keys@[r as int], #[trigger] keys@[j]),
{
    let mut best: usize = 0;
    let mut j: usize = 1;
    while j < keys.len()
        invariant
            1 <= j <= keys@.len(),
            best < j,
            forall|k: int| 0 <= k < j ==> key_le(#[trigger] keys@[k], keys@[best as int]),
            forall|k: int| best < k < j ==> !key_le(keys@[best as int], #[trigger] keys@[k]),
        decreases keys@.len() - j,
    {
        if key_le_exec(&keys[best], &keys[j]) {
            best = j;
        }
        j = j + 1;
    }
    best
}

impl Node {
    pub open spec fn is_certain_spec(self) -> bool {
        self is CertainLoss || self is CertainWin || self is CertainDraw
    }

    /// The selection class: a child lost for its mover comes first, then
    /// children still in doubt, then draws, then children won for their
    /// mover.
    pub open spec fn ordinal(self) -> int {
        match self {
            Node::Unvisited => 2,
            Node::Probabilistic(_) => 2,
            Node::CertainLoss(_) => 3,
            Node::CertainWin(_) => 0,
            Node::CertainDraw(_) => 1,
        }
    }

    /// The number of completed playouts through this node, in halves,
    /// prior included.
    pub open spec fn plays(self) -> int {
        match self {
            Node::Probabilistic(p) => p.nplay_of(),
            _ => 0,
        }
    }

    /// The score of a proven node, from the point of view of the player
    /// who moved into it.
    pub open spec fn certain_score(self) -> int {
        match self {
            Node::CertainLoss(_) => WIN as int,
            Node::CertainWin(_) => LOSS as int,
            _ => DRAW as int,
        }
    }

    /// The win probability a proven node ranks with.
    pub open spec fn certain_value(self) -> int {
        match self {
            Node::CertainLoss(_) => CERTAIN as int,
            Node::CertainWin(_) => 0,
            _ => (CERTAIN / 2) as int,
        }
    }

    /// The depth preference of a proven node: the shallower of two
    /// children lost for their mover, the deeper of two won or drawn.
    pub open spec fn certain_tie(self) -> int {
        match self {
            Node::CertainLoss(c) => -c.depth_of(),
            _ => self.certain_of().depth_of(),
        }
    }

    pub open spec fn certain_of(self) -> Certain {
        match self {
            Node::CertainLoss(c) => c,
            Node::CertainWin(c) => c,
            Node::CertainDraw(c) => c,
            _ => arbitrary(),
        }
    }

    /// The tree is consistent with board `b`, the position at this node,
    /// and its proven wins, losses and draws are the outcome of best play
    /// there: a
    /// node in doubt stands on a game going on where no legal move wins,
    /// has one child per legal move, each consistent with the board after
    /// that move, and more playouts than any child; a proven node names a
    /// legal move and is no deeper than the empty cells left, a proven win
    /// in one names a winning move and a proven draw in one a move that
    /// draws; on a finished game a proven node has depth 0, a loss for the
    /// player to move if the game was won and a draw if it was drawn.
    pub open spec fn wf_at(self, b: BoardModel) -> bool
        decreases self,
        via Node::wf_at_decreases
    {
        match self {
            Node::Unvisited => true,
            Node::Probabilistic(p) => {
                let ch = p.children_of();
                &&& b.wf()
                &&& b.state == GameState::Ongoing
                &&& p.score_of() <= p.nplay_of()
                &&& p.nplay_of() >= 4
                &&& ch.len() == b.legal_moves().len()
                &&& ch.len() > 0
                &&& forall|i: int| 0 <= i < ch.len() ==> !(#[trigger] b.legal_moves()[i]).wins()
                &&& forall|i: int|
                    0 <= i < ch.len() ==> {
                        &&& (#[trigger] ch[i]).wf_at(b.after(b.legal_moves()[i]))
                        &&& ch[i].plays() < p.nplay_of()
                    }
            },
            Node::CertainLoss(c) => {
                &&& Node::certain_wf(c, b)
                &&& b.state != GameState::Ongoing ==> b.state == GameState::Won
                &&& game_value(b) == -1
            },
            Node::CertainWin(c) => {
                &&& Node::certain_wf(c, b)
                &&& b.state == GameState::Ongoing
                &&& game_value(b) == 1
                &&& c.depth_of() == 1 ==> b.legal_moves()[c.index_of()].wins()
            },
            Node::CertainDraw(c) => {
                &&& Node::certain_wf(c, b)
                &&& b.state != GameState::Ongoing ==> b.state == GameState::Drawn
                &&& game_value(b) == 0
                &&& b.state == GameState::Ongoing && c.depth_of() == 1 ==> b.after(
                    b.legal_moves()[c.index_of()],
                ).state == GameState::Drawn
            },
        }
    }

    #[via_fn]
    proof fn wf_at_decreases(self, b: BoardModel) {
        if let Node::Probabilistic(p) = self {
            assert forall|i: int| 0 <= i < p.children_of().len() implies decreases_to!(self => #[trigger] p.children_of()[i]) by {
                assert(decreases_to!(p.children => p.children@[i]));
            }
        }
    }

    pub open spec fn certain_wf(c: Certain, b: BoardModel) -> bool {
        if b.state == GameState::Ongoing {
            1 <= c.depth_of() <= b.num_empty() && 0 <= c.index_of() < b.legal_moves().len()
        } else {
            c.depth_of() == 0
        }
    }

    /// An unvisited node is consistent with any board.
    pub proof fn lemma_unvisited_wf(b: BoardModel)
        ensures
            Node::Unvisited.wf_at(b),
    {
    }

    pub fn is_certain(&self) -> (r: bool)
        ensures
            r == self.is_certain_spec(),
    {
        match self {
            Node::Unvisited => false,
            Node::Probabilistic(..) => false,
            Node::CertainLoss(..) => true,
            Node::CertainWin(..) => true,
            Node::CertainDraw(..) => true,
        }
    }

    /// The selection key of this node: its class, a sampled win
    /// probability (exact for a proven node), and a preference for quick
    /// wins and slow losses.
    fn rank_key<S: WinRateSampler>(&self, sampler: &S) -> (k: RankKey)
        ensures
            k.ordinal == self.ordinal(),
            self.is_certain_spec() ==> k.value == self.certain_value() && k.tie == self.certain_tie(),
    {
        match self {
            Node::Unvisited => RankKey { ordinal: 2, value: sampler.sample(PRIOR, PRIOR), tie: 0 },
            Node::Probabilistic(p) => {
                let losses = if p.score <= p.nplay { p.nplay - p.score } else { 0 };
                RankKey { ordinal: 2, value: sampler.sample(p.score, losses), tie: 0 }
            },
            Node::CertainLoss(c) => RankKey { ordinal: 3, value: CERTAIN, tie: -(c.depth as i128) },
            Node::CertainWin(c) => RankKey { ordinal: 0, value: 0, tie: c.depth as i128 },
            Node::CertainDraw(c) => RankKey { ordinal: 1, value: CERTAIN / 2, tie: c.depth as i128 },
        }
    }
}

/// Thompson sampling over the children: the child with the greatest key,
/// which always has the greatest class.
fn select_child<S: WinRateSampler>(children: &Vec<Node>, sampler: &S) -> (r: usize)
    requires
        children@.len() > 0,
    ensures
        r < children@.len(),
        forall|j: int| 0 <= j < children@.len() ==> (#[trigger] children@[j]).ordinal() <= children@[r as int].ordinal(),
        forall|j: int|
            0 <= j < children@.len() && (#[trigger] children@[j]).ordinal() == children@[r as int].ordinal()
                && children@[r as int].is_certain_spec() ==> children@[j].certain_tie()
                <= children@[r as int].certain_tie(),
{
    let mut keys: Vec<RankKey> = Vec::new();
    let mut j: usize = 0;
    while j < children.len()
        invariant
            j <= children@.len(),
            keys@.len() == j,
            forall|k: int| 0 <= k < j ==> (#[trigger] keys@[k]).ordinal == children@[k].ordinal(),
            forall|k: int|
                0 <= k < j && children@[k].is_certain_spec() ==> (#[trigger] keys@[k]).value
                    == children@[k].certain_value() && keys@[k].tie == children@[k].certain_tie(),
        decreases children@.len() - j,
    {
        keys.push(children[j].rank_key(sampler));
        j = j + 1;
    }
    let r = pick_last_max(&keys);
    assert forall|j: int| 0 <= j < children@.len() implies (#[trigger] children@[j]).ordinal() <= children@[r as int].ordinal() by {
        assert(key_le(keys@[j], keys@[r as int]));
    }
    assert forall|j: int|
        0 <= j < children@.len() && (#[trigger] children@[j]).ordinal() == children@[r as int].ordinal()
            && children@[r as int].is_certain_spec() implies children@[j].certain_tie()
        <= children@[r as int].certain_tie() by {
        assert(key_le(keys@[j], keys@[r as int]));
    }
    r
}

/// Some child is proven lost for its mover.
pub open spec fn some_lost(ch: Seq<Node>) -> bool {
    exists|i: int| 0 <= i < ch.len() && (#[trigger] ch[i]) is CertainLoss
}

/// Every child is proven won for its mover.
pub open spec fn all_won(ch: Seq<Node>) -> bool {
    forall|i: int| 0 <= i < ch.len() ==> (#[trigger] ch[i]) is CertainWin
}

/// Every child is proven won or drawn for its mover.
pub open spec fn all_won_or_drawn(ch: Seq<Node>) -> bool {
    forall|i: int| 0 <= i < ch.len() ==> (#[trigger] ch[i]) is CertainWin || ch[i] is CertainDraw
}

/// What one visit makes of a node in doubt with statistics `p`, given the
/// new node `n` and the returned score `r`: a child lost for its mover
/// proves a win one level up (through the shallowest such child), children
/// all won for their mover prove a loss (through the deepest), children all
/// won or drawn prove a draw (through the deepest draw); otherwise the node
/// stays in doubt and takes in one more playout.
pub open spec fn folds(p: Probabilistic, n: Node, r: int) -> bool {
    let ch = p.children_of();
    let k = n.certain_of().index_of();
    let via = n.certain_of().depth_of() == ch[k].certain_of().depth_of() + 1;
    &&& some_lost(ch) ==> {
        &&& n is CertainWin
        &&& 0 <= k < ch.len()
        &&& ch[k] is CertainLoss
        &&& via
        &&& forall|j: int|
            0 <= j < ch.len() && (#[trigger] ch[j]) is CertainLoss ==> ch[k].certain_of().depth_of()
                <= ch[j].certain_of().depth_of()
    }
    &&& all_won(ch) ==> {
        &&& n is CertainLoss
        &&& 0 <= k < ch.len()
        &&& via
        &&& forall|j: int|
            0 <= j < ch.len() ==> (#[trigger] ch[j]).certain_of().depth_of()
                <= ch[k].certain_of().depth_of()
    }
    &&& all_won_or_drawn(ch) && !all_won(ch) ==> {
        &&& n is CertainDraw
        &&& 0 <= k < ch.len()
        &&& ch[k] is CertainDraw
        &&& via
        &&& forall|j: int|
            0 <= j < ch.len() && (#[trigger] ch[j]) is CertainDraw ==> ch[j].certain_of().depth_of()
                <= ch[k].certain_of().depth_of()
    }
    &&& !some_lost(ch) && !all_won_or_drawn(ch) ==> (n matches Node::Probabilistic(q) && {
        &&& q.nplay_of() == p.nplay_of() + 2
        &&& q.score_of() == p.score_of() + r
        &&& q.children_of().len() == ch.len()
    })
}

/// What one visit on board `b`, a game still going on, makes of node
/// `old`, given the new node `new` and the returned score `s`: a proven
/// node stays as it is; an unvisited node makes its first visit; a node in
/// doubt folds, or else visits one child still in doubt on the board after
/// its move (a finished game there is proven at depth 0), leaves the other
/// children as they were, and returns the complement of the child's score.
pub open spec fn visit(old: Node, b: BoardModel, new: Node, s: int) -> bool
    decreases old,
    via visit_decreases
{
    &&& new.wf_at(b)
    &&& 0 <= s <= WIN
    &&& new.is_certain_spec() ==> s == new.certain_score()
    &&& old.is_certain_spec() ==> new == old
    &&& old is Unvisited ==> first_visit(b, new, s)
    &&& match old {
        Node::Probabilistic(p) => {
            let ch = p.children_of();
            &&& folds(p, new, s)
            &&& !some_lost(ch) && !all_won_or_drawn(ch) ==> (new matches Node::Probabilistic(q)
                && exists|i: int|
                0 <= i < ch.len() && !(#[trigger] ch[i]).is_certain_spec() && (forall|j: int|
                    0 <= j < ch.len() && j != i ==> q.children_of()[j] == ch[j]) && {
                    let a = b.after(b.legal_moves()[i]);
                    let c = q.children_of()[i];
                    if a.state == GameState::Ongoing {
                        visit(ch[i], a, c, WIN - s)
                    } else if a.state == GameState::Won {
                        c is CertainLoss && c.certain_of().depth_of() == 0 && s == LOSS
                    } else {
                        c is CertainDraw && c.certain_of().depth_of() == 0 && s == DRAW
                    }
                })
        },
        _ => true,
    }
}

#[via_fn]
proof fn visit_decreases(old: Node, b: BoardModel, new: Node, s: int) {
    if let Node::Probabilistic(p) = old {
        assert forall|i: int| 0 <= i < p.children_of().len() implies decreases_to!(old => #[trigger] p.children_of()[i]) by {
            assert(decreases_to!(p.children => p.children@[i]));
        }
    }
}

/// What a first visit on board `b` makes of a node, given the new node `n`
/// and the returned score `r`: a proven win in one if some legal move wins
/// (through the first such move), a proven draw in one if the move played
/// filled the last open edge entry, and otherwise a node in doubt whose
/// statistics hold the prior and the playout's score, with one unvisited
/// child per legal move.
pub open spec fn first_visit(b: BoardModel, n: Node, r: int) -> bool {
    let all = b.legal_moves();
    &&& n is CertainWin <==> exists|j: int| 0 <= j < all.len() && (#[trigger] all[j]).wins()
    &&& n is CertainWin ==> {
        &&& n.certain_of().depth_of() == 1
        &&& 0 <= n.certain_of().index_of() < all.len()
        &&& all[n.certain_of().index_of()].wins()
        &&& forall|j: int| 0 <= j < n.certain_of().index_of() ==> !(#[trigger] all[j]).wins()
    }
    &&& n is CertainDraw ==> {
        &&& n.certain_of().depth_of() == 1
        &&& 0 <= n.certain_of().index_of() < all.len()
        &&& b.after(all[n.certain_of().index_of()]).state == GameState::Drawn
    }
    &&& n is Probabilistic || n is CertainWin || n is CertainDraw
    &&& n matches Node::Probabilistic(p) ==> {
        &&& p.nplay_of() == PRIOR + PRIOR + 2
        &&& p.score_of() == PRIOR + r
        &&& p.children_of().len() == all.len()
        &&& forall|j: int| 0 <= j < all.len() ==> (#[trigger] p.children_of()[j]) is Unvisited
    }
}

/// The first legal move, its position among the legal moves and how many
/// were looked at, when it wins; otherwise a legal move drawn uniformly by
/// reservoir sampling, its position, and the number of legal moves.
fn choose_unvisited_first(b: &Board) -> (r: (usize, usize, LegalMove))
    requires
        b.wf(),
        b@.nlegal > 0,
    ensures
        r.1 < b@.legal_moves().len(),
        b@.legal_moves()[r.1 as int] == r.2,
        r.2.wins() ==> forall|j: int| 0 <= j < r.1 ==> !(#[trigger] b@.legal_moves()[j]).wins(),
        !r.2.wins() ==> r.0 == b@.legal_moves().len(),
        !r.2.wins() ==> forall|j: int|
            0 <= j < b@.legal_moves().len() ==> !(#[trigger] b@.legal_moves()[j]).wins(),
{
    proof {
        b@.lemma_legal_moves();
        b@.lemma_open_count_bound();
    }
    let ghost all = b@.legal_moves();
    let mut it = b.legal_moves_iter();
    let mut chosen: Option<(usize, LegalMove)> = None;
    let mut n: usize = 0;
    loop
        invariant
            it.wf(),
            it.board_of() == b@,
            all == b@.legal_moves(),
            all.len() > 0,
            all.len() <= usize::MAX,
            n <= all.len(),
            it.remaining() == all.subrange(n as int, all.len() as int),
            n > 0 ==> (chosen matches Some(c) && c.0 < n && all[c.0 as int] == c.1 && !c.1.wins()),
            forall|j: int| 0 <= j < n ==> !(#[trigger] all[j]).wins(),
        ensures
            n == all.len(),
            chosen matches Some(c) && c.0 < n && all[c.0 as int] == c.1 && !c.1.wins(),
            forall|j: int| 0 <= j < n ==> !(#[trigger] all[j]).wins(),
        decreases all.len() - n,
    {
        let ghost before = it.remaining();
        match it.next() {
            None => {
                break;
            },
            Some(m1) => {
                assert(before[0] == m1);
                assert(all[n as int] == m1);
                assert(it.remaining() =~= before.subrange(1, before.len() as int));
                assert(it.remaining() =~= all.subrange(n + 1, all.len() as int));
                let i1 = n;
                n = n + 1;
                if m1.is_winning() {
                    return (n, i1, m1);
                }
                if random_below(n) == 0 {
                    chosen = Some((i1, m1));
                }
            },
        }
    }
    match chosen {
        Some((i, m)) => (n, i, m),
        None => unreached(),
    }
}

/// Plays random moves, taking a winning move whenever there is one, until
/// the game ends; returns the finished board and the score from the point
/// of view of the player to move on `start`: a draw if the game was drawn,
/// otherwise a win if that player made the winning move and a loss if not.
fn playout(start: Board) -> (r: (u64, Board))
    requires
        start.wf(),
        start@.state == GameState::Ongoing,
        start@.nlegal > 0,
    ensures
        r.1.wf(),
        r.1@.state != GameState::Ongoing,
        r.0 == if r.1@.state == GameState::Drawn {
            DRAW
        } else if r.1@.active == start@.active {
            WIN
        } else {
            LOSS
        },
{
    let ghost first = start@.active;
    let mut b = start;
    let mut score: u64 = WIN;
    loop
        invariant
            b.wf(),
            b@.state == GameState::Ongoing,
            b@.nlegal > 0,
            first is Player1 || first is Player2,
            first == start@.active,
            score == if b@.active == first { WIN } else { LOSS },
        decreases b@.num_empty(),
    {
        let m = choose_winning_or_random(&b);
        proof {
            b@.lemma_legal_moves();
            b@.lemma_after(m);
        }
        match b.make_legal_move(m) {
            GameState::Won => {
                return (score, b);
            },
            GameState::Drawn => {
                return (DRAW, b);
            },
            GameState::Ongoing => {
                score = WIN - score;
            },
        }
    }
}

impl Probabilistic {
    /// Statistics after the first playout, which scored `score`, with
    /// `nchildren` unvisited children.
    fn new(nchildren: usize, score: u64) -> (r: Probabilistic)
        requires
            score <= WIN,
        ensures
            r.score_of() == PRIOR + score,
            r.nplay_of() == PRIOR + PRIOR + 2,
            r.children_of().len() == nchildren,
            forall|i: int| 0 <= i < nchildren ==> #[trigger] r.children_of()[i] is Unvisited,
    {
        let mut children: Vec<Node> = Vec::new();
        let mut i: usize = 0;
        while i < nchildren
            invariant
                i <= nchildren,
                children@.len() == i,
                forall|j: int| 0 <= j < i ==> #[trigger] children@[j] is Unvisited,
            decreases nchildren - i,
        {
            children.push(Node::Unvisited);
            i = i + 1;
        }
        Probabilistic { score: PRIOR + score, nplay: PRIOR + PRIOR + 2, children }
    }
}

impl Node {
    /// The first visit: plays one move (a winning one if there is one) and,
    /// unless that ends the game, one random playout from there.
    fn explore_unvisited(b: Board) -> (res: (Node, u64))
        requires
            b.wf(),
            b@.state == GameState::Ongoing,
            b@.nlegal > 0,
        ensures
            res.0.wf_at(b@),
            res.1 <= WIN,
            first_visit(b@, res.0, res.1 as int),
            res.0.is_certain_spec() ==> res.1 == res.0.certain_score(),
            res.0.plays() <= 4,
    {
        let (n, i, m) = choose_unvisited_first(&b);
        proof {
            b@.lemma_legal_moves();
            b@.lemma_after(m);
            b@.lemma_num_empty_positive(m);
            if m.wins() {
                lemma_win_through(b@, i as int);
            }
            if b@.after(m).state == GameState::Drawn && !m.wins() {
                let all = b@.legal_moves();
                assert forall|j: int| 0 <= j < all.len() implies -game_value(
                    #[trigger] b@.after(all[j]),
                ) == 0 by {
                    b@.lemma_drawing_move(m, all[j]);
                }
                lemma_best_reply_all(b@, 0, 0);
            }
        }
        let ghost b0 = b@;
        let mut b = b;
        match b.make_legal_move(m) {
            GameState::Won => (Node::CertainWin(Certain::new(1, i)), LOSS),
            GameState::Drawn => (Node::CertainDraw(Certain::new(1, i)), DRAW),
            GameState::Ongoing => {
                let (score, _) = playout(b);
                let p = Probabilistic::new(n, score);
                let node = Node::Probabilistic(p);
                proof {
                    assert forall|j: int| 0 <= j < p.children_of().len() implies {
                        &&& (#[trigger] p.children@[j]).wf_at(b0.after(b0.legal_moves()[j]))
                        &&& p.children@[j].plays() < p.nplay
                    } by {
                        assert(p.children_of()[j] is Unvisited);
                    }
                }
                (node, score)
            },
        }
    }
}

impl Probabilistic {
    /// One visit of a node in doubt: select a child by Thompson sampling;
    /// a proven child proves this node at once, any other is visited and
    /// its score, seen from this side, taken in.
    fn explored<S: WinRateSampler>(self, sampler: &S, b: Board) -> (res: (Node, u64))
        requires
            b.wf(),
            b@.state == GameState::Ongoing,
            b@.nlegal > 0,
            Node::Probabilistic(self).wf_at(b@),
            self.nplay_of() + 2 <= u64::MAX,
        ensures
            res.0.wf_at(b@),
            res.1 <= WIN,
            res.0.is_certain_spec() ==> res.1 == res.0.certain_score(),
            res.0.plays() <= self.nplay_of() + 2,
            visit(Node::Probabilistic(self), b@, res.0, res.1 as int),
        decreases b@.num_empty(), 0int,
    {
        let ghost old_p = self;
        let ghost bm = b@;
        let ghost all = bm.legal_moves();
        proof {
            bm.lemma_legal_moves();
            bm.lemma_num_empty_bound();
        }
        let Probabilistic { score, nplay, mut children } = self;
        let ghost ch = children@;
        let i = select_child(&children, sampler);
        proof {
            let c = ch[i as int];
            assert(c.wf_at(bm.after(all[i as int])));
            bm.lemma_after(all[i as int]);
            bm.lemma_num_empty_positive(all[i as int]);
            if some_lost(ch) {
                let k = choose|k: int| 0 <= k < ch.len() && (#[trigger] ch[k]) is CertainLoss;
                assert(ch[k].ordinal() <= c.ordinal());
                lemma_win_through(bm, i as int);
            }
            if all_won(ch) {
                assert forall|j: int| 0 <= j < all.len() implies game_value(
                    #[trigger] bm.after(all[j]),
                ) == 1 by {
                    assert(ch[j].wf_at(bm.after(all[j])));
                    assert(ch[j] is CertainWin);
                }
                lemma_loss_through_all(bm);
            }
            if all_won_or_drawn(ch) && !all_won(ch) {
                let k = choose|k: int| 0 <= k < ch.len() && !((#[trigger] ch[k]) is CertainWin);
                assert(ch[k].wf_at(bm.after(all[k])));
                assert forall|j: int| 0 <= j < all.len() implies 0 <= game_value(
                    #[trigger] bm.after(all[j]),
                ) by {
                    assert(ch[j].wf_at(bm.after(all[j])));
                    assert(ch[j] is CertainWin || ch[j] is CertainDraw);
                }
                lemma_draw_through(bm, k);
            }
            if all_won_or_drawn(ch) && !all_won(ch) {
                let k = choose|k: int| 0 <= k < ch.len() && !((#[trigger] ch[k]) is CertainWin);
                assert(ch[k].ordinal() <= c.ordinal());
            }
            if !some_lost(ch) && !all_won_or_drawn(ch) {
                let k = choose|k: int| 0 <= k < ch.len() && !((#[trigger] ch[k]) is CertainWin || ch[k] is CertainDraw);
                assert(ch[k].ordinal() <= c.ordinal());
            }
        }
        match &children[i] {
            Node::CertainLoss(c) => {
                return (Node::CertainWin(c.parent(i)), LOSS);
            },
            Node::CertainWin(c) => {
                return (Node::CertainLoss(c.parent(i)), WIN);
            },
            Node::CertainDraw(c) => {
                return (Node::CertainDraw(c.parent(i)), DRAW);
            },
            _ => {},
        }
        let m = {
            let mut it = b.legal_moves_iter();
            match it.nth(i) {
                Some(m) => m,
                None => unreached(),
            }
        };
        let mut b2 = b;
        let state = b2.make_legal_move(m);
        let mut child = Node::Unvisited;
        children.set_and_swap(i, &mut child);
        let (child2, s) = match state {
            GameState::Ongoing => child.explored(sampler, b2),
            GameState::Won => (Node::CertainLoss(Certain::new(0, 0)), WIN),
            GameState::Drawn => (Node::CertainDraw(Certain::new(0, 0)), DRAW),
        };
        children.set(i, child2);
        let here = WIN - s;
        let p = Probabilistic { score: score + here, nplay: nplay + 2, children };
        proof {
            assert(!ch[i as int].is_certain_spec());
            assert(forall|j: int| 0 <= j < ch.len() && j != i ==> p.children_of()[j] == ch[j]);
            assert forall|j: int| 0 <= j < p.children@.len() implies {
                &&& (#[trigger] p.children@[j]).wf_at(bm.after(all[j]))
                &&& p.children@[j].plays() < p.nplay
            } by {
                if j != i {
                    assert(p.children@[j] == ch[j]);
                }
            }
        }
        (Node::Probabilistic(p), here)
    }
}

impl Node {
    /// One visit of this node on board `b`, the position here; returns the
    /// new node and the score of the visit from the point of view of the
    /// player who moved into `b`.
    fn explored<S: WinRateSampler>(self, sampler: &S, b: Board) -> (res: (Node, u64))
        requires
            b.wf(),
            b@.state == GameState::Ongoing,
            b@.nlegal > 0,
            self.wf_at(b@),
            self.plays() + 2 <= u64::MAX,
        ensures
            res.0.wf_at(b@),
            res.1 <= WIN,
            self.is_certain_spec() ==> res.0 == self,
            res.0.is_certain_spec() ==> res.1 == res.0.certain_score(),
            res.0.plays() <= if self is Unvisited { 4 } else { self.plays() + 2 },
            visit(self, b@, res.0, res.1 as int),
        decreases b@.num_empty(), 1int,
    {
        match self {
            Node::Unvisited => Node::explore_unvisited(b),
            Node::Probabilistic(p) => p.explored(sampler, b),
            Node::CertainLoss(c) => (Node::CertainLoss(c), WIN),
            Node::CertainWin(c) => (Node::CertainWin(c), LOSS),
            Node::CertainDraw(c) => (Node::CertainDraw(c), DRAW),
        }
    }

    /// Runs one simulation from this node on board `b`, the position here,
    /// and updates the node; returns the score of the simulation (0, 1 or 2
    /// halves) from the point of view of the player who moved into `b`. A
    /// proven node is left as it is.
    pub fn explore<S: WinRateSampler>(&mut self, sampler: &S, b: Board) -> (r: u64)
        requires
            b.wf(),
            b@.state == GameState::Ongoing,
            b@.nlegal > 0,
            old(self).wf_at(b@),
            old(self).plays() + 2 <= u64::MAX,
        ensures
            final(self).wf_at(b@),
            r <= WIN,
            old(self).is_certain_spec() ==> *final(self) == *old(self),
            final(self).is_certain_spec() ==> r == final(self).certain_score(),
            final(self).plays() <= if *old(self) is Unvisited { 4 } else { old(self).plays() + 2 },
            visit(*old(self), b@, *final(self), r as int),
    {
        let mut cur = Node::Unvisited;
        std::mem::swap(self, &mut cur);
        let (next, score) = cur.explored(sampler, b);
        *self = next;
        score
    }
}

impl Node {
    /// The numerator and denominator of the expected score of this node,
    /// from the point of view of the player who moved into it.
    pub open spec fn expected(self) -> (int, int) {
        match self {
            Node::Unvisited => (1, 2),
            Node::Probabilistic(p) => (p.score_of(), p.nplay_of()),
            Node::CertainLoss(_) => (1, 1),
            Node::CertainWin(_) => (0, 1),
            Node::CertainDraw(_) => (1, 2),
        }
    }

    fn expected_score(&self) -> (r: (u64, u64))
        ensures
            r.0 == self.expected().0,
            r.1 == self.expected().1,
    {
        match self {
            Node::Unvisited => (1, 2),
            Node::Probabilistic(p) => (p.score, p.nplay),
            Node::CertainLoss(_) => (1, 1),
            Node::CertainWin(_) => (0, 1),
            Node::CertainDraw(_) => (1, 2),
        }
    }
}

/// The expected score of `a` is at most that of `b` (compared across the
/// fractions' denominators).
pub open spec fn expected_le(a: Node, b: Node) -> bool {
    a.expected().0 * b.expected().1 <= b.expected().0 * a.expected().1
}

/// Child `i` has the greatest expected score, and is the last that does.
pub open spec fn is_best_child(ch: Seq<Node>, i: int) -> bool {
    &&& 0 <= i < ch.len()
    &&& forall|j: int| 0 <= j < ch.len() ==> expected_le(#[trigger] ch[j], ch[i])
    &&& forall|j: int| i < j < ch.len() ==> !expected_le(ch[i], #[trigger] ch[j])
}

fn expected_le_exec(a: &Node, b: &Node) -> (r: bool)
    ensures
        r == expected_le(*a, *b),
{
    let (an, ad) = a.expected_score();
    let (bn, bd) = b.expected_score();
    proof {
        lemma_u64_product(an, bd);
        lemma_u64_product(bn, ad);
    }
    (an as u128) * (bd as u128) <= (bn as u128) * (ad as u128)
}

/// The position of the last child with the greatest expected score.
pub fn best_child(children: &Vec<Node>) -> (r: usize)
    requires
        children@.len() > 0,
        forall|j: int| 0 <= j < children@.len() ==> (#[trigger] children@[j]).expected().1 > 0,
    ensures
        is_best_child(children@, r as int),
{
    let mut best: usize = 0;
    let mut j: usize = 1;
    while j < children.len()
        invariant
            1 <= j <= children@.len(),
            best < j,
            forall|k: int| 0 <= k < children@.len() ==> (#[trigger] children@[k]).expected().1 > 0,
            forall|k: int| 0 <= k < j ==> expected_le(#[trigger] children@[k], children@[best as int]),
            forall|k: int| best < k < j ==> !expected_le(children@[best as int], #[trigger] children@[k]),
        decreases children@.len() - j,
    {
        if expected_le_exec(&children[best], &children[j]) {
            proof {
                let (a, b) = (children@[best as int], children@[j as int]);
                assert forall|k: int| 0 <= k < j + 1 implies expected_le(#[trigger] children@[k], b) by {
                    if k < j {
                        lemma_expected_le_trans(children@[k], a, b);
                    }
                }
            }
            best = j;
        } else {
            proof {
                lemma_expected_le_total(children@[best as int], children@[j as int]);
            }
        }
        j = j + 1;
    }
    best
}

/// Comparing expected scores is transitive.
proof fn lemma_expected_le_trans(a: Node, b: Node, c: Node)
    requires
        expected_le(a, b),
        expected_le(b, c),
        a.expected().1 > 0,
        b.expected().1 > 0,
        c.expected().1 > 0,
        a.expected().0 >= 0,
        b.expected().0 >= 0,
        c.expected().0 >= 0,
    ensures
        expected_le(a, c),
{
    let (an, ad) = a.expected();
    let (bn, bd) = b.expected();
    let (cn, cd) = c.expected();
    assert(an * cd <= cn * ad) by (nonlinear_arith)
        requires
            an * bd <= bn * ad,
            bn * cd <= cn * bd,
            ad > 0,
            bd > 0,
            cd > 0,
            an >= 0,
            bn >= 0,
            cn >= 0,
    ;
}

proof fn lemma_u64_product(a: u64, b: u64)
    ensures
        (a as int) * (b as int) <= u128::MAX,
{
    assert((a as int) * (b as int) <= (u64::MAX as int) * (u64::MAX as int)) by (nonlinear_arith)
        requires
            0 <= a <= u64::MAX,
            0 <= b <= u64::MAX,
    ;
}

/// Comparing expected scores is total.
proof fn lemma_expected_le_total(a: Node, b: Node)
    ensures
        expected_le(a, b) || expected_le(b, a),
{
}

impl Node {
    /// The move this search recommends on board `b`: for a proven node the
    /// move it names, otherwise the move to the child with the greatest
    /// expected score (the last of several).
    pub fn best_move(&self, b: &Board) -> (r: LegalMove)
        requires
            b.wf(),
            b@.state == GameState::Ongoing,
            self.wf_at(b@),
            !(*self is Unvisited),
        ensures
            b@.resolves(r),
            *self matches Node::Probabilistic(p) ==> exists|i: int|
                is_best_child(p.children_of(), i) && r == b@.legal_moves()[i],
            self.is_certain_spec() ==> r == b@.legal_moves()[self.certain_of().index_of()],
    {
        match self {
            Node::Probabilistic(p) => p.best_move(b),
            Node::CertainLoss(c) => c.best_move(b),
            Node::CertainWin(c) => c.best_move(b),
            Node::CertainDraw(c) => c.best_move(b),
            Node::Unvisited => unreached(),
        }
    }
}

impl Certain {
    /// The move this verdict names.
    fn best_move(&self, b: &Board) -> (r: LegalMove)
        requires
            b.wf(),
            self.index < b@.legal_moves().len(),
        ensures
            r == b@.legal_moves()[self.index_of()],
            b@.resolves(r),
    {
        proof {
            b@.lemma_legal_moves();
        }
        let mut it = b.legal_moves_iter();
        match it.nth(self.index) {
            Some(m) => m,
            None => unreached(),
        }
    }
}

impl Probabilistic {
    /// The move to the child with the greatest expected score, the last
    /// of several.
    fn best_move(&self, b: &Board) -> (r: LegalMove)
        requires
            b.wf(),
            Node::Probabilistic(*self).wf_at(b@),
        ensures
            exists|i: int| is_best_child(self.children_of(), i) && r == b@.legal_moves()[i],
            b@.resolves(r),
    {
        proof {
            b@.lemma_legal_moves();
            assert forall|j: int| 0 <= j < self.children@.len() implies (#[trigger] self.children@[j]).expected().1 > 0 by {
                assert(self.children@[j].wf_at(b@.after(b@.legal_moves()[j])));
            }
        }
        let i = best_child(&self.children);
        let mut it = b.legal_moves_iter();
        let r = match it.nth(i) {
            Some(m) => m,
            None => unreached(),
        };
        assert(is_best_child(self.children_of(), i as int) && r == b@.legal_moves()[i as int]);
        r
    }
}

/// A hard ceiling on the number of simulations of one search, far beyond
/// any budget, which keeps the play counts within `u64`.
pub const MAX_SIMULATIONS: u64 = 0x3FFF_FFFF_FFFF_FFFF;

/// How long a search may run.
#[derive(Clone, Copy, Debug)]
pub enum Budget {
    /// At most this many simulations (at least one is always run).
    Iterations(u64),
    /// Simulations until this much time has passed since the search began.
    Time(Duration),
}

/// A player that picks its moves by Monte Carlo tree search.
pub struct MCTSPlayer<S> {
    budget: Budget,
    sampler: S,
}

impl<S: WinRateSampler> MCTSPlayer<S> {
    /// A player that searches for `dur` of wall-clock time per move.
    pub fn new(dur: Duration, sampler: S) -> (r: Self)
        ensures
            r.budget() == Budget::Time(dur),
    {
        MCTSPlayer { budget: Budget::Time(dur), sampler }
    }

    /// A player that runs `n` simulations per move.
    pub fn with_iterations(n: u64, sampler: S) -> (r: Self)
        ensures
            r.budget() == Budget::Iterations(n),
    {
        MCTSPlayer { budget: Budget::Iterations(n), sampler }
    }

    pub closed spec fn budget(&self) -> Budget {
        self.budget
    }

    /// Grows a search tree for board `b` until its root is proven or the
    /// budget is spent, checking the budget between whole simulations. The
    /// root is a proven win in one exactly when some legal move wins, and
    /// then names such a move; a proven root is the outcome of best play;
    /// a root still in doubt after a budget of `n`
    /// simulations has taken in `n` playouts (at least one).
    pub fn search(&self, b: &Board) -> (root: Node)
        requires
            b.wf(),
            b@.state == GameState::Ongoing,
            b@.nlegal > 0,
        ensures
            root.wf_at(b@),
            !(root is Unvisited),
            (exists|j: int| 0 <= j < b@.legal_moves().len() && (#[trigger] b@.legal_moves()[j]).wins())
                <==> (root is CertainWin && root.certain_of().depth_of() == 1),
            root is CertainWin && root.certain_of().depth_of() == 1 ==> b@.legal_moves()[root.certain_of().index_of()].wins(),
            root is CertainWin ==> game_value(b@) == 1,
            root is CertainLoss ==> game_value(b@) == -1,
            root is CertainDraw ==> game_value(b@) == 0,
            !root.is_certain_spec() ==> root is Probabilistic,
            !root.is_certain_spec() ==> (self.budget() matches Budget::Iterations(n) ==> (n < MAX_SIMULATIONS
                ==> root.plays() == 2 + 2 * (if n == 0 { 1 } else { n as int }))),
    {
        let ghost wins = exists|j: int|
            0 <= j < b@.legal_moves().len() && (#[trigger] b@.legal_moves()[j]).wins();
        let start = now();
        let mut node = Node::Unvisited;
        let mut i: u64 = 0;
        loop
            invariant_except_break
                i < MAX_SIMULATIONS,
                self.budget() matches Budget::Iterations(n) ==> (i > 0 ==> i < n),
                i > 0 ==> !node.is_certain_spec(),
            invariant
                b.wf(),
                b@.state == GameState::Ongoing,
                b@.nlegal > 0,
                node.wf_at(b@),
                i > 0 ==> !(node is Unvisited),
                i == 0 ==> node is Unvisited,
                wins == exists|j: int|
                    0 <= j < b@.legal_moves().len() && (#[trigger] b@.legal_moves()[j]).wins(),
                i > 0 ==> (wins <==> (node is CertainWin && node.certain_of().depth_of() == 1)),
                i > 0 && !node.is_certain_spec() ==> node is Probabilistic && node.plays() == 2 + 2 * i,
                i <= MAX_SIMULATIONS,
            ensures
                node.wf_at(b@),
                !(node is Unvisited),
                wins <==> (node is CertainWin && node.certain_of().depth_of() == 1),
                !node.is_certain_spec() ==> node is Probabilistic,
                !node.is_certain_spec() ==> (self.budget() matches Budget::Iterations(n) ==> (n < MAX_SIMULATIONS
                    ==> node.plays() == 2 + 2 * (if n == 0 { 1 } else { n as int }))),
            decreases MAX_SIMULATIONS - i,
        {
            let ghost before = node;
            node.explore(&self.sampler, b.clone());
            proof {
                if wins {
                    if i > 0 {
                        let j = choose|j: int|
                            0 <= j < b@.legal_moves().len() && (#[trigger] b@.legal_moves()[j]).wins();
                        assert(b@.legal_moves()[j].wins());
                    }
                }
            }
            i = i + 1;
            if node.is_certain() || i >= MAX_SIMULATIONS {
                break;
            }
            let done = match &self.budget {
                Budget::Iterations(n) => i >= *n,
                Budget::Time(d) => at_least(&elapsed(&start), d),
            };
            if done {
                break;
            }
        }
        node
    }

    /// The move the search recommends on `b`: one of its legal moves, and
    /// a winning one whenever there is one.
    pub fn search_move(&self, b: &Board) -> (r: LegalMove)
        requires
            b.wf(),
            b@.state == GameState::Ongoing,
            b@.nlegal > 0,
        ensures
            b@.resolves(r),
            b@.legal_moves().contains(r),
            (exists|j: int| 0 <= j < b@.legal_moves().len() && (#[trigger] b@.legal_moves()[j]).wins())
                ==> r.wins(),
    {
        let root = self.search(b);
        let r = root.best_move(b);
        proof {
            b@.lemma_resolves_listed(r);
        }
        r
    }
}

impl<S: WinRateSampler> Player for MCTSPlayer<S> {
    fn choose_move(&self, b: &Board) -> (r: LegalMove) {
        self.search_move(b)
    }
}

} // verus!
