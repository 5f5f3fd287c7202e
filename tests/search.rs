use pushfour::board::{Board, Entry, GameState, Move, Side};
use pushfour::player::{choose_winning_or_random, Player, RandomPlayer};
use pushfour::search::{
    best_child, pick_last_max, MCTSPlayer, Node, RankKey, WinRateSampler, CERTAIN,
};

/// Draws the posterior mean instead of a random sample.
struct MeanSampler;

impl WinRateSampler for MeanSampler {
    fn sample(&self, wins: u64, losses: u64) -> u64 {
        let p = wins as f64 / (wins + losses) as f64;
        (p * CERTAIN as f64) as u64
    }
}

/// Draws uniformly, whatever the statistics.
struct UniformSampler;

impl WinRateSampler for UniformSampler {
    fn sample(&self, _wins: u64, _losses: u64) -> u64 {
        rand::random::<u64>()
    }
}

/// A 10x10 board on which Player1 has three pieces in column 4 (rows 6 to
/// 9) apart from the top one, and is to move.
fn one_move_from_win() -> Board {
    let mut b = Board::new(10);
    for _ in 0..3 {
        assert_eq!(Ok(GameState::Ongoing), b.make_move(Move::new(Side::North, 4)));
        b.pass();
    }
    b
}

#[test]
fn search_finds_forced_win() {
    let b = one_move_from_win();
    let player = MCTSPlayer::with_iterations(1000, UniformSampler);
    let root = player.search(&b);
    match root {
        Node::CertainWin(ref c) => assert_eq!(1, c.depth()),
        _ => panic!("expected a proven win"),
    }
    let m = root.best_move(&b);
    assert!(m.is_winning());
    assert_eq!(Some(m), Move::new(Side::North, 4).annotated(&b));
    let mut b2 = b.clone();
    assert_eq!(GameState::Won, b2.make_legal_move(m));
}

#[test]
fn chosen_move_wins_when_it_can() {
    let b = one_move_from_win();
    let player = MCTSPlayer::with_iterations(5, MeanSampler);
    let m = player.choose_move(&b);
    assert!(m.is_winning());
    let m2 = RandomPlayer.choose_move(&b);
    assert!(m2.is_winning());
    assert_eq!(m, choose_winning_or_random(&b));
}

#[test]
fn certain_node_is_left_alone() {
    let b = one_move_from_win();
    let mut node = Node::Unvisited;
    let s = node.explore(&MeanSampler, b.clone());
    assert_eq!(0, s);
    let (d, i) = match node {
        Node::CertainWin(ref c) => (c.depth(), c.index()),
        _ => panic!("expected a proven win"),
    };
    for _ in 0..5 {
        assert_eq!(0, node.explore(&MeanSampler, b.clone()));
        match node {
            Node::CertainWin(ref c) => {
                assert_eq!(d, c.depth());
                assert_eq!(i, c.index());
            },
            _ => panic!("verdict changed"),
        }
    }
}

/// A 4x4 board where Player1 is to move and has no winning move, while
/// Player2 threatens to complete both column 1 and column 2 from the north.
fn lost_position() -> Board {
    let mut b = Board::new(4);
    for r in 1..4 {
        b.set(r, 0, Entry::Block);
        b.set(r, 3, Entry::Block);
        b.set(r, 1, Entry::Player2);
        b.set(r, 2, Entry::Player2);
    }
    b
}

#[test]
fn all_children_won_fold_to_loss() {
    let b = lost_position();
    assert_eq!(Entry::Player1, b.active());
    let mut it = b.legal_moves_iter();
    while let Some(m) = it.next() {
        assert!(!m.is_winning());
    }
    let player = MCTSPlayer::with_iterations(2000, UniformSampler);
    let root = player.search(&b);
    match root {
        Node::CertainLoss(ref c) => assert_eq!(2, c.depth()),
        _ => panic!("expected a proven loss"),
    }
}

#[test]
fn search_runs_within_budget() {
    let b = Board::new(6);
    let player = MCTSPlayer::with_iterations(50, UniformSampler);
    let root = player.search(&b);
    assert!(!root.is_certain());
    let m = root.best_move(&b);
    let mut b2 = b.clone();
    assert_eq!(GameState::Ongoing, b2.make_legal_move(m));
    let timed = MCTSPlayer::new(std::time::Duration::from_millis(20), MeanSampler);
    let m = timed.choose_move(&b);
    assert!(m.is_winning() == false);
}

#[test]
fn last_greatest_key_is_picked() {
    let k = |o: u8, v: u64, t: i128| RankKey { ordinal: o, value: v, tie: t };
    assert_eq!(1, pick_last_max(&vec![k(2, 5, 0), k(3, 0, -4), k(2, 9, 0)]));
    assert_eq!(2, pick_last_max(&vec![k(3, 0, -4), k(3, 0, -5), k(3, 0, -4)]));
    assert_eq!(0, pick_last_max(&vec![k(1, 7, 3), k(1, 7, 2), k(0, 9, 9)]));
    assert_eq!(0, pick_last_max(&vec![k(0, 0, 0)]));
}

#[test]
fn best_child_takes_last_of_equals() {
    let children = vec![Node::Unvisited, Node::Unvisited, Node::Unvisited];
    assert_eq!(2, best_child(&children));
}

#[test]
fn playout_board_is_untouched() {
    let b = Board::new(5);
    let mut node = Node::Unvisited;
    let s = node.explore(&MeanSampler, b.clone());
    assert!(s <= 2);
    assert_eq!(20, b.nlegal());
    match node {
        Node::Probabilistic(ref p) => {
            assert_eq!(4, p.nplay());
            assert_eq!(1 + s, p.score());
            assert_eq!(20, p.children().len());
            assert!(p.children().iter().all(|c| match c {
                Node::Unvisited => true,
                _ => false,
            }));
        },
        _ => panic!("an empty board has no proven first move"),
    }
    assert!(node.explore(&MeanSampler, b.clone()) <= 2);
    match node {
        Node::Probabilistic(ref p) => {
            assert_eq!(6, p.nplay());
            assert_eq!(1, p.children().iter().filter(|c| match c {
                Node::Unvisited => false,
                _ => true,
            }).count());
        },
        _ => panic!("two visits prove nothing on an empty board"),
    }
}

#[test]
fn random_choice_is_not_always_the_first_move() {
    let b = Board::new(4);
    let first = b.legal_moves_iter().next().unwrap();
    let mut differs = false;
    for _ in 0..64 {
        let m = choose_winning_or_random(&b);
        assert!(b.accepts(&m));
        if m != first {
            differs = true;
        }
    }
    assert!(differs);
}

#[test]
fn illegal_token_is_refused_elsewhere() {
    let mut b = Board::new(4);
    let m = Move::new(Side::North, 1).annotated(&b).unwrap();
    assert!(b.accepts(&m));
    b.set(3, 1, Entry::Block);
    assert!(!b.accepts(&m));
}

#[test]
fn search_move_takes_the_forced_win() {
    let b = one_move_from_win();
    let player = MCTSPlayer::with_iterations(3, UniformSampler);
    let m = player.search_move(&b);
    assert!(m.is_winning());
    let mut b2 = b.clone();
    assert_eq!(GameState::Won, b2.make_legal_move(m));
}

#[test]
fn search_in_doubt_counts_its_playouts() {
    let b = Board::new(7);
    let player = MCTSPlayer::with_iterations(12, UniformSampler);
    match player.search(&b) {
        Node::Probabilistic(ref p) => assert_eq!(2 + 2 * 12, p.nplay()),
        _ => panic!("an empty board is not proven in twelve simulations"),
    }
    let one = MCTSPlayer::with_iterations(0, UniformSampler);
    match one.search(&b) {
        Node::Probabilistic(ref p) => assert_eq!(4, p.nplay()),
        _ => panic!("one simulation proves nothing on an empty board"),
    }
}
