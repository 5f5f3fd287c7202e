use pushfour::board::{Board, Entry, Error, GameState, LegalMove, Move, Side};

#[test]
fn entry_test_flip() {
    assert_eq!(Entry::Block, Entry::Empty.flip());
    assert_eq!(Entry::Player2, Entry::Player1.flip());
    assert_eq!(Entry::Player1, Entry::Player2.flip());
}

#[test]
fn entry_test_is_empty() {
    assert!(Entry::Empty.is_empty());
    assert!(!Entry::Block.is_empty());
    assert!(!Entry::Player1.is_empty());
    assert!(!Entry::Player2.is_empty());
}

#[test]
fn side_succ() {
    assert_eq!(Some(Side::East), Side::North.succ());
    assert_eq!(Some(Side::South), Side::East.succ());
    assert_eq!(Some(Side::West), Side::South.succ());
    assert_eq!(None, Side::West.succ());
}

#[test]
fn board_set_then_get() {
    let mut b = Board::new(10);
    b.set(5, 7, Entry::Player1);
    assert_eq!(Some(Entry::Empty), b.get(5, 6));
    assert_eq!(Some(Entry::Empty), b.get(6, 8));
    assert_eq!(Some(Entry::Player1), b.get(5, 7));
    b.set(5, 7, Entry::Block);
    assert_eq!(Some(Entry::Block), b.get(5, 7));
}

#[test]
fn board_winning_vert() {
    let mut b = Board::new(10);
    assert_eq!(Ok(GameState::Ongoing), b.make_move(Move::new(Side::North, 4))); b.pass();
    assert_eq!(Ok(GameState::Ongoing), b.make_move(Move::new(Side::North, 4))); b.pass();
    assert_eq!(Ok(GameState::Ongoing), b.make_move(Move::new(Side::North, 4))); b.pass();
    assert_eq!(Ok(GameState::Won), b.make_move(Move::new(Side::North, 4)));
}

#[test]
fn board_winning_horiz() {
    let mut b = Board::new(10);
    assert_eq!(Ok(GameState::Ongoing), b.make_move(Move::new(Side::East, 4))); b.pass();
    assert_eq!(Ok(GameState::Ongoing), b.make_move(Move::new(Side::East, 4))); b.pass();
    assert_eq!(Ok(GameState::Ongoing), b.make_move(Move::new(Side::East, 4))); b.pass();
    assert_eq!(Ok(GameState::Won), b.make_move(Move::new(Side::East, 4)));
}

#[test]
fn board_winning_diag_nw_se() {
    let mut b = Board::new(10);
    b.set(4, 4, Entry::Block);
    b.set(5, 5, Entry::Block);
    b.set(6, 6, Entry::Block);
    b.set(7, 7, Entry::Block);
    assert_eq!(Ok(GameState::Ongoing), b.make_move(Move::new(Side::North, 4))); b.pass();
    assert_eq!(Ok(GameState::Ongoing), b.make_move(Move::new(Side::North, 5))); b.pass();
    assert_eq!(Ok(GameState::Ongoing), b.make_move(Move::new(Side::North, 6))); b.pass();
    assert_eq!(Ok(GameState::Won), b.make_move(Move::new(Side::North, 7)));
}

#[test]
fn board_winning_diag_sw_ne_1() {
    let mut b = Board::new(10);
    b.set(4, 7, Entry::Block);
    b.set(5, 6, Entry::Block);
    b.set(6, 5, Entry::Block);
    b.set(7, 4, Entry::Block);
    assert_eq!(Ok(GameState::Ongoing), b.make_move(Move::new(Side::North, 4))); b.pass();
    assert_eq!(Ok(GameState::Ongoing), b.make_move(Move::new(Side::North, 5))); b.pass();
    assert_eq!(Ok(GameState::Ongoing), b.make_move(Move::new(Side::North, 6))); b.pass();
    assert_eq!(Ok(GameState::Won), b.make_move(Move::new(Side::North, 7)));
}

#[test]
fn board_winning_diag_sw_ne_2() {
    let mut b = Board::new(10);
    b.set(4, 0, Entry::Block);
    b.set(3, 1, Entry::Block);
    b.set(2, 2, Entry::Block);
    b.set(1, 3, Entry::Block);
    assert_eq!(Ok(GameState::Ongoing), b.make_move(Move::new(Side::North, 0))); b.pass();
    assert_eq!(Ok(GameState::Ongoing), b.make_move(Move::new(Side::North, 1))); b.pass();
    assert_eq!(Ok(GameState::Ongoing), b.make_move(Move::new(Side::North, 2))); b.pass();
    assert_eq!(Ok(GameState::Won), b.make_move(Move::new(Side::North, 3)));
}

#[test]
fn board_winning_diag_sw_ne_3() {
    let mut b = Board::new(10);
    b.set(4, 6, Entry::Block);
    b.set(3, 7, Entry::Block);
    b.set(2, 8, Entry::Block);
    b.set(1, 9, Entry::Block);
    assert_eq!(Ok(GameState::Ongoing), b.make_move(Move::new(Side::North, 6))); b.pass();
    assert_eq!(Ok(GameState::Ongoing), b.make_move(Move::new(Side::North, 7))); b.pass();
    assert_eq!(Ok(GameState::Ongoing), b.make_move(Move::new(Side::North, 8))); b.pass();
    assert_eq!(Ok(GameState::Won), b.make_move(Move::new(Side::North, 9)));
}

#[test]
fn board_winning_diag_sw_ne_4() {
    let mut b = Board::new(10);
    b.set(8, 6, Entry::Block);
    b.set(7, 7, Entry::Block);
    b.set(6, 8, Entry::Block);
    b.set(5, 9, Entry::Block);
    assert_eq!(Ok(GameState::Ongoing), b.make_move(Move::new(Side::South, 6))); b.pass();
    assert_eq!(Ok(GameState::Ongoing), b.make_move(Move::new(Side::South, 7))); b.pass();
    assert_eq!(Ok(GameState::Ongoing), b.make_move(Move::new(Side::South, 9))); b.pass();
    assert_eq!(Ok(GameState::Won), b.make_move(Move::new(Side::South, 8)));
}

#[test]
fn board_legal_moves_iter() {
    let mut b = Board::new(2);
    assert_eq!(b.nlegal(), b.legal_moves_iter().count());
    b.set(0, 0, Entry::Block);
    assert_eq!(b.nlegal(), b.legal_moves_iter().count());
    b.set(1, 1, Entry::Block);
    assert_eq!(b.nlegal(), b.legal_moves_iter().count());
    b.set(0, 1, Entry::Block);
    assert_eq!(b.nlegal(), b.legal_moves_iter().count());
    b.set(1, 0, Entry::Block);
    assert_eq!(0, b.nlegal());
    assert_eq!(0, b.legal_moves_iter().count());
}

#[test]
fn move_is_legal() {
    let mut b = Board::new(2);
    b.set(0, 0, Entry::Block);
    assert!(Move::new(Side::North, 1).is_legal(&b));
    assert!(!Move::new(Side::North, 0).is_legal(&b));
    assert!(!Move::new(Side::West, 0).is_legal(&b));
    assert!(Move::new(Side::West, 1).is_legal(&b));
}

#[test]
fn legal_move_is_winning() {
    let mut b = Board::new(4);
    let m = Move::new(Side::North, 0);
    b.make_move(m).ok(); b.pass();
    b.make_move(m).ok(); b.pass();
    b.make_move(m).ok(); b.pass();
    assert_eq!(Some(true), m.annotated(&b).as_ref().map(LegalMove::is_winning));
}

fn cells(b: &Board) -> Vec<Option<Entry>> {
    let n = b.size();
    let mut v = Vec::new();
    for r in 0..n {
        for c in 0..n {
            v.push(b.get(r, c));
        }
    }
    v
}

/// Four in a row of `e` anywhere on the board, counted from scratch.
fn has_four_anywhere(b: &Board, e: Entry) -> bool {
    let n = b.size() as isize;
    let dirs = [(0isize, 1isize), (1, 0), (1, 1), (-1, 1)];
    for r in 0..n {
        for c in 0..n {
            for &(dr, dc) in dirs.iter() {
                let mut ok = true;
                for k in 0..4 {
                    let (rr, cc) = (r + dr * k, c + dc * k);
                    if rr < 0 || cc < 0 || rr >= n || cc >= n
                        || b.get(rr as usize, cc as usize) != Some(e)
                    {
                        ok = false;
                        break;
                    }
                }
                if ok {
                    return true;
                }
            }
        }
    }
    false
}

#[test]
fn vertical_win_from_north() {
    let mut b = Board::new(10);
    for _ in 0..3 {
        assert_eq!(Ok(GameState::Ongoing), b.make_move(Move::new(Side::North, 2)));
        b.pass();
    }
    assert_eq!(Ok(GameState::Won), b.make_move(Move::new(Side::North, 2)));
    assert_eq!(GameState::Won, b.state());
    assert_eq!(Entry::Player1, b.active());
}

#[test]
fn all_blocked_has_no_moves() {
    let mut b = Board::new(2);
    for r in 0..2 {
        for c in 0..2 {
            b.set(r, c, Entry::Block);
        }
    }
    assert_eq!(0, b.legal_moves_iter().count());
    assert_eq!(0, b.nlegal());
}

#[test]
fn occupied_origin_is_illegal() {
    let mut b = Board::new(5);
    b.set(0, 3, Entry::Block);
    let before = cells(&b);
    let m = Move::new(Side::North, 3);
    assert_eq!(None, m.annotated(&b));
    assert_eq!(Err(Error::IllegalMove(m)), b.make_move(m));
    assert_eq!(before, cells(&b));
    assert_eq!(Entry::Player1, b.active());
    assert_eq!(GameState::Ongoing, b.state());
}

#[test]
fn offset_off_the_board_is_illegal() {
    let mut b = Board::new(4);
    let m = Move::new(Side::East, 4);
    assert!(!m.is_legal(&b));
    assert_eq!(Err(Error::IllegalMove(m)), b.make_move(m));
    assert_eq!(16, b.nlegal());
}

#[test]
fn legal_move_changes_only_the_landing_cell() {
    let mut b = Board::new(6);
    b.set(2, 4, Entry::Block);
    let before = cells(&b);
    // From the east along row 2 the piece stops next to the block.
    assert_eq!(Ok(GameState::Ongoing), b.make_move(Move::new(Side::East, 2)));
    let after = cells(&b);
    let changed: Vec<usize> = (0..36).filter(|&i| before[i] != after[i]).collect();
    assert_eq!(vec![2 * 6 + 5], changed);
    assert_eq!(Some(Entry::Player1), b.get(2, 5));
    assert_eq!(Entry::Player2, b.active());
}

#[test]
fn push_slides_to_the_far_edge() {
    let mut b = Board::new(5);
    assert_eq!(Ok(GameState::Ongoing), b.make_move(Move::new(Side::West, 1)));
    assert_eq!(Some(Entry::Player1), b.get(1, 4));
    assert_eq!(Ok(GameState::Ongoing), b.make_move(Move::new(Side::South, 0)));
    assert_eq!(Some(Entry::Player2), b.get(0, 0));
}

#[test]
fn nlegal_counts_corners_twice() {
    let mut b = Board::new(3);
    assert_eq!(12, b.nlegal());
    b.set(0, 0, Entry::Block);
    assert_eq!(10, b.nlegal());
    b.set(0, 1, Entry::Block);
    assert_eq!(9, b.nlegal());
    b.set(1, 1, Entry::Block);
    assert_eq!(9, b.nlegal());
    b.set(0, 0, Entry::Empty);
    assert_eq!(11, b.nlegal());
    assert_eq!(b.nlegal(), b.legal_moves_iter().count());
}

#[test]
fn nlegal_matches_moves_during_play() {
    let mut b = Board::generate(6, 5);
    let mut turn = 0;
    while b.state() == GameState::Ongoing && b.nlegal() > 0 {
        assert_eq!(b.nlegal(), b.legal_moves_iter().count());
        let k = b.legal_moves_iter().count();
        let m = b.legal_moves_iter().nth(turn % k).unwrap();
        b.make_legal_move(m);
        turn += 7;
    }
    assert_eq!(b.nlegal(), b.legal_moves_iter().count());
}

#[test]
fn win_flag_agrees_with_fresh_check() {
    let mut b = Board::generate(7, 6);
    let mut turn = 3;
    while b.state() == GameState::Ongoing && b.nlegal() > 0 {
        let k = b.legal_moves_iter().count();
        let m = b.legal_moves_iter().nth(turn % k).unwrap();
        let mover = b.active();
        let flagged = m.is_winning();
        b.make_legal_move(m);
        assert_eq!(flagged, has_four_anywhere(&b, mover));
        turn += 5;
    }
}

#[test]
fn moves_come_in_side_order() {
    let mut b = Board::new(3);
    b.set(0, 1, Entry::Block);
    let mut it = b.legal_moves_iter();
    let mut seen = Vec::new();
    while let Some(m) = it.next() {
        seen.push(m);
    }
    // North 0 and 2, then East 0..3, South 0..3, West 0..3.
    assert_eq!(11, seen.len());
    assert_eq!(Some(seen[0]), Move::new(Side::North, 0).annotated(&b));
    assert_eq!(Some(seen[1]), Move::new(Side::North, 2).annotated(&b));
    assert_eq!(Some(seen[2]), Move::new(Side::East, 0).annotated(&b));
    assert_eq!(Some(seen[10]), Move::new(Side::West, 2).annotated(&b));
    assert_eq!(Some(seen[4]), b.legal_moves_iter().nth(4));
    assert_eq!(None, b.legal_moves_iter().nth(11));
}

#[test]
fn generate_places_distinct_blocks() {
    let b = Board::generate(5, 7);
    let blocks = cells(&b).iter().filter(|e| **e == Some(Entry::Block)).count();
    let empties = cells(&b).iter().filter(|e| **e == Some(Entry::Empty)).count();
    assert_eq!(7, blocks);
    assert_eq!(18, empties);
    assert_eq!(b.nlegal(), b.legal_moves_iter().count());
    let full = Board::generate(3, 20);
    assert_eq!(9, cells(&full).iter().filter(|e| **e == Some(Entry::Block)).count());
    assert_eq!(0, full.nlegal());
}

#[test]
fn get_off_the_board_is_none() {
    let b = Board::new(3);
    assert_eq!(None, b.get(3, 0));
    assert_eq!(None, b.get(0, 3));
    assert_eq!(Some(Entry::Empty), b.get(2, 2));
}

#[test]
fn one_cell_board_draws() {
    let mut b = Board::new(1);
    assert_eq!(4, b.nlegal());
    assert_eq!(4, b.legal_moves_iter().count());
    assert_eq!(Ok(GameState::Drawn), b.make_move(Move::new(Side::South, 0)));
    assert_eq!(0, b.nlegal());
}

#[test]
fn place_blocks_sets_exactly_the_given_cells() {
    let b = Board::place_blocks(4, &vec![0, 5, 15]);
    for i in 0..16 {
        let want = if i == 0 || i == 5 || i == 15 { Entry::Block } else { Entry::Empty };
        assert_eq!(Some(want), b.get(i / 4, i % 4));
    }
    // (0,0) and (3,3) are corners, (1,1) is inside: 16 - 2 - 2.
    assert_eq!(12, b.nlegal());
    assert_eq!(Entry::Player1, b.active());
    assert_eq!(GameState::Ongoing, b.state());
}

#[test]
fn fresh_two_by_two_moves_in_order() {
    let b = Board::new(2);
    let mut it = b.legal_moves_iter();
    let mut seen = Vec::new();
    while let Some(m) = it.next() {
        seen.push(m);
    }
    let expected = [
        (Side::North, 0, 1, 0),
        (Side::North, 1, 1, 1),
        (Side::East, 0, 0, 0),
        (Side::East, 1, 1, 0),
        (Side::South, 0, 0, 0),
        (Side::South, 1, 0, 1),
        (Side::West, 0, 0, 1),
        (Side::West, 1, 1, 1),
    ];
    assert_eq!(expected.len(), seen.len());
    for (k, &(side, pos, row, col)) in expected.iter().enumerate() {
        let m = Move::new(side, pos);
        assert_eq!(Some(seen[k]), m.annotated(&b));
        let mut b2 = b.clone();
        assert_eq!(Ok(GameState::Ongoing), b2.make_move(m));
        assert_eq!(Some(Entry::Player1), b2.get(row, col));
        assert!(!seen[k].is_winning());
    }
}
