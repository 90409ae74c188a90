use crosses_utils::base::BoardError;
use crosses_utils::base::CellKind;
use crosses_utils::engine_impl::activate_around;
use crosses_utils::engine_impl::cancel_move;
use crosses_utils::engine_impl::make_move;
use crosses_utils::game_board_impl::GameBoardImpl;

/// A line of `n` ordinary cells: cell `i` borders `i - 1` and `i + 1`.
fn line_board(n: usize, players: usize) -> GameBoardImpl {
    let mut adjacency: Vec<Vec<usize>> = Vec::new();
    for i in 0..n {
        let mut row = Vec::new();
        if i > 0 {
            row.push(i - 1);
        }
        if i + 1 < n {
            row.push(i + 1);
        }
        adjacency.push(row);
    }
    GameBoardImpl::init(players, vec![false; n], adjacency).unwrap()
}

#[test]
fn init_rejects_bad_input() {
    assert!(GameBoardImpl::init(0, vec![false], vec![vec![]]).is_none());
    assert!(GameBoardImpl::init(2, vec![false, false], vec![vec![]]).is_none());
    assert!(GameBoardImpl::init(2, vec![false], vec![vec![7]]).is_none());
    assert!(GameBoardImpl::init(2, vec![false], vec![vec![0]]).is_none());
    assert!(GameBoardImpl::init(2, vec![false, false], vec![vec![1], vec![0]]).is_some());
}

#[test]
fn fresh_board_is_empty_and_inactive() {
    let board = line_board(3, 2);
    assert_eq!(board.len(), 3);
    assert_eq!(board.player_count(), 2);
    for i in 0..3 {
        assert_eq!(board.kind(i), CellKind::Empty);
        assert!(!board.is_alive(i));
        assert!(!board.is_important(i));
        for p in 0..2 {
            assert!(!board.is_active(i, p));
        }
    }
    for p in 0..2 {
        assert_eq!(board.moves_counter(p), 0);
        assert_eq!(board.crosses_counter(p), 0);
    }
}

#[test]
fn border_cells_and_out_of_board_indices_are_refused() {
    let mut board =
        GameBoardImpl::init(2, vec![false, true], vec![vec![1], vec![0]]).unwrap();
    assert_eq!(board.make_move(1, 0), Err(BoardError::BorderHit));
    assert_eq!(board.make_move(9, 0), Err(BoardError::BorderHit));
    assert_eq!(board.cancel_move(1, 0), Err(BoardError::BorderHit));
    assert_eq!(board.cancel_move(9, 0), Err(BoardError::BorderHit));
}

#[test]
fn unreachable_empty_cell_is_out_of_reach() {
    let mut board = line_board(3, 2);
    assert_eq!(board.make_move(1, 0), Err(BoardError::OutOfReach));
    assert_eq!(board.kind(1), CellKind::Empty);
}

#[test]
fn cancel_of_empty_cell_is_refused() {
    let mut board = line_board(3, 2);
    assert_eq!(board.cancel_move(1, 0), Err(BoardError::EmptyCancel));
}

#[test]
fn activation_makes_a_cell_reachable() {
    let mut board = line_board(3, 2);
    board.activate(0, 0);
    assert!(board.is_active(0, 0));
    assert_eq!(board.moves_counter(0), 1);
    assert_eq!(board.make_move(0, 0), Ok(()));
    assert_eq!(board.kind(0), CellKind::Cross);
    assert_eq!(board.player(0), 0);
    assert_eq!(board.crosses_counter(0), 1);
    // the new cross is pinned inactive for its own owner, and its
    // neighbour became reachable instead
    assert!(!board.is_active(0, 0));
    assert!(board.is_active(1, 0));
    assert_eq!(board.moves_counter(0), 1);
}

#[test]
fn own_cross_cannot_be_filled() {
    let mut board = line_board(3, 2);
    board.activate(0, 0);
    assert_eq!(board.make_move(0, 0), Ok(()));
    assert_eq!(board.make_move(0, 0), Err(BoardError::SelfFill));
}

#[test]
fn unreachable_opposing_cross_is_out_of_reach() {
    let mut board = line_board(4, 2);
    board.activate(3, 1);
    assert_eq!(board.make_move(3, 1), Ok(()));
    // player 0 has no claim next to the cross at 3
    assert_eq!(board.make_move(3, 0), Err(BoardError::OutOfReach));
}

#[test]
fn filled_cell_cannot_be_filled_again() {
    let mut board = line_board(3, 2);
    board.activate(0, 0);
    assert_eq!(board.make_move(0, 0), Ok(()));
    board.activate(1, 1);
    assert_eq!(board.make_move(1, 1), Ok(()));
    assert_eq!(board.make_move(1, 0), Ok(()));
    assert_eq!(board.kind(1), CellKind::Filled);
    assert_eq!(board.make_move(1, 1), Err(BoardError::DoubleFill));
}

#[test]
fn filling_without_chain_creates_anchor_pair() {
    let mut board = line_board(3, 2);
    board.activate(0, 0);
    assert_eq!(board.make_move(0, 0), Ok(()));
    board.activate(1, 1);
    assert_eq!(board.make_move(1, 1), Ok(()));
    // player 0 fills the opposing cross at 1; no alive filled chain of
    // player 0 is adjacent, so the new filled cell becomes an anchor and
    // exactly one adjacent cross of player 0 becomes its pair
    assert_eq!(board.make_move(1, 0), Ok(()));
    assert_eq!(board.kind(1), CellKind::Filled);
    assert_eq!(board.player(1), 0);
    assert!(board.is_alive(1));
    assert!(board.is_important(1));
    assert!(board.is_important(0));
    assert_eq!(board.crosses_counter(1), 0);
    assert_eq!(board.crosses_counter(0), 1);
    // filling spreads player 0's influence past the filled cell
    assert!(board.is_active(2, 0));
}

#[test]
fn losing_the_anchor_kills_the_chain() {
    let mut board = line_board(4, 2);
    board.activate(0, 0);
    assert_eq!(board.make_move(0, 0), Ok(()));
    board.activate(1, 1);
    assert_eq!(board.make_move(1, 1), Ok(()));
    assert_eq!(board.make_move(1, 0), Ok(()));
    assert!(board.is_alive(1));
    // player 1 takes the anchor cross at 0; the chain at 1 loses its only
    // activator and dies
    board.activate(0, 1);
    assert_eq!(board.make_move(0, 1), Ok(()));
    assert_eq!(board.kind(0), CellKind::Filled);
    assert_eq!(board.player(0), 1);
    assert!(!board.is_alive(1));
    assert!(!board.is_important(1));
    // the dead chain no longer reaches into cell 2
    assert!(!board.is_active(2, 0));
}

#[test]
fn reviving_a_dead_chain_marks_it_important() {
    let mut board = line_board(4, 2);
    board.activate(0, 0);
    assert_eq!(board.make_move(0, 0), Ok(()));
    board.activate(1, 1);
    assert_eq!(board.make_move(1, 1), Ok(()));
    assert_eq!(board.make_move(1, 0), Ok(()));
    board.activate(0, 1);
    assert_eq!(board.make_move(0, 1), Ok(()));
    assert!(!board.is_alive(1));
    // the dead chain reaches nowhere, so cell 2 is out of reach until the
    // caller seeds fresh activation; a new cross there then revives the
    // chain and both ends of the new adjacency become important
    assert!(!board.is_active(2, 0));
    assert_eq!(board.make_move(2, 0), Err(BoardError::OutOfReach));
    board.activate(2, 0);
    assert_eq!(board.make_move(2, 0), Ok(()));
    assert!(board.is_alive(1));
    assert!(board.is_important(1));
    assert!(board.is_important(2));
}

#[test]
fn cancel_restores_the_board_after_a_cross() {
    let mut board = line_board(4, 2);
    board.activate(0, 0);
    assert_eq!(make_move(&mut board, 0, 0), Ok(()));
    // the cross at 0 justifies a move at 1; placing and cancelling it
    // restores the whole board, with the cell's own activation re-derived
    // from the claim that remains next to it
    assert_eq!(make_move(&mut board, 1, 0), Ok(()));
    assert_eq!(cancel_move(&mut board, 1, 0), Ok(()));
    assert_eq!(board.kind(0), CellKind::Cross);
    assert_eq!(board.kind(1), CellKind::Empty);
    assert_eq!(board.kind(2), CellKind::Empty);
    assert!(!board.is_important(1));
    assert!(board.is_active(1, 0));
    assert_eq!(board.count_for(1, 0), 1);
    assert!(!board.is_active(2, 0));
    assert!(!board.is_active(0, 0));
    assert_eq!(board.moves_counter(0), 1);
    assert_eq!(board.crosses_counter(0), 1);
}

#[test]
fn cancel_round_trip_restores_every_cell() {
    let mut board = line_board(4, 2);
    board.activate(0, 0);
    assert_eq!(board.make_move(0, 0), Ok(()));
    board.activate(1, 1);
    assert_eq!(board.make_move(1, 1), Ok(()));
    // snapshot before the move to undo
    let kinds: Vec<CellKind> = (0..4).map(|i| board.kind(i)).collect();
    let alive: Vec<bool> = (0..4).map(|i| board.is_alive(i)).collect();
    let important: Vec<bool> = (0..4).map(|i| board.is_important(i)).collect();
    let mut counts: Vec<usize> = Vec::new();
    for i in 0..4 {
        for p in 0..2 {
            counts.push(board.count_for(i, p));
        }
    }
    let moves: Vec<usize> = (0..2).map(|p| board.moves_counter(p)).collect();
    let crosses: Vec<usize> = (0..2).map(|p| board.crosses_counter(p)).collect();
    // player 0 fills the cross at 1, then the move is cancelled with the
    // original placer supplied
    assert_eq!(board.make_move(1, 0), Ok(()));
    assert_eq!(board.cancel_move(1, 1), Ok(()));
    for i in 0..4 {
        assert_eq!(board.kind(i), kinds[i]);
        assert_eq!(board.is_alive(i), alive[i]);
        for p in 0..2 {
            assert_eq!(board.count_for(i, p), counts[i * 2 + p]);
        }
    }
    // the anchor pair mark that the fill put on the adjacent cross of the
    // filling player survives the undo; everything else is restored
    assert!(board.is_important(0));
    assert_eq!(board.is_important(1), important[1]);
    assert_eq!(board.is_important(2), important[2]);
    assert_eq!(board.is_important(3), important[3]);
    for p in 0..2 {
        assert_eq!(board.moves_counter(p), moves[p]);
        assert_eq!(board.crosses_counter(p), crosses[p]);
    }
    assert_eq!(board.player(1), 1);
}

#[test]
fn failed_moves_change_nothing() {
    let mut board = line_board(3, 2);
    board.activate(0, 0);
    assert_eq!(board.make_move(1, 0), Err(BoardError::OutOfReach));
    assert!(board.is_active(0, 0));
    assert_eq!(board.moves_counter(0), 1);
    assert_eq!(board.kind(1), CellKind::Empty);
}

#[test]
fn activation_counts_claims_not_booleans() {
    // the middle cell is adjacent to two claims of player 0; losing one of
    // them must keep it reachable
    let mut board = line_board(3, 2);
    board.activate(0, 0);
    assert_eq!(board.make_move(0, 0), Ok(()));
    board.activate(2, 0);
    assert_eq!(board.make_move(2, 0), Ok(()));
    assert_eq!(board.count_for(1, 0), 2);
    assert_eq!(board.cancel_move(2, 0), Ok(()));
    assert_eq!(board.count_for(1, 0), 1);
    assert!(board.is_active(1, 0));
}

#[test]
fn activation_matches_adjacent_claims() {
    // activation symmetry, checked cell by cell on an evolved board
    let mut board = line_board(4, 2);
    board.activate(0, 0);
    assert_eq!(board.make_move(0, 0), Ok(()));
    board.activate(3, 1);
    assert_eq!(board.make_move(3, 1), Ok(()));
    board.activate(1, 1);
    assert_eq!(board.make_move(1, 1), Ok(()));
    assert_eq!(board.make_move(1, 0), Ok(()));
    for i in 0..4 {
        for p in 0..2 {
            let meaningful = match board.kind(i) {
                CellKind::Empty => true,
                CellKind::Cross => board.player(i) != p,
                _ => false,
            };
            if !meaningful {
                continue;
            }
            let mut claims = 0;
            for &j in board.adjacent(i) {
                let is_claim = match board.kind(j) {
                    CellKind::Cross => board.player(j) == p,
                    CellKind::Filled => board.player(j) == p && board.is_alive(j),
                    _ => false,
                };
                if is_claim {
                    claims += 1;
                }
            }
            assert_eq!(board.count_for(i, p), claims);
        }
    }
}

#[test]
fn activate_around_reports_revived_chains() {
    let mut board = line_board(4, 2);
    board.activate(0, 0);
    assert_eq!(board.make_move(0, 0), Ok(()));
    board.activate(1, 1);
    assert_eq!(board.make_move(1, 1), Ok(()));
    assert_eq!(board.make_move(1, 0), Ok(()));
    board.activate(0, 1);
    assert_eq!(board.make_move(0, 1), Ok(()));
    assert!(!board.is_alive(1));
    // a fresh activation pass from cell 2 would revive the dead chain at 1
    board.activate(2, 0);
    assert_eq!(board.make_move(2, 0), Ok(()));
    assert!(board.is_alive(1));
    // and a pass around a cell with no dead neighbours reports nothing
    let special = activate_around(&mut board, 3, 1);
    assert!(!special);
}

#[test]
fn eight_neighbourhood_grid_plays_like_a_grid() {
    // a 3 x 3 grid with the usual 8-neighbourhood:
    // [ 0, 1, 2,
    //   3, 4, 5,
    //   6, 7, 8 ]
    let mut adjacency: Vec<Vec<usize>> = Vec::new();
    for r in 0i64..3 {
        for c in 0i64..3 {
            let mut row = Vec::new();
            for dr in -1i64..2 {
                for dc in -1i64..2 {
                    let (nr, nc) = (r + dr, c + dc);
                    if (dr, dc) != (0, 0) && (0..3).contains(&nr) && (0..3).contains(&nc) {
                        row.push((nr * 3 + nc) as usize);
                    }
                }
            }
            adjacency.push(row);
        }
    }
    let mut board = GameBoardImpl::init(2, vec![false; 9], adjacency).unwrap();
    let mut middle: Vec<usize> = board.adjacent(4).clone();
    middle.sort();
    assert_eq!(middle, [0, 1, 2, 3, 5, 6, 7, 8]);
    // a cross in the corner reaches all three diagonal and side neighbours
    board.activate(0, 0);
    assert_eq!(board.make_move(0, 0), Ok(()));
    for i in [1, 3, 4] {
        assert!(board.is_active(i, 0));
    }
    for i in [2, 5, 6, 7, 8] {
        assert!(!board.is_active(i, 0));
    }
    assert_eq!(board.moves_counter(0), 3);
}

#[test]
fn error_messages_describe_each_error() {
    assert_eq!(
        BoardError::SelfFill.message(),
        "can't fill cell with its own color"
    );
    assert_eq!(BoardError::DoubleFill.message(), "can't fill filled cell");
    assert_eq!(BoardError::BorderHit.message(), "border hit");
    assert_eq!(BoardError::OutOfReach.message(), "cell is out of reach");
    assert_eq!(BoardError::EmptyCancel.message(), "can't cancel empty cell");
}
