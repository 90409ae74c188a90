use crosses_utils::base::CellKind;
use crosses_utils::base::SearchResult;
use crosses_utils::engine_impl::kill;
use crosses_utils::engine_impl::revive;
use crosses_utils::engine_impl::search;
use crosses_utils::game_board_impl::GameBoardImpl;
use crosses_utils::ibts::GameBoard;
use crosses_utils::ibts::IbtsBoard;

/// A line of `n` ordinary cells with a cross of player 0 at cell 0 and a
/// filled cell of player 0 at cell 1.
fn board_with_chain(n: usize) -> GameBoardImpl {
    let mut adjacency: Vec<Vec<usize>> = Vec::new();
    for i in 0..n {
        let mut row = Vec::new();
        if i > 0 {
            row.push(i - 1);
        }
        if i + 1 < n {
            row.push(i + 1);
        }
        adjacency.push(row);
    }
    let mut board = GameBoardImpl::init(2, vec![false; n], adjacency).unwrap();
    board.activate(0, 0);
    board.make_move(0, 0).unwrap();
    board.activate(1, 1);
    board.make_move(1, 1).unwrap();
    board.make_move(1, 0).unwrap();
    board
}

#[test]
fn search_finds_the_adjacent_activator() {
    let board = board_with_chain(3);
    assert_eq!(
        search(&board, 1, 0),
        Some(SearchResult { filled: 1, cross: 0 })
    );
}

#[test]
fn search_reports_nothing_without_an_activator() {
    let mut board = board_with_chain(3);
    board.activate(0, 1);
    board.make_move(0, 1).unwrap();
    assert_eq!(search(&board, 1, 0), None);
}

#[test]
fn kill_and_revive_walk_the_whole_chain() {
    // grow the chain: the cross at 2 justifies filling outward
    let mut board = board_with_chain(4);
    board.activate(2, 1);
    board.make_move(2, 1).unwrap();
    board.make_move(2, 0).unwrap();
    assert!(board.is_alive(1) && board.is_alive(2));
    kill(&mut board, 2, 0);
    assert!(!board.is_alive(1) && !board.is_alive(2));
    // the dead chain stopped reaching into cell 3
    assert!(!board.is_active(3, 0));
    revive(&mut board, 1, 0);
    assert!(board.is_alive(1) && board.is_alive(2));
    assert!(board.is_active(3, 0));
}

#[test]
fn the_capability_traits_answer_like_the_board() {
    let board = board_with_chain(3);
    assert_eq!(GameBoard::kind(&board, 1), CellKind::Filled);
    assert_eq!(GameBoard::player(&board, 1), 0);
    assert_eq!(GameBoard::adjacent(&board, 1).as_slice(), &[0, 2]);
    assert!(IbtsBoard::is_alive(&board, 1));
    assert!(IbtsBoard::is_important(&board, 1));
    assert!(!IbtsBoard::is_alive(&board, 2));
}
