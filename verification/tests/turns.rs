use crosses_utils::player_manager::GameOver;
use crosses_utils::player_manager::GameState;
use crosses_utils::player_manager::LoseData;
use crosses_utils::player_manager::PlayerManager;

fn no_reports(n: usize) -> Vec<bool> {
    vec![false; n]
}

#[test]
fn new_starts_with_full_budget_and_no_losers() {
    let pm = PlayerManager::new(4, 3, vec![None, None, None]);
    assert_eq!(pm.remaining_moves, 4);
    assert_eq!(pm.max_moves, 4);
    assert_eq!(pm.current_player, 0);
    assert_eq!(pm.max_players, 3);
    assert_eq!(pm.current_move, 0);
    assert_eq!(pm.game_state, GameState::Ongoing);
    assert!(pm.losers.iter().all(|l| l.is_none()));
}

#[test]
fn advance_spends_the_budget_then_passes_the_turn() {
    let mut pm = PlayerManager::new(4, 2, vec![None, None]);
    let oom = no_reports(2);
    let ooc = no_reports(2);
    assert_eq!(pm.advance(&oom, &ooc), Ok(0));
    assert_eq!(
        (pm.remaining_moves, pm.current_player, pm.current_move),
        (3, 0, 1)
    );
    for _ in 0..3 {
        pm.advance(&oom, &ooc).unwrap();
    }
    assert_eq!(
        (pm.remaining_moves, pm.current_player, pm.current_move),
        (4, 1, 4)
    );
    assert_eq!(pm.game_state, GameState::Ongoing);
}

#[test]
fn advance_alternates_players_with_budget_one() {
    let mut pm = PlayerManager::new(1, 2, vec![None, None]);
    let oom = no_reports(2);
    let ooc = no_reports(2);
    assert_eq!(pm.current_player, 0);
    assert_eq!(pm.advance(&oom, &ooc), Ok(1));
    assert_eq!(pm.current_player, 1);
    assert_eq!(pm.game_state, GameState::Ongoing);
    assert_eq!(pm.advance(&oom, &ooc), Ok(0));
    assert_eq!(pm.current_player, 0);
    assert_eq!(pm.game_state, GameState::Ongoing);
    assert_eq!(pm.advance(&oom, &ooc), Ok(1));
    assert_eq!(pm.current_player, 1);
    assert_eq!(pm.game_state, GameState::Ongoing);
}

#[test]
fn immediate_out_of_moves_ends_with_win() {
    let mut pm = PlayerManager::new(4, 2, vec![None, None]);
    let oom = vec![true, false];
    let ooc = no_reports(2);
    assert_eq!(pm.advance(&oom, &ooc), Err(GameOver::Win(1)));
    assert_eq!(pm.game_state, GameState::Ended(GameOver::Win(1)));
    assert_eq!(
        pm.losers[0],
        Some(LoseData { move_index: 0, remaining_moves: 3 })
    );
    assert!(pm.losers[1].is_none());
}

#[test]
fn advance_after_the_end_reports_the_outcome_again() {
    let mut pm = PlayerManager::new(4, 2, vec![None, None]);
    let oom = vec![true, false];
    let ooc = no_reports(2);
    assert_eq!(pm.advance(&oom, &ooc), Err(GameOver::Win(1)));
    let snapshot = (
        pm.remaining_moves,
        pm.current_player,
        pm.current_move,
        pm.game_state,
    );
    assert_eq!(pm.advance(&no_reports(2), &no_reports(2)), Err(GameOver::Win(1)));
    assert_eq!(
        (pm.remaining_moves, pm.current_player, pm.current_move, pm.game_state),
        snapshot
    );
}

#[test]
fn out_of_crosses_eliminates_unconditionally() {
    let mut pm = PlayerManager::new(1, 3, vec![None, None, None]);
    let oom = no_reports(3);
    // player 1 has no crosses left; the turn passing away from player 0
    // eliminates them at once and play continues with player 2
    let ooc = vec![false, true, false];
    assert_eq!(pm.advance(&oom, &ooc), Ok(2));
    assert_eq!(
        pm.losers[1],
        Some(LoseData { move_index: 0, remaining_moves: 0 })
    );
    assert_eq!(pm.game_state, GameState::Ongoing);
    assert_eq!(pm.current_player, 2);
    assert_eq!(pm.remaining_moves, 1);
}

#[test]
fn everyone_out_of_crosses_is_a_draw() {
    let mut pm = PlayerManager::new(4, 2, vec![None, None]);
    // the mover runs out of moves and the other player out of crosses
    let oom = vec![true, false];
    let ooc = vec![false, true];
    assert_eq!(pm.advance(&oom, &ooc), Err(GameOver::Draw));
    assert_eq!(pm.game_state, GameState::Ended(GameOver::Draw));
    assert!(pm.losers[0].is_some());
    assert!(pm.losers[1].is_some());
}

#[test]
fn a_player_is_never_eliminated_into_an_empty_game() {
    // three players, all reported out of moves: the mover loses, the next
    // player loses while one other candidate remains, and the last one is
    // spared so that the game keeps a decidable winner
    let mut pm = PlayerManager::new(4, 3, vec![None, None, None]);
    let oom = vec![true, true, true];
    let ooc = no_reports(3);
    assert_eq!(pm.advance(&oom, &ooc), Err(GameOver::Win(2)));
    assert!(pm.losers[0].is_some());
    assert!(pm.losers[1].is_some());
    assert!(pm.losers[2].is_none());
}

#[test]
fn turn_budget_is_conserved() {
    let mut pm = PlayerManager::new(3, 2, vec![None, None]);
    let oom = no_reports(2);
    let ooc = no_reports(2);
    for _ in 0..7 {
        assert!(pm.remaining_moves <= pm.max_moves);
        let consumed = pm.max_moves - pm.remaining_moves;
        assert_eq!(pm.remaining_moves + consumed, pm.max_moves);
        pm.advance(&oom, &ooc).unwrap();
        assert!(pm.remaining_moves >= 1);
    }
}

#[test]
fn reverse_undoes_a_plain_advance() {
    let mut pm = PlayerManager::new(4, 2, vec![None, None]);
    let oom = no_reports(2);
    let ooc = no_reports(2);
    assert_eq!(pm.advance(&oom, &ooc), Ok(0));
    pm.reverse(0);
    assert_eq!(
        (pm.remaining_moves, pm.current_player, pm.current_move, pm.game_state),
        (4, 0, 0, GameState::Ongoing)
    );
}

#[test]
fn reverse_undoes_a_turn_change() {
    let mut pm = PlayerManager::new(1, 2, vec![None, None]);
    let oom = no_reports(2);
    let ooc = no_reports(2);
    assert_eq!(pm.advance(&oom, &ooc), Ok(1));
    assert_eq!(pm.current_player, 1);
    pm.reverse(0);
    assert_eq!(
        (pm.remaining_moves, pm.current_player, pm.current_move, pm.game_state),
        (1, 0, 0, GameState::Ongoing)
    );
}

#[test]
fn reverse_restores_a_loss_recorded_at_the_undone_move() {
    let mut pm = PlayerManager::new(4, 2, vec![None, None]);
    let oom = vec![true, false];
    let ooc = no_reports(2);
    assert_eq!(pm.advance(&oom, &ooc), Err(GameOver::Win(1)));
    pm.reverse(0);
    assert_eq!(
        (pm.remaining_moves, pm.current_player, pm.current_move, pm.game_state),
        (4, 0, 0, GameState::Ongoing)
    );
    assert!(pm.losers[0].is_none());
    assert!(pm.losers[1].is_none());
}

#[test]
fn reverse_clears_third_party_losses_of_the_undone_ply() {
    // three players, budget one: the turn passing away from player 0
    // eliminates player 1 (out of crosses); undoing that advance clears the
    // loss although player 1 is neither the mover nor the turn holder
    let mut pm = PlayerManager::new(1, 3, vec![None, None, None]);
    let oom = no_reports(3);
    let ooc = vec![false, true, false];
    assert_eq!(pm.advance(&oom, &ooc), Ok(2));
    assert!(pm.losers[1].is_some());
    pm.reverse(0);
    assert!(pm.losers[0].is_none());
    assert!(pm.losers[1].is_none());
    assert!(pm.losers[2].is_none());
    assert_eq!(
        (pm.remaining_moves, pm.current_player, pm.current_move, pm.game_state),
        (1, 0, 0, GameState::Ongoing)
    );
}

#[test]
fn losses_recorded_at_other_moves_stay_recorded() {
    // eliminate player 1 at ply 0, play on, then undo only the later ply:
    // the old loss record must survive the undo untouched
    let mut pm = PlayerManager::new(1, 3, vec![None, None, None]);
    let oom = no_reports(3);
    let ooc = vec![false, true, false];
    assert_eq!(pm.advance(&oom, &ooc), Ok(2));
    let recorded = pm.losers[1];
    assert!(recorded.is_some());
    assert_eq!(pm.advance(&no_reports(3), &no_reports(3)), Ok(0));
    pm.reverse(2);
    assert_eq!(pm.losers[1], recorded);
    assert_eq!(pm.current_player, 2);
    assert_eq!(pm.current_move, 1);
}
