use clientserver::game::GameData;

fn two_player_game() -> GameData {
    let mut g = GameData::new(2, 3, 10);
    g.add_player(7, "alice");
    g.add_player(9, "bob");
    g
}

#[test]
fn waiting_until_enough_players() {
    let mut g = GameData::new(2, 3, 10);
    assert!(!g.is_game_over());
    assert_eq!(g.get_active_player_id(), 255);
    g.add_player(7, "alice");
    // Still waiting: a move does nothing.
    g.move_player(7, 2);
    assert_eq!(g.get_game_board().len(), 0);
    assert_eq!(g.get_active_player_id(), 255);
    g.add_player(9, "bob");
    // Exactly at the player limit the game starts, first joiner active.
    assert_eq!(g.get_active_player_id(), 7);
    assert!(!g.is_game_over());
    assert_eq!(g.get_player_names(), &vec!["alice".to_string(), "bob".to_string()]);
}

#[test]
fn join_after_start_is_ignored() {
    let mut g = two_player_game();
    g.add_player(11, "carol");
    assert_eq!(g.get_player_names().len(), 2);
    assert_eq!(g.get_active_player_id(), 7);
}

#[test]
fn legal_move_extends_board_and_passes_turn() {
    let mut g = two_player_game();
    g.move_player(7, 3);
    assert_eq!(g.get_game_board(), &[0, 0, 0]);
    assert_eq!(g.get_active_player_id(), 9);
    g.move_player(9, 1);
    assert_eq!(g.get_game_board(), &[0, 0, 0, 1]);
    assert_eq!(g.get_active_player_id(), 7);
}

#[test]
fn move_by_inactive_player_is_ignored() {
    let mut g = two_player_game();
    g.move_player(9, 2);
    assert_eq!(g.get_game_board().len(), 0);
    assert_eq!(g.get_active_player_id(), 7);
    assert!(!g.is_game_over());
}

#[test]
fn out_of_range_moves_are_ignored() {
    let mut g = two_player_game();
    g.move_player(7, 0);
    assert_eq!(g.get_game_board().len(), 0);
    g.move_player(7, 4);
    assert_eq!(g.get_game_board().len(), 0);
    assert_eq!(g.get_active_player_id(), 7);
}

#[test]
fn reaching_threshold_ends_game() {
    let mut g = two_player_game();
    g.move_player(7, 3); // 3
    g.move_player(9, 3); // 6
    g.move_player(7, 3); // 9, still below 10
    assert!(!g.is_game_over());
    g.move_player(9, 3); // 12 >= 10: bob loses
    assert!(g.is_game_over());
    assert_eq!(g.get_game_board().len(), 12);
    // The mover who crossed the threshold stays the active participant.
    assert_eq!(g.get_active_player_id(), 9);
    // No further board mutation after game over.
    g.move_player(7, 2);
    g.move_player(9, 2);
    assert_eq!(g.get_game_board().len(), 12);
}

#[test]
fn rematch_after_both_votes() {
    let mut g = two_player_game();
    g.move_player(7, 3);
    g.move_player(9, 3);
    g.move_player(7, 3);
    g.move_player(9, 3);
    assert!(g.is_game_over());
    g.add_player(9, "");
    // One vote is not enough.
    assert!(g.is_game_over());
    assert_eq!(g.get_game_board().len(), 12);
    g.add_player(7, "");
    // Both votes: board clears, play resumes, last game's loser stays active.
    assert!(!g.is_game_over());
    assert_eq!(g.get_game_board().len(), 0);
    assert_eq!(g.get_active_player_id(), 9);
    // The participants are unchanged.
    assert_eq!(g.get_player_names().len(), 2);
}

#[test]
fn repeated_rematch_vote_counts_once() {
    let mut g = two_player_game();
    g.move_player(7, 3);
    g.move_player(9, 3);
    g.move_player(7, 3);
    g.move_player(9, 3);
    assert!(g.is_game_over());
    g.add_player(9, "");
    g.add_player(9, "");
    assert!(g.is_game_over());
    g.add_player(7, "");
    assert!(!g.is_game_over());
}

#[test]
fn set_active_player_only_before_first_move() {
    let mut g = two_player_game();
    g.set_active_player(9);
    assert_eq!(g.get_active_player_id(), 9);
    g.move_player(9, 1);
    // After a move the override is ignored.
    g.set_active_player(9);
    assert_eq!(g.get_active_player_id(), 7);
}

#[test]
fn game_has_player_checks_identifiers() {
    let g = two_player_game();
    assert!(g.game_has_player(7));
    assert!(g.game_has_player(9));
    assert!(!g.game_has_player(8));
}

#[test]
fn get_player_name_by_index() {
    let g = two_player_game();
    assert_eq!(g.get_player_name(0), Some("alice".to_string()));
    assert_eq!(g.get_player_name(1), Some("bob".to_string()));
    assert_eq!(g.get_player_name(2), None);
}

#[test]
fn get_max_move_returns_configuration() {
    let g = two_player_game();
    assert_eq!(g.get_max_move(), 3);
}
