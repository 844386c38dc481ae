use clientserver::client::ClientState;

#[test]
fn welcome_assigns_the_identifier() {
    let mut client = ClientState::new();
    assert_eq!(client.get_user_id(), 255);
    client.apply_server_frame(8, &[4]);
    assert_eq!(client.get_user_id(), 4);
    // A welcome without the identifier byte is dropped.
    client.apply_server_frame(8, &[]);
    assert_eq!(client.get_user_id(), 4);
}

#[test]
fn server_user_name_sets_the_name() {
    let mut client = ClientState::new();
    client.apply_server_frame(9, b"alice");
    assert_eq!(client.get_user_name(), "alice");
    // Invalid UTF-8 is dropped.
    client.apply_server_frame(9, &[0xff, 0xfe]);
    assert_eq!(client.get_user_name(), "alice");
}

#[test]
fn game_config_creates_the_mirrored_game() {
    let mut client = ClientState::new();
    assert!(client.get_game().is_none());
    client.apply_server_frame(4, &[2, 3, 10]);
    let game = client.get_game().as_ref().expect("a game");
    assert_eq!(game.get_max_move(), 3);
    assert!(!game.is_game_over());
}

#[test]
fn malformed_game_config_is_dropped() {
    let mut client = ClientState::new();
    client.apply_server_frame(4, &[2, 3]);
    assert!(client.get_game().is_none());
    client.apply_server_frame(4, &[2, 3, 10, 11]);
    assert!(client.get_game().is_none());
}

fn mirrored_match() -> ClientState {
    let mut client = ClientState::new();
    client.apply_server_frame(8, &[0]);
    client.apply_server_frame(4, &[2, 3, 10]);
    client.apply_server_frame(5, &[0, b'a', b'l', b'i', b'c', b'e']);
    client.apply_server_frame(5, &[1, b'b', b'o', b'b']);
    client.apply_server_frame(7, &[0]);
    client
}

#[test]
fn add_player_frames_fill_the_roster() {
    let client = mirrored_match();
    let game = client.get_game().as_ref().expect("a game");
    assert_eq!(game.get_player_names(), &vec!["alice".to_string(), "bob".to_string()]);
    assert_eq!(game.get_active_player_id(), 0);
}

#[test]
fn move_player_frames_advance_the_board() {
    let mut client = mirrored_match();
    client.apply_server_frame(6, &[0, 3]);
    let game = client.get_game().as_ref().expect("a game");
    assert_eq!(game.get_game_board().len(), 3);
    assert_eq!(game.get_active_player_id(), 1);
}

#[test]
fn short_or_alien_move_frames_are_dropped() {
    let mut client = mirrored_match();
    // Too short.
    client.apply_server_frame(6, &[0]);
    // An identifier of nobody in the game.
    client.apply_server_frame(6, &[9, 2]);
    let game = client.get_game().as_ref().expect("a game");
    assert_eq!(game.get_game_board().len(), 0);
}

#[test]
fn set_active_player_before_the_first_move() {
    let mut client = mirrored_match();
    client.apply_server_frame(7, &[1]);
    let game = client.get_game().as_ref().expect("a game");
    assert_eq!(game.get_active_player_id(), 1);
}

#[test]
fn opponent_disconnect_clears_the_game() {
    let mut client = mirrored_match();
    client.apply_server_frame(128, &[]);
    assert!(client.get_game().is_none());
}

#[test]
fn unknown_server_frames_are_ignored() {
    let mut client = mirrored_match();
    client.apply_server_frame(77, &[1, 2, 3]);
    assert!(client.get_game().is_some());
    assert_eq!(client.get_user_id(), 0);
}

#[test]
fn bad_utf8_in_add_player_is_dropped() {
    let mut client = ClientState::new();
    client.apply_server_frame(4, &[2, 3, 10]);
    client.apply_server_frame(5, &[0, 0xff, 0xfe]);
    let game = client.get_game().as_ref().expect("a game");
    assert_eq!(game.get_player_names().len(), 0);
}
