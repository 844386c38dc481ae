use clientserver::server::{OutMessage, ServerState};
use clientserver::session::SessionPhase;

fn drain(server: &mut ServerState) -> Vec<(usize, Vec<u8>)> {
    server
        .take_outbox()
        .into_iter()
        .map(|m: OutMessage| (m.dest, m.bytes))
        .collect()
}

/// Accept two connections and name them alice and bob.
fn named_pair() -> ServerState {
    let mut server = ServerState::new();
    assert_eq!(server.accept(), Some(0));
    assert_eq!(server.accept(), Some(1));
    server.on_plaintext(0, &[0, 5, b'a', b'l', b'i', b'c', b'e']);
    server.on_plaintext(1, &[0, 3, b'b', b'o', b'b']);
    server
}

/// A named pair, already matched into a game, with the outbox drained.
fn matched_pair() -> ServerState {
    let mut server = named_pair();
    server.sweep_orphans();
    server.matchmake();
    drain(&mut server);
    server
}

#[test]
fn accept_assigns_identifiers_and_welcomes() {
    let mut server = ServerState::new();
    assert_eq!(server.accept(), Some(0));
    assert_eq!(server.accept(), Some(1));
    assert!(server.has_session(0));
    assert!(server.has_session(1));
    assert!(!server.has_session(2));
    assert_eq!(server.session_phase(0), SessionPhase::Connected);
    let out = drain(&mut server);
    assert_eq!(out, vec![(0, vec![8, 1, 0]), (1, vec![8, 1, 1])]);
    // The outbox is handed out once: it is empty now.
    assert_eq!(drain(&mut server), vec![]);
}

#[test]
fn accept_reuses_the_lowest_vacant_slot() {
    let mut server = ServerState::new();
    assert_eq!(server.accept(), Some(0));
    assert_eq!(server.accept(), Some(1));
    assert_eq!(server.accept(), Some(2));
    server.disconnect(1);
    assert!(!server.has_session(1));
    assert_eq!(server.accept(), Some(1));
}

#[test]
fn table_full_turns_connections_away() {
    let mut server = ServerState::new();
    for expected in 0..256 {
        assert_eq!(server.accept(), Some(expected));
    }
    assert_eq!(server.accept(), None);
}

#[test]
fn naming_a_session_echoes_the_name() {
    let mut server = ServerState::new();
    server.accept();
    drain(&mut server);
    server.on_plaintext(0, &[0, 5, b'a', b'l', b'i', b'c', b'e']);
    assert_eq!(server.session_phase(0), SessionPhase::WaitingForOpponent);
    let out = drain(&mut server);
    assert_eq!(out, vec![(0, vec![9, 5, b'a', b'l', b'i', b'c', b'e'])]);
}

#[test]
fn duplicate_names_are_rejected_silently() {
    let mut server = ServerState::new();
    server.accept();
    server.accept();
    drain(&mut server);
    server.on_plaintext(0, &[0, 3, b'b', b'o', b'b']);
    drain(&mut server);
    server.on_plaintext(1, &[0, 3, b'b', b'o', b'b']);
    // The second session stays unnamed and nothing is sent.
    assert_eq!(server.session_phase(1), SessionPhase::Connected);
    assert_eq!(drain(&mut server), vec![]);
}

#[test]
fn invalid_utf8_name_is_dropped() {
    let mut server = ServerState::new();
    server.accept();
    drain(&mut server);
    server.on_plaintext(0, &[0, 2, 0xff, 0xfe]);
    assert_eq!(server.session_phase(0), SessionPhase::Connected);
    assert_eq!(drain(&mut server), vec![]);
}

#[test]
fn frames_before_naming_are_ignored_except_set_name() {
    let mut server = ServerState::new();
    server.accept();
    drain(&mut server);
    // A move from an unnamed, unmatched session does nothing.
    server.on_plaintext(0, &[1, 1, 3]);
    assert_eq!(server.session_phase(0), SessionPhase::Connected);
    assert_eq!(drain(&mut server), vec![]);
}

#[test]
fn unknown_frame_types_are_consumed() {
    let mut server = ServerState::new();
    server.accept();
    drain(&mut server);
    // An unknown type byte is skipped using its declared length, and the
    // following frame is still handled.
    let mut bytes = vec![200u8, 2, 9, 9];
    bytes.extend([0u8, 3, b'b', b'o', b'b']);
    server.on_plaintext(0, bytes.as_slice());
    assert_eq!(server.session_phase(0), SessionPhase::WaitingForOpponent);
    let out = drain(&mut server);
    assert_eq!(out, vec![(0, vec![9, 3, b'b', b'o', b'b'])]);
}

#[test]
fn matchmaker_pairs_the_first_two_waiting_sessions() {
    let mut server = named_pair();
    drain(&mut server);
    server.sweep_orphans();
    server.matchmake();
    assert_eq!(server.session_phase(0), SessionPhase::InGame(1));
    assert_eq!(server.session_phase(1), SessionPhase::InGame(0));
    let out = drain(&mut server);
    let config = vec![4u8, 3, 2, 3, 10];
    let add_alice = vec![5u8, 6, 0, b'a', b'l', b'i', b'c', b'e'];
    let add_bob = vec![5u8, 4, 1, b'b', b'o', b'b'];
    let set_active = vec![7u8, 1, 0];
    assert_eq!(
        out,
        vec![
            (0, config.clone()),
            (1, config),
            (0, add_alice.clone()),
            (1, add_alice),
            (0, add_bob.clone()),
            (1, add_bob),
            (0, set_active.clone()),
            (1, set_active),
        ]
    );
    let game = server.get_game(0).expect("a game for alice");
    assert_eq!(game.get_active_player_id(), 0);
    assert_eq!(game.get_max_move(), 3);
    assert_eq!(game.get_player_names(), &vec!["alice".to_string(), "bob".to_string()]);
}

#[test]
fn matchmaker_needs_two_waiting_sessions() {
    let mut server = ServerState::new();
    server.accept();
    drain(&mut server);
    server.on_plaintext(0, &[0, 1, b'a']);
    drain(&mut server);
    server.matchmake();
    assert_eq!(server.session_phase(0), SessionPhase::WaitingForOpponent);
    assert_eq!(drain(&mut server), vec![]);
}

#[test]
fn moves_are_relayed_and_applied() {
    let mut server = matched_pair();
    // Alice (identifier 0) is active and moves 3 steps.
    server.on_plaintext(0, &[1, 1, 3]);
    let out = drain(&mut server);
    assert_eq!(out, vec![(1, vec![6, 2, 0, 3]), (0, vec![6, 2, 0, 3])]);
    let game = server.get_game(0).expect("a game");
    assert_eq!(game.get_game_board().len(), 3);
    assert_eq!(game.get_active_player_id(), 1);
}

#[test]
fn illegal_moves_are_still_relayed_but_not_applied() {
    let mut server = matched_pair();
    // Bob is not active: the engine ignores the move, the relay echoes it.
    server.on_plaintext(1, &[1, 1, 2]);
    let out = drain(&mut server);
    assert_eq!(out, vec![(0, vec![6, 2, 1, 2]), (1, vec![6, 2, 1, 2])]);
    let game = server.get_game(0).expect("a game");
    assert_eq!(game.get_game_board().len(), 0);
    assert_eq!(game.get_active_player_id(), 0);
}

/// Play the match until the board reaches the threshold of 10.
fn play_to_game_over(server: &mut ServerState) {
    server.on_plaintext(0, &[1, 1, 3]); // 3
    server.on_plaintext(1, &[1, 1, 3]); // 6
    server.on_plaintext(0, &[1, 1, 3]); // 9
    server.on_plaintext(1, &[1, 1, 3]); // 12: bob crossed the threshold
    drain(server);
}

#[test]
fn a_session_reaches_game_over() {
    let mut server = matched_pair();
    play_to_game_over(&mut server);
    let game = server.get_game(0).expect("a game");
    assert!(game.is_game_over());
    assert_eq!(game.get_game_board().len(), 12);
    assert_eq!(game.get_active_player_id(), 1);
}

#[test]
fn restart_votes_bring_a_rematch() {
    let mut server = matched_pair();
    play_to_game_over(&mut server);
    server.on_plaintext(0, &[2, 0]);
    let out = drain(&mut server);
    assert_eq!(out, vec![(1, vec![5, 1, 0]), (0, vec![5, 1, 0])]);
    assert!(server.get_game(0).expect("a game").is_game_over());
    server.on_plaintext(1, &[2, 0]);
    let out = drain(&mut server);
    assert_eq!(out, vec![(0, vec![5, 1, 1]), (1, vec![5, 1, 1])]);
    let game = server.get_game(0).expect("a game");
    assert!(!game.is_game_over());
    assert_eq!(game.get_game_board().len(), 0);
    // Last game's loser (bob) stays active.
    assert_eq!(game.get_active_player_id(), 1);
}

#[test]
fn restart_before_game_over_is_ignored() {
    let mut server = matched_pair();
    server.on_plaintext(0, &[2, 0]);
    assert_eq!(drain(&mut server), vec![]);
    assert!(!server.get_game(0).expect("a game").is_game_over());
}

#[test]
fn end_game_after_game_over_dissolves_the_match() {
    let mut server = matched_pair();
    play_to_game_over(&mut server);
    server.on_plaintext(0, &[3, 0]);
    let out = drain(&mut server);
    assert_eq!(out, vec![(1, vec![128, 0]), (0, vec![128, 0])]);
    assert!(server.get_game(0).is_none());
    assert!(server.get_game(1).is_none());
    assert_eq!(server.session_phase(0), SessionPhase::WaitingForOpponent);
    // The partner still points into the dissolved game until the sweep.
    assert_eq!(server.session_phase(1), SessionPhase::InGame(0));
    server.sweep_orphans();
    assert_eq!(server.session_phase(1), SessionPhase::WaitingForOpponent);
}

#[test]
fn disconnect_notifies_the_partner() {
    let mut server = matched_pair();
    server.disconnect(0);
    let out = drain(&mut server);
    assert_eq!(out, vec![(1, vec![128, 0])]);
    assert!(!server.has_session(0));
    assert_eq!(server.session_phase(1), SessionPhase::WaitingForOpponent);
    assert!(server.get_game(1).is_none());
}

#[test]
fn disconnect_frees_the_name() {
    let mut server = ServerState::new();
    server.accept();
    drain(&mut server);
    server.on_plaintext(0, &[0, 3, b'b', b'o', b'b']);
    drain(&mut server);
    server.disconnect(0);
    assert_eq!(server.accept(), Some(0));
    drain(&mut server);
    server.on_plaintext(0, &[0, 3, b'b', b'o', b'b']);
    assert_eq!(server.session_phase(0), SessionPhase::WaitingForOpponent);
}

#[test]
fn split_frames_dispatch_like_whole_ones() {
    let mut server = ServerState::new();
    server.accept();
    drain(&mut server);
    // The SetName frame arrives in three chunks.
    server.on_plaintext(0, &[0]);
    server.on_plaintext(0, &[5, b'a', b'l']);
    assert_eq!(server.session_phase(0), SessionPhase::Connected);
    server.on_plaintext(0, &[b'i', b'c', b'e']);
    assert_eq!(server.session_phase(0), SessionPhase::WaitingForOpponent);
    let out = drain(&mut server);
    assert_eq!(out, vec![(0, vec![9, 5, b'a', b'l', b'i', b'c', b'e'])]);
}

#[test]
fn rematch_then_second_game_over() {
    let mut server = matched_pair();
    play_to_game_over(&mut server);
    server.on_plaintext(0, &[2, 0]);
    server.on_plaintext(1, &[2, 0]);
    drain(&mut server);
    // Bob is active after losing; play another round to the threshold.
    server.on_plaintext(1, &[1, 1, 3]); // 3
    server.on_plaintext(0, &[1, 1, 3]); // 6
    server.on_plaintext(1, &[1, 1, 3]); // 9
    server.on_plaintext(0, &[1, 1, 3]); // 12: alice loses this one
    let game = server.get_game(0).expect("a game");
    assert!(game.is_game_over());
    assert_eq!(game.get_active_player_id(), 0);
}
