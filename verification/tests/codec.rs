use clientserver::codec::{
    bytes_to_string, encode_add_player, encode_client_user_name, encode_end_game, encode_frame,
    encode_game_config, encode_move_player, encode_opponent_disconnect, encode_player_move,
    encode_restart_game, encode_server_user_name, encode_set_active_player, encode_welcome,
    FrameBuffer, Message,
};

#[test]
fn message_codes_round_trip() {
    let messages = [
        Message::ClientUserName,
        Message::PlayerMove,
        Message::RestartGame,
        Message::EndGame,
        Message::GameData,
        Message::AddPlayer,
        Message::MovePlayer,
        Message::SetActivePlayer,
        Message::Welcome,
        Message::ServerUserName,
        Message::OpponentDisconnect,
    ];
    for m in messages {
        assert_eq!(Message::from_u8(m.to_u8()), Some(m));
    }
}

#[test]
fn message_codes_are_fixed() {
    assert_eq!(Message::ClientUserName.to_u8(), 0);
    assert_eq!(Message::PlayerMove.to_u8(), 1);
    assert_eq!(Message::RestartGame.to_u8(), 2);
    assert_eq!(Message::EndGame.to_u8(), 3);
    assert_eq!(Message::GameData.to_u8(), 4);
    assert_eq!(Message::AddPlayer.to_u8(), 5);
    assert_eq!(Message::MovePlayer.to_u8(), 6);
    assert_eq!(Message::SetActivePlayer.to_u8(), 7);
    assert_eq!(Message::Welcome.to_u8(), 8);
    assert_eq!(Message::ServerUserName.to_u8(), 9);
    assert_eq!(Message::OpponentDisconnect.to_u8(), 128);
}

#[test]
fn unknown_type_bytes_decode_to_none() {
    for b in [10u8, 11, 64, 127, 129, 200, 255] {
        assert!(Message::from_u8(b).is_none());
    }
}

#[test]
fn encoders_produce_exact_frames() {
    assert_eq!(encode_welcome(3), vec![8, 1, 3]);
    assert_eq!(encode_game_config(2, 3, 10), vec![4, 3, 2, 3, 10]);
    assert_eq!(encode_add_player(1, "bob"), vec![5, 4, 1, b'b', b'o', b'b']);
    assert_eq!(encode_move_player(1, 2), vec![6, 2, 1, 2]);
    assert_eq!(encode_set_active_player(0), vec![7, 1, 0]);
    assert_eq!(encode_opponent_disconnect(), vec![128, 0]);
    assert_eq!(encode_server_user_name("alice"), vec![9, 5, b'a', b'l', b'i', b'c', b'e']);
    assert_eq!(encode_client_user_name("bob"), vec![0, 3, b'b', b'o', b'b']);
    assert_eq!(encode_player_move(3), vec![1, 1, 3]);
    assert_eq!(encode_restart_game(), vec![2, 0]);
    assert_eq!(encode_end_game(), vec![3, 0]);
}

/// Decode one frame's bytes and encode the decoded frame again.
fn re_encode(bytes: &[u8]) -> Vec<u8> {
    let mut buffer = FrameBuffer::new();
    buffer.append(bytes);
    let frame = buffer.pop_frame().expect("a complete frame");
    assert_eq!(buffer.len(), 0);
    encode_frame(frame.msg_type, frame.payload.as_slice())
}

#[test]
fn decode_then_encode_gives_back_the_bytes() {
    let frames: Vec<Vec<u8>> = vec![
        encode_client_user_name("alice"),
        encode_player_move(2),
        encode_restart_game(),
        encode_end_game(),
        encode_game_config(2, 3, 10),
        encode_add_player(0, "alice"),
        encode_move_player(0, 3),
        encode_set_active_player(0),
        encode_welcome(0),
        encode_server_user_name("alice"),
        encode_opponent_disconnect(),
    ];
    for f in frames {
        assert_eq!(re_encode(f.as_slice()), f);
    }
}

#[test]
fn round_trip_at_payload_boundaries() {
    // Empty payload.
    let empty = vec![7u8, 0];
    assert_eq!(re_encode(empty.as_slice()), empty);
    // The largest payload the length byte can declare.
    let mut big = vec![9u8, 255];
    big.extend(std::iter::repeat(b'x').take(255));
    assert_eq!(re_encode(big.as_slice()), big);
}

#[test]
fn pop_waits_for_a_complete_frame() {
    let mut buffer = FrameBuffer::new();
    buffer.append(&[6, 2, 1]);
    assert!(buffer.pop_frame().is_none());
    assert_eq!(buffer.len(), 3);
    buffer.append(&[3]);
    let frame = buffer.pop_frame().expect("now complete");
    assert_eq!(frame.msg_type, 6);
    assert_eq!(frame.payload, vec![1, 3]);
    assert_eq!(buffer.len(), 0);
}

#[test]
fn arbitrary_splits_decode_like_the_whole_stream() {
    // Three frames back to back.
    let mut stream: Vec<u8> = Vec::new();
    stream.extend(encode_client_user_name("ab"));
    stream.extend(encode_player_move(1));
    stream.extend(encode_end_game());

    let mut whole = FrameBuffer::new();
    whole.append(stream.as_slice());
    let mut expected: Vec<(u8, Vec<u8>)> = Vec::new();
    while let Some(f) = whole.pop_frame() {
        expected.push((f.msg_type, f.payload));
    }
    assert_eq!(expected.len(), 3);

    // Split the same stream at every byte boundary, draining after each
    // chunk, and expect the same frames.
    for cut in 0..=stream.len() {
        let mut buffer = FrameBuffer::new();
        let mut got: Vec<(u8, Vec<u8>)> = Vec::new();
        buffer.append(&stream[..cut]);
        while let Some(f) = buffer.pop_frame() {
            got.push((f.msg_type, f.payload));
        }
        buffer.append(&stream[cut..]);
        while let Some(f) = buffer.pop_frame() {
            got.push((f.msg_type, f.payload));
        }
        assert_eq!(got, expected);
        assert_eq!(buffer.len(), 0);
    }
}

#[test]
fn byte_at_a_time_decoding() {
    let mut stream: Vec<u8> = Vec::new();
    stream.extend(encode_welcome(4));
    stream.extend(encode_server_user_name("bob"));
    let mut buffer = FrameBuffer::new();
    let mut got: Vec<(u8, Vec<u8>)> = Vec::new();
    for b in stream {
        buffer.append(&[b]);
        while let Some(f) = buffer.pop_frame() {
            got.push((f.msg_type, f.payload));
        }
    }
    assert_eq!(
        got,
        vec![(8u8, vec![4u8]), (9u8, vec![b'b', b'o', b'b'])]
    );
}

#[test]
fn bytes_to_string_accepts_only_utf8() {
    assert_eq!(bytes_to_string(b"alice"), Some("alice".to_string()));
    assert_eq!(bytes_to_string(&[]), Some(String::new()));
    assert_eq!(bytes_to_string(&[0xff, 0xfe]), None);
    assert_eq!(bytes_to_string(&[0xc3, 0xa9]), Some("\u{e9}".to_string()));
}
