//! Wire-frame codec.
//!
//! A frame is `[type: 1 byte][length: 1 byte][payload: length bytes]`.
//! Frames may be concatenated in one delivered chunk, and a chunk may end
//! mid-frame, so decoding is incremental: bytes are appended to a reassembly
//! buffer and complete frames are taken off its front.

use vstd::prelude::*;

verus! {

use vstd::utf8::encode_utf8;
use vstd::utf8::valid_utf8;

/// The typed message catalog: one variant per known type byte.
#[derive(Clone, Copy, PartialEq, Eq, Structural, Debug)]
pub enum Message {
    // Client messages
    ClientUserName,
    PlayerMove,
    RestartGame,
    EndGame,
    // Server messages
    OpponentDisconnect,
    GameData,
    AddPlayer,
    MovePlayer,
    SetActivePlayer,
    Welcome,
    ServerUserName,
}

/// The wire type byte of each message.
pub open spec fn spec_code(m: Message) -> u8 {
    match m {
        Message::ClientUserName => 0,
        Message::PlayerMove => 1,
        Message::RestartGame => 2,
        Message::EndGame => 3,
        Message::GameData => 4,
        Message::AddPlayer => 5,
        Message::MovePlayer => 6,
        Message::SetActivePlayer => 7,
        Message::Welcome => 8,
        Message::ServerUserName => 9,
        Message::OpponentDisconnect => 128,
    }
}

/// The message a wire type byte stands for, if any.
pub open spec fn spec_from_u8(value: u8) -> Option<Message> {
    match value {
        0u8 => Some(Message::ClientUserName),
        1u8 => Some(Message::PlayerMove),
        2u8 => Some(Message::RestartGame),
        3u8 => Some(Message::EndGame),
        4u8 => Some(Message::GameData),
        5u8 => Some(Message::AddPlayer),
        6u8 => Some(Message::MovePlayer),
        7u8 => Some(Message::SetActivePlayer),
        8u8 => Some(Message::Welcome),
        9u8 => Some(Message::ServerUserName),
        128u8 => Some(Message::OpponentDisconnect),
        _ => None,
    }
}

impl Message {
    /// Decode a wire type byte to its message, or `None` for an unknown byte.
    pub fn from_u8(value: u8) -> (r: Option<Message>)
        ensures
            r == spec_from_u8(value),
    {
        match value {
            0u8 => Some(Message::ClientUserName),
            1u8 => Some(Message::PlayerMove),
            2u8 => Some(Message::RestartGame),
            3u8 => Some(Message::EndGame),
            4u8 => Some(Message::GameData),
            5u8 => Some(Message::AddPlayer),
            6u8 => Some(Message::MovePlayer),
            7u8 => Some(Message::SetActivePlayer),
            8u8 => Some(Message::Welcome),
            9u8 => Some(Message::ServerUserName),
            128u8 => Some(Message::OpponentDisconnect),
            _ => None,
        }
    }

    /// The wire type byte of this message.
    pub fn to_u8(&self) -> (r: u8)
        ensures
            r == spec_code(*self),
    {
        match *self {
            Message::ClientUserName => 0,
            Message::PlayerMove => 1,
            Message::RestartGame => 2,
            Message::EndGame => 3,
            Message::GameData => 4,
            Message::AddPlayer => 5,
            Message::MovePlayer => 6,
            Message::SetActivePlayer => 7,
            Message::Welcome => 8,
            Message::ServerUserName => 9,
            Message::OpponentDisconnect => 128,
        }
    }
}

/// The model of one frame: its type byte and its payload bytes.
#[verifier::ext_equal]
pub ghost struct FrameView {
    pub msg_type: u8,
    pub payload: Seq<u8>,
}

/// A frame's payload length must fit its one-byte length field.
pub open spec fn frame_wf(f: FrameView) -> bool {
    f.payload.len() <= 255
}

/// The bytes of one encoded frame: type, payload length, payload.
pub open spec fn encode_frame_spec(f: FrameView) -> Seq<u8> {
    seq![f.msg_type, f.payload.len() as u8] + f.payload
}

/// Whether the front of `bytes` holds one complete frame: the two header
/// bytes and as many payload bytes as the length field declares.
pub open spec fn has_complete_frame(bytes: Seq<u8>) -> bool {
    bytes.len() >= 2 && bytes.len() >= 2 + bytes[1]
}

/// The complete frame at the front of `bytes`.
pub open spec fn first_frame(bytes: Seq<u8>) -> FrameView
    recommends
        has_complete_frame(bytes),
{
    FrameView { msg_type: bytes[0], payload: bytes.subrange(2, 2 + bytes[1]) }
}

/// The bytes after the complete frame at the front of `bytes`.
pub open spec fn after_first_frame(bytes: Seq<u8>) -> Seq<u8>
    recommends
        has_complete_frame(bytes),
{
    bytes.skip(2 + bytes[1])
}

/// All complete frames at the front of `bytes`, in order.
pub open spec fn frames_of(bytes: Seq<u8>) -> Seq<FrameView>
    decreases bytes.len(),
{
    if has_complete_frame(bytes) {
        seq![first_frame(bytes)] + frames_of(after_first_frame(bytes))
    } else {
        Seq::empty()
    }
}

/// The bytes left after taking every complete frame off the front of
/// `bytes`: a partial frame, or nothing.
pub open spec fn frame_rest(bytes: Seq<u8>) -> Seq<u8>
    decreases bytes.len(),
{
    if has_complete_frame(bytes) {
        frame_rest(after_first_frame(bytes))
    } else {
        bytes
    }
}

/// What is left after draining holds no complete frame.
pub proof fn lemma_frame_rest_incomplete(bytes: Seq<u8>)
    ensures
        !has_complete_frame(frame_rest(bytes)),
    decreases bytes.len(),
{
    if has_complete_frame(bytes) {
        lemma_frame_rest_incomplete(after_first_frame(bytes));
    }
}

/// Law: re-encoding the one frame decoded from a single well-formed frame's
/// bytes gives back exactly those bytes, whatever the type byte and for
/// every payload length the length field can hold.
pub proof fn lemma_decode_encode(bytes: Seq<u8>)
    requires
        bytes.len() >= 2,
        bytes.len() == 2 + bytes[1],
    ensures
        encode_frame_spec(first_frame(bytes)) == bytes,
{
    assert(encode_frame_spec(first_frame(bytes)) =~= bytes);
}

/// Law: parsing an encoded frame followed by any further bytes yields that
/// frame and leaves exactly the further bytes.
pub proof fn lemma_encode_decode(f: FrameView, rest: Seq<u8>)
    requires
        frame_wf(f),
    ensures
        has_complete_frame(encode_frame_spec(f) + rest),
        first_frame(encode_frame_spec(f) + rest) == f,
        after_first_frame(encode_frame_spec(f) + rest) == rest,
{
    let b = encode_frame_spec(f) + rest;
    assert(first_frame(b).payload =~= f.payload);
    assert(first_frame(b) =~= f);
    assert(after_first_frame(b) =~= rest);
}

/// Law: framing is incremental.  Appending further bytes to a buffer first
/// yields the frames that were already complete, and then parses on as if
/// the drained remainder and the new bytes had arrived together.
pub proof fn lemma_frames_incremental(s: Seq<u8>, t: Seq<u8>)
    ensures
        frames_of(s + t) == frames_of(s) + frames_of(frame_rest(s) + t),
        frame_rest(s + t) == frame_rest(frame_rest(s) + t),
    decreases s.len(),
{
    if has_complete_frame(s) {
        let b = s + t;
        assert(has_complete_frame(b));
        assert(first_frame(b).payload =~= first_frame(s).payload);
        assert(first_frame(b) =~= first_frame(s));
        assert(after_first_frame(b) =~= after_first_frame(s) + t);
        lemma_frames_incremental(after_first_frame(s), t);
        assert(frames_of(s + t) =~= frames_of(s) + frames_of(frame_rest(s) + t));
    } else {
        assert(frame_rest(s) == s);
        assert(frames_of(s).len() == 0);
        assert(frames_of(s + t) =~= frames_of(s) + frames_of(frame_rest(s) + t));
    }
}

/// The concatenation of a sequence of byte chunks.
pub open spec fn chunks_concat(chunks: Seq<Seq<u8>>) -> Seq<u8>
    decreases chunks.len(),
{
    if chunks.len() == 0 {
        Seq::empty()
    } else {
        chunks[0] + chunks_concat(chunks.skip(1))
    }
}

/// Feeding chunks one at a time into a reassembly buffer, draining all
/// complete frames after each chunk: the frames decoded, in order, and the
/// bytes left in the buffer.
pub open spec fn feed_chunks(buffer: Seq<u8>, chunks: Seq<Seq<u8>>) -> (Seq<FrameView>, Seq<u8>)
    decreases chunks.len(),
{
    if chunks.len() == 0 {
        (Seq::empty(), buffer)
    } else {
        let grown = buffer + chunks[0];
        let rec = feed_chunks(frame_rest(grown), chunks.skip(1));
        (frames_of(grown) + rec.0, rec.1)
    }
}

/// Law: a byte stream split at arbitrary chunk boundaries decodes to the
/// same frame sequence, with the same bytes left over, as the whole stream
/// fed at once.
pub proof fn lemma_feed_chunks_matches_whole(buffer: Seq<u8>, chunks: Seq<Seq<u8>>)
    requires
        !has_complete_frame(buffer),
    ensures
        feed_chunks(buffer, chunks).0 == frames_of(buffer + chunks_concat(chunks)),
        feed_chunks(buffer, chunks).1 == frame_rest(buffer + chunks_concat(chunks)),
    decreases chunks.len(),
{
    if chunks.len() == 0 {
        assert(buffer + chunks_concat(chunks) =~= buffer);
        assert(frames_of(buffer) =~= Seq::<FrameView>::empty());
    } else {
        let grown = buffer + chunks[0];
        lemma_frame_rest_incomplete(grown);
        lemma_feed_chunks_matches_whole(frame_rest(grown), chunks.skip(1));
        lemma_frames_incremental(grown, chunks_concat(chunks.skip(1)));
        assert(buffer + chunks_concat(chunks) =~= grown + chunks_concat(chunks.skip(1)));
    }
}

/// Append every byte of `src` to `dst`, in order.
fn push_bytes(dst: &mut Vec<u8>, src: &[u8])
    ensures
        final(dst)@ == old(dst)@ + src@,
{
    let mut i: usize = 0;
    while i < src.len()
        invariant
            i <= src@.len(),
            dst@ == old(dst)@ + src@.take(i as int),
        decreases src@.len() - i,
    {
        dst.push(src[i]);
        i += 1;
        proof {
            assert(dst@ =~= old(dst)@ + src@.take(i as int));
        }
    }
    proof {
        assert(dst@ =~= old(dst)@ + src@);
    }
}

/// One decoded frame: its type byte and its payload.
pub struct Frame {
    pub msg_type: u8,
    pub payload: Vec<u8>,
}

impl View for Frame {
    type V = FrameView;

    open spec fn view(&self) -> FrameView {
        FrameView { msg_type: self.msg_type, payload: self.payload@ }
    }
}

impl DeepView for Frame {
    type V = FrameView;

    open spec fn deep_view(&self) -> FrameView {
        self.view()
    }
}

/// Encode one frame: type byte, payload length byte, payload bytes.
pub fn encode_frame(msg_type: u8, payload: &[u8]) -> (r: Vec<u8>)
    requires
        payload@.len() <= 255,
    ensures
        r@ == encode_frame_spec(FrameView { msg_type, payload: payload@ }),
{
    let mut r: Vec<u8> = Vec::new();
    r.push(msg_type);
    r.push(payload.len() as u8);
    push_bytes(&mut r, payload);
    proof {
        assert(r@ =~= encode_frame_spec(FrameView { msg_type, payload: payload@ }));
    }
    r
}

/// The inbound byte accumulator of one connection: bytes are appended as
/// they arrive and complete frames are taken off the front.
pub struct FrameBuffer {
    data: Vec<u8>,
}

impl View for FrameBuffer {
    type V = Seq<u8>;

    closed spec fn view(&self) -> Seq<u8> {
        self.data@
    }
}

impl FrameBuffer {
    /// An empty reassembly buffer.
    pub fn new() -> (r: FrameBuffer)
        ensures
            r@ == Seq::<u8>::empty(),
    {
        let r = FrameBuffer { data: Vec::new() };
        proof {
            assert(r@ =~= Seq::<u8>::empty());
        }
        r
    }

    /// Append one delivered chunk.
    pub fn append(&mut self, bytes: &[u8])
        ensures
            final(self)@ == old(self)@ + bytes@,
    {
        push_bytes(&mut self.data, bytes);
    }

    /// Take the complete frame off the front of the buffer, if one is
    /// there; otherwise leave the buffer unchanged.
    pub fn pop_frame(&mut self) -> (r: Option<Frame>)
        ensures
            if has_complete_frame(old(self)@) {
                &&& r matches Some(f)
                &&& f@ == first_frame(old(self)@)
                &&& frame_wf(f@)
                &&& final(self)@ == after_first_frame(old(self)@)
            } else {
                &&& r is None
                &&& final(self)@ == old(self)@
            },
    {
        if self.data.len() < 2 {
            return None;
        }
        let plen = self.data[1] as usize;
        if self.data.len() < 2 + plen {
            return None;
        }
        let msg_type = self.data[0];
        let mut payload: Vec<u8> = Vec::new();
        let mut i: usize = 0;
        while i < plen
            invariant
                i <= plen,
                plen <= 255,
                2 + plen <= self.data@.len(),
                payload@ == self.data@.subrange(2, 2 + i as int),
                self == old(self),
            decreases plen - i,
        {
            payload.push(self.data[2 + i]);
            i += 1;
            proof {
                assert(payload@ =~= self.data@.subrange(2, 2 + i as int));
            }
        }
        let rest = self.data.split_off(2 + plen);
        self.data = rest;
        let f = Frame { msg_type, payload };
        proof {
            assert(f@ =~= first_frame(old(self)@));
            assert(self@ =~= after_first_frame(old(self)@));
        }
        Some(f)
    }

    /// How many bytes are buffered.
    pub fn len(&self) -> (r: usize)
        ensures
            r == self@.len(),
    {
        self.data.len()
    }
}

/// Decoding a known type byte gives back the message whose code it is.
pub proof fn lemma_code_round_trip(m: Message)
    ensures
        spec_from_u8(spec_code(m)) == Some(m),
{
}

/// Every byte decodes to at most one message, and the code of that message
/// is the byte itself.
pub proof fn lemma_from_u8_inverse(value: u8)
    ensures
        spec_from_u8(value) matches Some(m) ==> spec_code(m) == value,
{
}

/// Decode payload bytes to a display name.
///
/// Relies on `std::str::from_utf8`: it succeeds exactly on valid UTF-8,
/// and the resulting string slice borrows the very bytes it was given, so
/// the returned owned string re-encodes to them.
#[verifier::external_body]
pub fn bytes_to_string(bytes: &[u8]) -> (r: Option<String>)
    ensures
        r is Some <==> valid_utf8(bytes@),
        r matches Some(s) ==> encode_utf8(s@) == bytes@,
{
    match std::str::from_utf8(bytes) {
        Ok(s) => Some(s.to_string()),
        Err(_) => None,
    }
}

/// The bytes of a `Welcome` frame carrying the assigned identifier.
pub open spec fn welcome_frame(id: u8) -> Seq<u8> {
    encode_frame_spec(FrameView { msg_type: spec_code(Message::Welcome), payload: seq![id] })
}

/// The bytes of a `GameData` frame carrying the configuration triple.
pub open spec fn game_config_frame(max_players: u8, max_move: u8, board_size: u8) -> Seq<u8> {
    encode_frame_spec(
        FrameView {
            msg_type: spec_code(Message::GameData),
            payload: seq![max_players, max_move, board_size],
        },
    )
}

/// The bytes of an `AddPlayer` frame carrying an identifier and a name.
pub open spec fn add_player_frame(id: u8, name: Seq<char>) -> Seq<u8> {
    encode_frame_spec(
        FrameView { msg_type: spec_code(Message::AddPlayer), payload: seq![id] + encode_utf8(name) },
    )
}

/// The bytes of a `MovePlayer` frame carrying an identifier and a move size.
pub open spec fn move_player_frame(id: u8, size: u8) -> Seq<u8> {
    encode_frame_spec(
        FrameView { msg_type: spec_code(Message::MovePlayer), payload: seq![id, size] },
    )
}

/// The bytes of a `SetActivePlayer` frame carrying an identifier.
pub open spec fn set_active_player_frame(id: u8) -> Seq<u8> {
    encode_frame_spec(
        FrameView { msg_type: spec_code(Message::SetActivePlayer), payload: seq![id] },
    )
}

/// The bytes of an `OpponentDisconnect` frame.
pub open spec fn opponent_disconnect_frame() -> Seq<u8> {
    encode_frame_spec(
        FrameView { msg_type: spec_code(Message::OpponentDisconnect), payload: Seq::empty() },
    )
}

/// The bytes of a `ServerUserName` frame echoing an accepted name.
pub open spec fn server_user_name_frame(name: Seq<char>) -> Seq<u8> {
    encode_frame_spec(
        FrameView { msg_type: spec_code(Message::ServerUserName), payload: encode_utf8(name) },
    )
}

/// The bytes of a `ClientUserName` frame carrying a requested name.
pub open spec fn client_user_name_frame(name: Seq<char>) -> Seq<u8> {
    encode_frame_spec(
        FrameView { msg_type: spec_code(Message::ClientUserName), payload: encode_utf8(name) },
    )
}

/// The bytes of a `PlayerMove` frame carrying a move size.
pub open spec fn player_move_frame(size: u8) -> Seq<u8> {
    encode_frame_spec(FrameView { msg_type: spec_code(Message::PlayerMove), payload: seq![size] })
}

/// The bytes of a `RestartGame` frame.
pub open spec fn restart_game_frame() -> Seq<u8> {
    encode_frame_spec(FrameView { msg_type: spec_code(Message::RestartGame), payload: Seq::empty() })
}

/// The bytes of an `EndGame` frame.
pub open spec fn end_game_frame() -> Seq<u8> {
    encode_frame_spec(FrameView { msg_type: spec_code(Message::EndGame), payload: Seq::empty() })
}

/// Encode a frame whose payload is the given bytes.
fn encode_with_payload(msg_type: u8, payload: Vec<u8>) -> (r: Vec<u8>)
    requires
        payload@.len() <= 255,
    ensures
        r@ == encode_frame_spec(FrameView { msg_type, payload: payload@ }),
{
    encode_frame(msg_type, payload.as_slice())
}

/// Encode a `Welcome` frame.
pub fn encode_welcome(id: u8) -> (r: Vec<u8>)
    ensures
        r@ == welcome_frame(id),
{
    let mut payload: Vec<u8> = Vec::new();
    payload.push(id);
    proof {
        assert(payload@ =~= seq![id]);
    }
    encode_with_payload(Message::Welcome.to_u8(), payload)
}

/// Encode a `GameData` frame.
pub fn encode_game_config(max_players: u8, max_move: u8, board_size: u8) -> (r: Vec<u8>)
    ensures
        r@ == game_config_frame(max_players, max_move, board_size),
{
    let mut payload: Vec<u8> = Vec::new();
    payload.push(max_players);
    payload.push(max_move);
    payload.push(board_size);
    proof {
        assert(payload@ =~= seq![max_players, max_move, board_size]);
    }
    encode_with_payload(Message::GameData.to_u8(), payload)
}

/// Encode an `AddPlayer` frame.  The identifier byte and the name must
/// together fit the one-byte payload length.
pub fn encode_add_player(id: u8, name: &str) -> (r: Vec<u8>)
    requires
        encode_utf8(name@).len() <= 254,
    ensures
        r@ == add_player_frame(id, name@),
{
    let mut payload: Vec<u8> = Vec::new();
    payload.push(id);
    push_bytes(&mut payload, name.as_bytes());
    proof {
        assert(payload@ =~= seq![id] + encode_utf8(name@));
    }
    encode_with_payload(Message::AddPlayer.to_u8(), payload)
}

/// Encode a `MovePlayer` frame.
pub fn encode_move_player(id: u8, size: u8) -> (r: Vec<u8>)
    ensures
        r@ == move_player_frame(id, size),
{
    let mut payload: Vec<u8> = Vec::new();
    payload.push(id);
    payload.push(size);
    proof {
        assert(payload@ =~= seq![id, size]);
    }
    encode_with_payload(Message::MovePlayer.to_u8(), payload)
}

/// Encode a `SetActivePlayer` frame.
pub fn encode_set_active_player(id: u8) -> (r: Vec<u8>)
    ensures
        r@ == set_active_player_frame(id),
{
    let mut payload: Vec<u8> = Vec::new();
    payload.push(id);
    proof {
        assert(payload@ =~= seq![id]);
    }
    encode_with_payload(Message::SetActivePlayer.to_u8(), payload)
}

/// Encode an `OpponentDisconnect` frame.
pub fn encode_opponent_disconnect() -> (r: Vec<u8>)
    ensures
        r@ == opponent_disconnect_frame(),
{
    let payload: Vec<u8> = Vec::new();
    proof {
        assert(payload@ =~= Seq::<u8>::empty());
    }
    encode_with_payload(Message::OpponentDisconnect.to_u8(), payload)
}

/// Encode a `ServerUserName` frame.
pub fn encode_server_user_name(name: &str) -> (r: Vec<u8>)
    requires
        encode_utf8(name@).len() <= 255,
    ensures
        r@ == server_user_name_frame(name@),
{
    let mut payload: Vec<u8> = Vec::new();
    push_bytes(&mut payload, name.as_bytes());
    proof {
        assert(payload@ =~= encode_utf8(name@));
    }
    encode_with_payload(Message::ServerUserName.to_u8(), payload)
}

/// Encode a `ClientUserName` frame.
pub fn encode_client_user_name(name: &str) -> (r: Vec<u8>)
    requires
        encode_utf8(name@).len() <= 255,
    ensures
        r@ == client_user_name_frame(name@),
{
    let mut payload: Vec<u8> = Vec::new();
    push_bytes(&mut payload, name.as_bytes());
    proof {
        assert(payload@ =~= encode_utf8(name@));
    }
    encode_with_payload(Message::ClientUserName.to_u8(), payload)
}

/// Encode a `PlayerMove` frame.
pub fn encode_player_move(size: u8) -> (r: Vec<u8>)
    ensures
        r@ == player_move_frame(size),
{
    let mut payload: Vec<u8> = Vec::new();
    payload.push(size);
    proof {
        assert(payload@ =~= seq![size]);
    }
    encode_with_payload(Message::PlayerMove.to_u8(), payload)
}

/// Encode a `RestartGame` frame.
pub fn encode_restart_game() -> (r: Vec<u8>)
    ensures
        r@ == restart_game_frame(),
{
    let payload: Vec<u8> = Vec::new();
    proof {
        assert(payload@ =~= Seq::<u8>::empty());
    }
    encode_with_payload(Message::RestartGame.to_u8(), payload)
}

/// Encode an `EndGame` frame.
pub fn encode_end_game() -> (r: Vec<u8>)
    ensures
        r@ == end_game_frame(),
{
    let payload: Vec<u8> = Vec::new();
    proof {
        assert(payload@ =~= Seq::<u8>::empty());
    }
    encode_with_payload(Message::EndGame.to_u8(), payload)
}

} // verus!
