//! Server-side coordination: the session table, the game registry, the
//! outbound message queue, the frame dispatcher, the orphan sweep, and the
//! matchmaker.
//!
//! The surrounding event loop owns the sockets and the encrypted transport;
//! it hands this state machine plain values only: an accepted connection
//! becomes a session identifier, delivered plaintext bytes go to
//! [`ServerState::on_plaintext`], a closed connection to
//! [`ServerState::disconnect`], and the queued outbound frames come back
//! from [`ServerState::take_outbox`] for delivery, each exactly once, in
//! enqueue order.

use vstd::prelude::*;

use crate::codec;
use crate::game::GameData;
use crate::session::Session;
use crate::session::SessionPhase;
use crate::session::SessionView;

verus! {

use vstd::utf8::decode_utf8;
use vstd::utf8::encode_utf8;
use vstd::utf8::valid_utf8;
use crate::codec::FrameView;
use crate::codec::add_player_frame;
use crate::codec::after_first_frame;
use crate::codec::first_frame;
use crate::codec::frame_rest;
use crate::codec::frames_of;
use crate::codec::game_config_frame;
use crate::codec::has_complete_frame;
use crate::codec::move_player_frame;
use crate::codec::opponent_disconnect_frame;
use crate::codec::server_user_name_frame;
use crate::codec::set_active_player_frame;
use crate::codec::welcome_frame;
use crate::game::GamePhase;
use crate::game::GameView;
use crate::game::game_wf;
use crate::game::init_game;
use crate::game::step_add_player;
use crate::game::step_move_player;
use crate::session::session_wf;

/// One queued outbound frame: the destination session identifier and the
/// frame bytes.
pub struct OutMessage {
    pub dest: usize,
    pub bytes: Vec<u8>,
}

impl View for OutMessage {
    type V = (usize, Seq<u8>);

    open spec fn view(&self) -> (usize, Seq<u8>) {
        (self.dest, self.bytes@)
    }
}

impl DeepView for OutMessage {
    type V = (usize, Seq<u8>);

    open spec fn deep_view(&self) -> (usize, Seq<u8>) {
        self.view()
    }
}

/// The model of the whole coordination state: the session table (a slot per
/// identifier), the game registry, and the outbound queue.
#[verifier::ext_equal]
pub ghost struct ServerView {
    pub sessions: Seq<Option<SessionView>>,
    pub games: Seq<GameView>,
    pub outbox: Seq<(usize, Seq<u8>)>,
}

/// The most connections the table accepts; identifiers must fit the wire
/// protocol's one-byte identifier fields.
pub open spec fn max_sessions() -> int {
    256
}

/// Whether `name` is already held by some named session.
pub open spec fn name_taken(v: ServerView, name: Seq<char>) -> bool {
    exists|j: int|
        {
            &&& 0 <= j < v.sessions.len()
            &&& (#[trigger] v.sessions[j]) is Some
            &&& v.sessions[j].unwrap().phase != SessionPhase::Connected
            &&& v.sessions[j].unwrap().name == name
        }
}

/// Well-formedness: a bounded table, well-formed games and sessions, and
/// no two named sessions sharing a name.
pub open spec fn server_wf(v: ServerView) -> bool {
    &&& v.sessions.len() <= max_sessions()
    &&& (forall|k: int| 0 <= k < v.games.len() ==> game_wf(#[trigger] v.games[k]))
    &&& (forall|i: int|
        0 <= i < v.sessions.len() && (#[trigger] v.sessions[i]) is Some ==> session_wf(
            v.sessions[i].unwrap(),
        ))
    &&& (forall|i: int, j: int|
        (0 <= i < j < v.sessions.len() && (#[trigger] v.sessions[i]) is Some
            && (#[trigger] v.sessions[j]) is Some && v.sessions[i].unwrap().phase
            != SessionPhase::Connected && v.sessions[j].unwrap().phase
            != SessionPhase::Connected) ==> v.sessions[i].unwrap().name
            != v.sessions[j].unwrap().name)
}

/// The index of the first game `id` participates in, scanning the registry
/// in order.
pub open spec fn first_game_with(games: Seq<GameView>, id: usize) -> Option<int>
    decreases games.len(),
{
    if games.len() == 0 {
        None
    } else if games[0].ids.contains(id) {
        Some(0)
    } else {
        match first_game_with(games.skip(1), id) {
            None => None,
            Some(k) => Some(k + 1),
        }
    }
}

/// What `first_game_with` finds: the first index whose game holds `id`.
pub proof fn lemma_first_game_with_props(games: Seq<GameView>, id: usize)
    ensures
        match first_game_with(games, id) {
            None => forall|k: int|
                0 <= k < games.len() ==> !(#[trigger] games[k]).ids.contains(id),
            Some(k) => {
                &&& 0 <= k < games.len()
                &&& games[k].ids.contains(id)
                &&& forall|j: int| 0 <= j < k ==> !(#[trigger] games[j]).ids.contains(id)
            },
        },
    decreases games.len(),
{
    if games.len() > 0 && !games[0].ids.contains(id) {
        lemma_first_game_with_props(games.skip(1), id);
        assert forall|j: int| 0 <= j < games.skip(1).len() implies games.skip(1)[j] == games[j
            + 1] by {
            assert(games.skip(1)[j] == games[j + 1]);
        }
        match first_game_with(games.skip(1), id) {
            None => {
                assert forall|k: int|
                    0 <= k < games.len() implies !(#[trigger] games[k]).ids.contains(id) by {
                    if k > 0 {
                        assert(!games.skip(1)[k - 1].ids.contains(id));
                    }
                }
            },
            Some(k) => {
                assert(games[k + 1].ids.contains(id));
                assert forall|j: int| 0 <= j < k + 1 implies !(#[trigger] games[j]).ids.contains(
                    id,
                ) by {
                    if j > 0 {
                        assert(!games.skip(1)[j - 1].ids.contains(id));
                    }
                }
            },
        }
    }
}

/// The registry without every game `id` participates in, order kept.
pub open spec fn games_without(games: Seq<GameView>, id: usize) -> Seq<GameView>
    decreases games.len(),
{
    if games.len() == 0 {
        Seq::empty()
    } else if games[0].ids.contains(id) {
        games_without(games.skip(1), id)
    } else {
        seq![games[0]] + games_without(games.skip(1), id)
    }
}

/// Removing games keeps well-formedness of everything kept.
pub proof fn lemma_games_without_wf(games: Seq<GameView>, id: usize)
    requires
        forall|k: int| 0 <= k < games.len() ==> game_wf(#[trigger] games[k]),
    ensures
        forall|k: int|
            0 <= k < games_without(games, id).len() ==> game_wf(
                #[trigger] games_without(games, id)[k],
            ),
    decreases games.len(),
{
    if games.len() > 0 {
        assert forall|j: int| 0 <= j < games.skip(1).len() implies game_wf(
            #[trigger] games.skip(1)[j],
        ) by {
            assert(games.skip(1)[j] == games[j + 1]);
        }
        lemma_games_without_wf(games.skip(1), id);
        if !games[0].ids.contains(id) {
            let r = seq![games[0]] + games_without(games.skip(1), id);
            assert forall|k: int| 0 <= k < r.len() implies game_wf(#[trigger] r[k]) by {
                if k > 0 {
                    assert(r[k] == games_without(games.skip(1), id)[k - 1]);
                }
            }
        }
    }
}

/// The model of a just-accepted session: unnamed, unmatched, no bytes
/// buffered.
pub open spec fn fresh_session() -> SessionView {
    SessionView {
        name: Seq::empty(),
        phase: SessionPhase::Connected,
        buffer: Seq::empty(),
    }
}

/// The lowest vacant slot at or after `start`.
pub open spec fn first_free_slot(sessions: Seq<Option<SessionView>>, start: int) -> Option<int>
    decreases sessions.len() - start,
{
    if start < 0 || start >= sessions.len() {
        None
    } else if sessions[start] is None {
        Some(start)
    } else {
        first_free_slot(sessions, start + 1)
    }
}

/// What `first_free_slot` finds: the first vacant slot at or after `start`.
pub proof fn lemma_first_free_slot_props(sessions: Seq<Option<SessionView>>, start: int)
    requires
        0 <= start,
    ensures
        match first_free_slot(sessions, start) {
            None => forall|k: int| start <= k < sessions.len() ==> (#[trigger] sessions[k]) is Some,
            Some(i) => {
                &&& start <= i < sessions.len()
                &&& sessions[i] is None
                &&& forall|k: int| start <= k < i ==> (#[trigger] sessions[k]) is Some
            },
        },
    decreases sessions.len() - start,
{
    if start < sessions.len() && !(sessions[start] is None) {
        lemma_first_free_slot_props(sessions, start + 1);
    }
}

/// The identifier a new connection would get: the lowest vacant slot, or a
/// new slot at the end while the table is not full.
pub open spec fn accept_slot(v: ServerView) -> Option<int> {
    match first_free_slot(v.sessions, 0) {
        Some(i) => Some(i),
        None => if v.sessions.len() < max_sessions() {
            Some(v.sessions.len() as int)
        } else {
            None
        },
    }
}

/// The state after tearing down session `id`: if the session was in a game
/// and its partner still points into one, the partner is told its opponent
/// is gone and goes back to waiting; the session's slot is vacated and
/// every game it was in leaves the registry.
pub open spec fn disconnect_spec(v: ServerView, id: usize) -> ServerView {
    let s = v.sessions[id as int].unwrap();
    let notify = match s.phase {
        SessionPhase::InGame(p) => if p != id && p < v.sessions.len() && v.sessions[p as int]
            is Some && v.sessions[p as int].unwrap().phase is InGame {
            Some(p)
        } else {
            None
        },
        _ => None,
    };
    match notify {
        Some(p) => ServerView {
            sessions: v.sessions.update(
                p as int,
                Some(
                    SessionView {
                        phase: SessionPhase::WaitingForOpponent,
                        ..v.sessions[p as int].unwrap()
                    },
                ),
            ).update(id as int, None),
            games: games_without(v.games, id),
            outbox: v.outbox.push((p, opponent_disconnect_frame())),
        },
        None => ServerView {
            sessions: v.sessions.update(id as int, None),
            games: games_without(v.games, id),
            outbox: v.outbox,
        },
    }
}

/// The effect of a `SetName` frame from session `id`: accepted only while
/// the session is unnamed, the payload decodes as UTF-8, it fits beside an
/// identifier byte in one payload, and no named session holds the name
/// already; then the session is named, waits for an opponent, and the
/// accepted name is echoed back.  Otherwise the frame is dropped.
pub open spec fn handle_set_name_spec(v: ServerView, id: usize, payload: Seq<u8>) -> ServerView {
    let s = v.sessions[id as int].unwrap();
    if s.phase != SessionPhase::Connected {
        v
    } else if !valid_utf8(payload) || payload.len() > 254 {
        v
    } else {
        let name = decode_utf8(payload);
        if name_taken(v, name) {
            v
        } else {
            ServerView {
                sessions: v.sessions.update(
                    id as int,
                    Some(
                        SessionView {
                            name,
                            phase: SessionPhase::WaitingForOpponent,
                            buffer: s.buffer,
                        },
                    ),
                ),
                outbox: v.outbox.push((id, server_user_name_frame(name))),
                ..v
            }
        }
    }
}

/// The effect of a `PlayerMove` frame from session `id`: only while in a
/// game and the one-byte move size is present; the move is applied to the
/// first game holding `id` (the engine itself rejects an illegal move with
/// no state change), and a `MovePlayer` frame goes to the partner and back
/// to the mover.  Otherwise the frame is dropped.
pub open spec fn handle_player_move_spec(v: ServerView, id: usize, payload: Seq<u8>) -> ServerView {
    let s = v.sessions[id as int].unwrap();
    match s.phase {
        SessionPhase::InGame(partner) => {
            if payload.len() < 1 {
                v
            } else {
                match first_game_with(v.games, id) {
                    None => v,
                    Some(k) => {
                        let size = payload[0];
                        let g = v.games[k];
                        let moved = step_move_player(g, g.ids.index_of_first(id).unwrap(), size);
                        ServerView {
                            games: v.games.update(k, moved),
                            outbox: v.outbox + seq![
                                (partner, move_player_frame(id as u8, size)),
                                (id, move_player_frame(id as u8, size)),
                            ],
                            ..v
                        }
                    },
                }
            }
        },
        _ => v,
    }
}

/// The effect of a `RestartGame` frame from session `id`: only while in a
/// game whose first match holding `id` is over; the vote is recorded as a
/// rematch join and an `AddPlayer` frame carrying the voter's identifier
/// goes to the partner and back to the voter.  Otherwise the frame is
/// dropped.
pub open spec fn handle_restart_spec(v: ServerView, id: usize) -> ServerView {
    let s = v.sessions[id as int].unwrap();
    match s.phase {
        SessionPhase::InGame(partner) => {
            match first_game_with(v.games, id) {
                None => v,
                Some(k) => {
                    if v.games[k].phase == GamePhase::GameOver {
                        ServerView {
                            games: v.games.update(
                                k,
                                step_add_player(v.games[k], id, Seq::empty()),
                            ),
                            outbox: v.outbox + seq![
                                (partner, add_player_frame(id as u8, Seq::empty())),
                                (id, add_player_frame(id as u8, Seq::empty())),
                            ],
                            ..v
                        }
                    } else {
                        v
                    }
                },
            }
        },
        _ => v,
    }
}

/// The effect of an `EndGame` frame from session `id`: only while in a
/// game.  If the first game holding `id` is over, both sides are told the
/// match ended and the sender goes back to waiting; either way every game
/// holding `id` leaves the registry.
pub open spec fn handle_end_game_spec(v: ServerView, id: usize) -> ServerView {
    let s = v.sessions[id as int].unwrap();
    match s.phase {
        SessionPhase::InGame(partner) => {
            match first_game_with(v.games, id) {
                None => v,
                Some(k) => {
                    if v.games[k].phase == GamePhase::GameOver {
                        ServerView {
                            sessions: v.sessions.update(
                                id as int,
                                Some(SessionView { phase: SessionPhase::WaitingForOpponent, ..s }),
                            ),
                            games: games_without(v.games, id),
                            outbox: v.outbox + seq![
                                (partner, opponent_disconnect_frame()),
                                (id, opponent_disconnect_frame()),
                            ],
                        }
                    } else {
                        ServerView { games: games_without(v.games, id), ..v }
                    }
                },
            }
        },
        _ => v,
    }
}

/// The effect of one decoded frame from session `id`, dispatched on its
/// type byte.  A frame with an unknown type byte is consumed and ignored.
pub open spec fn handle_frame_spec(v: ServerView, id: usize, f: FrameView) -> ServerView {
    if f.msg_type == codec::spec_code(codec::Message::ClientUserName) {
        handle_set_name_spec(v, id, f.payload)
    } else if f.msg_type == codec::spec_code(codec::Message::PlayerMove) {
        handle_player_move_spec(v, id, f.payload)
    } else if f.msg_type == codec::spec_code(codec::Message::RestartGame) {
        handle_restart_spec(v, id)
    } else if f.msg_type == codec::spec_code(codec::Message::EndGame) {
        handle_end_game_spec(v, id)
    } else {
        v
    }
}

/// The state after handling a sequence of decoded frames from session
/// `id`, in order.
pub open spec fn apply_frames(v: ServerView, id: usize, frames: Seq<FrameView>) -> ServerView
    decreases frames.len(),
{
    if frames.len() == 0 {
        v
    } else {
        apply_frames(handle_frame_spec(v, id, frames[0]), id, frames.skip(1))
    }
}

/// Handling one more frame continues from the state the earlier frames
/// reached.
pub proof fn lemma_apply_frames_push(
    v: ServerView,
    id: usize,
    frames: Seq<FrameView>,
    f: FrameView,
)
    ensures
        apply_frames(v, id, frames.push(f)) == handle_frame_spec(
            apply_frames(v, id, frames),
            id,
            f,
        ),
    decreases frames.len(),
{
    if frames.len() == 0 {
        assert(frames.push(f)[0] == f);
        assert(frames.push(f).skip(1) =~= Seq::<FrameView>::empty());
        assert(apply_frames(v, id, frames.push(f)) == apply_frames(
            handle_frame_spec(v, id, f),
            id,
            Seq::<FrameView>::empty(),
        ));
        assert(apply_frames(handle_frame_spec(v, id, f), id, Seq::<FrameView>::empty())
            == handle_frame_spec(v, id, f));
        assert(apply_frames(v, id, frames) == v);
    } else {
        assert(frames.push(f)[0] == frames[0]);
        assert(frames.push(f).skip(1) =~= frames.skip(1).push(f));
        lemma_apply_frames_push(handle_frame_spec(v, id, frames[0]), id, frames.skip(1), f);
    }
}

/// The state with session `id`'s reassembly buffer replaced.
pub open spec fn with_buffer(v: ServerView, id: usize, buffer: Seq<u8>) -> ServerView {
    ServerView {
        sessions: v.sessions.update(
            id as int,
            Some(SessionView { buffer, ..v.sessions[id as int].unwrap() }),
        ),
        ..v
    }
}

/// Replacing a buffer touches neither names nor phases, so it keeps the
/// state well-formed.
pub proof fn lemma_with_buffer_wf(v: ServerView, id: usize, buffer: Seq<u8>)
    requires
        server_wf(v),
        id < v.sessions.len(),
        v.sessions[id as int] is Some,
    ensures
        server_wf(with_buffer(v, id, buffer)),
{
    let w = with_buffer(v, id, buffer);
    assert forall|i: int|
        0 <= i < w.sessions.len() && (#[trigger] w.sessions[i]) is Some implies session_wf(
        w.sessions[i].unwrap(),
    ) by {
        assert(v.sessions[i] is Some);
        assert(session_wf(v.sessions[i].unwrap()));
    }
    assert forall|i: int, j: int|
        (0 <= i < j < w.sessions.len() && (#[trigger] w.sessions[i]) is Some
            && (#[trigger] w.sessions[j]) is Some && w.sessions[i].unwrap().phase
            != SessionPhase::Connected && w.sessions[j].unwrap().phase
            != SessionPhase::Connected) implies w.sessions[i].unwrap().name
        != w.sessions[j].unwrap().name by {
        assert(v.sessions[i] is Some);
        assert(v.sessions[j] is Some);
    }
}

/// What one sweep step leaves in slot `i`: an in-game session whose game
/// is gone goes back to waiting for an opponent; everything else stays.
pub open spec fn sweep_one(v: ServerView, i: int) -> Option<SessionView> {
    match v.sessions[i] {
        Some(s) => match s.phase {
            SessionPhase::InGame(p) => if first_game_with(v.games, i as usize) is None {
                Some(SessionView { phase: SessionPhase::WaitingForOpponent, ..s })
            } else {
                Some(s)
            },
            _ => Some(s),
        },
        None => None,
    }
}

/// Whether a slot holds a session waiting for an opponent.
pub open spec fn is_waiting(slot: Option<SessionView>) -> bool {
    slot is Some && slot.unwrap().phase == SessionPhase::WaitingForOpponent
}

/// The lowest slot at or after `start` holding a session that waits for an
/// opponent.
pub open spec fn first_waiting_after(sessions: Seq<Option<SessionView>>, start: int) -> Option<int>
    decreases sessions.len() - start,
{
    if start < 0 || start >= sessions.len() {
        None
    } else if is_waiting(sessions[start]) {
        Some(start)
    } else {
        first_waiting_after(sessions, start + 1)
    }
}

/// What `first_waiting_after` finds: the first waiting session at or after
/// `start`.
pub proof fn lemma_first_waiting_after_props(sessions: Seq<Option<SessionView>>, start: int)
    requires
        0 <= start,
    ensures
        match first_waiting_after(sessions, start) {
            None => forall|k: int| start <= k < sessions.len() ==> !is_waiting(#[trigger] sessions[k]),
            Some(i) => {
                &&& start <= i < sessions.len()
                &&& is_waiting(sessions[i])
                &&& forall|k: int| start <= k < i ==> !is_waiting(#[trigger] sessions[k])
            },
        },
    decreases sessions.len() - start,
{
    if start < sessions.len() && !is_waiting(sessions[start]) {
        lemma_first_waiting_after_props(sessions, start + 1);
    }
}

/// The two sessions the matchmaker would pair: the first two waiting
/// sessions, in slot order.
pub open spec fn waiting_pair(v: ServerView) -> Option<(int, int)> {
    match first_waiting_after(v.sessions, 0) {
        None => None,
        Some(i) => match first_waiting_after(v.sessions, i + 1) {
            None => None,
            Some(j) => Some((i, j)),
        },
    }
}

/// The coordination state.  `ServerView` is its model; every operation's
/// contract describes its effect on that model.
pub struct ServerState {
    sessions: Vec<Option<Session>>,
    games: Vec<GameData>,
    outbox: Vec<OutMessage>,
}

impl View for ServerState {
    type V = ServerView;

    closed spec fn view(&self) -> ServerView {
        ServerView {
            sessions: Seq::new(
                self.sessions@.len(),
                |i: int|
                    match self.sessions@[i] {
                        Some(s) => Some(s@),
                        None => None,
                    },
            ),
            games: Seq::new(self.games@.len(), |i: int| self.games@[i]@),
            outbox: Seq::new(self.outbox@.len(), |i: int| self.outbox@[i]@),
        }
    }
}

impl ServerState {
    /// Well-formedness of the whole state.
    pub open spec fn wf(&self) -> bool {
        server_wf(self@)
    }

    /// An empty coordination state: no sessions, no games, nothing queued.
    pub fn new() -> (r: ServerState)
        ensures
            r.wf(),
            r@ == (ServerView {
                sessions: Seq::<Option<SessionView>>::empty(),
                games: Seq::<GameView>::empty(),
                outbox: Seq::<(usize, Seq<u8>)>::empty(),
            }),
    {
        let r = ServerState { sessions: Vec::new(), games: Vec::new(), outbox: Vec::new() };
        proof {
            assert(r@ =~= ServerView {
                sessions: Seq::<Option<SessionView>>::empty(),
                games: Seq::<GameView>::empty(),
                outbox: Seq::<(usize, Seq<u8>)>::empty(),
            });
        }
        r
    }

    /// Whether `id` names a live session.
    pub fn has_session(&self, id: usize) -> (r: bool)
        ensures
            r == (id < self@.sessions.len() && self@.sessions[id as int] is Some),
    {
        id < self.sessions.len() && self.sessions[id].is_some()
    }

    /// The phase of session `id`.
    pub fn session_phase(&self, id: usize) -> (r: SessionPhase)
        requires
            id < self@.sessions.len(),
            self@.sessions[id as int] is Some,
        ensures
            r == self@.sessions[id as int].unwrap().phase,
    {
        match &self.sessions[id] {
            Some(s) => s.get_phase(),
            None => vstd::pervasive::unreached(),
        }
    }

    /// Queue one outbound frame.
    fn push_out(&mut self, dest: usize, bytes: Vec<u8>)
        ensures
            final(self)@ == (ServerView {
                outbox: old(self)@.outbox.push((dest, bytes@)),
                ..old(self)@
            }),
    {
        self.outbox.push(OutMessage { dest, bytes });
        proof {
            assert(self@ =~= ServerView {
                outbox: old(self)@.outbox.push((dest, bytes@)),
                ..old(self)@
            });
        }
    }

    /// Hand the queued outbound frames over for delivery, oldest first,
    /// leaving the queue empty.  Each queued frame is handed out exactly
    /// once.
    pub fn take_outbox(&mut self) -> (r: Vec<OutMessage>)
        ensures
            r.deep_view() == old(self)@.outbox,
            final(self)@ == (ServerView { outbox: Seq::empty(), ..old(self)@ }),
    {
        let mut taken: Vec<OutMessage> = Vec::new();
        core::mem::swap(&mut taken, &mut self.outbox);
        proof {
            assert(taken.deep_view() =~= old(self)@.outbox);
            assert(self@ =~= ServerView { outbox: Seq::empty(), ..old(self)@ });
        }
        taken
    }

    /// Register a just-accepted connection: put a fresh session in the
    /// lowest vacant slot (or a new one while the table is not full) and
    /// queue a `Welcome` frame carrying the assigned identifier.  A full
    /// table turns the connection away.
    pub fn accept(&mut self) -> (r: Option<usize>)
        requires
            old(self).wf(),
        ensures
            final(self).wf(),
            match accept_slot(old(self)@) {
                None => r is None && final(self)@ == old(self)@,
                Some(i) => {
                    &&& r == Some(i as usize)
                    &&& final(self)@.sessions == if i < old(self)@.sessions.len() {
                        old(self)@.sessions.update(i, Some(fresh_session()))
                    } else {
                        old(self)@.sessions.push(Some(fresh_session()))
                    }
                    &&& final(self)@.games == old(self)@.games
                    &&& final(self)@.outbox == old(self)@.outbox.push(
                        (i as usize, welcome_frame(i as u8)),
                    )
                },
            },
    {
        match self.find_free_slot() {
            Some(i) => {
                proof {
                    lemma_first_free_slot_props(self@.sessions, 0);
                }
                self.sessions[i] = Some(Session::new());
                let frame = codec::encode_welcome(i as u8);
                self.push_out(i, frame);
                proof {
                    assert(self@.sessions =~= old(self)@.sessions.update(
                        i as int,
                        Some(fresh_session()),
                    ));
                    assert(self@.games =~= old(self)@.games);
                }
                Some(i)
            },
            None => {
                if self.sessions.len() < 256 {
                    let id = self.sessions.len();
                    self.sessions.push(Some(Session::new()));
                    let frame = codec::encode_welcome(id as u8);
                    self.push_out(id, frame);
                    proof {
                        assert(self@.sessions =~= old(self)@.sessions.push(
                            Some(fresh_session()),
                        ));
                        assert(self@.games =~= old(self)@.games);
                    }
                    Some(id)
                } else {
                    None
                }
            },
        }
    }

    /// The lowest vacant slot of the session table, if any.
    fn find_free_slot(&self) -> (r: Option<usize>)
        ensures
            match first_free_slot(self@.sessions, 0) {
                None => r is None,
                Some(i) => r == Some(i as usize),
            },
    {
        let mut i: usize = 0;
        while i < self.sessions.len()
            invariant
                i <= self@.sessions.len(),
                forall|k: int| 0 <= k < i ==> (#[trigger] self@.sessions[k]) is Some,
            decreases self@.sessions.len() - i,
        {
            if self.sessions[i].is_none() {
                proof {
                    lemma_first_free_slot_props(self@.sessions, 0);
                    match first_free_slot(self@.sessions, 0) {
                        None => {
                            assert(self@.sessions[i as int] is Some);
                        },
                        Some(m) => {
                            if m < i {
                                assert(self@.sessions[m] is Some);
                            }
                            if m > i {
                                assert(self@.sessions[i as int] is Some);
                            }
                        },
                    }
                }
                return Some(i);
            }
            i += 1;
        }
        proof {
            lemma_first_free_slot_props(self@.sessions, 0);
            match first_free_slot(self@.sessions, 0) {
                None => {},
                Some(m) => {
                    assert(self@.sessions[m] is Some);
                },
            }
        }
        None
    }

    /// Tear down session `id`: notify and reset its in-game partner if it
    /// has one, vacate the slot, and drop its games from the registry.
    pub fn disconnect(&mut self, id: usize)
        requires
            old(self).wf(),
            id < old(self)@.sessions.len(),
            old(self)@.sessions[id as int] is Some,
        ensures
            final(self).wf(),
            final(self)@ == disconnect_spec(old(self)@, id),
    {
        let phase = self.session_phase(id);
        match phase {
            SessionPhase::InGame(p) => {
                if p != id && p < self.sessions.len() {
                    let partner_in_game = match &self.sessions[p] {
                        Some(ps) => match ps.get_phase() {
                            SessionPhase::InGame(_) => true,
                            _ => false,
                        },
                        None => false,
                    };
                    if partner_in_game {
                        let frame = codec::encode_opponent_disconnect();
                        self.push_out(p, frame);
                        match &mut self.sessions[p] {
                            Some(ps) => {
                                proof {
                                    assert(session_wf(old(self)@.sessions[p as int].unwrap()));
                                }
                                ps.on_partner_left();
                            },
                            None => {},
                        }
                        proof {
                            assert(self@.sessions =~= old(self)@.sessions.update(
                                p as int,
                                Some(
                                    SessionView {
                                        phase: SessionPhase::WaitingForOpponent,
                                        ..old(self)@.sessions[p as int].unwrap()
                                    },
                                ),
                            ));
                        }
                    }
                }
            },
            _ => {},
        }
        let ghost mid = self@;
        self.sessions[id] = None;
        proof {
            assert(self@.sessions =~= mid.sessions.update(id as int, None));
        }
        self.remove_games_with(id);
        proof {
            lemma_games_without_wf(old(self)@.games, id);
            assert(self@ =~= disconnect_spec(old(self)@, id));
        }
    }

    /// The first game `id` participates in, if any.
    pub fn get_game(&self, id: usize) -> (r: Option<&GameData>)
        ensures
            match first_game_with(self@.games, id) {
                None => r is None,
                Some(k) => r matches Some(g) && g@ == self@.games[k],
            },
    {
        match self.find_game(id) {
            Some(k) => {
                proof {
                    lemma_first_game_with_props(self@.games, id);
                }
                Some(&self.games[k])
            },
            None => None,
        }
    }

    /// Whether some named session already holds `name`.
    fn name_in_use(&self, name: &String) -> (r: bool)
        ensures
            r == name_taken(self@, name@),
    {
        let mut j: usize = 0;
        while j < self.sessions.len()
            invariant
                j <= self@.sessions.len(),
                forall|k: int|
                    0 <= k < j ==> !((#[trigger] self@.sessions[k]) is Some && self@.sessions[k].unwrap().phase
                        != SessionPhase::Connected && self@.sessions[k].unwrap().name == name@),
            decreases self@.sessions.len() - j,
        {
            match &self.sessions[j] {
                Some(s) => {
                    let named = match s.get_phase() {
                        SessionPhase::Connected => false,
                        _ => true,
                    };
                    if named && s.get_name().eq(name) {
                        proof {
                            assert(self@.sessions[j as int] is Some);
                            assert(self@.sessions[j as int].unwrap().phase
                                != SessionPhase::Connected);
                            assert(self@.sessions[j as int].unwrap().name == name@);
                        }
                        return true;
                    }
                },
                None => {},
            }
            j += 1;
        }
        false
    }

    /// The index of the first game `id` participates in, if any.
    fn find_game(&self, id: usize) -> (r: Option<usize>)
        ensures
            r is Some <==> first_game_with(self@.games, id) is Some,
            r matches Some(u) ==> first_game_with(self@.games, id) == Some(u as int),
    {
        let mut k: usize = 0;
        while k < self.games.len()
            invariant
                k <= self@.games.len(),
                forall|j: int| 0 <= j < k ==> !(#[trigger] self@.games[j]).ids.contains(id),
            decreases self@.games.len() - k,
        {
            if self.games[k].game_has_player(id) {
                proof {
                    lemma_first_game_with_props(self@.games, id);
                    match first_game_with(self@.games, id) {
                        None => {
                            assert(!self@.games[k as int].ids.contains(id));
                        },
                        Some(m) => {
                            if m < k {
                                assert(!self@.games[m].ids.contains(id));
                            }
                            if m > k {
                                assert(!self@.games[k as int].ids.contains(id));
                            }
                        },
                    }
                }
                return Some(k);
            }
            k += 1;
        }
        proof {
            lemma_first_game_with_props(self@.games, id);
        }
        None
    }

    /// Handle a `SetName` frame from session `id`.
    fn handle_set_name(&mut self, id: usize, payload: &[u8])
        requires
            old(self).wf(),
            id < old(self)@.sessions.len(),
            old(self)@.sessions[id as int] is Some,
        ensures
            final(self).wf(),
            final(self)@ == handle_set_name_spec(old(self)@, id, payload@),
    {
        let phase = self.session_phase(id);
        let connected = match phase {
            SessionPhase::Connected => true,
            _ => false,
        };
        if !connected {
            return ;
        }
        let name = match codec::bytes_to_string(payload) {
            Some(n) => n,
            None => {
                return ;
            },
        };
        if payload.len() > 254 {
            return ;
        }
        proof {
            vstd::utf8::encode_utf8_decode_utf8(name@);
            assert(name@ == decode_utf8(payload@));
        }
        if self.name_in_use(&name) {
            return ;
        }
        let ghost nm = name@;
        let frame = codec::encode_server_user_name(name.as_str());
        match &mut self.sessions[id] {
            Some(s) => {
                s.on_name_received(name);
            },
            None => {},
        }
        proof {
            assert(self@.sessions =~= old(self)@.sessions.update(
                id as int,
                Some(
                    SessionView {
                        name: nm,
                        phase: SessionPhase::WaitingForOpponent,
                        buffer: old(self)@.sessions[id as int].unwrap().buffer,
                    },
                ),
            ));
            assert(self@.games =~= old(self)@.games);
            assert(self@.outbox =~= old(self)@.outbox);
        }
        self.push_out(id, frame);
        proof {
            assert(self@ =~= handle_set_name_spec(old(self)@, id, payload@));
            let vnew = self@;
            let vold = old(self)@;
            assert forall|a: int, b: int|
                (0 <= a < b < vnew.sessions.len() && (#[trigger] vnew.sessions[a]) is Some
                    && (#[trigger] vnew.sessions[b]) is Some && vnew.sessions[a].unwrap().phase
                    != SessionPhase::Connected && vnew.sessions[b].unwrap().phase
                    != SessionPhase::Connected) implies vnew.sessions[a].unwrap().name
                != vnew.sessions[b].unwrap().name by {
                if a == id as int {
                    assert(vold.sessions[b] is Some);
                    if vnew.sessions[b].unwrap().name == nm {
                        assert(vold.sessions[b].unwrap().phase != SessionPhase::Connected);
                        assert(vold.sessions[b].unwrap().name == nm);
                        assert(name_taken(vold, nm));
                    }
                } else if b == id as int {
                    assert(vold.sessions[a] is Some);
                    if vnew.sessions[a].unwrap().name == nm {
                        assert(vold.sessions[a].unwrap().phase != SessionPhase::Connected);
                        assert(vold.sessions[a].unwrap().name == nm);
                        assert(name_taken(vold, nm));
                    }
                } else {
                    assert(vnew.sessions[a] == vold.sessions[a]);
                    assert(vnew.sessions[b] == vold.sessions[b]);
                }
            }
        }
    }

    /// Handle a `PlayerMove` frame from session `id`.
    fn handle_player_move(&mut self, id: usize, payload: &[u8])
        requires
            old(self).wf(),
            id < old(self)@.sessions.len(),
            old(self)@.sessions[id as int] is Some,
        ensures
            final(self).wf(),
            final(self)@ == handle_player_move_spec(old(self)@, id, payload@),
    {
        let phase = self.session_phase(id);
        let partner = match phase {
            SessionPhase::InGame(p) => p,
            _ => {
                return ;
            },
        };
        if payload.len() < 1 {
            return ;
        }
        let k = match self.find_game(id) {
            Some(k) => k,
            None => {
                return ;
            },
        };
        proof {
            lemma_first_game_with_props(self@.games, id);
            assert(game_wf(self@.games[k as int]));
            assert(self@.games[k as int].ids.contains(id));
        }
        let size = payload[0];
        self.games[k].move_player(id, size);
        proof {
            assert(self@.sessions =~= old(self)@.sessions);
            assert(self@.outbox =~= old(self)@.outbox);
            assert(self@.games =~= old(self)@.games.update(
                k as int,
                step_move_player(
                    old(self)@.games[k as int],
                    old(self)@.games[k as int].ids.index_of_first(id).unwrap(),
                    size,
                ),
            ));
        }
        let f1 = codec::encode_move_player(id as u8, size);
        self.push_out(partner, f1);
        let f2 = codec::encode_move_player(id as u8, size);
        self.push_out(id, f2);
        proof {
            assert(self@ =~= handle_player_move_spec(old(self)@, id, payload@));
        }
    }

    /// Handle a `RestartGame` frame from session `id`.
    fn handle_restart(&mut self, id: usize)
        requires
            old(self).wf(),
            id < old(self)@.sessions.len(),
            old(self)@.sessions[id as int] is Some,
        ensures
            final(self).wf(),
            final(self)@ == handle_restart_spec(old(self)@, id),
    {
        let phase = self.session_phase(id);
        let partner = match phase {
            SessionPhase::InGame(p) => p,
            _ => {
                return ;
            },
        };
        let k = match self.find_game(id) {
            Some(k) => k,
            None => {
                return ;
            },
        };
        proof {
            lemma_first_game_with_props(self@.games, id);
            assert(game_wf(self@.games[k as int]));
        }
        if !self.games[k].is_game_over() {
            return ;
        }
        proof {
            reveal_strlit("");
            assert(""@ =~= Seq::<char>::empty());
            assert(encode_utf8(Seq::<char>::empty()) =~= Seq::<u8>::empty());
        }
        self.games[k].add_player(id, "");
        proof {
            assert(self@.sessions =~= old(self)@.sessions);
            assert(self@.outbox =~= old(self)@.outbox);
            assert(self@.games =~= old(self)@.games.update(
                k as int,
                step_add_player(old(self)@.games[k as int], id, Seq::empty()),
            ));
        }
        let f1 = codec::encode_add_player(id as u8, "");
        self.push_out(partner, f1);
        let f2 = codec::encode_add_player(id as u8, "");
        self.push_out(id, f2);
        proof {
            assert(self@ =~= handle_restart_spec(old(self)@, id));
        }
    }

    /// Handle an `EndGame` frame from session `id`.
    fn handle_end_game(&mut self, id: usize)
        requires
            old(self).wf(),
            id < old(self)@.sessions.len(),
            old(self)@.sessions[id as int] is Some,
        ensures
            final(self).wf(),
            final(self)@ == handle_end_game_spec(old(self)@, id),
    {
        let phase = self.session_phase(id);
        let partner = match phase {
            SessionPhase::InGame(p) => p,
            _ => {
                return ;
            },
        };
        let k = match self.find_game(id) {
            Some(k) => k,
            None => {
                return ;
            },
        };
        proof {
            lemma_first_game_with_props(self@.games, id);
        }
        if self.games[k].is_game_over() {
            let f1 = codec::encode_opponent_disconnect();
            self.push_out(partner, f1);
            let f2 = codec::encode_opponent_disconnect();
            self.push_out(id, f2);
            match &mut self.sessions[id] {
                Some(s) => {
                    proof {
                        assert(session_wf(old(self)@.sessions[id as int].unwrap()));
                    }
                    s.on_partner_left();
                },
                None => {},
            }
            proof {
                assert(self@.sessions =~= old(self)@.sessions.update(
                    id as int,
                    Some(
                        SessionView {
                            phase: SessionPhase::WaitingForOpponent,
                            ..old(self)@.sessions[id as int].unwrap()
                        },
                    ),
                ));
                assert(self@.games =~= old(self)@.games);
            }
        }
        self.remove_games_with(id);
        proof {
            lemma_games_without_wf(old(self)@.games, id);
            assert(self@ =~= handle_end_game_spec(old(self)@, id));
        }
    }

    /// Handle one decoded frame from session `id`, dispatching on its type
    /// byte; an unknown type byte is consumed and ignored.
    pub fn handle_frame(&mut self, id: usize, frame: &codec::Frame)
        requires
            old(self).wf(),
            id < old(self)@.sessions.len(),
            old(self)@.sessions[id as int] is Some,
        ensures
            final(self).wf(),
            final(self)@ == handle_frame_spec(old(self)@, id, frame@),
    {
        if frame.msg_type == 0 {
            self.handle_set_name(id, frame.payload.as_slice());
        } else if frame.msg_type == 1 {
            self.handle_player_move(id, frame.payload.as_slice());
        } else if frame.msg_type == 2 {
            self.handle_restart(id);
        } else if frame.msg_type == 3 {
            self.handle_end_game(id);
        }
    }

    /// Deliver one chunk of decrypted plaintext from session `id`: the
    /// bytes join the session's reassembly buffer, every frame that is now
    /// complete is taken off its front, and each is handled in order.  The
    /// buffer keeps exactly the trailing partial frame.
    pub fn on_plaintext(&mut self, id: usize, data: &[u8])
        requires
            old(self).wf(),
            id < old(self)@.sessions.len(),
            old(self)@.sessions[id as int] is Some,
        ensures
            final(self).wf(),
            ({
                let grown = old(self)@.sessions[id as int].unwrap().buffer + data@;
                final(self)@ == apply_frames(
                    with_buffer(old(self)@, id, frame_rest(grown)),
                    id,
                    frames_of(grown),
                )
            }),
    {
        let ghost grown = old(self)@.sessions[id as int].unwrap().buffer + data@;
        match &mut self.sessions[id] {
            Some(s) => {
                s.append_bytes(data);
            },
            None => {},
        }
        proof {
            assert(self@ =~= with_buffer(old(self)@, id, grown));
            lemma_with_buffer_wf(old(self)@, id, grown);
        }
        let mut frames: Vec<codec::Frame> = Vec::new();
        loop
            invariant
                server_wf(old(self)@),
                id < old(self)@.sessions.len(),
                old(self)@.sessions[id as int] is Some,
                id < self@.sessions.len(),
                self@.sessions[id as int] is Some,
                self.wf(),
                frames.deep_view() + frames_of(self@.sessions[id as int].unwrap().buffer)
                    == frames_of(grown),
                frame_rest(self@.sessions[id as int].unwrap().buffer) == frame_rest(grown),
                self@ == with_buffer(
                    old(self)@,
                    id,
                    self@.sessions[id as int].unwrap().buffer,
                ),
            ensures
                frames.deep_view() == frames_of(grown),
                self@ == with_buffer(old(self)@, id, frame_rest(grown)),
                self.wf(),
            decreases self@.sessions[id as int].unwrap().buffer.len(),
        {
            let ghost buf = self@.sessions[id as int].unwrap().buffer;
            let ghost v0 = self@;
            let popped = match &mut self.sessions[id] {
                Some(s) => {
                    proof {
                        assert(session_wf(s@));
                    }
                    s.pop_frame()
                },
                None => None,
            };
            match popped {
                Some(f) => {
                    let ghost prev_dv = frames.deep_view();
                    proof {
                        assert(self@.sessions[id as int].unwrap().buffer == after_first_frame(
                            buf,
                        ));
                        assert(self@.sessions.len() == old(self)@.sessions.len());
                        assert(self@.games == old(self)@.games);
                        assert(self@.outbox == old(self)@.outbox);
                        assert(self@.sessions[id as int] == Some(
                            SessionView {
                                buffer: after_first_frame(buf),
                                ..old(self)@.sessions[id as int].unwrap()
                            },
                        ));
                        assert forall|i: int|
                            0 <= i < self@.sessions.len() && i != id implies self@.sessions[i]
                            == old(self)@.sessions[i] by {
                            assert(self@.sessions[i] == v0.sessions[i]);
                            assert(v0.sessions[i] == old(self)@.sessions[i]);
                        }
                        assert(self@ =~~= with_buffer(old(self)@, id, after_first_frame(buf)));
                        lemma_with_buffer_wf(old(self)@, id, after_first_frame(buf));
                        assert(prev_dv.push(f@) + frames_of(after_first_frame(buf)) =~= prev_dv
                            + frames_of(buf));
                    }
                    frames.push(f);
                    proof {
                        assert(frames.deep_view() =~= prev_dv.push(f@));
                    }
                },
                None => {
                    proof {
                        assert(self@ =~~= with_buffer(old(self)@, id, buf));
                        lemma_with_buffer_wf(old(self)@, id, buf);
                        assert(frames.deep_view() + frames_of(buf) == frames_of(grown));
                        assert(frames_of(buf) =~= Seq::<FrameView>::empty());
                        assert(frames.deep_view() =~= frames_of(grown));
                    }
                    break ;
                },
            }
        }
        let ghost base = self@;
        let mut k: usize = 0;
        while k < frames.len()
            invariant
                k <= frames@.len(),
                id < self@.sessions.len(),
                self@.sessions[id as int] is Some,
                self.wf(),
                self@ == apply_frames(base, id, frames.deep_view().take(k as int)),
                base == with_buffer(old(self)@, id, frame_rest(grown)),
                frames.deep_view() == frames_of(grown),
                server_wf(base),
            decreases frames@.len() - k,
        {
            let ghost done = frames.deep_view().take(k as int);
            self.handle_frame(id, &frames[k]);
            proof {
                lemma_apply_frames_push(base, id, done, frames.deep_view()[k as int]);
                assert(frames.deep_view().take(k as int + 1) =~= done.push(
                    frames.deep_view()[k as int],
                ));
            }
            k += 1;
        }
        proof {
            assert(frames.deep_view().take(frames.deep_view().len() as int) =~= frames.deep_view());
        }
    }

    /// Reset every in-game session whose game is gone from the registry
    /// back to waiting for an opponent.  Afterwards every in-game session
    /// has a game holding its identifier.
    pub fn sweep_orphans(&mut self)
        requires
            old(self).wf(),
        ensures
            final(self).wf(),
            final(self)@.sessions.len() == old(self)@.sessions.len(),
            final(self)@.games == old(self)@.games,
            final(self)@.outbox == old(self)@.outbox,
            forall|i: int|
                0 <= i < old(self)@.sessions.len() ==> final(self)@.sessions[i] == sweep_one(
                    old(self)@,
                    i,
                ),
            forall|i: int|
                0 <= i < final(self)@.sessions.len() && (#[trigger] final(self)@.sessions[i])
                    is Some && final(self)@.sessions[i].unwrap().phase is InGame
                    ==> first_game_with(final(self)@.games, i as usize) is Some,
    {
        let ghost v0 = old(self)@;
        let mut i: usize = 0;
        while i < self.sessions.len()
            invariant
                server_wf(v0),
                v0 == old(self)@,
                self.wf(),
                i <= self@.sessions.len(),
                self@.sessions.len() == v0.sessions.len(),
                self@.games == v0.games,
                self@.outbox == v0.outbox,
                forall|k: int| 0 <= k < i ==> self@.sessions[k] == sweep_one(v0, k),
                forall|k: int|
                    i <= k < self@.sessions.len() ==> self@.sessions[k] == v0.sessions[k],
            decreases self@.sessions.len() - i,
        {
            let phase = match &self.sessions[i] {
                Some(s) => Some(s.get_phase()),
                None => None,
            };
            let in_game = match phase {
                Some(SessionPhase::InGame(_)) => true,
                _ => false,
            };
            if in_game {
                let orphan = self.find_game(i).is_none();
                if orphan {
                    let ghost vpre = self@;
                    match &mut self.sessions[i] {
                        Some(s) => {
                            proof {
                                assert(session_wf(vpre.sessions[i as int].unwrap()));
                            }
                            s.on_partner_left();
                        },
                        None => {},
                    }
                    proof {
                        assert(self@.sessions =~= vpre.sessions.update(
                            i as int,
                            Some(
                                SessionView {
                                    phase: SessionPhase::WaitingForOpponent,
                                    ..vpre.sessions[i as int].unwrap()
                                },
                            ),
                        ));
                        assert(self@.games =~= vpre.games);
                        assert(self@.outbox =~= vpre.outbox);
                        assert(self@.sessions[i as int] == sweep_one(v0, i as int));
                        let vnew = self@;
                        assert forall|a: int|
                            0 <= a < vnew.sessions.len() && (#[trigger] vnew.sessions[a])
                                is Some implies session_wf(vnew.sessions[a].unwrap()) by {
                            assert(vpre.sessions[a] is Some);
                            assert(session_wf(vpre.sessions[a].unwrap()));
                        }
                        assert forall|a: int, b: int|
                            (0 <= a < b < vnew.sessions.len() && (#[trigger] vnew.sessions[a])
                                is Some && (#[trigger] vnew.sessions[b]) is Some
                                && vnew.sessions[a].unwrap().phase != SessionPhase::Connected
                                && vnew.sessions[b].unwrap().phase != SessionPhase::Connected)
                                implies vnew.sessions[a].unwrap().name
                                != vnew.sessions[b].unwrap().name by {
                            assert(vpre.sessions[a] is Some);
                            assert(vpre.sessions[b] is Some);
                            assert(vpre.sessions[a].unwrap().name == vnew.sessions[a].unwrap().name);
                            assert(vpre.sessions[b].unwrap().name == vnew.sessions[b].unwrap().name);
                        }
                    }
                } else {
                    proof {
                        assert(self@.sessions[i as int] == sweep_one(v0, i as int));
                    }
                }
            } else {
                proof {
                    assert(self@.sessions[i as int] == sweep_one(v0, i as int));
                }
            }
            i += 1;
        }
        proof {
            assert forall|k: int|
                0 <= k < self@.sessions.len() && (#[trigger] self@.sessions[k]) is Some
                    && self@.sessions[k].unwrap().phase is InGame implies first_game_with(
                self@.games,
                k as usize,
            ) is Some by {
                assert(self@.sessions[k] == sweep_one(v0, k));
            }
        }
    }

    /// The lowest waiting session at or after `start`, if any.
    fn find_waiting_from(&self, start: usize) -> (r: Option<usize>)
        ensures
            r is Some <==> first_waiting_after(self@.sessions, start as int) is Some,
            r matches Some(u) ==> first_waiting_after(self@.sessions, start as int) == Some(
                u as int,
            ),
    {
        let mut i: usize = start;
        while i < self.sessions.len()
            invariant
                start <= i,
                i <= self@.sessions.len() || i == start,
                forall|k: int| start <= k < i ==> !is_waiting(#[trigger] self@.sessions[k]),
            decreases self@.sessions.len() - i,
        {
            let waiting = match &self.sessions[i] {
                Some(s) => match s.get_phase() {
                    SessionPhase::WaitingForOpponent => true,
                    _ => false,
                },
                None => false,
            };
            if waiting {
                proof {
                    lemma_first_waiting_after_props(self@.sessions, start as int);
                    match first_waiting_after(self@.sessions, start as int) {
                        None => {
                            assert(!is_waiting(self@.sessions[i as int]));
                        },
                        Some(m) => {
                            if m < i {
                                assert(!is_waiting(self@.sessions[m]));
                            }
                            if m > i {
                                assert(!is_waiting(self@.sessions[i as int]));
                            }
                        },
                    }
                }
                return Some(i);
            }
            i += 1;
        }
        proof {
            lemma_first_waiting_after_props(self@.sessions, start as int);
            match first_waiting_after(self@.sessions, start as int) {
                None => {},
                Some(m) => {
                    assert(!is_waiting(self@.sessions[m]));
                },
            }
        }
        None
    }

    /// Pair the first two waiting sessions, in slot order: build the game
    /// (two players, moves of at most 3, a board threshold of 10), join
    /// both participants in slot order, move both sessions into the game,
    /// and queue, for both participants alike, the configuration, both
    /// join announcements, and the active participant — the first joiner.
    pub fn matchmake(&mut self)
        requires
            old(self).wf(),
        ensures
            final(self).wf(),
            match waiting_pair(old(self)@) {
                None => final(self)@ == old(self)@,
                Some(pair) => {
                    let i = pair.0;
                    let j = pair.1;
                    let si = old(self)@.sessions[i].unwrap();
                    let sj = old(self)@.sessions[j].unwrap();
                    let g = step_add_player(
                        step_add_player(init_game(2, 3, 10), i as usize, si.name),
                        j as usize,
                        sj.name,
                    );
                    &&& final(self)@.sessions == old(self)@.sessions.update(
                        i,
                        Some(SessionView { phase: SessionPhase::InGame(j as usize), ..si }),
                    ).update(j, Some(SessionView { phase: SessionPhase::InGame(i as usize), ..sj }))
                    &&& final(self)@.games == old(self)@.games.push(g)
                    &&& final(self)@.outbox == old(self)@.outbox + seq![
                        (i as usize, game_config_frame(2, 3, 10)),
                        (j as usize, game_config_frame(2, 3, 10)),
                        (i as usize, add_player_frame(i as u8, si.name)),
                        (j as usize, add_player_frame(i as u8, si.name)),
                        (i as usize, add_player_frame(j as u8, sj.name)),
                        (j as usize, add_player_frame(j as u8, sj.name)),
                        (i as usize, set_active_player_frame(i as u8)),
                        (j as usize, set_active_player_frame(i as u8)),
                    ]
                },
            },
    {
        let i = match self.find_waiting_from(0) {
            Some(i) => i,
            None => {
                return ;
            },
        };
        proof {
            lemma_first_waiting_after_props(self@.sessions, 0);
        }
        let j = match self.find_waiting_from(i + 1) {
            Some(j) => j,
            None => {
                return ;
            },
        };
        proof {
            lemma_first_waiting_after_props(self@.sessions, 0);
            lemma_first_waiting_after_props(self@.sessions, i as int + 1);
            assert(waiting_pair(self@) == Some((i as int, j as int)));
        }
        let name_i = match &self.sessions[i] {
            Some(s) => s.get_name().clone(),
            None => vstd::pervasive::unreached(),
        };
        let name_j = match &self.sessions[j] {
            Some(s) => s.get_name().clone(),
            None => vstd::pervasive::unreached(),
        };
        let mut game = GameData::new(2, 3, 10);
        game.add_player(i, name_i.as_str());
        game.add_player(j, name_j.as_str());
        let active_id = game.get_active_player_id();
        proof {
            assert(game@.ids == seq![i, j]);
            assert(game@.active == 0);
            assert(active_id == i as u8);
        }
        let ghost v0 = self@;
        match &mut self.sessions[i] {
            Some(s) => {
                proof {
                    assert(session_wf(v0.sessions[i as int].unwrap()));
                }
                s.on_matched(j);
            },
            None => {},
        }
        let ghost v1 = self@;
        match &mut self.sessions[j] {
            Some(s) => {
                proof {
                    assert(session_wf(v1.sessions[j as int].unwrap()));
                }
                s.on_matched(i);
            },
            None => {},
        }
        proof {
            assert(self@.sessions =~= v0.sessions.update(
                i as int,
                Some(
                    SessionView {
                        phase: SessionPhase::InGame(j),
                        ..v0.sessions[i as int].unwrap()
                    },
                ),
            ).update(
                j as int,
                Some(
                    SessionView {
                        phase: SessionPhase::InGame(i),
                        ..v0.sessions[j as int].unwrap()
                    },
                ),
            ));
            assert(self@.games =~= v0.games);
            assert(self@.outbox =~= v0.outbox);
        }
        let f = codec::encode_game_config(2, 3, 10);
        self.push_out(i, f);
        let f = codec::encode_game_config(2, 3, 10);
        self.push_out(j, f);
        let f = codec::encode_add_player(i as u8, name_i.as_str());
        self.push_out(i, f);
        let f = codec::encode_add_player(i as u8, name_i.as_str());
        self.push_out(j, f);
        let f = codec::encode_add_player(j as u8, name_j.as_str());
        self.push_out(i, f);
        let f = codec::encode_add_player(j as u8, name_j.as_str());
        self.push_out(j, f);
        let f = codec::encode_set_active_player(active_id);
        self.push_out(i, f);
        let f = codec::encode_set_active_player(active_id);
        self.push_out(j, f);
        self.games.push(game);
        proof {
            let vold = old(self)@;
            assert(self@.games =~= vold.games.push(game@));
            assert(self@.outbox =~= vold.outbox + seq![
                (i as usize, game_config_frame(2, 3, 10)),
                (j as usize, game_config_frame(2, 3, 10)),
                (i as usize, add_player_frame(i as u8, vold.sessions[i as int].unwrap().name)),
                (j as usize, add_player_frame(i as u8, vold.sessions[i as int].unwrap().name)),
                (i as usize, add_player_frame(j as u8, vold.sessions[j as int].unwrap().name)),
                (j as usize, add_player_frame(j as u8, vold.sessions[j as int].unwrap().name)),
                (i as usize, set_active_player_frame(i as u8)),
                (j as usize, set_active_player_frame(i as u8)),
            ]);
            let vnew = self@;
            assert forall|a: int|
                0 <= a < vnew.sessions.len() && (#[trigger] vnew.sessions[a])
                    is Some implies session_wf(vnew.sessions[a].unwrap()) by {
                assert(vold.sessions[a] is Some);
                assert(session_wf(vold.sessions[a].unwrap()));
            }
            assert forall|a: int, b: int|
                (0 <= a < b < vnew.sessions.len() && (#[trigger] vnew.sessions[a]) is Some
                    && (#[trigger] vnew.sessions[b]) is Some && vnew.sessions[a].unwrap().phase
                    != SessionPhase::Connected && vnew.sessions[b].unwrap().phase
                    != SessionPhase::Connected) implies vnew.sessions[a].unwrap().name
                != vnew.sessions[b].unwrap().name by {
                assert(vold.sessions[a] is Some);
                assert(vold.sessions[b] is Some);
                assert(vold.sessions[a].unwrap().name == vnew.sessions[a].unwrap().name);
                assert(vold.sessions[b].unwrap().name == vnew.sessions[b].unwrap().name);
                assert(vold.sessions[a].unwrap().phase != SessionPhase::Connected);
                assert(vold.sessions[b].unwrap().phase != SessionPhase::Connected);
            }
            assert forall|k: int|
                0 <= k < vnew.games.len() implies game_wf(#[trigger] vnew.games[k]) by {
                if k < vold.games.len() {
                    assert(vnew.games[k] == vold.games[k]);
                } else {
                    assert(vnew.games[k] == game@);
                }
            }
        }
    }

    /// Drop every game `id` participates in from the registry.
    fn remove_games_with(&mut self, id: usize)
        ensures
            final(self)@ == (ServerView {
                games: games_without(old(self)@.games, id),
                ..old(self)@
            }),
    {
        let mut pending: Vec<GameData> = Vec::new();
        core::mem::swap(&mut pending, &mut self.games);
        proof {
            assert(self@.games =~= Seq::<GameView>::empty());
            assert(pending.deep_view() =~= old(self)@.games);
        }
        while pending.len() > 0
            invariant
                self@.sessions == old(self)@.sessions,
                self@.outbox == old(self)@.outbox,
                self@.games + games_without(pending.deep_view(), id) == games_without(
                    old(self)@.games,
                    id,
                ),
            decreases pending@.len(),
        {
            let ghost prev_games = self@.games;
            let ghost prev_pending = pending.deep_view();
            let g = pending.remove(0);
            proof {
                assert(pending.deep_view() =~= prev_pending.skip(1));
                assert(g@ == prev_pending[0]);
            }
            if !g.game_has_player(id) {
                self.games.push(g);
                proof {
                    assert(self@.games =~= prev_games.push(g@));
                    assert(self@.games + games_without(pending.deep_view(), id) =~= prev_games
                        + games_without(prev_pending, id));
                    assert(self@ =~= ServerView { games: self@.games, ..old(self)@ });
                }
            } else {
                proof {
                    assert(self@.games + games_without(pending.deep_view(), id) =~= prev_games
                        + games_without(prev_pending, id));
                }
            }
        }
        proof {
            assert(pending.deep_view() =~= Seq::<GameView>::empty());
            assert(self@.games =~= games_without(old(self)@.games, id));
            assert(self@ =~= ServerView {
                games: games_without(old(self)@.games, id),
                ..old(self)@
            });
        }
    }
}

} // verus!
