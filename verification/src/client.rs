//! Client-side game state.
//!
//! A client mirrors the match it is in from the frames the server sends:
//! the game configuration, joins, moves, the active participant, its own
//! assigned identifier and accepted name.  The rendering loop owns the
//! socket and the terminal; it hands decoded frames here and reads the
//! mirrored state back.  A malformed payload drops that frame and leaves
//! the state unchanged; it never tears the connection down.

use vstd::prelude::*;

use crate::game::GameData;

verus! {

use vstd::utf8::decode_utf8;
use vstd::utf8::valid_utf8;
use crate::codec::Message;
use crate::codec::spec_code;
use crate::game::GameView;
use crate::game::game_wf;
use crate::game::init_game;
use crate::game::step_add_player;
use crate::game::step_move_player;
use crate::game::step_set_active_player;

/// The model of the client's mirrored state.
#[verifier::ext_equal]
pub ghost struct ClientView {
    pub game: Option<GameView>,
    pub user_id: usize,
    pub user_name: Seq<char>,
}

/// A mirrored game, when there is one, is well-formed.
pub open spec fn client_wf(v: ClientView) -> bool {
    v.game matches Some(g) ==> game_wf(g)
}

/// The effect of one server frame on the mirrored state.  Unknown type
/// bytes, client-bound types, and payloads too short or not UTF-8 where a
/// name is expected leave the state unchanged.
pub open spec fn client_step(v: ClientView, msg_type: u8, payload: Seq<u8>) -> ClientView {
    if msg_type == spec_code(Message::OpponentDisconnect) {
        ClientView { game: None, ..v }
    } else if msg_type == spec_code(Message::GameData) {
        if payload.len() == 3 {
            ClientView { game: Some(init_game(payload[0], payload[1], payload[2])), ..v }
        } else {
            v
        }
    } else if msg_type == spec_code(Message::AddPlayer) {
        match v.game {
            Some(g) => if payload.len() >= 1 && valid_utf8(payload.skip(1)) {
                ClientView {
                    game: Some(
                        step_add_player(g, payload[0] as usize, decode_utf8(payload.skip(1))),
                    ),
                    ..v
                }
            } else {
                v
            },
            None => v,
        }
    } else if msg_type == spec_code(Message::MovePlayer) {
        match v.game {
            Some(g) => if payload.len() >= 2 && g.ids.contains(payload[0] as usize) {
                ClientView {
                    game: Some(
                        step_move_player(
                            g,
                            g.ids.index_of_first(payload[0] as usize).unwrap(),
                            payload[1],
                        ),
                    ),
                    ..v
                }
            } else {
                v
            },
            None => v,
        }
    } else if msg_type == spec_code(Message::SetActivePlayer) {
        match v.game {
            Some(g) => if payload.len() >= 1 && g.ids.contains(payload[0] as usize) {
                ClientView {
                    game: Some(
                        step_set_active_player(
                            g,
                            g.ids.index_of_first(payload[0] as usize).unwrap(),
                        ),
                    ),
                    ..v
                }
            } else {
                v
            },
            None => v,
        }
    } else if msg_type == spec_code(Message::Welcome) {
        if payload.len() >= 1 {
            ClientView { user_id: payload[0] as usize, ..v }
        } else {
            v
        }
    } else if msg_type == spec_code(Message::ServerUserName) {
        if valid_utf8(payload) {
            ClientView { user_name: decode_utf8(payload), ..v }
        } else {
            v
        }
    } else {
        v
    }
}

/// The client's mirrored state.  `ClientView` is its model; applying a
/// server frame is a `client_step` on that model.
pub struct ClientState {
    game: Option<GameData>,
    user_id: usize,
    user_name: String,
}

impl View for ClientState {
    type V = ClientView;

    closed spec fn view(&self) -> ClientView {
        ClientView {
            game: match self.game {
                Some(g) => Some(g@),
                None => None,
            },
            user_id: self.user_id,
            user_name: self.user_name@,
        }
    }
}

impl ClientState {
    /// Well-formedness of the mirrored state.
    pub open spec fn wf(&self) -> bool {
        client_wf(self@)
    }

    /// A client that has not joined a match yet.  The identifier starts at
    /// 255, outside the one-byte range the server assigns.
    pub fn new() -> (r: ClientState)
        ensures
            r.wf(),
            r@ == (ClientView {
                game: None,
                user_id: 255,
                user_name: Seq::<char>::empty(),
            }),
    {
        let r = ClientState { game: None, user_id: 255, user_name: String::new() };
        proof {
            assert(r@ =~= ClientView {
                game: None,
                user_id: 255,
                user_name: Seq::<char>::empty(),
            });
        }
        r
    }

    /// The mirrored game, if a match is on.
    pub fn get_game(&self) -> (r: &Option<GameData>)
        ensures
            r is Some <==> self@.game is Some,
            r matches Some(g) ==> self@.game == Some(g@),
    {
        &self.game
    }

    /// The identifier the server assigned.
    pub fn get_user_id(&self) -> (r: usize)
        ensures
            r == self@.user_id,
    {
        self.user_id
    }

    /// The display name the server accepted.
    pub fn get_user_name(&self) -> (r: &String)
        ensures
            r@ == self@.user_name,
    {
        &self.user_name
    }

    /// Apply one server frame to the mirrored state.
    pub fn apply_server_frame(&mut self, msg_type: u8, payload: &[u8])
        requires
            old(self).wf(),
        ensures
            final(self).wf(),
            final(self)@ == client_step(old(self)@, msg_type, payload@),
    {
        if msg_type == 128 {
            self.game = None;
            proof {
                assert(self@ =~= client_step(old(self)@, msg_type, payload@));
            }
        } else if msg_type == 4 {
            if payload.len() == 3 {
                self.game = Some(GameData::new(payload[0], payload[1], payload[2]));
            }
            proof {
                assert(self@ =~= client_step(old(self)@, msg_type, payload@));
            }
        } else if msg_type == 5 {
            match &mut self.game {
                Some(g) => {
                    if payload.len() >= 1 {
                        let name_bytes = tail_bytes(payload);
                        match crate::codec::bytes_to_string(name_bytes.as_slice()) {
                            Some(name) => {
                                proof {
                                    vstd::utf8::encode_utf8_decode_utf8(name@);
                                }
                                g.add_player(payload[0] as usize, name.as_str());
                            },
                            None => {},
                        }
                    }
                },
                None => {},
            }
            proof {
                assert(self@ =~= client_step(old(self)@, msg_type, payload@));
            }
        } else if msg_type == 6 {
            match &mut self.game {
                Some(g) => {
                    if payload.len() >= 2 {
                        let id = payload[0] as usize;
                        if g.game_has_player(id) {
                            g.move_player(id, payload[1]);
                        }
                    }
                },
                None => {},
            }
            proof {
                assert(self@ =~= client_step(old(self)@, msg_type, payload@));
            }
        } else if msg_type == 7 {
            match &mut self.game {
                Some(g) => {
                    if payload.len() >= 1 {
                        let id = payload[0] as usize;
                        if g.game_has_player(id) {
                            g.set_active_player(id);
                        }
                    }
                },
                None => {},
            }
            proof {
                assert(self@ =~= client_step(old(self)@, msg_type, payload@));
            }
        } else if msg_type == 8 {
            if payload.len() >= 1 {
                self.user_id = payload[0] as usize;
            }
            proof {
                assert(self@ =~= client_step(old(self)@, msg_type, payload@));
            }
        } else if msg_type == 9 {
            match crate::codec::bytes_to_string(payload) {
                Some(name) => {
                    proof {
                        vstd::utf8::encode_utf8_decode_utf8(name@);
                    }
                    self.user_name = name;
                },
                None => {},
            }
            proof {
                assert(self@ =~= client_step(old(self)@, msg_type, payload@));
            }
        } else {
            proof {
                assert(self@ =~= client_step(old(self)@, msg_type, payload@));
            }
        }
    }
}

/// The payload bytes after the leading identifier byte.
fn tail_bytes(payload: &[u8]) -> (r: Vec<u8>)
    requires
        payload@.len() >= 1,
    ensures
        r@ == payload@.skip(1),
{
    let mut r: Vec<u8> = Vec::new();
    let mut i: usize = 1;
    while i < payload.len()
        invariant
            1 <= i,
            i <= payload@.len() || i == 1,
            r@ == payload@.subrange(1, i as int),
        decreases payload@.len() - i,
    {
        r.push(payload[i]);
        i += 1;
        proof {
            assert(r@ =~= payload@.subrange(1, i as int));
        }
    }
    proof {
        assert(r@ =~= payload@.skip(1));
    }
    r
}

} // verus!
