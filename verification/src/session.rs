//! Per-connection session state.
//!
//! A session tracks one accepted connection: its display name, its
//! lifecycle phase, and the inbound reassembly buffer for the byte stream
//! the transport delivers.  Transitions are driven by the dispatcher:
//! naming, matching with a partner, losing the partner, closing.

use vstd::prelude::*;

use crate::codec::Frame;
use crate::codec::FrameBuffer;

verus! {

use vstd::utf8::encode_utf8;
use crate::codec::after_first_frame;
use crate::codec::first_frame;
use crate::codec::frame_wf;
use crate::codec::has_complete_frame;

/// The lifecycle phase of a connection.  `InGame` carries the partner's
/// connection identifier.
#[derive(Clone, Copy, PartialEq, Eq, Structural, Debug)]
pub enum SessionPhase {
    Connected,
    WaitingForOpponent,
    InGame(usize),
    Closed,
}

/// The model of a session: its name, phase, and buffered inbound bytes.
#[verifier::ext_equal]
pub ghost struct SessionView {
    pub name: Seq<char>,
    pub phase: SessionPhase,
    pub buffer: Seq<u8>,
}

/// A session's name is empty until it is named, and once accepted it fits,
/// together with a one-byte identifier, in one frame's payload.
pub open spec fn session_wf(s: SessionView) -> bool {
    &&& s.phase == SessionPhase::Connected ==> s.name == Seq::<char>::empty()
    &&& encode_utf8(s.name).len() <= 254
}

/// One per-connection session record.
pub struct Session {
    name: String,
    phase: SessionPhase,
    buffer: FrameBuffer,
}

impl View for Session {
    type V = SessionView;

    closed spec fn view(&self) -> SessionView {
        SessionView { name: self.name@, phase: self.phase, buffer: self.buffer@ }
    }
}

impl DeepView for Session {
    type V = SessionView;

    open spec fn deep_view(&self) -> SessionView {
        self.view()
    }
}

impl Session {
    /// Well-formedness of the session record.
    pub open spec fn wf(&self) -> bool {
        session_wf(self@)
    }

    /// A fresh session for a just-accepted connection: unnamed, with an
    /// empty reassembly buffer.
    pub fn new() -> (r: Session)
        ensures
            r.wf(),
            r@ == (SessionView {
                name: Seq::<char>::empty(),
                phase: SessionPhase::Connected,
                buffer: Seq::<u8>::empty(),
            }),
    {
        let r = Session { name: String::new(), phase: SessionPhase::Connected, buffer: FrameBuffer::new() };
        proof {
            assert(r@ =~= SessionView {
                name: Seq::<char>::empty(),
                phase: SessionPhase::Connected,
                buffer: Seq::<u8>::empty(),
            });
        }
        r
    }

    /// The display name.
    pub fn get_name(&self) -> (r: &String)
        ensures
            r@ == self@.name,
    {
        &self.name
    }

    /// The lifecycle phase.
    pub fn get_phase(&self) -> (r: SessionPhase)
        ensures
            r == self@.phase,
    {
        self.phase
    }

    /// Accept a display name: only an unnamed session can be named, and
    /// the name must fit a frame payload beside an identifier byte.
    pub fn on_name_received(&mut self, name: String)
        requires
            old(self)@.phase == SessionPhase::Connected,
            encode_utf8(name@).len() <= 254,
        ensures
            final(self).wf(),
            final(self)@ == (SessionView {
                name: name@,
                phase: SessionPhase::WaitingForOpponent,
                buffer: old(self)@.buffer,
            }),
    {
        self.name = name;
        self.phase = SessionPhase::WaitingForOpponent;
        proof {
            assert(self@ =~= SessionView {
                name: self.name@,
                phase: SessionPhase::WaitingForOpponent,
                buffer: old(self)@.buffer,
            });
        }
    }

    /// Enter a game against `partner`.
    pub fn on_matched(&mut self, partner: usize)
        requires
            old(self).wf(),
        ensures
            final(self).wf(),
            final(self)@ == (SessionView { phase: SessionPhase::InGame(partner), ..old(self)@ }),
    {
        self.phase = SessionPhase::InGame(partner);
        proof {
            assert(self@ =~= SessionView { phase: SessionPhase::InGame(partner), ..old(self)@ });
        }
    }

    /// The partner is gone: go back to waiting for an opponent.
    pub fn on_partner_left(&mut self)
        requires
            old(self).wf(),
        ensures
            final(self).wf(),
            final(self)@ == (SessionView {
                phase: SessionPhase::WaitingForOpponent,
                ..old(self)@
            }),
    {
        self.phase = SessionPhase::WaitingForOpponent;
        proof {
            assert(self@ =~= SessionView {
                phase: SessionPhase::WaitingForOpponent,
                ..old(self)@
            });
        }
    }

    /// The connection is gone for good.
    pub fn on_closed(&mut self)
        requires
            old(self).wf(),
        ensures
            final(self).wf(),
            final(self)@ == (SessionView { phase: SessionPhase::Closed, ..old(self)@ }),
    {
        self.phase = SessionPhase::Closed;
        proof {
            assert(self@ =~= SessionView { phase: SessionPhase::Closed, ..old(self)@ });
        }
    }

    /// Append one delivered chunk to the reassembly buffer.
    pub fn append_bytes(&mut self, bytes: &[u8])
        requires
            old(self).wf(),
        ensures
            final(self).wf(),
            final(self)@ == (SessionView { buffer: old(self)@.buffer + bytes@, ..old(self)@ }),
    {
        self.buffer.append(bytes);
        proof {
            assert(self@ =~= SessionView { buffer: old(self)@.buffer + bytes@, ..old(self)@ });
        }
    }

    /// Take the complete frame off the front of the buffer, if one is there.
    pub fn pop_frame(&mut self) -> (r: Option<Frame>)
        requires
            old(self).wf(),
        ensures
            final(self).wf(),
            if has_complete_frame(old(self)@.buffer) {
                &&& r matches Some(f)
                &&& f@ == first_frame(old(self)@.buffer)
                &&& frame_wf(f@)
                &&& final(self)@ == (SessionView {
                    buffer: after_first_frame(old(self)@.buffer),
                    ..old(self)@
                })
            } else {
                &&& r is None
                &&& final(self)@ == old(self)@
            },
    {
        let r = self.buffer.pop_frame();
        proof {
            if has_complete_frame(old(self)@.buffer) {
                assert(self@ =~= SessionView {
                    buffer: after_first_frame(old(self)@.buffer),
                    ..old(self)@
                });
            } else {
                assert(self@ =~= old(self)@);
            }
        }
        r
    }
}

} // verus!
