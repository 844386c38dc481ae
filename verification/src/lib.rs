//! Server-side coordination core for a small two-player turn-based game
//! played over an encrypted channel.
//!
//! The crate holds the verified logic only: the turn-based game engine, the
//! wire-frame codec with incremental reassembly, the per-connection session
//! state machine, the matchmaker, and the dispatcher that routes decoded
//! frames to handlers.  Transport (TLS, sockets) and terminal rendering live
//! outside the crate and exchange plain byte buffers with it.

pub mod client;
pub mod codec;
pub mod game;
pub mod server;
pub mod session;
