//! Authoritative server library for a small-scale multiplayer card-game
//! session: length-prefixed framing, a variant score-number type, the
//! game-mode registry, and the lobby / coordinator / client state machines.
//!
//! The library holds the decision logic only; sockets, channels and the
//! MessagePack wire encoding live in the surrounding application, which
//! feeds plain values in and carries the returned effects out.

pub mod decnum;
pub mod client;
pub mod game_mode;
pub mod lobby;
pub mod lobby_coordinator;
pub mod messages;
pub mod test_utils;
pub mod utils;
pub mod talisman_number;
pub mod framing;

use vstd::prelude::*;

verus! {

/// A frame header carries the payload length as a 32-bit big-endian word.
pub open spec fn be_word(b0: u8, b1: u8, b2: u8, b3: u8) -> int {
    b0 * 0x1000000 + b1 * 0x10000 + b2 * 0x100 + b3
}

} // verus!
