//! The lobby: per-player state, the broadcaster's recipient bookkeeping, the
//! lobby record with its round state machine, the action handlers, and the
//! join/leave steps of the lobby's message loop.

pub mod broadcaster;
pub mod game_state;
pub mod handlers;
pub mod lobby;
pub mod task;

pub use game_state::{ClientGameState, ClientLobbyEntry};
