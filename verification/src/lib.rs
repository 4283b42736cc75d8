//! An authoritative multiplayer grid-game server library: the binary wire
//! codec, the protocol packets, the world model, the game engine with its
//! event fan-out, and the client-side protocol state.

pub mod client;
pub mod codec;
pub mod engine;
pub mod protocol;
pub mod types;
pub mod utils;
