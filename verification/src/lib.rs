//! Room-based matchmaking coordinator for a peer-to-peer signaling server.
//!
//! Clients declare which room they want to join; the transport later
//! assigns each connection a peer id. The coordinator correlates the two
//! events, tracks room membership, and reports a room's members whenever
//! the room holds at least its requested number of peers.

pub mod adapter;
pub mod attestation;
pub mod laws;
pub mod room;
pub mod state;

pub use room::{Origin, PeerId, RequestedRoom, RoomId};
pub use state::{ReadyRoom, ServerState};
