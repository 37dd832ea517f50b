//! Coordination core for a peer-to-peer voice/chat application.
//!
//! The crate holds the in-memory state machines of the signaling hub: the
//! peer/server/signing-key/connection index, the voice-chat rooms, the
//! TTL-bounded presence backend, and the connection-count tracker, together
//! with the per-message dispatch that ties them together.  Everything here
//! works on plain values (strings, integers, vectors); sockets, JSON framing
//! and clocks live with the caller.

pub mod kv;
pub mod strset;
pub mod signaling;
pub mod voice;
pub mod presence;
pub mod security;
pub mod health;
pub mod messages;
pub mod handler;
