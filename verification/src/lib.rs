//! Core of a real-time chat relay: the wire-protocol codec and the room
//! registry that tracks which connection belongs to which room and fans a
//! message out to the other occupants.
//!
//! All socket handling lives outside this crate; the library works on plain
//! byte frames and connection ids, so every rule it applies is verified.

pub mod codec;
pub mod handler;
pub mod laws;
pub mod registry;
