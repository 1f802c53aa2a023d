//! Authoritative core of a shared tile-farming world: the world model and its
//! deterministic transition rules, the wire codec for the length-prefixed
//! message protocol, the session registry with identity allocation and
//! broadcast fan-out, and the per-connection message handler.
//!
//! Everything here is pure state and bytes; sockets, threads, timers and
//! files live in the thin shell around this crate.

pub mod codec;
pub mod handler;
pub mod protocol;
pub mod registry;
pub mod world;
