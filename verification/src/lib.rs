//! A library for nodes in a message-driven distributed cluster: envelopes and
//! their request/reply discipline, the bootstrap handshake, and the storage
//! engine of the log node — a per-topic append-only commit log with an
//! offset index rebuilt from the durable bytes on startup, plus a small
//! durable table of consumer commit offsets.
//!
//! All decisions and state transitions live here, verified; reading stdin,
//! writing stdout and touching the file system belong to the surrounding
//! program, which hands this library plain values and carries its outputs
//! (reply envelopes and bytes to persist) to the outside world.

pub mod broadcast;
pub mod codec;
pub mod echo;
pub mod error;
pub mod kafka;
pub mod log;
pub mod protocol;
pub mod unique_ids;
