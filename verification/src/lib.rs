//! Core of a peer-to-peer replication layer for an embedded SQL store.
//!
//! Local writes are intercepted, stamped with a hybrid logical clock,
//! recorded in a durable operation log and broadcast to peers; remote
//! operations are ordered against local history by a last-write-wins
//! rule and applied when they win.  This crate holds the replication
//! logic itself — clocks, conflict resolution, the operation log model,
//! the wire codec, SQL classification and literal rendering — verified
//! against the contracts stated on each item.  Transport, persistence
//! and the async runtime live outside the crate and drive this logic
//! through plain values.

pub mod messages;
pub mod conflict;
pub mod clock;
pub mod oplog;
pub mod codec;
pub mod registry;
pub mod classify;
pub mod dialect;
pub mod render;
pub mod rowkey;
pub mod connection;
pub mod engine;
pub mod protocol;
pub mod query;
pub mod strutil;
