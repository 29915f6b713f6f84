//! Bulk synchronization message shapes.
//!
//! Real-time replication travels over the gossip topic; these shapes
//! are for bulk catch-up between two peers: a new node asking for a
//! full snapshot, or a returning node asking for everything since a
//! hybrid-logical-clock time it has already seen.

use vstd::prelude::*;

use crate::messages::SyncOperation;

verus! {

/// A catch-up request sent by a node that is behind.
#[derive(Debug)]
pub enum SyncRequest {
    /// A new node requesting a full snapshot of all tables.
    FullSync,
    /// A returning node requesting operations since a known time.
    IncrementalSync {
        /// The last hybrid-logical-clock time this node has seen.
        since_hlc: u64,
    },
}

/// A serialized snapshot of one table's contents.
#[derive(Debug)]
pub struct TableSnapshot {
    /// The table name.
    pub table_name: String,
    /// Column names, in order.
    pub columns: Vec<String>,
    /// Each entry one serialized row, column values in the order of
    /// `columns`.
    pub rows: Vec<Vec<u8>>,
}

/// The answer to a [`SyncRequest`].
#[derive(Debug)]
pub enum SyncResponse {
    /// Everything: table contents plus recent operations to replay.
    FullSnapshot {
        /// A snapshot of every registered table.
        tables: Vec<TableSnapshot>,
        /// Recent operations to replay after loading the snapshot.
        recent_ops: Vec<SyncOperation>,
        /// The responder's current hybrid-logical-clock time, the
        /// baseline for future incremental requests.
        current_hlc: u64,
    },
    /// Only the operations since the requested time.
    IncrementalOps {
        /// Operations to replay, in order.
        ops: Vec<SyncOperation>,
        /// The responder's current hybrid-logical-clock time.
        current_hlc: u64,
    },
}

} // verus!
