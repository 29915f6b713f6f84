//! The unit of replication and the shapes it is exchanged in.
//!
//! A [`SyncOperation`] describes one committed local write: where it
//! happened (`table`, `primary_key`), when in hybrid-logical-clock time
//! (`hlc_time`, `hlc_counter`, `node_id`) and what to replay on a peer
//! (`data`, a fully rendered SQL statement).  A [`ChangeNotification`]
//! is the lightweight event fanned out to application subscribers.

use vstd::prelude::*;

verus! {

/// 16-byte origin identifier of a node; non-zero for a live node.
pub type NodeId = [u8; 16];

/// The kind of write an operation carries.
#[derive(Clone, Copy, Debug, PartialEq, Eq, Structural)]
pub enum WriteKind {
    Insert,
    Update,
    Delete,
}

/// Mathematical model of a [`SyncOperation`].
#[verifier::ext_equal]
pub struct OpModel {
    pub op_id: u128,
    pub hlc_time: u64,
    pub hlc_counter: u32,
    pub node_id: Seq<u8>,
    pub table: Seq<char>,
    pub kind: WriteKind,
    pub primary_key: Seq<char>,
    pub data: Option<Seq<u8>>,
    pub columns: Option<Seq<Seq<char>>>,
}

/// One replicated write operation.
#[derive(Debug)]
pub struct SyncOperation {
    /// Globally unique identifier, used for transport-level dedup.
    pub op_id: u128,
    /// Physical component of the HLC stamp, nanoseconds since epoch.
    pub hlc_time: u64,
    /// Logical counter of the HLC stamp.
    pub hlc_counter: u32,
    /// Identifier of the node where the write originated.
    pub node_id: NodeId,
    /// Name of the affected table.
    pub table: String,
    /// What kind of write this is.
    pub kind: WriteKind,
    /// String form of the affected row's key.
    pub primary_key: String,
    /// A self-contained SQL statement executable verbatim on any peer.
    pub data: Option<Vec<u8>>,
    /// Ordered list of the column names affected, when known.
    pub columns: Option<Vec<String>>,
}

impl View for SyncOperation {
    type V = OpModel;

    open spec fn view(&self) -> OpModel {
        OpModel {
            op_id: self.op_id,
            hlc_time: self.hlc_time,
            hlc_counter: self.hlc_counter,
            node_id: self.node_id@,
            table: self.table@,
            kind: self.kind,
            primary_key: self.primary_key@,
            data: match self.data {
                Some(d) => Some(d@),
                None => None,
            },
            columns: match self.columns {
                Some(c) => Some(c.deep_view()),
                None => None,
            },
        }
    }
}

impl DeepView for SyncOperation {
    type V = OpModel;

    open spec fn deep_view(&self) -> OpModel {
        self.view()
    }
}

impl SyncOperation {
    /// Field-by-field copy; the copy has the same model as the original.
    pub fn duplicate(&self) -> (r: SyncOperation)
        ensures
            r@ == self@,
    {
        let data: Option<Vec<u8>> = match &self.data {
            Some(d) => Some(clone_bytes(d)),
            None => None,
        };
        let columns: Option<Vec<String>> = match &self.columns {
            Some(c) => Some(clone_strings(c)),
            None => None,
        };
        let r = SyncOperation {
            op_id: self.op_id,
            hlc_time: self.hlc_time,
            hlc_counter: self.hlc_counter,
            node_id: self.node_id,
            table: self.table.clone(),
            kind: self.kind,
            primary_key: self.primary_key.clone(),
            data,
            columns,
        };
        proof {
            assert(r@ =~~= self@);
        }
        r
    }
}

/// Copy of a byte vector with the same view.
pub fn clone_bytes(v: &Vec<u8>) -> (r: Vec<u8>)
    ensures
        r@ == v@,
{
    let mut r: Vec<u8> = Vec::new();
    let mut i: usize = 0;
    while i < v.len()
        invariant
            i <= v.len(),
            r@ == v@.subrange(0, i as int),
        decreases v.len() - i,
    {
        r.push(v[i]);
        i = i + 1;
    }
    proof {
        assert(r@ =~= v@);
    }
    r
}

/// Copy of a vector of strings with the same deep view.
pub fn clone_strings(v: &Vec<String>) -> (r: Vec<String>)
    ensures
        r.deep_view() == v.deep_view(),
{
    let mut r: Vec<String> = Vec::new();
    let mut i: usize = 0;
    while i < v.len()
        invariant
            i <= v.len(),
            r@.len() == i,
            forall|j: int| 0 <= j < i ==> r@[j]@ == v@[j]@,
        decreases v.len() - i,
    {
        r.push(v[i].clone());
        i = i + 1;
    }
    proof {
        assert(r.deep_view() =~= v.deep_view());
    }
    r
}

/// Lightweight event emitted for every applied write, local or remote.
#[derive(Debug, Clone)]
pub struct ChangeNotification {
    /// Name of the table the write touched.
    pub table: String,
    /// What kind of write it was.
    pub kind: WriteKind,
    /// String form of the affected row's key.
    pub primary_key: String,
}

} // verus!
