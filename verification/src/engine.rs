//! Decisions of the replication engine's event loop.
//!
//! The long-running loop itself — the swarm, the timers, the channels
//! — lives outside this crate; what it decides at each event is
//! verified here: what to do with an incoming remote operation, when
//! a discovered peer is new (and so warrants an anti-entropy replay),
//! and how the replayed history is refreshed so transport-level
//! dedup does not swallow it.

use vstd::prelude::*;
use vstd::utf8::{decode_utf8, valid_utf8};

use crate::classify::{spec_insert_or_replace, spec_strip_returning, rewrite_insert_or_replace,
    strip_returning};
use crate::conflict::{should_apply, tuple_lt};
use crate::messages::{OpModel, SyncOperation, WriteKind};

verus! {

/// What to do with an incoming remote operation.
#[derive(Debug)]
pub enum RemoteApplyPlan {
    /// The operation lost against local history: drop it.
    Skip,
    /// Execute this statement against the local store; record the
    /// operation and notify subscribers only if execution succeeds.
    Execute { sql: String },
    /// The operation carries no executable payload: record it and
    /// notify subscribers without touching the store.
    RecordOnly,
}

/// The statement a winning remote operation executes: its payload
/// with any `RETURNING` clause stripped, and — for inserts — with
/// `INSERT INTO` turned into `INSERT OR REPLACE INTO`.
pub open spec fn spec_apply_sql(payload: Seq<char>, kind: WriteKind) -> Seq<char> {
    let stripped = spec_strip_returning(payload);
    if kind == WriteKind::Insert {
        spec_insert_or_replace(stripped)
    } else {
        stripped
    }
}

/// Decide what to do with a remote operation, given the latest local
/// operation for its row.  The operation is applied exactly when it
/// beats that operation under the last-write-wins order; an applied
/// operation executes its payload when it has a decodable one.
pub fn plan_remote_apply(op: &SyncOperation, local_latest: Option<&SyncOperation>) -> (r:
    RemoteApplyPlan)
    ensures
        ({
            let wins = match local_latest {
                None => true,
                Some(l) => tuple_lt(l@, op@),
            };
            match r {
                RemoteApplyPlan::Skip => !wins,
                RemoteApplyPlan::Execute { sql } => wins && (op@.data matches Some(d)
                    && valid_utf8(d) && sql@ == spec_apply_sql(decode_utf8(d), op@.kind)),
                RemoteApplyPlan::RecordOnly => wins && (match op@.data {
                    Some(d) => !valid_utf8(d),
                    None => true,
                }),
            }
        }),
{
    if !should_apply(op, local_latest) {
        return RemoteApplyPlan::Skip;
    }
    match &op.data {
        Some(d) => {
            let cloned = crate::messages::clone_bytes(d);
            match crate::codec::bytes_to_string(cloned) {
                Some(payload) => {
                    let stripped = strip_returning(payload.as_str());
                    let sql = if matches!(op.kind, WriteKind::Insert) {
                        rewrite_insert_or_replace(stripped.as_str())
                    } else {
                        stripped
                    };
                    RemoteApplyPlan::Execute { sql }
                },
                None => RemoteApplyPlan::RecordOnly,
            }
        },
        None => RemoteApplyPlan::RecordOnly,
    }
}

/// The peers currently known to the mesh, with their last known
/// address.
pub struct PeerTracker {
    peers: Vec<(Vec<u8>, String)>,
}

impl PeerTracker {
    /// Whether a peer with this identifier is known.
    pub closed spec fn knows(&self, id: Seq<u8>) -> bool {
        exists|i: int| 0 <= i < self.peers@.len() && (#[trigger] self.peers@[i]).0@ == id
    }

    /// Whether this identifier is recorded with this address.
    pub closed spec fn stores(&self, id: Seq<u8>, addr: Seq<char>) -> bool {
        exists|i: int|
            0 <= i < self.peers@.len() && (#[trigger] self.peers@[i]).0@ == id
                && self.peers@[i].1@ == addr
    }

    /// Identifiers are unique among the known peers.
    pub closed spec fn wf(&self) -> bool {
        forall|i: int, j: int|
            0 <= i < j < self.peers@.len() ==> (#[trigger] self.peers@[i]).0@ != (
            #[trigger] self.peers@[j]).0@
    }

    /// An empty tracker.
    pub fn new() -> (r: PeerTracker)
        ensures
            r.wf(),
            forall|id: Seq<u8>| !r.knows(id),
    {
        PeerTracker { peers: Vec::new() }
    }

    /// Record a discovered peer and its address — keeping the last
    /// known address of every peer.  True exactly when the peer was
    /// not known before — only then may the caller arm the
    /// anti-entropy replay, so re-announcements of known peers do not
    /// re-trigger it.
    pub fn discover(&mut self, id: Vec<u8>, addr: String) -> (new_peer: bool)
        requires
            old(self).wf(),
        ensures
            final(self).wf(),
            new_peer == !old(self).knows(id@),
            final(self).knows(id@),
            final(self).stores(id@, addr@),
            forall|other: Seq<u8>|
                other != id@ ==> final(self).knows(other) == old(self).knows(other),
            forall|other: Seq<u8>, a: Seq<char>|
                other != id@ ==> final(self).stores(other, a) == old(self).stores(other, a),
    {
        let ghost pre = self.peers@;
        let mut i: usize = 0;
        while i < self.peers.len()
            invariant
                self.peers@ == pre,
                pre == old(self).peers@,
                i <= pre.len(),
                forall|a: int, b: int|
                    0 <= a < b < pre.len() ==> (#[trigger] pre[a]).0@ != (#[trigger] pre[b]).0@,
                forall|j: int| 0 <= j < i ==> (#[trigger] pre[j]).0@ != id@,
            decreases self.peers.len() - i,
        {
            if crate::strutil::bytes_eq(&self.peers[i].0, &id) {
                let ghost gi = i as int;
                proof {
                    assert(old(self).knows(id@)) by {
                        assert(pre[gi].0@ == id@);
                    }
                }
                self.peers.set(i, (id, addr));
                proof {
                    let post = self.peers@;
                    assert(post =~= pre.update(gi, post[gi]));
                    assert(post[gi].0@ == pre[gi].0@);
                    assert(self.stores(post[gi].0@, post[gi].1@));
                    assert forall|other: Seq<u8>, a: Seq<char>| other != post[gi].0@ implies
                        self.stores(other, a) == (exists|k: int|
                        0 <= k < pre.len() && (#[trigger] pre[k]).0@ == other && pre[k].1@
                            == a) by {
                        if exists|k: int|
                            0 <= k < pre.len() && (#[trigger] pre[k]).0@ == other && pre[k].1@
                                == a {
                            let k = choose|k: int|
                                0 <= k < pre.len() && (#[trigger] pre[k]).0@ == other
                                    && pre[k].1@ == a;
                            assert(post[k].0@ == other && post[k].1@ == a);
                        }
                        if self.stores(other, a) {
                            let k = choose|k: int|
                                0 <= k < post.len() && (#[trigger] post[k]).0@ == other
                                    && post[k].1@ == a;
                            assert(pre[k].0@ == other && pre[k].1@ == a);
                        }
                    }
                    assert forall|a: int, b: int| 0 <= a < b < post.len() implies (
                    #[trigger] post[a]).0@ != (#[trigger] post[b]).0@ by {
                        assert(pre[a].0@ != pre[b].0@);
                    }
                    assert forall|other: Seq<u8>| other != id@ implies self.knows(other) == (
                    exists|k: int| 0 <= k < pre.len() && (#[trigger] pre[k]).0@ == other) by {
                        if exists|k: int| 0 <= k < pre.len() && (#[trigger] pre[k]).0@ == other {
                            let k = choose|k: int|
                                0 <= k < pre.len() && (#[trigger] pre[k]).0@ == other;
                            assert(post[k].0@ == other);
                        }
                        if self.knows(other) {
                            let k = choose|k: int|
                                0 <= k < post.len() && (#[trigger] post[k]).0@ == other;
                            assert(pre[k].0@ == other);
                        }
                    }
                }
                return false;
            }
            i = i + 1;
        }
        let ghost gid = id@;
        let ghost gaddr = addr@;
        self.peers.push((id, addr));
        proof {
            let post = self.peers@;
            assert(post =~= pre.push(post[post.len() - 1]));
            assert(post[post.len() - 1].0@ == gid);
            assert(post[post.len() - 1].1@ == gaddr);
            assert(self.stores(gid, gaddr));
            assert forall|other: Seq<u8>, a: Seq<char>| other != gid implies self.stores(other, a)
                == (exists|k: int|
                0 <= k < pre.len() && (#[trigger] pre[k]).0@ == other && pre[k].1@ == a) by {
                if exists|k: int|
                    0 <= k < pre.len() && (#[trigger] pre[k]).0@ == other && pre[k].1@ == a {
                    let k = choose|k: int|
                        0 <= k < pre.len() && (#[trigger] pre[k]).0@ == other && pre[k].1@ == a;
                    assert(post[k].0@ == other && post[k].1@ == a);
                }
                if self.stores(other, a) {
                    let k = choose|k: int|
                        0 <= k < post.len() && (#[trigger] post[k]).0@ == other && post[k].1@
                            == a;
                    assert(k < pre.len());
                    assert(pre[k].0@ == other && pre[k].1@ == a);
                }
            }
            assert forall|a: int, b: int| 0 <= a < b < post.len() implies (
            #[trigger] post[a]).0@ != (#[trigger] post[b]).0@ by {
                if b < pre.len() {
                    assert(pre[a].0@ != pre[b].0@);
                } else {
                    assert(post[a].0@ == pre[a].0@);
                }
            }
            assert forall|other: Seq<u8>| other != gid implies self.knows(other) == (exists|
                k: int,
            | 0 <= k < pre.len() && (#[trigger] pre[k]).0@ == other) by {
                if exists|k: int| 0 <= k < pre.len() && (#[trigger] pre[k]).0@ == other {
                    let k = choose|k: int| 0 <= k < pre.len() && (#[trigger] pre[k]).0@ == other;
                    assert(post[k].0@ == other);
                }
                if self.knows(other) {
                    let k = choose|k: int| 0 <= k < post.len() && (#[trigger] post[k]).0@ == other;
                    assert(k < pre.len());
                    assert(pre[k].0@ == other);
                }
            }
        }
        true
    }

    /// Forget an expired peer and its address.
    pub fn expire(&mut self, id: &Vec<u8>)
        requires
            old(self).wf(),
        ensures
            final(self).wf(),
            !final(self).knows(id@),
            forall|other: Seq<u8>|
                other != id@ ==> final(self).knows(other) == old(self).knows(other),
            forall|other: Seq<u8>, a: Seq<char>|
                other != id@ ==> final(self).stores(other, a) == old(self).stores(other, a),
    {
        let ghost pre = self.peers@;
        let mut i: usize = 0;
        while i < self.peers.len()
            invariant
                self.peers@ == pre,
                pre == old(self).peers@,
                i <= pre.len(),
                forall|a: int, b: int|
                    0 <= a < b < pre.len() ==> (#[trigger] pre[a]).0@ != (#[trigger] pre[b]).0@,
                forall|j: int| 0 <= j < i ==> (#[trigger] pre[j]).0@ != id@,
            decreases self.peers.len() - i,
        {
            if crate::strutil::bytes_eq(&self.peers[i].0, id) {
                let ghost gi = i as int;
                self.peers.remove(i);
                proof {
                    let post = self.peers@;
                    assert(post =~= pre.subrange(0, gi) + pre.subrange(gi + 1, pre.len() as int));
                    assert forall|a: int, b: int| 0 <= a < b < post.len() implies (
                    #[trigger] post[a]).0@ != (#[trigger] post[b]).0@ by {
                        let fa = if a < gi { a } else { a + 1 };
                        let fb = if b < gi { b } else { b + 1 };
                        assert(post[a] == pre[fa] && post[b] == pre[fb]);
                        assert(pre[fa].0@ != pre[fb].0@);
                    }
                    assert(!self.knows(id@)) by {
                        if self.knows(id@) {
                            let a = choose|a: int|
                                0 <= a < post.len() && (#[trigger] post[a]).0@ == id@;
                            let fa = if a < gi { a } else { a + 1 };
                            assert(post[a] == pre[fa]);
                            assert(pre[gi].0@ == id@);
                            if fa != gi {
                                assert(pre[fa].0@ != pre[gi].0@);
                            }
                        }
                    }
                    assert forall|other: Seq<u8>| other != id@ implies self.knows(other) == old(
                        self,
                    ).knows(other) by {
                        if self.knows(other) {
                            let a = choose|a: int|
                                0 <= a < post.len() && (#[trigger] post[a]).0@ == other;
                            let fa = if a < gi { a } else { a + 1 };
                            assert(pre[fa].0@ == other);
                        }
                        if old(self).knows(other) {
                            let k = choose|k: int|
                                0 <= k < pre.len() && (#[trigger] pre[k]).0@ == other;
                            assert(pre[gi].0@ == id@);
                            assert(k != gi);
                            if k < gi {
                                assert(post[k].0@ == other);
                            } else {
                                assert(post[k - 1].0@ == other);
                            }
                        }
                    }
                    assert forall|other: Seq<u8>, ad: Seq<char>| other != id@ implies self.stores(
                        other,
                        ad,
                    ) == old(self).stores(other, ad) by {
                        if self.stores(other, ad) {
                            let a = choose|a: int|
                                0 <= a < post.len() && (#[trigger] post[a]).0@ == other
                                    && post[a].1@ == ad;
                            let fa = if a < gi { a } else { a + 1 };
                            assert(pre[fa].0@ == other && pre[fa].1@ == ad);
                        }
                        if old(self).stores(other, ad) {
                            let k = choose|k: int|
                                0 <= k < pre.len() && (#[trigger] pre[k]).0@ == other
                                    && pre[k].1@ == ad;
                            assert(pre[gi].0@ == id@);
                            assert(k != gi);
                            if k < gi {
                                assert(post[k].0@ == other && post[k].1@ == ad);
                            } else {
                                assert(post[k - 1].0@ == other && post[k - 1].1@ == ad);
                            }
                        }
                    }
                }
                return ;
            }
            i = i + 1;
        }
    }
}

impl PeerTracker {
    /// The last known address of a peer.
    pub fn address_of(&self, id: &Vec<u8>) -> (r: Option<String>)
        ensures
            (match r {
                Some(a) => self.stores(id@, a@),
                None => !self.knows(id@),
            }),
    {
        let mut i: usize = 0;
        while i < self.peers.len()
            invariant
                i <= self.peers@.len(),
                forall|j: int| 0 <= j < i ==> (#[trigger] self.peers@[j]).0@ != id@,
            decreases self.peers.len() - i,
        {
            if crate::strutil::bytes_eq(&self.peers[i].0, id) {
                let a = self.peers[i].1.clone();
                proof {
                    assert(self.peers@[i as int].0@ == id@ && self.peers@[i as int].1@ == a@);
                }
                return Some(a);
            }
            i = i + 1;
        }
        None
    }
}

/// Relies on `uuid::Uuid::new_v4` and `Uuid::as_u128`: a freshly
/// generated random identifier.  Nothing is promised of its value.
#[verifier::external_body]
fn fresh_op_id() -> u128 {
    uuid::Uuid::new_v4().as_u128()
}

/// Two operations that differ at most in their identifier.
pub open spec fn same_except_op_id(a: OpModel, b: OpModel) -> bool {
    a.hlc_time == b.hlc_time && a.hlc_counter == b.hlc_counter && a.node_id == b.node_id
        && a.table == b.table && a.kind == b.kind && a.primary_key == b.primary_key && a.data
        == b.data && a.columns == b.columns
}

/// Give every operation of a replayed history the identifier drawn
/// for it, so transport-level dedup caches do not swallow the replay;
/// the operations are otherwise unchanged, so the last-write-wins
/// order still recognises them.
pub fn replace_op_ids(ops: &Vec<SyncOperation>, ids: &Vec<u128>) -> (r: Vec<SyncOperation>)
    requires
        ids@.len() == ops@.len(),
    ensures
        r@.len() == ops@.len(),
        forall|i: int| 0 <= i < r@.len() ==> (#[trigger] r.deep_view()[i]).op_id == ids@[i],
        forall|i: int|
            0 <= i < r@.len() ==> same_except_op_id(
                #[trigger] r.deep_view()[i],
                ops.deep_view()[i],
            ),
{
    let mut r: Vec<SyncOperation> = Vec::new();
    let mut i: usize = 0;
    while i < ops.len()
        invariant
            i <= ops@.len(),
            ids@.len() == ops@.len(),
            r@.len() == i,
            forall|j: int| 0 <= j < i ==> (#[trigger] r.deep_view()[j]).op_id == ids@[j],
            forall|j: int|
                0 <= j < i ==> same_except_op_id(
                    #[trigger] r.deep_view()[j],
                    ops.deep_view()[j],
                ),
        decreases ops.len() - i,
    {
        let mut o = ops[i].duplicate();
        o.op_id = ids[i];
        let ghost go = o@;
        let ghost rpre = r.deep_view();
        let ghost rvpre = r@;
        r.push(o);
        proof {
            assert forall|j: int| 0 <= j < i implies #[trigger] r.deep_view()[j] == rpre[j] by {
                assert(r@[j] == rvpre[j]);
            }
            assert(r.deep_view()[i as int] == go);
            assert(ops.deep_view()[i as int] == ops@[i as int]@);
            assert(same_except_op_id(go, ops@[i as int]@));
        }
        i = i + 1;
    }
    r
}

/// Refresh the identifier of every operation in a replayed history
/// with freshly drawn random identifiers.
pub fn refresh_op_ids(ops: &Vec<SyncOperation>) -> (r: Vec<SyncOperation>)
    ensures
        r@.len() == ops@.len(),
        forall|i: int|
            0 <= i < r@.len() ==> same_except_op_id(
                #[trigger] r.deep_view()[i],
                ops.deep_view()[i],
            ),
{
    let mut ids: Vec<u128> = Vec::new();
    let mut i: usize = 0;
    while i < ops.len()
        invariant
            ids@.len() == i <= ops@.len(),
        decreases ops.len() - i,
    {
        ids.push(fresh_op_id());
        i = i + 1;
    }
    replace_op_ids(ops, &ids)
}

} // verus!