//! The write interceptor and the connection builder.
//!
//! Every statement the application executes is also handed to the
//! interceptor.  If it is a write to a table that is registered for
//! replication — and not one of the crate's own reserved tables — the
//! interceptor stamps it with the clock and turns it into a
//! [`SyncOperation`] to log and broadcast, together with the
//! [`ChangeNotification`] for application subscribers.  Writes to
//! unregistered or reserved tables produce neither.

use vstd::prelude::*;
use vstd::string::StrSliceExecFns;
use vstd::utf8::encode_utf8;

use crate::classify::{spec_classify_write, classify_write, starts_with};
use crate::clock::{Hlc, stamp_lt};
use crate::messages::{ChangeNotification, NodeId, SyncOperation, WriteKind};
use crate::registry::TableRegistry;
use crate::strutil::{find_sub, str_to_chars, chars_to_string, copy_range};

verus! {

/// Tables whose name carries the crate's reserved prefix hold
/// replication bookkeeping and are never replicated themselves.
pub open spec fn reserved_table(t: Seq<char>) -> bool {
    starts_with(t, "_wavesync"@)
}

/// Whether a table name carries the reserved prefix.
pub fn is_reserved_table(table: &str) -> (r: bool)
    ensures
        r == reserved_table(table@),
{
    let s = str_to_chars(table);
    let pat = str_to_chars("_wavesync");
    if pat.len() > s.len() {
        return false;
    }
    crate::strutil::eq_at(&s, &pat, 0)
}

/// Decide whether a statement is to be replicated: it must be a
/// write, its table must not be reserved, and the table must be
/// registered at this moment.  Returns the write kind and table for
/// statements that are; nothing otherwise.
pub fn plan_dispatch(sql: &str, registry: &TableRegistry) -> (r: Option<(WriteKind, String)>)
    requires
        registry.wf(),
    ensures
        (match r {
            Some(kt) => spec_classify_write(sql@) == Some((kt.0, kt.1@)) && !reserved_table(kt.1@)
                && registry@.contains_key(kt.1@),
            None => (match spec_classify_write(sql@) {
                Some(kt2) => reserved_table(kt2.1) || !registry@.contains_key(kt2.1),
                None => true,
            }),
        }),
{
    match classify_write(sql) {
        Some((kind, table)) => {
            if is_reserved_table(table.as_str()) {
                return None;
            }
            if !registry.is_registered(table.as_str()) {
                return None;
            }
            Some((kind, table))
        },
        None => None,
    }
}

/// Assemble the operation for a replicated local write.  The payload
/// is the resolved statement itself, so a peer can execute it
/// verbatim; the row key is the one extracted from the statement.
pub fn build_sync_operation(
    op_id: u128,
    hlc_time: u64,
    hlc_counter: u32,
    node_id: NodeId,
    kind: WriteKind,
    table: &str,
    primary_key: &str,
    resolved_sql: &str,
) -> (op: SyncOperation)
    ensures
        op@.op_id == op_id,
        op@.hlc_time == hlc_time,
        op@.hlc_counter == hlc_counter,
        op@.node_id == node_id@,
        op@.table == table@,
        op@.kind == kind,
        op@.primary_key == primary_key@,
        op@.data == Some(encode_utf8(resolved_sql@)),
        op@.columns is None,
{
    let op = SyncOperation {
        op_id,
        hlc_time,
        hlc_counter,
        node_id,
        table: chars_to_string(&str_to_chars(table)),
        kind,
        primary_key: chars_to_string(&str_to_chars(primary_key)),
        data: Some(resolved_sql.as_bytes_vec()),
        columns: None,
    };
    op
}

/// Intercept one executed statement: decide whether it is replicated
/// and, if so, stamp the clock and build the operation — carrying the
/// row key the statement shows for the table's registered primary-key
/// column — and the notification to send.  Writes to unregistered
/// tables and to reserved tables produce neither an operation nor a
/// notification, and leave the clock untouched.
pub fn intercept_local_write(
    sql: &str,
    registry: &TableRegistry,
    clock: &mut Hlc,
    now: u64,
    op_id: u128,
    node_id: NodeId,
) -> (r: Option<(SyncOperation, ChangeNotification)>)
    requires
        registry.wf(),
        old(clock).last_counter < u32::MAX,
    ensures
        (match spec_classify_write(sql@) {
            Some(kt) => if !reserved_table(kt.1) && registry@.contains_key(kt.1) {
                match r {
                    Some(on) => on.0@.op_id == op_id && on.0@.node_id == node_id@ && on.0@.table
                        == kt.1 && on.0@.kind == kt.0 && on.0@.primary_key
                        == crate::rowkey::spec_row_key(
                        sql@,
                        registry@[kt.1].primary_key_column,
                        kt.0,
                    ) && on.0@.data == Some(encode_utf8(sql@)) && on.0@.columns is None
                        && on.0@.hlc_time == final(clock).last_time && on.0@.hlc_counter == final(
                        clock
                    ).last_counter && on.1.table@ == kt.1 && on.1.kind == kt.0
                        && on.1.primary_key@ == crate::rowkey::spec_row_key(
                        sql@,
                        registry@[kt.1].primary_key_column,
                        kt.0,
                    ),
                    None => false,
                }
            } else {
                r is None
            },
            None => r is None,
        }),
        r is None ==> *final(clock) == *old(clock),
        r is Some ==> stamp_lt(
            old(clock).last_time,
            old(clock).last_counter,
            final(clock).last_time,
            final(clock).last_counter,
        ),
        r is Some && now > old(clock).last_time ==> (final(clock).last_time,
        final(clock).last_counter) == (now, 0u32),
        r is Some && now <= old(clock).last_time ==> (final(clock).last_time,
        final(clock).last_counter) == (old(clock).last_time, (old(clock).last_counter + 1) as u32),
{
    match plan_dispatch(sql, registry) {
        Some((kind, table)) => {
            let meta = match registry.get(table.as_str()) {
                Some(m) => m,
                None => {
                    proof {
                        assert(false);
                    }
                    return None;
                },
            };
            let key = crate::rowkey::extract_row_key(sql, meta.primary_key_column.as_str(), kind);
            let (t, c) = clock.next_timestamp(now);
            let op = build_sync_operation(
                op_id,
                t,
                c,
                node_id,
                kind,
                table.as_str(),
                key.as_str(),
                sql,
            );
            let note = ChangeNotification {
                table,
                kind,
                primary_key: key,
            };
            Some((op, note))
        },
        None => None,
    }
}

/// `s` without its trailing `*` characters.
pub open spec fn spec_strip_stars(s: Seq<char>) -> Seq<char>
    decreases s.len(),
{
    if s.len() > 0 && s.last() == '*' {
        spec_strip_stars(s.drop_last())
    } else {
        s
    }
}

/// `s` without its trailing `::` separators.
pub open spec fn spec_strip_colons(s: Seq<char>) -> Seq<char>
    decreases s.len(),
{
    if s.len() >= 2 && s[s.len() - 2] == ':' && s.last() == ':' {
        spec_strip_colons(s.take(s.len() - 2))
    } else {
        s
    }
}

/// `s` with every hyphen replaced by an underscore, as crate names
/// appear in module paths.
pub open spec fn spec_dash_to_underscore(s: Seq<char>) -> Seq<char> {
    s.map_values(|c: char| if c == '-' { '_' } else { c })
}

/// The module-path prefix a scope argument denotes: trailing `*` and
/// `::` are stripped, and hyphens in the leading crate-name segment
/// become underscores.
pub open spec fn spec_normalize_prefix(s: Seq<char>) -> Seq<char> {
    let p = spec_strip_colons(spec_strip_stars(s));
    match crate::strutil::spec_find(p, "::"@, 0) {
        Some(k) => spec_dash_to_underscore(p.subrange(0, k)) + p.skip(k),
        None => spec_dash_to_underscore(p),
    }
}

/// Normalise a scope argument for matching against module paths.
pub fn normalize_prefix(prefix: &str) -> (r: String)
    ensures
        r@ == spec_normalize_prefix(prefix@),
{
    let s = str_to_chars(prefix);
    let n = s.len();
    proof {
        assert(s@.take(n as int) =~= s@);
    }
    let mut b: usize = n;
    while b > 0 && s[b - 1] == '*'
        invariant
            b <= n,
            n == s@.len(),
            spec_strip_stars(s@) == spec_strip_stars(s@.take(b as int)),
        decreases b,
    {
        proof {
            assert(s@.take(b as int).drop_last() =~= s@.take(b as int - 1));
        }
        b = b - 1;
    }
    let ghost stripped_stars = spec_strip_stars(s@);
    proof {
        assert(stripped_stars == s@.take(b as int));
    }
    while b >= 2 && s[b - 2] == ':' && s[b - 1] == ':'
        invariant
            b <= n,
            n == s@.len(),
            spec_strip_colons(stripped_stars) == spec_strip_colons(s@.take(b as int)),
        decreases b,
    {
        proof {
            assert(s@.take(b as int).take(b as int - 2) =~= s@.take(b as int - 2));
        }
        b = b - 2;
    }
    let p = copy_range(&s, 0, b);
    proof {
        assert(p@ == s@.subrange(0, b as int));
        assert(s@.subrange(0, b as int) =~= s@.take(b as int));
        assert(p@ == spec_strip_colons(spec_strip_stars(s@)));
    }
    let sep = str_to_chars("::");
    let cut: usize = match find_sub(&p, &sep) {
        Some(k) => {
            proof {
                crate::strutil::lemma_find_is_first(p@, sep@, 0, k as int);
            }
            k
        },
        None => p.len(),
    };
    let mut out: Vec<char> = Vec::new();
    let mut i: usize = 0;
    while i < cut
        invariant
            i <= cut <= p@.len(),
            out@.len() == i,
            forall|j: int|
                0 <= j < i ==> out@[j] == (if p@[j] == '-' {
                    '_'
                } else {
                    p@[j]
                }),
        decreases cut - i,
    {
        let c = p[i];
        if c == '-' {
            out.push('_');
        } else {
            out.push(c);
        }
        i = i + 1;
    }
    let mut k: usize = cut;
    while k < p.len()
        invariant
            cut <= k <= p@.len(),
            out@.len() == k,
            forall|j: int|
                0 <= j < cut ==> out@[j] == (if p@[j] == '-' {
                    '_'
                } else {
                    p@[j]
                }),
            forall|j: int| cut <= j < k ==> out@[j] == p@[j],
        decreases p.len() - k,
    {
        out.push(p[k]);
        k = k + 1;
    }
    proof {
        if cut < p@.len() {
            assert(out@ =~= spec_dash_to_underscore(p@.subrange(0, cut as int)) + p@.skip(
                cut as int,
            ));
        } else {
            assert(out@ =~= spec_dash_to_underscore(p@));
            assert(p@.skip(cut as int) =~= Seq::<char>::empty());
        }
    }
    chars_to_string(&out)
}

/// Whether an entity's scope path falls under a normalised prefix.
pub fn scope_matches(scope: &str, prefix: &str) -> (r: bool)
    ensures
        r == starts_with(scope@, spec_normalize_prefix(prefix@)),
{
    let norm = normalize_prefix(prefix);
    let m = str_to_chars(scope);
    let pv = str_to_chars(norm.as_str());
    if pv.len() > m.len() {
        return false;
    }
    crate::strutil::eq_at(&m, &pv, 0)
}

/// Settings for a replicated connection, before it is opened.
#[derive(Debug)]
pub struct WaveSyncDbBuilder {
    /// URL of the local store.
    pub database_url: String,
    /// Fixed node identifier, if the application chose one.
    pub node_id: Option<NodeId>,
    /// Address of a relay server, if one is configured.
    pub relay_server: Option<String>,
    /// The replication group this node joins.
    pub topic: String,
}

impl WaveSyncDbBuilder {
    /// Start building a replicated connection to `url`, joining the
    /// replication group named by `topic`.
    pub fn new(url: &str, topic: &str) -> (r: WaveSyncDbBuilder)
        ensures
            r.database_url@ == url@,
            r.node_id is None,
            r.relay_server is None,
            r.topic@ == topic@,
    {
        WaveSyncDbBuilder {
            database_url: chars_to_string(&str_to_chars(url)),
            node_id: None,
            relay_server: None,
            topic: chars_to_string(&str_to_chars(topic)),
        }
    }

    /// Fix the node identifier instead of deriving one at startup.
    pub fn with_node_id(self, id: NodeId) -> (r: WaveSyncDbBuilder)
        ensures
            r.node_id == Some(id),
            r.database_url@ == self.database_url@,
            r.relay_server == self.relay_server,
            r.topic@ == self.topic@,
    {
        WaveSyncDbBuilder { node_id: Some(id), ..self }
    }

    /// Configure a relay server for reaching peers behind NAT.
    pub fn with_relay_server(self, addr: &str) -> (r: WaveSyncDbBuilder)
        ensures
            r.relay_server matches Some(a) && a@ == addr@,
            r.database_url@ == self.database_url@,
            r.node_id == self.node_id,
            r.topic@ == self.topic@,
    {
        WaveSyncDbBuilder { relay_server: Some(chars_to_string(&str_to_chars(addr))), ..self }
    }
}

/// Derive a node identifier from the process id and a clock reading:
/// the four bytes of the process id, the eight bytes of the reading
/// (both little-endian), then three zero bytes and a final one — so
/// the identifier is never zero, as a node identifier must not be.
pub fn derive_node_id(pid: u32, nanos: u64) -> (r: NodeId)
    ensures
        r@.subrange(0, 4) == vstd::bytes::spec_u32_to_le_bytes(pid),
        r@.subrange(4, 12) == vstd::bytes::spec_u64_to_le_bytes(nanos),
        r@.subrange(12, 16) == seq![0u8, 0u8, 0u8, 1u8],
        crate::conflict::node_key(r@) != 0,
{
    let p = vstd::bytes::u32_to_le_bytes(pid);
    let q = vstd::bytes::u64_to_le_bytes(nanos);
    let id: NodeId = [
        p[0],
        p[1],
        p[2],
        p[3],
        q[0],
        q[1],
        q[2],
        q[3],
        q[4],
        q[5],
        q[6],
        q[7],
        0u8,
        0u8,
        0u8,
        1u8,
    ];
    proof {
        crate::conflict::lemma_node_key_bound(id@.drop_last());
        assert(id@.last() == 1);
        assert(crate::conflict::node_key(id@) == crate::conflict::node_key(id@.drop_last()) * 256
            + 1);
        vstd::bytes::lemma_auto_spec_u32_to_from_le_bytes();
        vstd::bytes::lemma_auto_spec_u64_to_from_le_bytes();
        assert(id@.subrange(0, 4) =~= vstd::bytes::spec_u32_to_le_bytes(pid));
        assert(id@.subrange(4, 12) =~= vstd::bytes::spec_u64_to_le_bytes(nanos));
        assert(id@.subrange(12, 16) =~= seq![0u8, 0u8, 0u8, 1u8]);
    }
    id
}

} // verus!
