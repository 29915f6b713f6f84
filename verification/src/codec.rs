//! The wire form of a [`SyncOperation`].
//!
//! Operations travel between peers in a fixed binary layout: the
//! operation id (16 bytes), the clock stamp (8 + 4 bytes), the node
//! id (16 bytes), then the table name, the write kind (one byte), the
//! row key, the optional payload and the optional column list.  All
//! multi-byte integers are little-endian; strings and byte strings
//! are length-prefixed with a 32-bit length; an optional field starts
//! with a presence byte.  Decoding accepts exactly the encodings this
//! module produces: whatever decodes re-encodes to the same bytes.

use vstd::prelude::*;
use vstd::bytes::{
    spec_u128_from_le_bytes, spec_u128_to_le_bytes, spec_u32_from_le_bytes, spec_u32_to_le_bytes,
    spec_u64_from_le_bytes, spec_u64_to_le_bytes,
    u128_from_le_bytes,
    u128_to_le_bytes, u32_from_le_bytes, u32_to_le_bytes, u64_from_le_bytes, u64_to_le_bytes,
    lemma_auto_spec_u128_to_from_le_bytes, lemma_auto_spec_u32_to_from_le_bytes,
    lemma_auto_spec_u64_to_from_le_bytes,
};
use vstd::string::StrSliceExecFns;
use vstd::utf8::{decode_utf8, encode_utf8, valid_utf8};

use crate::messages::{NodeId, OpModel, SyncOperation, WriteKind};

verus! {

/// The byte standing for a write kind.
pub open spec fn kind_byte(k: WriteKind) -> u8 {
    match k {
        WriteKind::Insert => 0,
        WriteKind::Update => 1,
        WriteKind::Delete => 2,
    }
}

/// A length-prefixed byte string: four little-endian length bytes,
/// then the bytes themselves.
pub open spec fn lp(b: Seq<u8>) -> Seq<u8> {
    spec_u32_to_le_bytes(b.len() as u32) + b
}

/// The wire form of an optional byte string: a presence byte, then
/// the length-prefixed bytes when present.
pub open spec fn opt_bytes(d: Option<Seq<u8>>) -> Seq<u8> {
    match d {
        None => seq![0u8],
        Some(b) => seq![1u8] + lp(b),
    }
}

/// The wire form of a column list: each name length-prefixed, in
/// order.
pub open spec fn cols_bytes(cs: Seq<Seq<char>>) -> Seq<u8>
    decreases cs.len(),
{
    if cs.len() == 0 {
        Seq::empty()
    } else {
        cols_bytes(cs.drop_last()) + lp(encode_utf8(cs.last()))
    }
}

/// The wire form of an optional column list: a presence byte, then
/// the count and the names.
pub open spec fn opt_cols(cs: Option<Seq<Seq<char>>>) -> Seq<u8> {
    match cs {
        None => seq![0u8],
        Some(c) => seq![1u8] + spec_u32_to_le_bytes(c.len() as u32) + cols_bytes(c),
    }
}

/// Whether an operation fits the wire layout: every length-prefixed
/// part must fit its 32-bit length field.
pub open spec fn encodable(m: OpModel) -> bool {
    &&& m.node_id.len() == 16
    &&& encode_utf8(m.table).len() <= u32::MAX
    &&& encode_utf8(m.primary_key).len() <= u32::MAX
    &&& (m.data matches Some(d) ==> d.len() <= u32::MAX)
    &&& (m.columns matches Some(cs) ==> cs.len() <= u32::MAX && (forall|i: int|
        0 <= i < cs.len() ==> encode_utf8(#[trigger] cs[i]).len() <= u32::MAX))
}

/// The wire form of an operation.
pub open spec fn spec_encode(m: OpModel) -> Seq<u8> {
    spec_u128_to_le_bytes(m.op_id) + spec_u64_to_le_bytes(m.hlc_time) + spec_u32_to_le_bytes(
        m.hlc_counter,
    ) + m.node_id + lp(encode_utf8(m.table)) + seq![kind_byte(m.kind)] + lp(
        encode_utf8(m.primary_key),
    ) + opt_bytes(m.data) + opt_cols(m.columns)
}

/// Append all bytes of `piece` to `out`.
fn push_bytes(out: &mut Vec<u8>, piece: &Vec<u8>)
    ensures
        final(out)@ == old(out)@ + piece@,
{
    let mut k: usize = 0;
    while k < piece.len()
        invariant
            k <= piece@.len(),
            out@ =~= old(out)@ + piece@.subrange(0, k as int),
        decreases piece.len() - k,
    {
        out.push(piece[k]);
        k = k + 1;
    }
    proof {
        assert(out@ =~= old(out)@ + piece@);
    }
}

/// Append a length-prefixed byte string to `out`.
fn push_lp(out: &mut Vec<u8>, piece: &Vec<u8>)
    requires
        piece@.len() <= u32::MAX,
    ensures
        final(out)@ == old(out)@ + lp(piece@),
{
    let len_bytes = u32_to_le_bytes(piece.len() as u32);
    push_bytes(out, &len_bytes);
    push_bytes(out, piece);
    proof {
        assert(out@ =~= old(out)@ + lp(piece@));
    }
}

/// Encode an operation into its wire form.
#[verifier::rlimit(100)]
pub fn encode_op(op: &SyncOperation) -> (r: Vec<u8>)
    requires
        encodable(op@),
    ensures
        r@ == spec_encode(op@),
{
    let mut out: Vec<u8> = Vec::new();
    let id_bytes = u128_to_le_bytes(op.op_id);
    push_bytes(&mut out, &id_bytes);
    let time_bytes = u64_to_le_bytes(op.hlc_time);
    push_bytes(&mut out, &time_bytes);
    let counter_bytes = u32_to_le_bytes(op.hlc_counter);
    push_bytes(&mut out, &counter_bytes);
    let mut k: usize = 0;
    let ghost mid = out@;
    while k < 16
        invariant
            k <= 16,
            op@.node_id.len() == 16,
            out@ =~= mid + op@.node_id.subrange(0, k as int),
        decreases 16 - k,
    {
        out.push(op.node_id[k]);
        k = k + 1;
    }
    proof {
        assert(out@ =~= mid + op@.node_id);
    }
    let table_bytes = op.table.as_str().as_bytes_vec();
    push_lp(&mut out, &table_bytes);
    let kb: u8 = match op.kind {
        WriteKind::Insert => 0,
        WriteKind::Update => 1,
        WriteKind::Delete => 2,
    };
    out.push(kb);
    let pk_bytes = op.primary_key.as_str().as_bytes_vec();
    push_lp(&mut out, &pk_bytes);
    match &op.data {
        None => {
            out.push(0u8);
        },
        Some(d) => {
            out.push(1u8);
            push_lp(&mut out, d);
        },
    }
    match &op.columns {
        None => {
            out.push(0u8);
            proof {
                assert(out@ =~= spec_encode(op@));
            }
        },
        Some(cols) => {
            out.push(1u8);
            let count_bytes = u32_to_le_bytes(cols.len() as u32);
            push_bytes(&mut out, &count_bytes);
            let ghost cs = op@.columns->0;
            let ghost base = out@;
            let mut ci: usize = 0;
            while ci < cols.len()
                invariant
                    ci <= cols@.len(),
                    cs == cols.deep_view(),
                    cs.len() == cols@.len(),
                    forall|i: int|
                        0 <= i < cs.len() ==> encode_utf8(#[trigger] cs[i]).len() <= u32::MAX,
                    out@ =~= base + cols_bytes(cs.subrange(0, ci as int)),
                decreases cols.len() - ci,
            {
                let cb = cols[ci].as_str().as_bytes_vec();
                proof {
                    assert(cols@[ci as int]@ == cs[ci as int]);
                    assert(cs.subrange(0, ci as int + 1).drop_last() =~= cs.subrange(
                        0,
                        ci as int,
                    ));
                    assert(cs.subrange(0, ci as int + 1).last() == cs[ci as int]);
                }
                push_lp(&mut out, &cb);
                ci = ci + 1;
            }
            proof {
                assert(cs.subrange(0, cs.len() as int) =~= cs);
                assert(out@ =~= spec_encode(op@));
            }
        },
    }
    out
}

/// The bytes of `v` between `a` (inclusive) and `b` (exclusive).
fn byte_range(v: &Vec<u8>, a: usize, b: usize) -> (r: Vec<u8>)
    requires
        a <= b <= v@.len(),
    ensures
        r@ == v@.subrange(a as int, b as int),
{
    let mut r: Vec<u8> = Vec::new();
    let mut i: usize = a;
    while i < b
        invariant
            a <= i <= b <= v@.len(),
            r@ =~= v@.subrange(a as int, i as int),
        decreases b - i,
    {
        r.push(v[i]);
        i = i + 1;
    }
    proof {
        assert(r@ =~= v@.subrange(a as int, b as int));
    }
    r
}

/// Relies on `String::from_utf8`: it succeeds exactly on valid UTF-8
/// input and returns the string those bytes spell.
#[verifier::external_body]
pub(crate) fn bytes_to_string(v: Vec<u8>) -> (r: Option<String>)
    ensures
        r is Some <==> valid_utf8(v@),
        (r matches Some(s) ==> s@ == decode_utf8(v@)),
{
    match String::from_utf8(v) {
        Ok(s) => Some(s),
        Err(_) => None,
    }
}

/// The node identifier standing at `pos` in `v`.
fn take_node_id(v: &Vec<u8>, pos: usize) -> (r: NodeId)
    requires
        pos + 16 <= v@.len(),
    ensures
        r@ =~= v@.subrange(pos as int, pos as int + 16),
{
    let n = v.len();
    let r: NodeId = [
        v[pos],
        v[pos + 1],
        v[pos + 2],
        v[pos + 3],
        v[pos + 4],
        v[pos + 5],
        v[pos + 6],
        v[pos + 7],
        v[pos + 8],
        v[pos + 9],
        v[pos + 10],
        v[pos + 11],
        v[pos + 12],
        v[pos + 13],
        v[pos + 14],
        v[pos + 15],
    ];
    proof {
        assert(r@ =~= v@.subrange(pos as int, pos as int + 16));
    }
    r
}

/// What reading a length-prefixed byte string at `pos` yields: the
/// bytes and the position after them, or nothing when the length
/// field is missing or runs past the end.
pub open spec fn spec_read_lp(b: Seq<u8>, pos: int) -> Option<(Seq<u8>, int)> {
    if pos < 0 || b.len() - pos < 4 {
        None
    } else {
        let l = spec_u32_from_le_bytes(b.subrange(pos, pos + 4)) as int;
        if l > b.len() - pos - 4 {
            None
        } else {
            Some((b.subrange(pos + 4, pos + 4 + l), pos + 4 + l))
        }
    }
}

/// Read a length-prefixed byte string standing at `pos`.
fn read_lp(bytes: &Vec<u8>, pos: usize) -> (r: Option<(Vec<u8>, usize)>)
    requires
        pos <= bytes@.len(),
    ensures
        (match r {
            Some(dp) => spec_read_lp(bytes@, pos as int) == Some((dp.0@, dp.1 as int))
                && dp.0@.len() <= u32::MAX && pos + 4 + dp.0@.len() == dp.1 <= bytes@.len()
                && bytes@.subrange(pos as int, dp.1 as int) == lp(dp.0@),
            None => spec_read_lp(bytes@, pos as int) is None,
        }),
{
    let n = bytes.len();
    if n - pos < 4 {
        return None;
    }
    let lenv = byte_range(bytes, pos, pos + 4);
    let l32 = u32_from_le_bytes(lenv.as_slice());
    let l = l32 as usize;
    if l > n - (pos + 4) {
        return None;
    }
    let data = byte_range(bytes, pos + 4, pos + 4 + l);
    proof {
        lemma_auto_spec_u32_to_from_le_bytes();
        assert(spec_u32_to_le_bytes(l32) == bytes@.subrange(pos as int, pos as int + 4));
        assert(bytes@.subrange(pos as int, pos as int + 4 + l) =~= bytes@.subrange(
            pos as int,
            pos as int + 4,
        ) + bytes@.subrange(pos as int + 4, pos as int + 4 + l));
    }
    Some((data, pos + 4 + l))
}


/// What reading `count` length-prefixed strings at `pos` yields: the
/// decoded names and the position after them, or nothing when a
/// length field fails or a name is not valid UTF-8.
pub open spec fn spec_read_cols(b: Seq<u8>, pos: int, count: int) -> Option<(Seq<Seq<char>>, int)>
    decreases count,
{
    if count <= 0 {
        Some((Seq::empty(), pos))
    } else {
        match spec_read_lp(b, pos) {
            None => None,
            Some(cq) => if !valid_utf8(cq.0) {
                None
            } else {
                match spec_read_cols(b, cq.1, count - 1) {
                    None => None,
                    Some(rq) => Some((seq![decode_utf8(cq.0)] + rq.0, rq.1)),
                }
            },
        }
    }
}

/// Read `count` length-prefixed strings standing at `pos`.
fn read_cols(bytes: &Vec<u8>, pos: usize, count: usize) -> (r: Option<(Vec<String>, usize)>)
    requires
        pos <= bytes@.len(),
        count <= u32::MAX,
    ensures
        (match r {
            Some(cp) => spec_read_cols(bytes@, pos as int, count as int) == Some(
                (cp.0.deep_view(), cp.1 as int),
            ) && cp.0@.len() == count && pos <= cp.1 <= bytes@.len() && bytes@.subrange(
                pos as int,
                cp.1 as int,
            ) == cols_bytes(cp.0.deep_view()) && (forall|i: int|
                0 <= i < count ==> encode_utf8(#[trigger] cp.0.deep_view()[i]).len()
                    <= u32::MAX),
            None => spec_read_cols(bytes@, pos as int, count as int) is None,
        }),
{
    let n = bytes.len();
    let mut cols: Vec<String> = Vec::new();
    let mut q: usize = pos;
    let mut ci: usize = 0;
    proof {
        assert(cols.deep_view() =~= Seq::<Seq<char>>::empty());
        assert(bytes@.subrange(pos as int, q as int) =~= cols_bytes(cols.deep_view()));
        if spec_read_cols(bytes@, pos as int, count as int) is Some {
            let rq = spec_read_cols(bytes@, pos as int, count as int)->0;
            assert(Seq::<Seq<char>>::empty() + rq.0 =~= rq.0);
        }
    }
    while ci < count
        invariant
            ci <= count,
            cols@.len() == ci,
            pos <= q <= n,
            n == bytes@.len(),
            bytes@.subrange(pos as int, q as int) == cols_bytes(cols.deep_view()),
            forall|i: int|
                0 <= i < cols.deep_view().len() ==> encode_utf8(
                    #[trigger] cols.deep_view()[i],
                ).len() <= u32::MAX,
            spec_read_cols(bytes@, pos as int, count as int) == (match spec_read_cols(
                bytes@,
                q as int,
                count - ci,
            ) {
                Some(rq) => Some((cols.deep_view() + rq.0, rq.1)),
                None => None::<(Seq<Seq<char>>, int)>,
            }),
        decreases count - ci,
    {
        let (cb, q2) = match read_lp(bytes, q) {
            Some(x) => x,
            None => {
                return None;
            },
        };
        let ghost cb_raw = cb@;
        let cs = match bytes_to_string(cb) {
            Some(s) => s,
            None => {
                return None;
            },
        };
        let ghost pre_cols = cols.deep_view();
        cols.push(cs);
        proof {
            vstd::utf8::decode_utf8_encode_utf8(cb_raw);
            assert(cols.deep_view() =~= pre_cols.push(cs@));
            assert(cols.deep_view().drop_last() =~= pre_cols);
            assert(bytes@.subrange(pos as int, q2 as int) =~= bytes@.subrange(
                pos as int,
                q as int,
            ) + bytes@.subrange(q as int, q2 as int));
            assert(bytes@.subrange(pos as int, q2 as int) == cols_bytes(cols.deep_view()));
            if spec_read_cols(bytes@, q2 as int, count - ci - 1) is Some {
                let rq = spec_read_cols(bytes@, q2 as int, count - ci - 1)->0;
                assert(pre_cols + (seq![cs@] + rq.0) =~= cols.deep_view() + rq.0);
            }
        }
        q = q2;
        ci = ci + 1;
    }
    proof {
        assert(cols.deep_view() + Seq::<Seq<char>>::empty() =~= cols.deep_view());
    }
    Some((cols, q))
}


/// Read the fixed-width head: operation id, clock stamp, node id.
fn decode_fixed(bytes: &Vec<u8>) -> (r: (u128, u64, u32, NodeId))
    requires
        bytes@.len() >= 44,
    ensures
        bytes@.subrange(0, 44) == spec_u128_to_le_bytes(r.0) + spec_u64_to_le_bytes(r.1)
            + spec_u32_to_le_bytes(r.2) + r.3@,
        bytes@.subrange(0, 16) == spec_u128_to_le_bytes(r.0),
        bytes@.subrange(16, 24) == spec_u64_to_le_bytes(r.1),
        bytes@.subrange(24, 28) == spec_u32_to_le_bytes(r.2),
        bytes@.subrange(28, 44) == r.3@,
        r.3@.len() == 16,
{
    let op_id = u128_from_le_bytes(byte_range(bytes, 0, 16).as_slice());
    let hlc_time = u64_from_le_bytes(byte_range(bytes, 16, 24).as_slice());
    let hlc_counter = u32_from_le_bytes(byte_range(bytes, 24, 28).as_slice());
    let node_id = take_node_id(bytes, 28);
    proof {
        lemma_auto_spec_u128_to_from_le_bytes();
        lemma_auto_spec_u64_to_from_le_bytes();
        lemma_auto_spec_u32_to_from_le_bytes();
        assert(bytes@.subrange(0, 44) =~= spec_u128_to_le_bytes(op_id) + spec_u64_to_le_bytes(
            hlc_time,
        ) + spec_u32_to_le_bytes(hlc_counter) + node_id@);
        assert(bytes@.subrange(0, 16) =~= spec_u128_to_le_bytes(op_id));
        assert(bytes@.subrange(16, 24) =~= spec_u64_to_le_bytes(hlc_time));
        assert(bytes@.subrange(24, 28) =~= spec_u32_to_le_bytes(hlc_counter));
        assert(bytes@.subrange(28, 44) =~= node_id@);
    }
    (op_id, hlc_time, hlc_counter, node_id)
}

/// Assembling the components in order yields the wire form.
proof fn lemma_decode_stitch(
    bytes: Seq<u8>,
    m: OpModel,
    p1: int,
    p2: int,
    p3: int,
    p4: int,
    p5: int,
)
    requires
        44 <= p1 <= p2 <= p3 <= p4 <= p5 == bytes.len(),
        bytes.subrange(0, 44) == spec_u128_to_le_bytes(m.op_id) + spec_u64_to_le_bytes(m.hlc_time)
            + spec_u32_to_le_bytes(m.hlc_counter) + m.node_id,
        bytes.subrange(44, p1) == lp(encode_utf8(m.table)),
        bytes.subrange(p1, p2) == seq![kind_byte(m.kind)],
        bytes.subrange(p2, p3) == lp(encode_utf8(m.primary_key)),
        bytes.subrange(p3, p4) == opt_bytes(m.data),
        bytes.subrange(p4, p5) == opt_cols(m.columns),
    ensures
        bytes == spec_encode(m),
{
    assert(bytes =~= bytes.subrange(0, 44) + bytes.subrange(44, p1) + bytes.subrange(p1, p2)
        + bytes.subrange(p2, p3) + bytes.subrange(p3, p4) + bytes.subrange(p4, p5));
}

/// What decoding a wire form yields: the operation read field by
/// field, or nothing when any field is missing, runs past the end,
/// spells invalid UTF-8, or leaves trailing bytes.
pub open spec fn spec_decode(b: Seq<u8>) -> Option<OpModel> {
    if b.len() < 44 {
        None
    } else {
        match spec_read_lp(b, 44) {
            None => None,
            Some(tq) => if !valid_utf8(tq.0) {
                None
            } else {
                let p1 = tq.1;
                if p1 >= b.len() {
                    None
                } else if b[p1] != 0u8 && b[p1] != 1u8 && b[p1] != 2u8 {
                    None
                } else {
                    let kind = if b[p1] == 0u8 {
                        WriteKind::Insert
                    } else if b[p1] == 1u8 {
                        WriteKind::Update
                    } else {
                        WriteKind::Delete
                    };
                    match spec_read_lp(b, p1 + 1) {
                        None => None,
                        Some(pq) => if !valid_utf8(pq.0) {
                            None
                        } else {
                            let p3 = pq.1;
                            if p3 >= b.len() {
                                None
                            } else {
                                spec_decode_tail(b, tq.0, kind, pq.0, p3)
                            }
                        },
                    }
                }
            },
        }
    }
}

/// The optional payload and column list of a wire form, read from the
/// payload presence byte at `p3` on.
pub open spec fn spec_decode_tail(
    b: Seq<u8>,
    tb: Seq<u8>,
    kind: WriteKind,
    pkb: Seq<u8>,
    p3: int,
) -> Option<OpModel> {
    let dstep: Option<(Option<Seq<u8>>, int)> = if b[p3] == 0u8 {
        Some((None, p3 + 1))
    } else if b[p3] == 1u8 {
        match spec_read_lp(b, p3 + 1) {
            None => None,
            Some(dq) => Some((Some(dq.0), dq.1)),
        }
    } else {
        None
    };
    match dstep {
        None => None,
        Some(dp) => {
            let p4 = dp.1;
            if p4 >= b.len() {
                None
            } else {
                let cstep: Option<(Option<Seq<Seq<char>>>, int)> = if b[p4] == 0u8 {
                    Some((None, p4 + 1))
                } else if b[p4] == 1u8 {
                    if b.len() - (p4 + 1) < 4 {
                        None
                    } else {
                        match spec_read_cols(
                            b,
                            p4 + 5,
                            spec_u32_from_le_bytes(b.subrange(p4 + 1, p4 + 5)) as int,
                        ) {
                            None => None,
                            Some(rq) => Some((Some(rq.0), rq.1)),
                        }
                    }
                } else {
                    None
                };
                match cstep {
                    None => None,
                    Some(cp) => if cp.1 != b.len() {
                        None
                    } else {
                        Some(
                            OpModel {
                                op_id: spec_u128_from_le_bytes(b.subrange(0, 16)),
                                hlc_time: spec_u64_from_le_bytes(b.subrange(16, 24)),
                                hlc_counter: spec_u32_from_le_bytes(b.subrange(24, 28)),
                                node_id: b.subrange(28, 44),
                                table: decode_utf8(tb),
                                kind,
                                primary_key: decode_utf8(pkb),
                                data: dp.0,
                                columns: cp.0,
                            },
                        )
                    },
                }
            }
        },
    }
}

/// Decoding inverts encoding: the wire form of any operation that
/// fits the layout decodes to that operation.
pub proof fn lemma_spec_decode_of_encoding(m: OpModel)
    requires
        encodable(m),
    ensures
        spec_decode(spec_encode(m)) == Some(m),
{
    let b = spec_encode(m);
    lemma_encode_shape(m, b);
    lemma_auto_spec_u128_to_from_le_bytes();
    lemma_auto_spec_u64_to_from_le_bytes();
    lemma_auto_spec_u32_to_from_le_bytes();
    vstd::utf8::encode_utf8_decode_utf8(m.table);
    vstd::utf8::encode_utf8_decode_utf8(m.primary_key);
    assert(b[pos_kind(m)] == kind_byte(m.kind));
    match m.kind {
        WriteKind::Insert => {},
        WriteKind::Update => {},
        WriteKind::Delete => {},
    }
    match spec_decode(b) {
        Some(d) => {
            assert(d =~~= m);
        },
        None => {
            assert(false);
        },
    }
}

/// Input that does not decode is no operation's encoding.
proof fn lemma_decode_none_rejects(b: Seq<u8>)
    requires
        spec_decode(b) is None,
    ensures
        forall|m: OpModel| encodable(m) ==> b != spec_encode(m),
{
    assert forall|m: OpModel| encodable(m) implies b != spec_encode(m) by {
        if b == spec_encode(m) {
            lemma_spec_decode_of_encoding(m);
        }
    }
}

/// Decode an operation from its wire form.  Decoding accepts exactly
/// the encodings this module produces: what decodes is the operation
/// whose encoding is the input — the result re-encodes to the same
/// bytes — and decoding fails only on input that is no operation's
/// encoding.
#[verifier::rlimit(100)]
pub fn decode_op(bytes: &Vec<u8>) -> (r: Option<SyncOperation>)
    ensures
        (match r {
            Some(op) => spec_decode(bytes@) == Some(op@) && encodable(op@) && bytes@
                == spec_encode(op@),
            None => spec_decode(bytes@) is None && (forall|m: OpModel|
                encodable(m) ==> bytes@ != spec_encode(m)),
        }),
{
    let n = bytes.len();
    if n < 44 {
        proof {
            lemma_decode_none_rejects(bytes@);
        }
        return None;
    }
    let (op_id, hlc_time, hlc_counter, node_id) = decode_fixed(bytes);
    let (table_bytes, p1) = match read_lp(bytes, 44) {
        Some(x) => x,
        None => {
            proof {
                lemma_decode_none_rejects(bytes@);
            }
            return None;
        },
    };
    let ghost table_raw = table_bytes@;
    let table = match bytes_to_string(table_bytes) {
        Some(s) => s,
        None => {
            proof {
                lemma_decode_none_rejects(bytes@);
            }
            return None;
        },
    };
    proof {
        vstd::utf8::decode_utf8_encode_utf8(table_raw);
    }
    if p1 >= n {
        proof {
            lemma_decode_none_rejects(bytes@);
        }
        return None;
    }
    let kb = bytes[p1];
    let kind: WriteKind = if kb == 0 {
        WriteKind::Insert
    } else if kb == 1 {
        WriteKind::Update
    } else if kb == 2 {
        WriteKind::Delete
    } else {
        proof {
            lemma_decode_none_rejects(bytes@);
        }
        return None;
    };
    let p2 = p1 + 1;
    proof {
        assert(bytes@.subrange(p1 as int, p2 as int) =~= seq![kind_byte(kind)]);
    }
    let (pk_bytes, p3) = match read_lp(bytes, p2) {
        Some(x) => x,
        None => {
            proof {
                lemma_decode_none_rejects(bytes@);
            }
            return None;
        },
    };
    let ghost pk_raw = pk_bytes@;
    let primary_key = match bytes_to_string(pk_bytes) {
        Some(s) => s,
        None => {
            proof {
                lemma_decode_none_rejects(bytes@);
            }
            return None;
        },
    };
    proof {
        vstd::utf8::decode_utf8_encode_utf8(pk_raw);
    }
    if p3 >= n {
        proof {
            lemma_decode_none_rejects(bytes@);
        }
        return None;
    }
    let dflag = bytes[p3];
    let mut p4: usize = p3 + 1;
    let data: Option<Vec<u8>>;
    if dflag == 0 {
        data = None;
    } else if dflag == 1 {
        let (dv, q) = match read_lp(bytes, p4) {
            Some(x) => x,
            None => {
                proof {
                    lemma_decode_none_rejects(bytes@);
                }
                return None;
            },
        };
        data = Some(dv);
        p4 = q;
    } else {
        proof {
            lemma_decode_none_rejects(bytes@);
        }
        return None;
    }
    let ghost dm: Option<Seq<u8>> = match &data {
        Some(dv) => Some(dv@),
        None => None,
    };
    proof {
        if dflag == 0 {
            assert(bytes@.subrange(p3 as int, p4 as int) =~= seq![0u8]);
        } else {
            assert(bytes@.subrange(p3 as int, p4 as int) =~= seq![1u8] + bytes@.subrange(
                p3 as int + 1,
                p4 as int,
            ));
        }
        assert(bytes@.subrange(p3 as int, p4 as int) == opt_bytes(dm));
    }
    if p4 >= n {
        proof {
            lemma_decode_none_rejects(bytes@);
        }
        return None;
    }
    let cflag = bytes[p4];
    let columns: Option<Vec<String>>;
    let mut p5: usize = p4 + 1;
    let ghost cstart = p4 + 1;
    if cflag == 0 {
        columns = None;
    } else if cflag == 1 {
        if n - p5 < 4 {
            proof {
                lemma_decode_none_rejects(bytes@);
            }
            return None;
        }
        let count32 = u32_from_le_bytes(byte_range(bytes, p5, p5 + 4).as_slice());
        let count = count32 as usize;
        proof {
            lemma_auto_spec_u32_to_from_le_bytes();
            assert(spec_u32_to_le_bytes(count32) == bytes@.subrange(p5 as int, p5 as int + 4));
        }
        let (cols, q) = match read_cols(bytes, p5 + 4, count) {
            Some(x) => x,
            None => {
                proof {
                    lemma_decode_none_rejects(bytes@);
                }
                return None;
            },
        };
        columns = Some(cols);
        p5 = q;
    } else {
        proof {
            lemma_decode_none_rejects(bytes@);
        }
        return None;
    }
    let ghost cm: Option<Seq<Seq<char>>> = match &columns {
        Some(cv) => Some(cv.deep_view()),
        None => None,
    };
    proof {
        if cflag == 0 {
            assert(bytes@.subrange(p4 as int, p5 as int) =~= seq![0u8]);
        } else {
            assert(bytes@.subrange(p4 as int, p5 as int) =~= seq![1u8] + bytes@.subrange(
                cstart as int,
                cstart as int + 4,
            ) + bytes@.subrange(cstart as int + 4, p5 as int));
        }
        assert(bytes@.subrange(p4 as int, p5 as int) == opt_cols(cm));
    }
    if p5 != n {
        proof {
            lemma_decode_none_rejects(bytes@);
        }
        return None;
    }
    let op = SyncOperation {
        op_id,
        hlc_time,
        hlc_counter,
        node_id,
        table,
        kind,
        primary_key,
        data,
        columns,
    };
    proof {
        lemma_decode_stitch(
            bytes@,
            op@,
            p1 as int,
            p2 as int,
            p3 as int,
            p4 as int,
            p5 as int,
        );
        lemma_auto_spec_u128_to_from_le_bytes();
        lemma_auto_spec_u64_to_from_le_bytes();
        lemma_auto_spec_u32_to_from_le_bytes();
        match spec_decode(bytes@) {
            Some(d) => {
                assert(d =~~= op@);
            },
            None => {
                assert(false);
            },
        }
    }
    Some(op)
}

/// Equal-length prefixes of equal concatenations agree, and so do the
/// remainders.
proof fn lemma_concat_split(x1: Seq<u8>, y1: Seq<u8>, x2: Seq<u8>, y2: Seq<u8>)
    requires
        x1 + y1 == x2 + y2,
        x1.len() == x2.len(),
    ensures
        x1 == x2,
        y1 == y2,
{
    assert forall|i: int| 0 <= i < x1.len() implies x1[i] == x2[i] by {
        assert((x1 + y1)[i] == x1[i]);
        assert((x2 + y2)[i] == x2[i]);
    }
    assert(x1 =~= x2);
    assert((x1 + y1).len() == x1.len() + y1.len());
    assert((x2 + y2).len() == x2.len() + y2.len());
    assert(y1.len() == y2.len());
    assert forall|i: int| 0 <= i < y1.len() implies y1[i] == y2[i] by {
        assert((x1 + y1)[x1.len() + i] == y1[i]);
        assert((x2 + y2)[x2.len() + i] == y2[i]);
    }
    assert(y1 =~= y2);
}

/// Two length-prefixed fields at the head of equal byte strings are
/// equal, and so is what follows them.
proof fn lemma_lp_split(b1: Seq<u8>, t1: Seq<u8>, b2: Seq<u8>, t2: Seq<u8>)
    requires
        lp(b1) + t1 == lp(b2) + t2,
        b1.len() <= u32::MAX,
        b2.len() <= u32::MAX,
    ensures
        b1 == b2,
        t1 == t2,
{
    lemma_auto_spec_u32_to_from_le_bytes();
    assert(lp(b1) + t1 =~= spec_u32_to_le_bytes(b1.len() as u32) + (b1 + t1));
    assert(lp(b2) + t2 =~= spec_u32_to_le_bytes(b2.len() as u32) + (b2 + t2));
    lemma_concat_split(
        spec_u32_to_le_bytes(b1.len() as u32),
        b1 + t1,
        spec_u32_to_le_bytes(b2.len() as u32),
        b2 + t2,
    );
    assert(b1.len() as u32 == b2.len() as u32);
    assert(b1.len() == b2.len());
    lemma_concat_split(b1, t1, b2, t2);
}

/// A column list reads from the front one length-prefixed name at a
/// time.
proof fn lemma_cols_bytes_front(cs: Seq<Seq<char>>)
    requires
        cs.len() > 0,
    ensures
        cols_bytes(cs) == lp(encode_utf8(cs[0])) + cols_bytes(cs.drop_first()),
    decreases cs.len(),
{
    if cs.len() == 1 {
        assert(cs.drop_last() =~= Seq::<Seq<char>>::empty());
        assert(cs.drop_first() =~= Seq::<Seq<char>>::empty());
        assert(cols_bytes(cs) =~= lp(encode_utf8(cs[0])) + cols_bytes(cs.drop_first()));
    } else {
        let dl = cs.drop_last();
        lemma_cols_bytes_front(dl);
        assert(cs.drop_first().drop_last() =~= dl.drop_first());
        assert(cs.drop_first().last() == cs.last());
        assert(dl[0] == cs[0]);
        assert(cols_bytes(cs.drop_first()) == cols_bytes(dl.drop_first()) + lp(
            encode_utf8(cs.last()),
        ));
        assert(cols_bytes(cs) =~= lp(encode_utf8(cs[0])) + cols_bytes(cs.drop_first()));
    }
}

/// Column lists of equal length with equal wire form are equal.
proof fn lemma_cols_bytes_injective(c1: Seq<Seq<char>>, c2: Seq<Seq<char>>)
    requires
        cols_bytes(c1) == cols_bytes(c2),
        c1.len() == c2.len(),
        forall|i: int| 0 <= i < c1.len() ==> encode_utf8(#[trigger] c1[i]).len() <= u32::MAX,
        forall|i: int| 0 <= i < c2.len() ==> encode_utf8(#[trigger] c2[i]).len() <= u32::MAX,
    ensures
        c1 == c2,
    decreases c1.len(),
{
    if c1.len() == 0 {
        assert(c1 =~= c2);
    } else {
        lemma_cols_bytes_front(c1);
        lemma_cols_bytes_front(c2);
        lemma_lp_split(
            encode_utf8(c1[0]),
            cols_bytes(c1.drop_first()),
            encode_utf8(c2[0]),
            cols_bytes(c2.drop_first()),
        );
        vstd::utf8::encode_utf8_decode_utf8(c1[0]);
        vstd::utf8::encode_utf8_decode_utf8(c2[0]);
        assert(c1[0] == c2[0]);
        assert forall|i: int|
            0 <= i < c1.drop_first().len() implies encode_utf8(
            #[trigger] c1.drop_first()[i]).len() <= u32::MAX by {
            assert(c1.drop_first()[i] == c1[i + 1]);
        }
        assert forall|i: int|
            0 <= i < c2.drop_first().len() implies encode_utf8(
            #[trigger] c2.drop_first()[i]).len() <= u32::MAX by {
            assert(c2.drop_first()[i] == c2[i + 1]);
        }
        lemma_cols_bytes_injective(c1.drop_first(), c2.drop_first());
        assert(c1 =~= seq![c1[0]] + c1.drop_first());
        assert(c2 =~= seq![c2[0]] + c2.drop_first());
    }
}

/// The wire form determines the operation: two operations with the
/// same encoding are the same.  Together with the contracts of
/// [`encode_op`] and [`decode_op`] this makes the codec exact —
/// whatever decodes is precisely the operation that was encoded.
#[verifier::rlimit(100)]
pub proof fn lemma_encode_injective(a: OpModel, b: OpModel)
    requires
        encodable(a),
        encodable(b),
        spec_encode(a) == spec_encode(b),
    ensures
        a =~~= b,
{
    lemma_auto_spec_u128_to_from_le_bytes();
    lemma_auto_spec_u64_to_from_le_bytes();
    lemma_auto_spec_u32_to_from_le_bytes();
    let ra = lp(encode_utf8(a.table)) + (seq![kind_byte(a.kind)] + (lp(encode_utf8(a.primary_key))
        + (opt_bytes(a.data) + opt_cols(a.columns))));
    let rb = lp(encode_utf8(b.table)) + (seq![kind_byte(b.kind)] + (lp(encode_utf8(b.primary_key))
        + (opt_bytes(b.data) + opt_cols(b.columns))));
    assert(spec_encode(a) =~= spec_u128_to_le_bytes(a.op_id) + (spec_u64_to_le_bytes(a.hlc_time)
        + (spec_u32_to_le_bytes(a.hlc_counter) + (a.node_id + ra))));
    assert(spec_encode(b) =~= spec_u128_to_le_bytes(b.op_id) + (spec_u64_to_le_bytes(b.hlc_time)
        + (spec_u32_to_le_bytes(b.hlc_counter) + (b.node_id + rb))));
    lemma_concat_split(
        spec_u128_to_le_bytes(a.op_id),
        spec_u64_to_le_bytes(a.hlc_time) + (spec_u32_to_le_bytes(a.hlc_counter) + (a.node_id
            + ra)),
        spec_u128_to_le_bytes(b.op_id),
        spec_u64_to_le_bytes(b.hlc_time) + (spec_u32_to_le_bytes(b.hlc_counter) + (b.node_id
            + rb)),
    );
    lemma_concat_split(
        spec_u64_to_le_bytes(a.hlc_time),
        spec_u32_to_le_bytes(a.hlc_counter) + (a.node_id + ra),
        spec_u64_to_le_bytes(b.hlc_time),
        spec_u32_to_le_bytes(b.hlc_counter) + (b.node_id + rb),
    );
    lemma_concat_split(
        spec_u32_to_le_bytes(a.hlc_counter),
        a.node_id + ra,
        spec_u32_to_le_bytes(b.hlc_counter),
        b.node_id + rb,
    );
    lemma_concat_split(a.node_id, ra, b.node_id, rb);
    lemma_lp_split(
        encode_utf8(a.table),
        seq![kind_byte(a.kind)] + (lp(encode_utf8(a.primary_key)) + (opt_bytes(a.data) + opt_cols(
            a.columns,
        ))),
        encode_utf8(b.table),
        seq![kind_byte(b.kind)] + (lp(encode_utf8(b.primary_key)) + (opt_bytes(b.data) + opt_cols(
            b.columns,
        ))),
    );
    vstd::utf8::encode_utf8_decode_utf8(a.table);
    vstd::utf8::encode_utf8_decode_utf8(b.table);
    lemma_concat_split(
        seq![kind_byte(a.kind)],
        lp(encode_utf8(a.primary_key)) + (opt_bytes(a.data) + opt_cols(a.columns)),
        seq![kind_byte(b.kind)],
        lp(encode_utf8(b.primary_key)) + (opt_bytes(b.data) + opt_cols(b.columns)),
    );
    assert(kind_byte(a.kind) == kind_byte(b.kind)) by {
        assert(seq![kind_byte(a.kind)][0] == kind_byte(a.kind));
    }
    assert(a.kind == b.kind);
    lemma_lp_split(
        encode_utf8(a.primary_key),
        opt_bytes(a.data) + opt_cols(a.columns),
        encode_utf8(b.primary_key),
        opt_bytes(b.data) + opt_cols(b.columns),
    );
    vstd::utf8::encode_utf8_decode_utf8(a.primary_key);
    vstd::utf8::encode_utf8_decode_utf8(b.primary_key);
    match (a.data, b.data) {
        (None, None) => {
            lemma_concat_split(seq![0u8], opt_cols(a.columns), seq![0u8], opt_cols(b.columns));
        },
        (Some(d1), Some(d2)) => {
            assert(opt_bytes(a.data) + opt_cols(a.columns) =~= seq![1u8] + (lp(d1) + opt_cols(
                a.columns,
            )));
            assert(opt_bytes(b.data) + opt_cols(b.columns) =~= seq![1u8] + (lp(d2) + opt_cols(
                b.columns,
            )));
            lemma_concat_split(
                seq![1u8],
                lp(d1) + opt_cols(a.columns),
                seq![1u8],
                lp(d2) + opt_cols(b.columns),
            );
            lemma_lp_split(d1, opt_cols(a.columns), d2, opt_cols(b.columns));
        },
        (None, Some(d2)) => {
            assert((opt_bytes(a.data) + opt_cols(a.columns))[0] == 0u8);
            assert(opt_bytes(b.data) + opt_cols(b.columns) =~= seq![1u8] + (lp(d2) + opt_cols(
                b.columns,
            )));
            assert((opt_bytes(b.data) + opt_cols(b.columns))[0] == 1u8);
        },
        (Some(d1), None) => {
            assert(opt_bytes(a.data) + opt_cols(a.columns) =~= seq![1u8] + (lp(d1) + opt_cols(
                a.columns,
            )));
            assert((opt_bytes(a.data) + opt_cols(a.columns))[0] == 1u8);
            assert((opt_bytes(b.data) + opt_cols(b.columns))[0] == 0u8);
        },
    }
    assert(opt_cols(a.columns) == opt_cols(b.columns));
    match (a.columns, b.columns) {
        (None, None) => {},
        (Some(c1), Some(c2)) => {
            assert(opt_cols(a.columns) =~= seq![1u8] + (spec_u32_to_le_bytes(c1.len() as u32)
                + cols_bytes(c1)));
            assert(opt_cols(b.columns) =~= seq![1u8] + (spec_u32_to_le_bytes(c2.len() as u32)
                + cols_bytes(c2)));
            lemma_concat_split(
                seq![1u8],
                spec_u32_to_le_bytes(c1.len() as u32) + cols_bytes(c1),
                seq![1u8],
                spec_u32_to_le_bytes(c2.len() as u32) + cols_bytes(c2),
            );
            lemma_concat_split(
                spec_u32_to_le_bytes(c1.len() as u32),
                cols_bytes(c1),
                spec_u32_to_le_bytes(c2.len() as u32),
                cols_bytes(c2),
            );
            assert(c1.len() as u32 == c2.len() as u32);
            assert(c1.len() == c2.len());
            lemma_cols_bytes_injective(c1, c2);
        },
        (None, Some(c2)) => {
            assert(opt_cols(a.columns)[0] == 0u8);
            assert(opt_cols(b.columns) =~= seq![1u8] + (spec_u32_to_le_bytes(c2.len() as u32)
                + cols_bytes(c2)));
            assert(opt_cols(b.columns)[0] == 1u8);
        },
        (Some(c1), None) => {
            assert(opt_cols(a.columns) =~= seq![1u8] + (spec_u32_to_le_bytes(c1.len() as u32)
                + cols_bytes(c1)));
            assert(opt_cols(a.columns)[0] == 1u8);
            assert(opt_cols(b.columns)[0] == 0u8);
        },
    }
}

/// Reading at a position where a length-prefixed field stands yields
/// exactly that field.
proof fn lemma_read_lp_at(b: Seq<u8>, pos: int, x: Seq<u8>)
    requires
        0 <= pos,
        pos + 4 + x.len() <= b.len(),
        x.len() <= u32::MAX,
        b.subrange(pos, pos + 4 + x.len()) == lp(x),
    ensures
        spec_read_lp(b, pos) == Some((x, pos + 4 + x.len())),
{
    lemma_auto_spec_u32_to_from_le_bytes();
    assert(b.subrange(pos, pos + 4) =~= lp(x).subrange(0, 4));
    assert(lp(x).subrange(0, 4) =~= spec_u32_to_le_bytes(x.len() as u32));
    assert(spec_u32_from_le_bytes(b.subrange(pos, pos + 4)) == x.len() as u32);
    assert(b.subrange(pos + 4, pos + 4 + x.len()) =~= lp(x).subrange(4, lp(x).len() as int));
    assert(lp(x).subrange(4, lp(x).len() as int) =~= x);
}

/// Reading at a position where an encoded column list stands yields
/// exactly that list and ends right after it.
proof fn lemma_read_cols_at(b: Seq<u8>, pos: int, cs: Seq<Seq<char>>)
    requires
        0 <= pos,
        pos + cols_bytes(cs).len() <= b.len(),
        b.subrange(pos, pos + cols_bytes(cs).len()) == cols_bytes(cs),
        forall|i: int| 0 <= i < cs.len() ==> encode_utf8(#[trigger] cs[i]).len() <= u32::MAX,
    ensures
        spec_read_cols(b, pos, cs.len() as int) == Some((cs, pos + cols_bytes(cs).len())),
    decreases cs.len(),
{
    if cs.len() == 0 {
        assert(cols_bytes(cs).len() == 0);
        assert(spec_read_cols(b, pos, 0) == Some((Seq::<Seq<char>>::empty(), pos)));
        assert(Seq::<Seq<char>>::empty() =~= cs);
    } else {
        lemma_cols_bytes_front(cs);
        lemma_auto_spec_u32_to_from_le_bytes();
        let x = encode_utf8(cs[0]);
        let rest = cs.drop_first();
        assert(cols_bytes(cs) == lp(x) + cols_bytes(rest));
        assert(lp(x).len() == 4 + x.len());
        assert(cols_bytes(cs).len() == 4 + x.len() + cols_bytes(rest).len());
        assert(b.subrange(pos, pos + 4 + x.len()) =~= (lp(x) + cols_bytes(rest)).subrange(
            0,
            4 + x.len() as int,
        ));
        assert((lp(x) + cols_bytes(rest)).subrange(0, 4 + x.len() as int) =~= lp(x));
        lemma_read_lp_at(b, pos, x);
        vstd::utf8::encode_utf8_valid_utf8(cs[0]);
        vstd::utf8::encode_utf8_decode_utf8(cs[0]);
        let q = pos + 4 + x.len();
        assert(b.subrange(q, q + cols_bytes(rest).len()) =~= (lp(x) + cols_bytes(rest)).subrange(
            4 + x.len() as int,
            cols_bytes(cs).len() as int,
        ));
        assert((lp(x) + cols_bytes(rest)).subrange(4 + x.len() as int, cols_bytes(cs).len() as int)
            =~= cols_bytes(rest));
        assert forall|i: int| 0 <= i < rest.len() implies encode_utf8(
            #[trigger] rest[i]).len() <= u32::MAX by {
            assert(rest[i] == cs[i + 1]);
        }
        lemma_read_cols_at(b, q, rest);
        assert(seq![decode_utf8(x)] + rest =~= cs);
    }
}

/// Where the write kind stands in the wire form.
pub open spec fn pos_kind(m: OpModel) -> int {
    48 + encode_utf8(m.table).len() as int
}

/// Where the payload presence byte stands in the wire form.
pub open spec fn pos_dflag(m: OpModel) -> int {
    pos_kind(m) + 5 + encode_utf8(m.primary_key).len() as int
}

/// Where the column-list presence byte stands in the wire form.
pub open spec fn pos_cflag(m: OpModel) -> int {
    pos_dflag(m) + (match m.data {
        None => 1,
        Some(d) => 5 + d.len() as int,
    })
}

/// How the wire form of an operation reads back, piece by piece: each
/// field stands at its computed position and reads as itself.
#[verifier::rlimit(100)]
proof fn lemma_encode_shape(m: OpModel, bytes: Seq<u8>)
    requires
        encodable(m),
        bytes == spec_encode(m),
    ensures
        bytes.len() >= 55,
        bytes.subrange(0, 16) == spec_u128_to_le_bytes(m.op_id),
        bytes.subrange(16, 24) == spec_u64_to_le_bytes(m.hlc_time),
        bytes.subrange(24, 28) == spec_u32_to_le_bytes(m.hlc_counter),
        bytes.subrange(28, 44) == m.node_id,
        spec_read_lp(bytes, 44) == Some((encode_utf8(m.table), pos_kind(m))),
        valid_utf8(encode_utf8(m.table)),
        0 <= pos_kind(m) < bytes.len(),
        bytes[pos_kind(m)] == kind_byte(m.kind),
        spec_read_lp(bytes, pos_kind(m) + 1) == Some((encode_utf8(m.primary_key), pos_dflag(m))),
        valid_utf8(encode_utf8(m.primary_key)),
        pos_dflag(m) < bytes.len(),
        bytes[pos_dflag(m)] == (match m.data {
            None => 0u8,
            Some(_) => 1u8,
        }),
        (m.data matches Some(d) ==> spec_read_lp(bytes, pos_dflag(m) + 1) == Some(
            (d, pos_cflag(m)),
        )),
        pos_cflag(m) < bytes.len(),
        bytes[pos_cflag(m)] == (match m.columns {
            None => 0u8,
            Some(_) => 1u8,
        }),
        (m.columns matches Some(cs) ==> pos_cflag(m) + 5 <= bytes.len()
            && spec_u32_from_le_bytes(bytes.subrange(pos_cflag(m) + 1, pos_cflag(m) + 5))
            == cs.len() as u32 && spec_read_cols(bytes, pos_cflag(m) + 5, cs.len() as int)
            == Some((cs, bytes.len() as int))),
        (m.columns is None ==> pos_cflag(m) + 1 == bytes.len()),
{
    lemma_auto_spec_u128_to_from_le_bytes();
    lemma_auto_spec_u64_to_from_le_bytes();
    lemma_auto_spec_u32_to_from_le_bytes();
    let head = spec_u128_to_le_bytes(m.op_id) + spec_u64_to_le_bytes(m.hlc_time)
        + spec_u32_to_le_bytes(m.hlc_counter) + m.node_id;
    let tb = encode_utf8(m.table);
    let pkb = encode_utf8(m.primary_key);
    let ob = opt_bytes(m.data);
    let oc = opt_cols(m.columns);
    assert(head.len() == 44);
    assert(bytes =~= head + lp(tb) + seq![kind_byte(m.kind)] + lp(pkb) + ob + oc);
    assert(bytes.len() == 44 + (4 + tb.len()) + 1 + (4 + pkb.len()) + ob.len() + oc.len());
    assert(ob.len() >= 1 && oc.len() >= 1);
    vstd::utf8::encode_utf8_valid_utf8(m.table);
    vstd::utf8::encode_utf8_valid_utf8(m.primary_key);
    assert(bytes.subrange(0, 16) =~= spec_u128_to_le_bytes(m.op_id));
    assert(bytes.subrange(16, 24) =~= spec_u64_to_le_bytes(m.hlc_time));
    assert(bytes.subrange(24, 28) =~= spec_u32_to_le_bytes(m.hlc_counter));
    assert(bytes.subrange(28, 44) =~= m.node_id);
    assert(bytes.subrange(44, 48 + tb.len() as int) =~= lp(tb));
    lemma_read_lp_at(bytes, 44, tb);
    assert(bytes[pos_kind(m)] == kind_byte(m.kind));
    assert(bytes.subrange(pos_kind(m) + 1, pos_kind(m) + 5 + pkb.len() as int) =~= lp(pkb));
    lemma_read_lp_at(bytes, pos_kind(m) + 1, pkb);
    match m.data {
        None => {
            assert(ob =~= seq![0u8]);
            assert(bytes[pos_dflag(m)] == 0u8);
        },
        Some(d) => {
            assert(ob =~= seq![1u8] + lp(d));
            assert(bytes[pos_dflag(m)] == 1u8);
            assert(bytes.subrange(pos_dflag(m) + 1, pos_dflag(m) + 5 + d.len() as int) =~= lp(d));
            lemma_read_lp_at(bytes, pos_dflag(m) + 1, d);
        },
    }
    match m.columns {
        None => {
            assert(oc =~= seq![0u8]);
            assert(bytes[pos_cflag(m)] == 0u8);
            assert(pos_cflag(m) + 1 == bytes.len());
        },
        Some(cs) => {
            assert(oc =~= seq![1u8] + spec_u32_to_le_bytes(cs.len() as u32) + cols_bytes(cs));
            assert(bytes[pos_cflag(m)] == 1u8);
            assert(bytes.subrange(pos_cflag(m) + 1, pos_cflag(m) + 5) =~= spec_u32_to_le_bytes(
                cs.len() as u32,
            ));
            let cstart = pos_cflag(m) + 5;
            assert(bytes.subrange(cstart, cstart + cols_bytes(cs).len()) =~= cols_bytes(cs));
            assert(cstart + cols_bytes(cs).len() == bytes.len());
            lemma_read_cols_at(bytes, cstart, cs);
        },
    }
}

/// Decide whether an operation fits the wire layout, so a caller can
/// test [`encodable`] before encoding.
pub fn is_encodable(op: &SyncOperation) -> (r: bool)
    ensures
        r == encodable(op@),
{
    let umax = u32::MAX as usize;
    if op.table.as_str().as_bytes_vec().len() > umax {
        return false;
    }
    if op.primary_key.as_str().as_bytes_vec().len() > umax {
        return false;
    }
    match &op.data {
        Some(d) => {
            if d.len() > umax {
                return false;
            }
        },
        None => {},
    }
    match &op.columns {
        Some(cols) => {
            if cols.len() > umax {
                return false;
            }
            let mut i: usize = 0;
            while i < cols.len()
                invariant
                    i <= cols@.len(),
                    umax == u32::MAX as usize,
                    op@.columns == Some(cols.deep_view()),
                    encodable(op@) == (forall|j: int|
                        0 <= j < cols.deep_view().len() ==> encode_utf8(
                            #[trigger] cols.deep_view()[j],
                        ).len() <= u32::MAX),
                    forall|j: int|
                        0 <= j < i ==> encode_utf8(#[trigger] cols.deep_view()[j]).len()
                            <= u32::MAX,
                decreases cols.len() - i,
            {
                if cols[i].as_str().as_bytes_vec().len() > umax {
                    proof {
                        assert(cols.deep_view()[i as int] == cols@[i as int]@);
                    }
                    return false;
                }
                proof {
                    assert(cols.deep_view()[i as int] == cols@[i as int]@);
                }
                i = i + 1;
            }
        },
        None => {},
    }
    true
}

} // verus!
