//! Last-write-wins conflict resolution.
//!
//! When a remote operation arrives it is compared against the latest
//! local operation for the same row.  The operation with the greater
//! `(hlc_time, hlc_counter, node_id)` tuple wins; the node identifier
//! is compared as a 16-byte big-endian integer, which orders the bytes
//! lexicographically.  This gives a total order over all operations,
//! so all nodes converge to the same state.

use vstd::prelude::*;

use crate::messages::{NodeId, OpModel, SyncOperation};

verus! {

/// Value of a byte sequence read as a big-endian integer.  On 16-byte
/// node identifiers this orders exactly as lexicographic byte order.
pub open spec fn node_key(s: Seq<u8>) -> int
    decreases s.len(),
{
    if s.len() == 0 {
        0
    } else {
        node_key(s.drop_last()) * 256 + s.last()
    }
}

/// 256 raised to `n`; the exclusive upper bound of [`node_key`] on
/// sequences of length `n`.
pub open spec fn pow256(n: nat) -> int
    decreases n,
{
    if n == 0 {
        1
    } else {
        pow256((n - 1) as nat) * 256
    }
}

pub proof fn lemma_node_key_bound(s: Seq<u8>)
    ensures
        0 <= node_key(s) < pow256(s.len()),
    decreases s.len(),
{
    if s.len() > 0 {
        lemma_node_key_bound(s.drop_last());
    }
}

pub proof fn lemma_pow256_pos(n: nat)
    ensures
        pow256(n) >= 1,
    decreases n,
{
    if n > 0 {
        lemma_pow256_pos((n - 1) as nat);
    }
}

pub proof fn lemma_pow256_mono(m: nat, n: nat)
    requires
        m <= n,
    ensures
        pow256(m) <= pow256(n),
    decreases n,
{
    if m < n {
        lemma_pow256_mono(m, (n - 1) as nat);
        lemma_pow256_pos((n - 1) as nat);
    }
}

proof fn lemma_pow256_16()
    ensures
        pow256(15) == 0x1000000000000000000000000000000,
        pow256(16) == 0x100000000000000000000000000000000,
{
    assert(pow256(0) == 1);
    assert(pow256(1) == 256);
    assert(pow256(2) == 0x10000);
    assert(pow256(3) == 0x1000000);
    assert(pow256(4) == 0x100000000);
    assert(pow256(5) == 0x10000000000);
    assert(pow256(6) == 0x1000000000000);
    assert(pow256(7) == 0x100000000000000);
    assert(pow256(8) == 0x10000000000000000);
    assert(pow256(9) == 0x1000000000000000000);
    assert(pow256(10) == 0x100000000000000000000);
    assert(pow256(11) == 0x10000000000000000000000);
    assert(pow256(12) == 0x1000000000000000000000000);
    assert(pow256(13) == 0x100000000000000000000000000);
    assert(pow256(14) == 0x10000000000000000000000000000);
    assert(pow256(15) == 0x1000000000000000000000000000000);
    assert(pow256(16) == 0x100000000000000000000000000000000);
}

/// Strict last-write-wins order on operation stamps: lexicographic on
/// `(hlc_time, hlc_counter, node_id)`.
pub open spec fn tuple_lt(a: OpModel, b: OpModel) -> bool {
    ||| a.hlc_time < b.hlc_time
    ||| (a.hlc_time == b.hlc_time && a.hlc_counter < b.hlc_counter)
    ||| (a.hlc_time == b.hlc_time && a.hlc_counter == b.hlc_counter && node_key(a.node_id)
        < node_key(b.node_id))
}

/// Two operations carry the same stamp.
pub open spec fn tuple_eq(a: OpModel, b: OpModel) -> bool {
    a.hlc_time == b.hlc_time && a.hlc_counter == b.hlc_counter && node_key(a.node_id) == node_key(
        b.node_id,
    )
}

/// The big-endian value of a node identifier, as a machine integer.
pub fn node_id_key(id: &NodeId) -> (k: u128)
    ensures
        k as int == node_key(id@),
{
    let mut k: u128 = 0;
    let mut i: usize = 0;
    while i < 16
        invariant
            i <= 16,
            id@.len() == 16,
            k as int == node_key(id@.subrange(0, i as int)),
        decreases 16 - i,
    {
        proof {
            lemma_node_key_bound(id@.subrange(0, i as int));
            lemma_pow256_mono(i as nat, 15);
            lemma_pow256_16();
            assert(pow256(16) == pow256(15) * 256);
        }
        k = k * 256 + (id[i] as u128);
        proof {
            let pre = id@.subrange(0, i as int);
            let post = id@.subrange(0, i as int + 1);
            assert(post.drop_last() =~= pre);
            assert(post.last() == id@[i as int]);
        }
        i = i + 1;
    }
    proof {
        assert(id@.subrange(0, 16) =~= id@);
    }
    k
}

/// Decide whether a remote operation should be applied over the local
/// state.  True when there is no local operation for the row, or when
/// the remote stamp is strictly greater than the local one; false when
/// the local operation wins or the stamps are equal (so re-delivery of
/// an operation is a no-op).
pub fn should_apply(remote: &SyncOperation, local: Option<&SyncOperation>) -> (r: bool)
    ensures
        r == match local {
            None => true,
            Some(l) => tuple_lt(l@, remote@),
        },
{
    match local {
        None => true,
        Some(l) => {
            if remote.hlc_time != l.hlc_time {
                remote.hlc_time > l.hlc_time
            } else if remote.hlc_counter != l.hlc_counter {
                remote.hlc_counter > l.hlc_counter
            } else {
                node_id_key(&remote.node_id) > node_id_key(&l.node_id)
            }
        },
    }
}

/// The last-write-wins order is total: of two stamps, either one is
/// strictly greater than the other, or they are equal — and never both
/// directions at once.  Equal stamps (in particular, one operation
/// compared against itself) fall in neither direction, so re-delivery
/// applies nothing.
pub proof fn lemma_lww_totality(a: OpModel, b: OpModel)
    ensures
        tuple_lt(a, b) || tuple_lt(b, a) || tuple_eq(a, b),
        !(tuple_lt(a, b) && tuple_lt(b, a)),
        tuple_eq(a, b) ==> !tuple_lt(a, b) && !tuple_lt(b, a),
{
}

/// Tie-break: between stamps with the same `hlc_time` and
/// `hlc_counter`, the one with the greater node identifier (big-endian,
/// i.e. lexicographic byte order) wins.
pub proof fn lemma_lww_tie_break(a: OpModel, b: OpModel)
    requires
        a.hlc_time == b.hlc_time,
        a.hlc_counter == b.hlc_counter,
        node_key(a.node_id) < node_key(b.node_id),
    ensures
        tuple_lt(a, b),
        !tuple_lt(b, a),
{
}

/// Lexicographic order on byte strings of equal length.
pub open spec fn lex_lt(a: Seq<u8>, b: Seq<u8>) -> bool
    decreases a.len(),
{
    if a.len() == 0 || b.len() == 0 {
        false
    } else if a[0] < b[0] {
        true
    } else if a[0] > b[0] {
        false
    } else {
        lex_lt(a.drop_first(), b.drop_first())
    }
}

/// A byte string's big-endian value splits at the front digit.
proof fn lemma_node_key_front(s: Seq<u8>)
    requires
        s.len() > 0,
    ensures
        node_key(s) == s[0] * pow256((s.len() - 1) as nat) + node_key(s.drop_first()),
    decreases s.len(),
{
    if s.len() == 1 {
        assert(s.drop_last() =~= Seq::<u8>::empty());
        assert(s.drop_first() =~= Seq::<u8>::empty());
    } else {
        let d = s.drop_last();
        lemma_node_key_front(d);
        assert(s.drop_first().drop_last() =~= d.drop_first());
        assert(s.drop_first().last() == s.last());
        assert(d[0] == s[0]);
        let p = pow256((d.len() - 1) as nat);
        let r = node_key(d.drop_first());
        let last = s.last() as int;
        assert(pow256((s.len() - 1) as nat) == p * 256);
        assert(node_key(s) == node_key(d) * 256 + last);
        assert(node_key(d) == s[0] * p + r);
        assert(node_key(s.drop_first()) == r * 256 + last);
        assert((s[0] * p + r) * 256 + last == s[0] * (p * 256) + (r * 256 + last))
            by (nonlinear_arith);
    }
}

/// On equal-length byte strings, comparing big-endian values is
/// exactly lexicographic comparison — so the node-identifier
/// tie-break orders the sixteen bytes lexicographically.
pub proof fn lemma_node_key_is_lex_order(a: Seq<u8>, b: Seq<u8>)
    requires
        a.len() == b.len(),
    ensures
        node_key(a) < node_key(b) <==> lex_lt(a, b),
    decreases a.len(),
{
    if a.len() > 0 {
        lemma_node_key_front(a);
        lemma_node_key_front(b);
        lemma_node_key_bound(a.drop_first());
        lemma_node_key_bound(b.drop_first());
        lemma_pow256_pos((a.len() - 1) as nat);
        let p = pow256((a.len() - 1) as nat);
        let ra = node_key(a.drop_first());
        let rb = node_key(b.drop_first());
        if a[0] < b[0] {
            assert(a[0] * p + ra < b[0] * p + rb) by (nonlinear_arith)
                requires
                    a[0] < b[0],
                    0 <= ra < p,
                    0 <= rb,
                    p >= 1,
            ;
        } else if a[0] > b[0] {
            assert(b[0] * p + rb < a[0] * p + ra) by (nonlinear_arith)
                requires
                    b[0] < a[0],
                    0 <= rb < p,
                    0 <= ra,
                    p >= 1,
            ;
        } else {
            lemma_node_key_is_lex_order(a.drop_first(), b.drop_first());
        }
    }
}

} // verus!
