//! The per-row operation history and the replica state it defines.
//!
//! Every operation a node originates or accepts is recorded in its
//! operation log, keyed by operation id so that replay is harmless.
//! The log answers the two questions replication needs: which
//! operation last won a given row, and which operations happened
//! after a given clock time.  A [`Replica`] wraps the log with the
//! last-write-wins apply rule; its laws state that re-delivery is a
//! no-op and that two replicas that received the same operations in
//! any order agree on every row.

use vstd::prelude::*;
use vstd::seq_lib::group_to_multiset_ensures;

use crate::conflict::{node_id_key, should_apply, tuple_eq, tuple_lt};
use crate::messages::{OpModel, SyncOperation};
use crate::registry::str_eq_string;

verus! {

/// Whether an operation touches the given row.
pub open spec fn on_row(o: OpModel, table: Seq<char>, pk: Seq<char>) -> bool {
    o.table == table && o.primary_key == pk
}

/// The operation that won a row after the operations of `s` were
/// delivered in order: the last delivered operation that beat every
/// earlier one on that row.
pub open spec fn seq_winner(s: Seq<OpModel>, table: Seq<char>, pk: Seq<char>) -> Option<OpModel>
    decreases s.len(),
{
    if s.len() == 0 {
        None
    } else {
        let w = seq_winner(s.drop_last(), table, pk);
        let o = s.last();
        if on_row(o, table, pk) {
            match w {
                None => Some(o),
                Some(p) => if tuple_lt(p, o) {
                    Some(o)
                } else {
                    Some(p)
                },
            }
        } else {
            w
        }
    }
}

/// The winner of a row is an operation on that row, delivered, and at
/// least as great as every delivered operation on the row; there is
/// no winner exactly when no operation touched the row.
pub proof fn lemma_winner_characterize(s: Seq<OpModel>, table: Seq<char>, pk: Seq<char>)
    ensures
        (match seq_winner(s, table, pk) {
            Some(w) => on_row(w, table, pk) && s.contains(w) && (forall|i: int|
                0 <= i < s.len() && on_row(#[trigger] s[i], table, pk) ==> !tuple_lt(w, s[i])),
            None => forall|i: int| 0 <= i < s.len() ==> !on_row(#[trigger] s[i], table, pk),
        }),
    decreases s.len(),
{
    if s.len() > 0 {
        let d = s.drop_last();
        lemma_winner_characterize(d, table, pk);
        assert(forall|i: int| 0 <= i < d.len() ==> d[i] == s[i]);
        match seq_winner(s, table, pk) {
            Some(w) => {
                assert(s.last() == s[s.len() - 1]);
                match seq_winner(d, table, pk) {
                    Some(p) => {
                        let j = choose|j: int| 0 <= j < d.len() && d[j] == p;
                        assert(s[j] == p);
                        crate::conflict::lemma_lww_totality(p, s.last());
                    },
                    None => {},
                }
            },
            None => {},
        }
    }
}

/// All stamps in `s` are distinct: two delivered operations with the
/// same `(hlc_time, hlc_counter, node_id)` stamp are the same
/// operation.
pub open spec fn distinct_stamps(s: Seq<OpModel>) -> bool {
    forall|i: int, j: int|
        0 <= i < s.len() && 0 <= j < s.len() && tuple_eq(#[trigger] s[i], #[trigger] s[j]) ==> s[i]
            == s[j]
}

/// Convergence: two nodes that received the same multiset of
/// operations — in any order — agree on the winner of every row,
/// provided stamps are distinct (as hybrid logical clocks guarantee).
pub proof fn lemma_convergence(a: Seq<OpModel>, b: Seq<OpModel>, table: Seq<char>, pk: Seq<char>)
    requires
        a.to_multiset() == b.to_multiset(),
        distinct_stamps(a),
    ensures
        seq_winner(a, table, pk) == seq_winner(b, table, pk),
{
    broadcast use group_to_multiset_ensures;

    lemma_winner_characterize(a, table, pk);
    lemma_winner_characterize(b, table, pk);
    match seq_winner(a, table, pk) {
        Some(wa) => {
            match seq_winner(b, table, pk) {
                Some(wb) => {
                    assert(a.to_multiset().count(wa) > 0);
                    assert(b.contains(wa));
                    assert(b.to_multiset().count(wb) > 0);
                    assert(a.contains(wb));
                    let i = choose|i: int| 0 <= i < b.len() && b[i] == wa;
                    assert(!tuple_lt(wb, wa));
                    let j = choose|j: int| 0 <= j < a.len() && a[j] == wb;
                    assert(!tuple_lt(wa, wb));
                    crate::conflict::lemma_lww_totality(wa, wb);
                    let ia = choose|ia: int| 0 <= ia < a.len() && a[ia] == wa;
                    assert(tuple_eq(a[ia], a[j]));
                    assert(wa == wb);
                },
                None => {
                    assert(b.to_multiset().count(wa) > 0);
                    assert(b.contains(wa));
                    let i = choose|i: int| 0 <= i < b.len() && b[i] == wa;
                    assert(false);
                },
            }
        },
        None => {
            match seq_winner(b, table, pk) {
                Some(wb) => {
                    assert(b.to_multiset().count(wb) > 0);
                    assert(a.contains(wb));
                    let j = choose|j: int| 0 <= j < a.len() && a[j] == wb;
                    assert(false);
                },
                None => {},
            }
        },
    }
}

/// Once an operation is delivered, re-delivering it never wins: the
/// row's winner is at least as great, so the apply rule drops it.
pub proof fn lemma_idempotent_redelivery(s: Seq<OpModel>, o: OpModel)
    ensures
        (match seq_winner(s.push(o), o.table, o.primary_key) {
            Some(w) => !tuple_lt(w, o),
            None => false,
        }),
{
    let p = s.push(o);
    assert(p.drop_last() =~= s);
    assert(p.last() == o);
    lemma_winner_characterize(p, o.table, o.primary_key);
    match seq_winner(p, o.table, o.primary_key) {
        Some(w) => {
            assert(p.contains(o)) by {
                assert(p[p.len() - 1] == o);
            }
            assert(!tuple_lt(w, o));
        },
        None => {
            assert(on_row(p[p.len() - 1], o.table, o.primary_key));
        },
    }
}

/// The durable per-row operation history, keyed by operation id.
pub struct OpLog {
    ops: Vec<SyncOperation>,
}

impl OpLog {
    /// The recorded operations, in insertion order.
    pub closed spec fn ops_model(&self) -> Seq<OpModel> {
        self.ops.deep_view()
    }

    /// Operation ids are unique within the log.
    pub closed spec fn wf(&self) -> bool {
        forall|i: int, j: int|
            0 <= i < j < self.ops_model().len() ==> (#[trigger] self.ops_model()[i]).op_id != (
            #[trigger] self.ops_model()[j]).op_id
    }

    /// An empty log.
    pub fn new() -> (r: OpLog)
        ensures
            r.wf(),
            r.ops_model() == Seq::<OpModel>::empty(),
    {
        let r = OpLog { ops: Vec::new() };
        proof {
            assert(r.ops_model() =~= Seq::<OpModel>::empty());
        }
        r
    }

    /// How many operations the log holds.
    pub fn len(&self) -> (r: usize)
        ensures
            r == self.ops_model().len(),
    {
        self.ops.len()
    }

    /// Record an operation, replacing any record with the same
    /// operation id — so replaying a delivery is harmless.
    pub fn insert_op(&mut self, op: SyncOperation)
        requires
            old(self).wf(),
        ensures
            final(self).wf(),
            final(self).ops_model().contains(op@),
            forall|o: OpModel|
                #[trigger] final(self).ops_model().contains(o) ==> o == op@ || (old(
                    self
                ).ops_model().contains(o) && o.op_id != op@.op_id),
            forall|o: OpModel|
                #[trigger] old(self).ops_model().contains(o) && o.op_id != op@.op_id ==> final(
                    self
                ).ops_model().contains(o),
    {
        let ghost pre = self.ops.deep_view();
        let mut i: usize = 0;
        while i < self.ops.len()
            invariant
                self.ops.deep_view() == pre,
                pre == old(self).ops_model(),
                i <= pre.len(),
                forall|a: int, b: int|
                    0 <= a < b < pre.len() ==> (#[trigger] pre[a]).op_id != (
                    #[trigger] pre[b]).op_id,
                forall|j: int| 0 <= j < i ==> (#[trigger] pre[j]).op_id != op@.op_id,
            decreases self.ops.len() - i,
        {
            if self.ops[i].op_id == op.op_id {
                let ghost gi = i as int;
                self.ops.set(i, op);
                proof {
                    let post = self.ops.deep_view();
                    assert(post =~= pre.update(gi, op@));
                    assert(post[gi] == op@);
                    assert(post.contains(op@)) by {
                        assert(post[gi] == op@);
                    }
                    assert forall|o: OpModel| #[trigger] post.contains(o) implies o == op@ || (
                    pre.contains(o) && o.op_id != op@.op_id) by {
                        let k = choose|k: int| 0 <= k < post.len() && post[k] == o;
                        if k != gi {
                            assert(pre[k] == o);
                            assert(pre[gi].op_id == op@.op_id);
                            assert(pre[k].op_id != pre[gi].op_id);
                        }
                    }
                    assert forall|o: OpModel| #[trigger] pre.contains(o) && o.op_id != op@.op_id
                        implies post.contains(o) by {
                        let k = choose|k: int| 0 <= k < pre.len() && pre[k] == o;
                        assert(pre[gi].op_id == op@.op_id);
                        assert(k != gi);
                        assert(post[k] == o);
                    }
                }
                return ;
            }
            i = i + 1;
        }
        self.ops.push(op);
        proof {
            let post = self.ops.deep_view();
            assert(post =~= pre.push(op@));
            assert(post[post.len() - 1] == op@);
            assert forall|o: OpModel| #[trigger] post.contains(o) implies o == op@ || (
            pre.contains(o) && o.op_id != op@.op_id) by {
                let k = choose|k: int| 0 <= k < post.len() && post[k] == o;
                if k < pre.len() {
                    assert(pre[k] == o);
                }
            }
            assert forall|o: OpModel| #[trigger] pre.contains(o) && o.op_id != op@.op_id implies
                post.contains(o) by {
                let k = choose|k: int| 0 <= k < pre.len() && pre[k] == o;
                assert(post[k] == o);
            }
        }
    }

    /// The greatest operation recorded for a row, by the
    /// last-write-wins order; nothing when the row has no history.
    pub fn get_latest_for_row(&self, table: &str, pk: &str) -> (r: Option<SyncOperation>)
        ensures
            (match r {
                Some(m) => self.ops_model().contains(m@) && on_row(m@, table@, pk@) && (forall|
                    i: int,
                |
                    0 <= i < self.ops_model().len() && on_row(
                        #[trigger] self.ops_model()[i],
                        table@,
                        pk@,
                    ) ==> !tuple_lt(m@, self.ops_model()[i])),
                None => forall|i: int|
                    0 <= i < self.ops_model().len() ==> !on_row(
                        #[trigger] self.ops_model()[i],
                        table@,
                        pk@,
                    ),
            }),
    {
        let mut best: Option<usize> = None;
        let mut i: usize = 0;
        while i < self.ops.len()
            invariant
                i <= self.ops_model().len(),
                self.ops_model().len() == self.ops@.len(),
                (match best {
                    Some(bi) => bi < i && on_row(self.ops_model()[bi as int], table@, pk@) && (
                    forall|j: int|
                        0 <= j < i && on_row(#[trigger] self.ops_model()[j], table@, pk@)
                            ==> !tuple_lt(self.ops_model()[bi as int], self.ops_model()[j])),
                    None => forall|j: int|
                        0 <= j < i ==> !on_row(#[trigger] self.ops_model()[j], table@, pk@),
                }),
            decreases self.ops.len() - i,
        {
            let o = &self.ops[i];
            if str_eq_string(&o.table, table) && str_eq_string(&o.primary_key, pk) {
                match best {
                    None => {
                        best = Some(i);
                    },
                    Some(bi) => {
                        let b = &self.ops[bi];
                        let wins = if o.hlc_time != b.hlc_time {
                            o.hlc_time > b.hlc_time
                        } else if o.hlc_counter != b.hlc_counter {
                            o.hlc_counter > b.hlc_counter
                        } else {
                            node_id_key(&o.node_id) > node_id_key(&b.node_id)
                        };
                        if wins {
                            best = Some(i);
                        } else {
                            proof {
                                crate::conflict::lemma_lww_totality(
                                    self.ops_model()[bi as int],
                                    self.ops_model()[i as int],
                                );
                            }
                        }
                    },
                }
            }
            i = i + 1;
        }
        match best {
            Some(bi) => Some(self.ops[bi].duplicate()),
            None => None,
        }
    }

    /// Every operation with a clock time after `since`, oldest first:
    /// ascending by `(hlc_time, hlc_counter)`.
    pub fn get_ops_since(&self, since_hlc: u64) -> (r: Vec<SyncOperation>)
        ensures
            r.deep_view().to_multiset() == self.ops_model().filter(
                |o: OpModel| o.hlc_time > since_hlc,
            ).to_multiset(),
            sorted_by_stamp(r.deep_view()),
    {
        broadcast use group_to_multiset_ensures;

        let mut r: Vec<SyncOperation> = Vec::new();
        let mut i: usize = 0;
        proof {
            assert(r.deep_view() =~= Seq::<OpModel>::empty());
            assert(self.ops_model().subrange(0, 0) =~= Seq::<OpModel>::empty());
            assert(Seq::<OpModel>::empty().filter(|o: OpModel| o.hlc_time > since_hlc)
                =~= Seq::<OpModel>::empty());
        }
        while i < self.ops.len()
            invariant
                i <= self.ops_model().len(),
                self.ops_model().len() == self.ops@.len(),
                sorted_by_stamp(r.deep_view()),
                r.deep_view().to_multiset() == self.ops_model().subrange(0, i as int).filter(
                    |o: OpModel| o.hlc_time > since_hlc,
                ).to_multiset(),
            decreases self.ops.len() - i,
        {
            proof {
                let pref = self.ops_model().subrange(0, i as int + 1);
                assert(pref.drop_last() =~= self.ops_model().subrange(0, i as int));
                assert(pref.last() == self.ops_model()[i as int]);
                crate::oplog::lemma_filter_last(pref, since_hlc);
            }
            if self.ops[i].hlc_time > since_hlc {
                let op = self.ops[i].duplicate();
                proof {
                    assert(op@ == self.ops_model()[i as int]);
                }
                insert_sorted(&mut r, op);
                proof {
                    vstd::seq_lib::to_multiset_build(
                        self.ops_model().subrange(0, i as int).filter(
                            |o: OpModel| o.hlc_time > since_hlc,
                        ),
                        self.ops_model()[i as int],
                    );
                }
            }
            i = i + 1;
        }
        proof {
            assert(self.ops_model().subrange(0, self.ops_model().len() as int)
                =~= self.ops_model());
        }
        r
    }

    /// Forget every operation with a clock time before `before_hlc`.
    /// A peer that later asks for history across the cut-off will
    /// miss the forgotten operations.
    pub fn compact(&mut self, before_hlc: u64)
        requires
            old(self).wf(),
        ensures
            final(self).wf(),
            final(self).ops_model() == old(self).ops_model().filter(
                |o: OpModel| o.hlc_time >= before_hlc,
            ),
    {
        let ghost pre = self.ops.deep_view();
        let mut kept: Vec<SyncOperation> = Vec::new();
        let mut i: usize = 0;
        proof {
            assert(kept.deep_view() =~= Seq::<OpModel>::empty());
            assert(pre.subrange(0, 0) =~= Seq::<OpModel>::empty());
            assert(Seq::<OpModel>::empty().filter(|o: OpModel| o.hlc_time >= before_hlc)
                =~= Seq::<OpModel>::empty());
        }
        while i < self.ops.len()
            invariant
                self.ops.deep_view() == pre,
                i <= pre.len(),
                forall|a: int, b: int|
                    0 <= a < b < pre.len() ==> (#[trigger] pre[a]).op_id != (
                    #[trigger] pre[b]).op_id,
                kept.deep_view() == pre.subrange(0, i as int).filter(
                    |o: OpModel| o.hlc_time >= before_hlc,
                ),
                forall|a: int, b: int|
                    0 <= a < b < kept.deep_view().len() ==> (
                    #[trigger] kept.deep_view()[a]).op_id != (
                    #[trigger] kept.deep_view()[b]).op_id,
                forall|a: int|
                    0 <= a < kept.deep_view().len() ==> pre.subrange(0, i as int).contains(
                        #[trigger] kept.deep_view()[a],
                    ),
            decreases self.ops.len() - i,
        {
            proof {
                let prefix = pre.subrange(0, i as int + 1);
                assert(prefix.drop_last() =~= pre.subrange(0, i as int));
                assert(prefix.last() == pre[i as int]);
                lemma_filter_ge_last(prefix, before_hlc);
            }
            if self.ops[i].hlc_time >= before_hlc {
                let ghost kpre = kept.deep_view();
                let op = self.ops[i].duplicate();
                kept.push(op);
                proof {
                    let kd = kept.deep_view();
                    assert(kd =~= kpre.push(pre[i as int]));
                    assert forall|a: int, b: int| 0 <= a < b < kd.len() implies (
                    #[trigger] kd[a]).op_id != (#[trigger] kd[b]).op_id by {
                        if b == kd.len() - 1 {
                            assert(kd[b] == pre[i as int]);
                            assert(kpre.contains(kd[a]) || kd[a] == pre[i as int]);
                            assert(pre.subrange(0, i as int).contains(kd[a]));
                            let k = choose|k: int|
                                0 <= k < i && pre.subrange(0, i as int)[k] == kd[a];
                            assert(pre[k] == kd[a]);
                            assert(pre[k].op_id != pre[i as int].op_id);
                        }
                    }
                    assert forall|a: int| 0 <= a < kd.len() implies pre.subrange(
                        0,
                        i as int + 1,
                    ).contains(#[trigger] kd[a]) by {
                        if a < kd.len() - 1 {
                            let k = choose|k: int|
                                0 <= k < i && pre.subrange(0, i as int)[k] == kd[a];
                            assert(pre.subrange(0, i as int + 1)[k] == kd[a]);
                        } else {
                            assert(pre.subrange(0, i as int + 1)[i as int] == kd[a]);
                        }
                    }
                }
            } else {
                proof {
                    assert forall|a: int| 0 <= a < kept.deep_view().len() implies pre.subrange(
                        0,
                        i as int + 1,
                    ).contains(#[trigger] kept.deep_view()[a]) by {
                        let k = choose|k: int|
                            0 <= k < i && pre.subrange(0, i as int)[k] == kept.deep_view()[a];
                        assert(pre.subrange(0, i as int + 1)[k] == kept.deep_view()[a]);
                    }
                }
            }
            i = i + 1;
        }
        proof {
            assert(pre.subrange(0, pre.len() as int) =~= pre);
        }
        self.ops = kept;
    }
}

/// Ascending by `(hlc_time, hlc_counter)`.
pub open spec fn sorted_by_stamp(s: Seq<OpModel>) -> bool {
    forall|i: int, j: int|
        0 <= i < j < s.len() ==> ((#[trigger] s[i]).hlc_time < (#[trigger] s[j]).hlc_time || (
        s[i].hlc_time == s[j].hlc_time && s[i].hlc_counter <= s[j].hlc_counter))
}

/// Filtering a sequence takes its last element iff it passes.
proof fn lemma_filter_last(s: Seq<OpModel>, since_hlc: u64)
    requires
        s.len() > 0,
    ensures
        s.filter(|o: OpModel| o.hlc_time > since_hlc) == if s.last().hlc_time > since_hlc {
            s.drop_last().filter(|o: OpModel| o.hlc_time > since_hlc).push(s.last())
        } else {
            s.drop_last().filter(|o: OpModel| o.hlc_time > since_hlc)
        },
{
    reveal(Seq::filter);
}

/// Filtering a sequence takes its last element iff it passes.
proof fn lemma_filter_ge_last(s: Seq<OpModel>, before_hlc: u64)
    requires
        s.len() > 0,
    ensures
        s.filter(|o: OpModel| o.hlc_time >= before_hlc) == if s.last().hlc_time >= before_hlc {
            s.drop_last().filter(|o: OpModel| o.hlc_time >= before_hlc).push(s.last())
        } else {
            s.drop_last().filter(|o: OpModel| o.hlc_time >= before_hlc)
        },
{
    reveal(Seq::filter);
}

/// Insert an operation into a stamp-sorted vector, keeping it sorted.
fn insert_sorted(r: &mut Vec<SyncOperation>, op: SyncOperation)
    requires
        sorted_by_stamp(old(r).deep_view()),
    ensures
        sorted_by_stamp(final(r).deep_view()),
        final(r).deep_view().to_multiset() == old(r).deep_view().to_multiset().insert(op@),
{
    broadcast use group_to_multiset_ensures;

    let ghost pre = r.deep_view();
    let mut k: usize = r.len();
    while k > 0 && (r[k - 1].hlc_time > op.hlc_time || (r[k - 1].hlc_time == op.hlc_time && r[k
        - 1].hlc_counter > op.hlc_counter))
        invariant
            k <= pre.len(),
            r.deep_view() == pre,
            forall|j: int|
                k <= j < pre.len() ==> ((#[trigger] pre[j]).hlc_time > op@.hlc_time || (
                pre[j].hlc_time == op@.hlc_time && pre[j].hlc_counter > op@.hlc_counter)),
        decreases k,
    {
        k = k - 1;
    }
    r.insert(k, op);
    proof {
        let post = r.deep_view();
        assert(post =~= pre.subrange(0, k as int).push(op@) + pre.subrange(
            k as int,
            pre.len() as int,
        ));
        assert forall|i: int, j: int| 0 <= i < j < post.len() implies ((
        #[trigger] post[i]).hlc_time < (#[trigger] post[j]).hlc_time || (post[i].hlc_time
            == post[j].hlc_time && post[i].hlc_counter <= post[j].hlc_counter)) by {
            if i < k && j > k {
                assert(post[i] == pre[i] && post[j] == pre[j - 1]);
            } else if i < k && j == k {
                assert(post[i] == pre[i]);
                assert(!(pre[i].hlc_time > op@.hlc_time || (pre[i].hlc_time == op@.hlc_time
                    && pre[i].hlc_counter > op@.hlc_counter)));
            } else if i == k && j > k {
                assert(post[j] == pre[j - 1]);
            } else if i < k && j < k {
                assert(post[i] == pre[i] && post[j] == pre[j]);
            } else {
                assert(post[i] == pre[i - 1] && post[j] == pre[j - 1]);
            }
        }
        assert(post.to_multiset() =~= pre.to_multiset().insert(op@)) by {
            assert(pre.subrange(0, k as int) + pre.subrange(k as int, pre.len() as int) =~= pre);
            lemma_multiset_split(pre, k as int, op@);
        }
    }
}

/// Inserting an element in the middle adds it to the multiset.
proof fn lemma_multiset_split(s: Seq<OpModel>, k: int, x: OpModel)
    requires
        0 <= k <= s.len(),
    ensures
        (s.subrange(0, k).push(x) + s.subrange(k, s.len() as int)).to_multiset()
            == s.to_multiset().insert(x),
{
    broadcast use group_to_multiset_ensures;

    let left = s.subrange(0, k);
    let right = s.subrange(k, s.len() as int);
    vstd::seq_lib::lemma_multiset_commutative(left.push(x), right);
    vstd::seq_lib::lemma_multiset_commutative(left, right);
    assert(left.push(x).to_multiset() =~= left.to_multiset().insert(x));
    assert(left + right =~= s);
    assert((left.push(x) + right).to_multiset() =~= left.push(x).to_multiset().add(
        right.to_multiset(),
    ));
    assert((left.push(x) + right).to_multiset() =~= s.to_multiset().insert(x));
}

/// One node's replication state: its operation log together with the
/// (ghost) sequence of operations delivered to it.  The winner of a
/// row is determined by the delivered operations alone, so two
/// replicas that received the same multiset of operations agree on
/// every row.
pub struct Replica {
    log: OpLog,
    delivered: Ghost<Seq<OpModel>>,
}

impl Replica {
    /// The operations delivered to this node, in delivery order.
    pub closed spec fn delivered_model(&self) -> Seq<OpModel> {
        self.delivered@
    }

    /// The operations recorded in this node's log.
    pub closed spec fn log_model(&self) -> Seq<OpModel> {
        self.log.ops_model()
    }

    /// The operation currently governing a row.
    pub open spec fn row_model(&self, table: Seq<char>, pk: Seq<char>) -> Option<OpModel> {
        seq_winner(self.delivered_model(), table, pk)
    }

    /// The log is consistent with the delivered history: every logged
    /// operation was delivered, stamps and ids are unique, and each
    /// row's winner is logged.
    pub closed spec fn wf(&self) -> bool {
        &&& self.log.wf()
        &&& distinct_stamps(self.delivered@)
        &&& (forall|i: int, j: int|
            0 <= i < self.delivered@.len() && 0 <= j < self.delivered@.len() && (
            #[trigger] self.delivered@[i]).op_id == (#[trigger] self.delivered@[j]).op_id
                ==> self.delivered@[i] == self.delivered@[j])
        &&& (forall|i: int|
            0 <= i < self.log.ops_model().len() ==> self.delivered@.contains(
                #[trigger] self.log.ops_model()[i],
            ))
        &&& (forall|t: Seq<char>, pk: Seq<char>|
            (#[trigger] seq_winner(self.delivered@, t, pk)) matches Some(w)
                ==> self.log.ops_model().contains(w))
    }

    /// A fresh replica with no history.
    pub fn new() -> (r: Replica)
        ensures
            r.wf(),
            r.delivered_model() == Seq::<OpModel>::empty(),
            r.log_model() == Seq::<OpModel>::empty(),
    {
        let r = Replica { log: OpLog::new(), delivered: Ghost(Seq::empty()) };
        proof {
            assert forall|t: Seq<char>, pk: Seq<char>|
                (#[trigger] seq_winner(r.delivered@, t, pk)) is Some implies
                r.log.ops_model().contains(seq_winner(r.delivered@, t, pk)->0) by {
                assert(seq_winner(r.delivered@, t, pk) is None);
            }
        }
        r
    }

    /// A delivery is fresh when its stamp and id can only collide
    /// with itself among the operations already delivered — which the
    /// clocks and the id generator guarantee.
    pub open spec fn fresh_delivery(&self, o: OpModel) -> bool {
        forall|i: int|
            0 <= i < self.delivered_model().len() ==> ((tuple_eq(
                #[trigger] self.delivered_model()[i],
                o,
            ) ==> self.delivered_model()[i] == o) && (self.delivered_model()[i].op_id == o.op_id
                ==> self.delivered_model()[i] == o))
    }

    /// Deliver a remote operation: it is applied exactly when it
    /// beats the row's current winner under the last-write-wins
    /// order; only then is it recorded, so re-delivering a lost or
    /// already-seen operation changes nothing.
    pub fn apply_remote(&mut self, op: SyncOperation) -> (applied: bool)
        requires
            old(self).wf(),
            old(self).fresh_delivery(op@),
        ensures
            final(self).wf(),
            final(self).delivered_model() == old(self).delivered_model().push(op@),
            applied == (match seq_winner(
                old(self).delivered_model(),
                op@.table,
                op@.primary_key,
            ) {
                None => true,
                Some(w) => tuple_lt(w, op@),
            }),
            !applied ==> final(self).log_model() == old(self).log_model(),
            applied ==> final(self).log_model().contains(op@),
            applied ==> seq_winner(final(self).delivered_model(), op@.table, op@.primary_key)
                == Some(op@),
    {
        let ghost gop = op@;
        let ghost pre = self.delivered@;
        let latest = self.log.get_latest_for_row(op.table.as_str(), op.primary_key.as_str());
        let apply = should_apply(&op, latest.as_ref());
        proof {
            lemma_winner_characterize(pre, gop.table, gop.primary_key);
            match &latest {
                Some(m) => {
                    let k = choose|k: int|
                        0 <= k < self.log.ops_model().len() && self.log.ops_model()[k] == m@;
                    assert(pre.contains(m@));
                    match seq_winner(pre, gop.table, gop.primary_key) {
                        Some(w) => {
                            let wi = choose|wi: int| 0 <= wi < pre.len() && pre[wi] == w;
                            let mi = choose|mi: int| 0 <= mi < pre.len() && pre[mi] == m@;
                            assert(self.log.ops_model().contains(w));
                            let wk = choose|wk: int|
                                0 <= wk < self.log.ops_model().len() && self.log.ops_model()[wk]
                                    == w;
                            assert(!tuple_lt(m@, w));
                            crate::conflict::lemma_lww_totality(m@, w);
                            assert(tuple_eq(m@, w));
                            assert(pre[mi] == m@ && pre[wi] == w);
                            assert(m@ == w);
                        },
                        None => {
                            let mi = choose|mi: int| 0 <= mi < pre.len() && pre[mi] == m@;
                            assert(false);
                        },
                    }
                },
                None => {
                    match seq_winner(pre, gop.table, gop.primary_key) {
                        Some(w) => {
                            assert(self.log.ops_model().contains(w));
                            let wk = choose|wk: int|
                                0 <= wk < self.log.ops_model().len() && self.log.ops_model()[wk]
                                    == w;
                            assert(false);
                        },
                        None => {},
                    }
                },
            }
        }
        let ghost post = pre.push(gop);
        proof {
            assert(post.drop_last() =~= pre);
            assert(post.last() == gop);
        }
        if apply {
            let ghost logpre = self.log.ops_model();
            self.log.insert_op(op);
            self.delivered = Ghost(post);
            proof {
                self.lemma_restore_wf(pre, logpre, gop);
            }
            true
        } else {
            self.delivered = Ghost(post);
            proof {
                assert forall|t: Seq<char>, pk: Seq<char>|
                    (#[trigger] seq_winner(self.delivered@, t, pk)) is Some implies
                    self.log.ops_model().contains(seq_winner(self.delivered@, t, pk)->0) by {
                    assert(seq_winner(post, t, pk) == seq_winner(pre, t, pk));
                }
                assert forall|i: int|
                    0 <= i < self.log.ops_model().len() implies self.delivered@.contains(
                    #[trigger] self.log.ops_model()[i],
                ) by {
                    assert(pre.contains(self.log.ops_model()[i]));
                    let k = choose|k: int|
                        0 <= k < pre.len() && pre[k] == self.log.ops_model()[i];
                    assert(post[k] == self.log.ops_model()[i]);
                }
            }
            false
        }
    }

    /// Record an operation that this node itself originated: it goes
    /// to the log unconditionally, as the local store has already
    /// committed it.
    pub fn record_local(&mut self, op: SyncOperation)
        requires
            old(self).wf(),
            old(self).fresh_delivery(op@),
        ensures
            final(self).wf(),
            final(self).delivered_model() == old(self).delivered_model().push(op@),
            final(self).log_model().contains(op@),
    {
        let ghost gop = op@;
        let ghost pre = self.delivered@;
        let ghost logpre = self.log.ops_model();
        let ghost post = pre.push(gop);
        proof {
            assert(post.drop_last() =~= pre);
            assert(post.last() == gop);
        }
        self.log.insert_op(op);
        self.delivered = Ghost(post);
        proof {
            self.lemma_restore_wf(pre, logpre, gop);
        }
    }

    /// After pushing a fresh operation to the history and recording
    /// it, the log is consistent with the history again.
    proof fn lemma_restore_wf(&self, pre: Seq<OpModel>, logpre: Seq<OpModel>, gop: OpModel)
        requires
            self.delivered@ == pre.push(gop),
            distinct_stamps(pre),
            forall|i: int, j: int|
                0 <= i < pre.len() && 0 <= j < pre.len() && (#[trigger] pre[i]).op_id == (
                #[trigger] pre[j]).op_id ==> pre[i] == pre[j],
            forall|i: int|
                0 <= i < pre.len() ==> ((tuple_eq(#[trigger] pre[i], gop) ==> pre[i] == gop) && (
                pre[i].op_id == gop.op_id ==> pre[i] == gop)),
            forall|i: int| 0 <= i < logpre.len() ==> pre.contains(#[trigger] logpre[i]),
            forall|t: Seq<char>, pk: Seq<char>|
                (#[trigger] seq_winner(pre, t, pk)) matches Some(w) ==> logpre.contains(w),
            self.log.wf(),
            self.log.ops_model().contains(gop),
            forall|o: OpModel|
                #[trigger] self.log.ops_model().contains(o) ==> o == gop || (logpre.contains(o)
                    && o.op_id != gop.op_id),
            forall|o: OpModel|
                #[trigger] logpre.contains(o) && o.op_id != gop.op_id
                    ==> self.log.ops_model().contains(o),
        ensures
            self.wf(),
    {
        let post = self.delivered@;
        assert(post.drop_last() =~= pre);
        assert(post.last() == gop);
        assert(distinct_stamps(post)) by {
            assert forall|i: int, j: int|
                0 <= i < post.len() && 0 <= j < post.len() && tuple_eq(
                    #[trigger] post[i],
                    #[trigger] post[j],
                ) implies post[i] == post[j] by {
                if i < pre.len() && j < pre.len() {
                    assert(pre[i] == post[i] && pre[j] == post[j]);
                } else if i < pre.len() {
                    assert(post[j] == gop && post[i] == pre[i]);
                } else if j < pre.len() {
                    assert(post[i] == gop && post[j] == pre[j]);
                    assert(tuple_eq(pre[j], gop)) by {
                        crate::conflict::lemma_lww_totality(pre[j], gop);
                    }
                }
            }
        }
        assert forall|i: int, j: int|
            0 <= i < post.len() && 0 <= j < post.len() && (#[trigger] post[i]).op_id == (
            #[trigger] post[j]).op_id implies post[i] == post[j] by {
            if i < pre.len() && j < pre.len() {
                assert(pre[i] == post[i] && pre[j] == post[j]);
            } else if i < pre.len() {
                assert(post[j] == gop && post[i] == pre[i]);
            } else if j < pre.len() {
                assert(post[i] == gop && post[j] == pre[j]);
            }
        }
        assert forall|i: int|
            0 <= i < self.log.ops_model().len() implies post.contains(
            #[trigger] self.log.ops_model()[i],
        ) by {
            let o = self.log.ops_model()[i];
            assert(self.log.ops_model().contains(o));
            if o == gop {
                assert(post[post.len() - 1] == o);
            } else {
                assert(logpre.contains(o));
                let k = choose|k: int| 0 <= k < logpre.len() && logpre[k] == o;
                assert(pre.contains(o));
                let k2 = choose|k2: int| 0 <= k2 < pre.len() && pre[k2] == o;
                assert(post[k2] == o);
            }
        }
        assert forall|t: Seq<char>, pk: Seq<char>|
            (#[trigger] seq_winner(post, t, pk)) is Some implies self.log.ops_model().contains(
            seq_winner(post, t, pk)->0) by {
            if on_row(gop, t, pk) {
                match seq_winner(pre, t, pk) {
                    None => {
                        assert(seq_winner(post, t, pk) == Some(gop));
                    },
                    Some(p) => {
                        if tuple_lt(p, gop) {
                            assert(seq_winner(post, t, pk) == Some(gop));
                        } else {
                            assert(seq_winner(post, t, pk) == Some(p));
                            assert(logpre.contains(p));
                            if p.op_id == gop.op_id {
                                let k = choose|k: int|
                                    0 <= k < logpre.len() && logpre[k] == p;
                                assert(pre.contains(p));
                                let k2 = choose|k2: int| 0 <= k2 < pre.len() && pre[k2] == p;
                                assert(p == gop);
                            }
                        }
                    },
                }
            } else {
                assert(seq_winner(post, t, pk) == seq_winner(pre, t, pk));
                lemma_winner_characterize(pre, t, pk);
                let w = seq_winner(pre, t, pk)->0;
                assert(on_row(w, t, pk));
                assert(logpre.contains(w));
                if w.op_id == gop.op_id {
                    let k = choose|k: int| 0 <= k < logpre.len() && logpre[k] == w;
                    assert(pre.contains(w));
                    let k2 = choose|k2: int| 0 <= k2 < pre.len() && pre[k2] == w;
                    assert(w == gop);
                    assert(on_row(gop, t, pk));
                }
            }
        }
    }

    /// The operation currently governing a row, as the log records
    /// it.
    pub fn current_row_op(&self, table: &str, pk: &str) -> (r: Option<SyncOperation>)
        requires
            self.wf(),
        ensures
            (match r {
                Some(m) => self.row_model(table@, pk@) == Some(m@),
                None => self.row_model(table@, pk@) is None,
            }),
    {
        let latest = self.log.get_latest_for_row(table, pk);
        proof {
            lemma_winner_characterize(self.delivered@, table@, pk@);
            match &latest {
                Some(m) => {
                    let k = choose|k: int|
                        0 <= k < self.log.ops_model().len() && self.log.ops_model()[k] == m@;
                    assert(self.delivered@.contains(m@));
                    match seq_winner(self.delivered@, table@, pk@) {
                        Some(w) => {
                            let wi = choose|wi: int|
                                0 <= wi < self.delivered@.len() && self.delivered@[wi] == w;
                            let mi = choose|mi: int|
                                0 <= mi < self.delivered@.len() && self.delivered@[mi] == m@;
                            assert(self.log.ops_model().contains(w));
                            let wk = choose|wk: int|
                                0 <= wk < self.log.ops_model().len() && self.log.ops_model()[wk]
                                    == w;
                            assert(!tuple_lt(m@, w));
                            crate::conflict::lemma_lww_totality(m@, w);
                            assert(tuple_eq(self.delivered@[mi], self.delivered@[wi]));
                            assert(m@ == w);
                        },
                        None => {
                            let mi = choose|mi: int|
                                0 <= mi < self.delivered@.len() && self.delivered@[mi] == m@;
                            assert(false);
                        },
                    }
                },
                None => {
                    match seq_winner(self.delivered@, table@, pk@) {
                        Some(w) => {
                            assert(self.log.ops_model().contains(w));
                            let wk = choose|wk: int|
                                0 <= wk < self.log.ops_model().len() && self.log.ops_model()[wk]
                                    == w;
                            assert(false);
                        },
                        None => {},
                    }
                },
            }
        }
        latest
    }

    /// How many operations this node's log records.
    pub fn log_len(&self) -> (r: usize)
        ensures
            r == self.log_model().len(),
    {
        self.log.len()
    }

    /// Every logged operation with a clock time after `since`, oldest
    /// first.
    pub fn ops_since(&self, since_hlc: u64) -> (r: Vec<SyncOperation>)
        ensures
            r.deep_view().to_multiset() == self.log_model().filter(
                |o: OpModel| o.hlc_time > since_hlc,
            ).to_multiset(),
            sorted_by_stamp(r.deep_view()),
    {
        self.log.get_ops_since(since_hlc)
    }
}

/// Convergence, stated of replicas: two well-formed replicas that
/// received the same multiset of operations agree on the operation
/// governing every row.
pub proof fn lemma_replica_convergence(a: &Replica, b: &Replica, table: Seq<char>, pk: Seq<char>)
    requires
        a.wf(),
        b.wf(),
        a.delivered_model().to_multiset() == b.delivered_model().to_multiset(),
    ensures
        a.row_model(table, pk) == b.row_model(table, pk),
{
    lemma_convergence(a.delivered_model(), b.delivered_model(), table, pk);
}

} // verus!
