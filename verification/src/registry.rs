//! Registry of the tables that participate in replication.
//!
//! The engine consults this registry to decide whether a write should
//! be replicated: a table receives replication traffic exactly when it
//! is registered here at the moment the write is observed.  The
//! registry is a mapping from table name to its metadata; registering
//! is an upsert, so re-registering a table overwrites its metadata.

use vstd::prelude::*;

verus! {

/// Mathematical model of a [`TableMeta`].
#[verifier::ext_equal]
pub struct MetaModel {
    pub table_name: Seq<char>,
    pub primary_key_column: Seq<char>,
    pub columns: Seq<Seq<char>>,
}

/// Metadata about a replicated table.
#[derive(Debug)]
pub struct TableMeta {
    /// The SQL table name.
    pub table_name: String,
    /// Name of the primary key column.
    pub primary_key_column: String,
    /// All column names of the table.
    pub columns: Vec<String>,
}

impl View for TableMeta {
    type V = MetaModel;

    open spec fn view(&self) -> MetaModel {
        MetaModel {
            table_name: self.table_name@,
            primary_key_column: self.primary_key_column@,
            columns: self.columns.deep_view(),
        }
    }
}

impl DeepView for TableMeta {
    type V = MetaModel;

    open spec fn deep_view(&self) -> MetaModel {
        self.view()
    }
}

impl TableMeta {
    /// Field-by-field copy; the copy has the same model as the original.
    pub fn duplicate(&self) -> (r: TableMeta)
        ensures
            r@ == self@,
    {
        let r = TableMeta {
            table_name: self.table_name.clone(),
            primary_key_column: self.primary_key_column.clone(),
            columns: crate::messages::clone_strings(&self.columns),
        };
        proof {
            assert(r@ =~~= self@);
        }
        r
    }
}

/// The mapping a sequence of metadata entries denotes: later entries
/// overwrite earlier ones with the same name.
pub open spec fn as_map(s: Seq<MetaModel>) -> Map<Seq<char>, MetaModel>
    decreases s.len(),
{
    if s.len() == 0 {
        Map::empty()
    } else {
        as_map(s.drop_last()).insert(s.last().table_name, s.last())
    }
}

/// No two entries share a table name.
pub open spec fn unique_names(s: Seq<MetaModel>) -> bool {
    forall|i: int, j: int|
        0 <= i < j < s.len() ==> s[i].table_name != s[j].table_name
}

/// Registry of tables that participate in replication, viewed as a
/// mapping from table name to metadata.
pub struct TableRegistry {
    entries: Vec<TableMeta>,
}

impl View for TableRegistry {
    type V = Map<Seq<char>, MetaModel>;

    closed spec fn view(&self) -> Map<Seq<char>, MetaModel> {
        as_map(self.entries.deep_view())
    }
}

impl TableRegistry {
    /// The internal entry list has pairwise distinct names.
    pub closed spec fn wf(&self) -> bool {
        unique_names(self.entries.deep_view())
    }

    /// Create an empty registry.
    pub fn new() -> (r: TableRegistry)
        ensures
            r.wf(),
            r@ == Map::<Seq<char>, MetaModel>::empty(),
    {
        TableRegistry { entries: Vec::new() }
    }

    /// Register a table for replication, replacing any existing entry
    /// with the same name.
    pub fn register(&mut self, meta: TableMeta)
        requires
            old(self).wf(),
        ensures
            final(self).wf(),
            final(self)@ == old(self)@.insert(meta@.table_name, meta@),
    {
        let ghost pre = self.entries.deep_view();
        let mut i: usize = 0;
        while i < self.entries.len()
            invariant
                self.entries.deep_view() == pre,
                as_map(pre) == old(self)@,
                unique_names(pre),
                i <= pre.len(),
                forall|j: int| 0 <= j < i ==> pre[j].table_name != meta@.table_name,
            decreases self.entries.len() - i,
        {
            if str_eq(&self.entries[i].table_name, &meta.table_name) {
                let ghost gi = i as int;
                self.entries.set(i, meta);
                proof {
                    let upd = pre.update(gi, meta@);
                    assert(self.entries.deep_view() =~= upd);
                    lemma_as_map_update(pre, gi, meta@);
                    assert(self@ == as_map(upd));
                    assert(old(self)@ == as_map(pre));
                    assert forall|a: int, b: int| 0 <= a < b < upd.len() implies upd[a].table_name
                        != upd[b].table_name by {
                        assert(pre[a].table_name != pre[b].table_name);
                    }
                }
                return ;
            }
            i = i + 1;
        }
        self.entries.push(meta);
        proof {
            let pushed = pre.push(meta@);
            assert(self.entries.deep_view() =~= pushed);
            assert(pushed.drop_last() =~= pre);
            assert forall|a: int, b: int| 0 <= a < b < pushed.len() implies pushed[a].table_name
                != pushed[b].table_name by {
                if b < pre.len() {
                    assert(pre[a].table_name != pre[b].table_name);
                } else {
                    assert(pushed[b] == meta@);
                    assert(pre[a].table_name != meta@.table_name);
                }
            }
        }
    }

    /// Look up the metadata registered for a table.
    pub fn get(&self, table_name: &str) -> (r: Option<TableMeta>)
        requires
            self.wf(),
        ensures
            match r {
                Some(m) => self@.contains_key(table_name@) && m@ == self@[table_name@],
                None => !self@.contains_key(table_name@),
            },
    {
        proof {
            lemma_as_map_characterize(self.entries.deep_view());
        }
        let mut i: usize = 0;
        while i < self.entries.len()
            invariant
                self.wf(),
                i <= self.entries.deep_view().len(),
                forall|j: int|
                    0 <= j < i ==> self.entries.deep_view()[j].table_name != table_name@,
                forall|k: int|
                    0 <= k < self.entries.deep_view().len() ==> (
                    #[trigger] self@.contains_key(self.entries.deep_view()[k].table_name)
                        && self@[self.entries.deep_view()[k].table_name]
                        == self.entries.deep_view()[k]),
                forall|n: Seq<char>|
                    self@.contains_key(n) ==> exists|k: int|
                        0 <= k < self.entries.deep_view().len()
                            && #[trigger] self.entries.deep_view()[k].table_name == n,
            decreases self.entries.len() - i,
        {
            if str_eq_string(&self.entries[i].table_name, table_name) {
                proof {
                    let dv = self.entries.deep_view();
                    assert(dv[i as int] == self.entries@[i as int]@);
                    assert(dv[i as int].table_name == table_name@);
                    assert(self@.contains_key(dv[i as int].table_name));
                }
                return Some(self.entries[i].duplicate());
            }
            i = i + 1;
        }
        None
    }

    /// Whether a table is registered for replication.
    pub fn is_registered(&self, table_name: &str) -> (r: bool)
        requires
            self.wf(),
        ensures
            r == self@.contains_key(table_name@),
    {
        self.get(table_name).is_some()
    }

    /// Metadata of every registered table, one entry per table.
    pub fn all_tables(&self) -> (r: Vec<TableMeta>)
        requires
            self.wf(),
        ensures
            unique_names(r.deep_view()),
            forall|i: int|
                0 <= i < r.deep_view().len() ==> (#[trigger] self@.contains_key(
                    r.deep_view()[i].table_name,
                ) && self@[r.deep_view()[i].table_name] == r.deep_view()[i]),
            forall|n: Seq<char>|
                self@.contains_key(n) ==> exists|i: int|
                    0 <= i < r.deep_view().len() && #[trigger] r.deep_view()[i].table_name == n,
    {
        proof {
            lemma_as_map_characterize(self.entries.deep_view());
        }
        let mut r: Vec<TableMeta> = Vec::new();
        let mut i: usize = 0;
        while i < self.entries.len()
            invariant
                self.wf(),
                i <= self.entries@.len(),
                r@.len() == i,
                forall|j: int| 0 <= j < i ==> r@[j]@ == self.entries@[j]@,
            decreases self.entries.len() - i,
        {
            let m = self.entries[i].duplicate();
            r.push(m);
            i = i + 1;
        }
        proof {
            assert(r.deep_view() =~= self.entries.deep_view());
        }
        r
    }
}

/// Equality of two strings, decided by their character sequences.
pub fn str_eq(a: &String, b: &String) -> (r: bool)
    ensures
        r == (a@ == b@),
{
    crate::strutil::str_eq_str(a.as_str(), b.as_str())
}

/// Equality of a string and a string slice.
pub fn str_eq_string(a: &String, b: &str) -> (r: bool)
    ensures
        r == (a@ == b@),
{
    crate::strutil::str_eq_str(a.as_str(), b)
}

/// Updating an entry in place with the same name denotes the same
/// mapping as inserting it, provided names are unique.
proof fn lemma_as_map_update(s: Seq<MetaModel>, i: int, m: MetaModel)
    requires
        0 <= i < s.len(),
        s[i].table_name == m.table_name,
        unique_names(s),
    ensures
        as_map(s.update(i, m)) == as_map(s).insert(m.table_name, m),
    decreases s.len(),
{
    let u = s.update(i, m);
    if i == s.len() - 1 {
        assert(u.drop_last() =~= s.drop_last());
        assert(u.last() == m);
        assert(as_map(u) == as_map(s.drop_last()).insert(m.table_name, m));
        assert(as_map(s).insert(m.table_name, m) == as_map(s.drop_last()).insert(
            s.last().table_name,
            s.last(),
        ).insert(m.table_name, m));
        assert(as_map(s.drop_last()).insert(s.last().table_name, s.last()).insert(m.table_name, m)
            =~= as_map(s.drop_last()).insert(m.table_name, m));
    } else {
        assert(u.drop_last() =~= s.drop_last().update(i, m));
        assert forall|a: int, b: int| 0 <= a < b < s.drop_last().len() implies s.drop_last()[
            a
        ].table_name != s.drop_last()[b].table_name by {
            assert(s[a].table_name != s[b].table_name);
        }
        lemma_as_map_update(s.drop_last(), i, m);
        assert(u.last() == s.last());
        assert(as_map(u) == as_map(s.drop_last()).insert(m.table_name, m).insert(
            s.last().table_name,
            s.last(),
        ));
        assert(s.last().table_name != m.table_name);
        assert(as_map(s.drop_last()).insert(m.table_name, m).insert(s.last().table_name, s.last())
            =~= as_map(s.drop_last()).insert(s.last().table_name, s.last()).insert(
            m.table_name,
            m,
        ));
    }
}

/// With unique names, the denoted mapping holds exactly the entries of
/// the sequence.
proof fn lemma_as_map_characterize(s: Seq<MetaModel>)
    requires
        unique_names(s),
    ensures
        forall|i: int|
            0 <= i < s.len() ==> (#[trigger] as_map(s).contains_key(s[i].table_name)
                && as_map(s).index(s[i].table_name) == s[i]),
        forall|n: Seq<char>|
            as_map(s).contains_key(n) ==> exists|i: int|
                0 <= i < s.len() && #[trigger] s[i].table_name == n,
    decreases s.len(),
{
    if s.len() > 0 {
        let d = s.drop_last();
        let last = s.last();
        let m = as_map(s);
        assert forall|a: int, b: int| 0 <= a < b < d.len() implies d[a].table_name
            != d[b].table_name by {
            assert(s[a].table_name != s[b].table_name);
        }
        lemma_as_map_characterize(d);
        assert(m == as_map(d).insert(last.table_name, last));
        assert forall|i: int| 0 <= i < s.len() implies (#[trigger] m.contains_key(
            s[i].table_name,
        ) && m.index(s[i].table_name) == s[i]) by {
            if i == s.len() - 1 {
                assert(s[i] == last);
            } else {
                assert(d[i] == s[i]);
                assert(as_map(d).contains_key(d[i].table_name));
                assert(s[i].table_name != last.table_name);
            }
        }
        assert forall|n: Seq<char>| m.contains_key(n) implies exists|i: int|
            0 <= i < s.len() && #[trigger] s[i].table_name == n by {
            if n == last.table_name {
                assert(s[s.len() - 1].table_name == n);
            } else {
                assert(as_map(d).contains_key(n));
                let i = choose|i: int| 0 <= i < d.len() && #[trigger] d[i].table_name == n;
                assert(s[i].table_name == n);
            }
        }
    }
}

} // verus!
