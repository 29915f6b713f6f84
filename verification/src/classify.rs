//! Classification of SQL statements and small statement rewrites.
//!
//! The write interceptor decides what to do with a statement by its
//! first keyword alone, compared ASCII-case-insensitively; the binds
//! trailer that a logged query string may carry is cut off first.
//! The remote-apply path rewrites statements before execution:
//! stripping a trailing `RETURNING` clause and turning `INSERT INTO`
//! into `INSERT OR REPLACE INTO` so that key collisions between
//! independently generated rows converge.

use vstd::prelude::*;

use crate::messages::WriteKind;
use crate::strutil::{
    char_is_space, chars_eq_lit, chars_to_string, copy_range, find_sub, is_space, lower, rfind_sub,
    spec_find, spec_rfind, str_to_chars, to_lower,
};

verus! {

/// The statement class, by leading keyword.
#[derive(Clone, Copy, Debug, PartialEq, Eq, Structural)]
pub enum SqlQueryKind {
    Insert,
    Update,
    Delete,
    Select,
    Create,
    Alter,
    Drop,
    Other,
}

/// `s` without its leading whitespace.
pub open spec fn spec_trim_start(s: Seq<char>) -> Seq<char>
    decreases s.len(),
{
    if s.len() > 0 && is_space(s[0]) {
        spec_trim_start(s.drop_first())
    } else {
        s
    }
}

/// The longest whitespace-free prefix of `s`.
pub open spec fn spec_first_word(s: Seq<char>) -> Seq<char>
    decreases s.len(),
{
    if s.len() == 0 || is_space(s[0]) {
        Seq::empty()
    } else {
        seq![s[0]] + spec_first_word(s.drop_first())
    }
}

/// The whitespace-separated words of `s`, in order.
pub open spec fn spec_words(s: Seq<char>) -> Seq<Seq<char>>
    decreases s.len(),
    via spec_words_decreases
{
    if s.len() == 0 {
        Seq::empty()
    } else if is_space(s[0]) {
        spec_words(s.drop_first())
    } else {
        seq![spec_first_word(s)] + spec_words(s.skip(spec_first_word(s).len() as int))
    }
}

#[via_fn]
proof fn spec_words_decreases(s: Seq<char>) {
    if s.len() > 0 && !is_space(s[0]) {
        lemma_first_word_len(s);
    }
}

/// A word is never longer than the text it is read from, and is
/// non-empty when the text starts with a non-space character.
pub proof fn lemma_first_word_len(s: Seq<char>)
    ensures
        spec_first_word(s).len() <= s.len(),
        s.len() > 0 && !is_space(s[0]) ==> spec_first_word(s).len() >= 1,
    decreases s.len(),
{
    if s.len() > 0 && !is_space(s[0]) {
        lemma_first_word_len(s.drop_first());
    }
}

/// When the first `i` characters are whitespace and the next one (if
/// any) is not, trimming means skipping those `i` characters.
pub proof fn lemma_trim_skip(s: Seq<char>, i: int)
    requires
        0 <= i <= s.len(),
        forall|j: int| 0 <= j < i ==> is_space(s[j]),
        i == s.len() || !is_space(s[i]),
    ensures
        spec_trim_start(s) == s.skip(i),
    decreases i,
{
    if i == 0 {
        assert(s.skip(0) =~= s);
    } else {
        assert(is_space(s[0]));
        let d = s.drop_first();
        assert forall|j: int| 0 <= j < i - 1 implies is_space(d[j]) by {
            assert(d[j] == s[j + 1]);
        }
        lemma_trim_skip(d, i - 1);
        assert(d.skip(i - 1) =~= s.skip(i));
    }
}

/// When the first `j` characters contain no whitespace and the next
/// one (if any) is whitespace, the first word is exactly that prefix.
pub proof fn lemma_word_prefix(s: Seq<char>, j: int)
    requires
        0 <= j <= s.len(),
        forall|k: int| 0 <= k < j ==> !is_space(s[k]),
        j == s.len() || is_space(s[j]),
    ensures
        spec_first_word(s) == s.subrange(0, j),
    decreases j,
{
    if j == 0 {
        assert(spec_first_word(s) =~= s.subrange(0, 0));
    } else {
        let d = s.drop_first();
        assert forall|k: int| 0 <= k < j - 1 implies !is_space(d[k]) by {
            assert(d[k] == s[k + 1]);
        }
        lemma_word_prefix(d, j - 1);
        assert(seq![s[0]] + d.subrange(0, j - 1) =~= s.subrange(0, j));
    }
}

/// The part of a logged query string before its binds trailer.
pub open spec fn spec_sql_part(s: Seq<char>) -> Seq<char> {
    match spec_find(s, "-- binds:"@, 0) {
        Some(i) => s.subrange(0, i),
        None => s,
    }
}

/// The leading keyword of a logged query string, lowercased.
pub open spec fn spec_keyword(s: Seq<char>) -> Seq<char> {
    lower(spec_first_word(spec_trim_start(spec_sql_part(s))))
}

/// The class a logged query string falls in, by leading keyword.
pub open spec fn spec_classify(s: Seq<char>) -> SqlQueryKind {
    let w = spec_keyword(s);
    if w == "insert"@ {
        SqlQueryKind::Insert
    } else if w == "update"@ {
        SqlQueryKind::Update
    } else if w == "delete"@ {
        SqlQueryKind::Delete
    } else if w == "select"@ {
        SqlQueryKind::Select
    } else if w == "create"@ {
        SqlQueryKind::Create
    } else if w == "alter"@ {
        SqlQueryKind::Alter
    } else if w == "drop"@ {
        SqlQueryKind::Drop
    } else {
        SqlQueryKind::Other
    }
}

/// Classify a statement by its first SQL keyword, compared
/// ASCII-case-insensitively.  A `-- binds:` trailer, as printed by
/// drivers that log a query together with its bind values, is cut off
/// before looking.
pub fn classify_sql_query(debug_query: &str) -> (k: SqlQueryKind)
    ensures
        k == spec_classify(debug_query@),
{
    let s = str_to_chars(debug_query);
    let pat = str_to_chars("-- binds:");
    let sql_end: usize = match find_sub(&s, &pat) {
        Some(i) => {
            proof {
                crate::strutil::lemma_find_is_first(s@, pat@, 0, i as int);
            }
            i
        },
        None => s.len(),
    };
    let ghost t = spec_sql_part(debug_query@);
    proof {
        assert(t =~= s@.subrange(0, sql_end as int));
    }
    let mut i: usize = 0;
    while i < sql_end && char_is_space(s[i])
        invariant
            i <= sql_end,
            sql_end <= s@.len(),
            t == s@.subrange(0, sql_end as int),
            forall|j: int| 0 <= j < i ==> is_space(t[j]),
        decreases sql_end - i,
    {
        i = i + 1;
    }
    proof {
        lemma_trim_skip(t, i as int);
    }
    let ghost rest = t.skip(i as int);
    let mut j: usize = i;
    while j < sql_end && !char_is_space(s[j])
        invariant
            i <= j <= sql_end,
            sql_end <= s@.len(),
            t == s@.subrange(0, sql_end as int),
            rest == t.skip(i as int),
            forall|k: int| 0 <= k < j - i ==> !is_space(rest[k]),
        decreases sql_end - j,
    {
        j = j + 1;
    }
    proof {
        lemma_word_prefix(rest, j - i as int);
        assert(rest.subrange(0, j - i as int) =~= s@.subrange(i as int, j as int));
    }
    let word = copy_range(&s, i, j);
    let w = to_lower(&word);
    proof {
        assert(w@ == spec_keyword(debug_query@));
    }
    if chars_eq_lit(&w, "insert") {
        SqlQueryKind::Insert
    } else if chars_eq_lit(&w, "update") {
        SqlQueryKind::Update
    } else if chars_eq_lit(&w, "delete") {
        SqlQueryKind::Delete
    } else if chars_eq_lit(&w, "select") {
        SqlQueryKind::Select
    } else if chars_eq_lit(&w, "create") {
        SqlQueryKind::Create
    } else if chars_eq_lit(&w, "alter") {
        SqlQueryKind::Alter
    } else if chars_eq_lit(&w, "drop") {
        SqlQueryKind::Drop
    } else {
        SqlQueryKind::Other
    }
}

/// `s` without a trailing `RETURNING` clause: everything from the last
/// occurrence of `" returning "` (ASCII-case-insensitive) on is cut.
pub open spec fn spec_strip_returning(s: Seq<char>) -> Seq<char> {
    match spec_rfind(lower(s), " returning "@, s.len() - 1) {
        Some(i) => s.subrange(0, i),
        None => s,
    }
}

/// Strip the `RETURNING` clause from a SQL statement, if present.
/// Peers replaying the statement have no use for returned rows.
pub fn strip_returning(sql: &str) -> (r: String)
    ensures
        r@ == spec_strip_returning(sql@),
{
    let s = str_to_chars(sql);
    let ls = to_lower(&s);
    let pat = str_to_chars(" returning ");
    match rfind_sub(&ls, &pat) {
        Some(i) => {
            proof {
                crate::strutil::lemma_rfind_is_match(ls@, pat@, ls@.len() - 1, i as int);
            }
            let head = copy_range(&s, 0, i);
            chars_to_string(&head)
        },
        None => {
            let head = copy_range(&s, 0, s.len());
            proof {
                assert(s@.subrange(0, s@.len() as int) =~= s@);
            }
            chars_to_string(&head)
        },
    }
}

/// `s` with its first `INSERT INTO` replaced by
/// `INSERT OR REPLACE INTO`; unchanged when none occurs.
pub open spec fn spec_insert_or_replace(s: Seq<char>) -> Seq<char> {
    match spec_find(s, "INSERT INTO"@, 0) {
        Some(i) => s.subrange(0, i) + "INSERT OR REPLACE INTO"@ + s.skip(i + "INSERT INTO"@.len()),
        None => s,
    }
}

/// Rewrite the first `INSERT INTO` of a statement into
/// `INSERT OR REPLACE INTO`, so that an insert replayed on a peer
/// converges even when both sides generated the same key.
pub fn rewrite_insert_or_replace(sql: &str) -> (r: String)
    ensures
        r@ == spec_insert_or_replace(sql@),
{
    let s = str_to_chars(sql);
    let n = s.len();
    let pat = str_to_chars("INSERT INTO");
    match find_sub(&s, &pat) {
        Some(i) => {
            proof {
                crate::strutil::lemma_find_is_first(s@, pat@, 0, i as int);
            }
            let mut out = copy_range(&s, 0, i);
            let rep = str_to_chars("INSERT OR REPLACE INTO");
            let mut k: usize = 0;
            while k < rep.len()
                invariant
                    k <= rep@.len(),
                    out@ =~= s@.subrange(0, i as int) + rep@.subrange(0, k as int),
                decreases rep.len() - k,
            {
                out.push(rep[k]);
                k = k + 1;
            }
            proof {
                assert(i + pat@.len() <= s@.len());
            }
            let tail_start = i + pat.len();
            let mut m: usize = tail_start;
            while m < s.len()
                invariant
                    tail_start <= m <= s@.len(),
                    tail_start == i + pat@.len() <= s@.len(),
                    out@ =~= s@.subrange(0, i as int) + rep@ + s@.subrange(
                        tail_start as int,
                        m as int,
                    ),
                decreases s.len() - m,
            {
                out.push(s[m]);
                m = m + 1;
            }
            proof {
                assert(s@.subrange(tail_start as int, s@.len() as int) =~= s@.skip(
                    i + "INSERT INTO"@.len(),
                ));
                reveal_strlit("INSERT OR REPLACE INTO");
                reveal_strlit("INSERT INTO");
                assert(out@ =~= spec_insert_or_replace(sql@));
            }
            chars_to_string(&out)
        },
        None => {
            let head = copy_range(&s, 0, s.len());
            proof {
                assert(s@.subrange(0, s@.len() as int) =~= s@);
            }
            chars_to_string(&head)
        },
    }
}

/// `p` is a prefix of `s`.
pub open spec fn starts_with(s: Seq<char>, p: Seq<char>) -> bool {
    p.len() <= s.len() && s.subrange(0, p.len() as int) == p
}

/// The words of `s`, split on whitespace.
pub fn split_words(s: &Vec<char>) -> (r: Vec<Vec<char>>)
    ensures
        r.deep_view() == spec_words(s@),
{
    let n = s.len();
    let mut r: Vec<Vec<char>> = Vec::new();
    let mut i: usize = 0;
    proof {
        assert(r.deep_view() =~= Seq::<Seq<char>>::empty());
        assert(Seq::<Seq<char>>::empty() + spec_words(s@.skip(0)) =~= spec_words(s@.skip(0)));
        assert(s@.skip(0) =~= s@);
    }
    while i < n
        invariant
            i <= n,
            n == s@.len(),
            spec_words(s@) == r.deep_view() + spec_words(s@.skip(i as int)),
        decreases n - i,
    {
        if char_is_space(s[i]) {
            proof {
                assert(s@.skip(i as int).drop_first() =~= s@.skip(i as int + 1));
            }
            i = i + 1;
        } else {
            let mut j: usize = i + 1;
            while j < n && !char_is_space(s[j])
                invariant
                    i < j <= n,
                    n == s@.len(),
                    !is_space(s@[i as int]),
                    forall|k: int| i <= k < j ==> !is_space(s@[k]),
                decreases n - j,
            {
                j = j + 1;
            }
            let w = copy_range(&s, i, j);
            proof {
                let rest = s@.skip(i as int);
                assert forall|k: int| 0 <= k < j - i implies !is_space(rest[k]) by {
                    assert(rest[k] == s@[i + k]);
                }
                if j < n {
                    assert(rest[j - i as int] == s@[j as int]);
                }
                lemma_word_prefix(rest, j - i as int);
                assert(rest.subrange(0, j - i as int) =~= s@.subrange(i as int, j as int));
                assert(rest.skip(j - i as int) =~= s@.skip(j as int));
                assert(w.deep_view() =~= w@);
                let pre = r.deep_view();
                assert(spec_words(rest) == seq![w@] + spec_words(s@.skip(j as int)));
                assert(pre + (seq![w@] + spec_words(s@.skip(j as int))) =~= (pre + seq![w@])
                    + spec_words(s@.skip(j as int)));
            }
            let ghost pre = r.deep_view();
            r.push(w);
            proof {
                assert(r.deep_view() =~= pre + seq![s@.subrange(i as int, j as int)]);
            }
            i = j;
        }
    }
    proof {
        assert(s@.skip(n as int) =~= Seq::<char>::empty());
        assert(r.deep_view() + Seq::<Seq<char>>::empty() =~= r.deep_view());
    }
    r
}

/// `s` with every leading and trailing occurrence of `c` removed.
pub open spec fn spec_trim_char(s: Seq<char>, c: char) -> Seq<char>
    decreases s.len(),
{
    if s.len() > 0 && s[0] == c {
        spec_trim_char(s.drop_first(), c)
    } else if s.len() > 0 && s.last() == c {
        spec_trim_char(s.drop_last(), c)
    } else {
        s
    }
}

/// Remove every leading and trailing occurrence of `c`.
pub fn trim_char(w: &Vec<char>, c: char) -> (r: Vec<char>)
    ensures
        r@ == spec_trim_char(w@, c),
{
    let n = w.len();
    proof {
        assert(w@.subrange(0, n as int) =~= w@);
    }
    let mut a: usize = 0;
    while a < n && w[a] == c
        invariant
            a <= n,
            n == w@.len(),
            spec_trim_char(w@, c) == spec_trim_char(w@.subrange(a as int, n as int), c),
        decreases n - a,
    {
        proof {
            assert(w@.subrange(a as int, n as int).drop_first() =~= w@.subrange(
                a as int + 1,
                n as int,
            ));
        }
        a = a + 1;
    }
    let mut b: usize = n;
    while b > a && w[b - 1] == c
        invariant
            a <= b <= n,
            n == w@.len(),
            a == n || w@[a as int] != c,
            spec_trim_char(w@, c) == spec_trim_char(w@.subrange(a as int, b as int), c),
        decreases b,
    {
        proof {
            assert(w@.subrange(a as int, b as int).drop_last() =~= w@.subrange(
                a as int,
                b as int - 1,
            ));
        }
        b = b - 1;
    }
    copy_range(w, a, b)
}

/// The table a double- or backtick-quoted identifier names.
pub open spec fn spec_unquote(w: Seq<char>) -> Seq<char> {
    spec_trim_char(spec_trim_char(w, '"'), '`')
}

/// What a write statement does: its kind and target table.  The kind
/// is read from the leading keyword (ASCII-case-insensitively); the
/// table name is the word after `INSERT INTO` and `DELETE FROM`, or
/// the word after `UPDATE`, with identifier quoting removed.
pub open spec fn spec_classify_write(s: Seq<char>) -> Option<(WriteKind, Seq<char>)> {
    let t = lower(spec_trim_start(s));
    let ws = spec_words(s);
    if starts_with(t, "insert"@) {
        if ws.len() >= 3 {
            Some((WriteKind::Insert, spec_unquote(ws[2])))
        } else {
            None
        }
    } else if starts_with(t, "update"@) {
        if ws.len() >= 2 {
            Some((WriteKind::Update, spec_unquote(ws[1])))
        } else {
            None
        }
    } else if starts_with(t, "delete"@) {
        if ws.len() >= 3 {
            Some((WriteKind::Delete, spec_unquote(ws[2])))
        } else {
            None
        }
    } else {
        None
    }
}

/// Whether the lowercased trimmed text starts with the given word.
fn lowered_starts_with(s: &Vec<char>, i: usize, lit: &str) -> (r: bool)
    requires
        i <= s@.len(),
    ensures
        r == starts_with(lower(s@.skip(i as int)), lit@),
{
    let n = s.len();
    let m = lit.unicode_len();
    if n - i < m {
        return false;
    }
    let mut k: usize = 0;
    while k < m
        invariant
            k <= m,
            m == lit@.len(),
            n == s@.len(),
            i + m <= n,
            forall|q: int| 0 <= q < k ==> crate::strutil::lower_char(s@[i + q]) == lit@[q],
        decreases m - k,
    {
        if crate::strutil::to_lower_char(s[i + k]) != lit.get_char(k) {
            proof {
                let t = lower(s@.skip(i as int));
                assert(t[k as int] == crate::strutil::lower_char(s@[i + k]));
                assert(t.subrange(0, m as int)[k as int] != lit@[k as int]);
            }
            return false;
        }
        k = k + 1;
    }
    proof {
        let t = lower(s@.skip(i as int));
        assert forall|q: int| 0 <= q < m implies t.subrange(0, m as int)[q] == lit@[q] by {
            assert(t[q] == crate::strutil::lower_char(s@[i + q]));
        }
        assert(t.subrange(0, m as int) =~= lit@);
    }
    true
}

/// Classify a statement as a write and extract the target table.
pub fn classify_write(sql: &str) -> (r: Option<(WriteKind, String)>)
    ensures
        (match r {
            Some(kt) => spec_classify_write(sql@) == Some((kt.0, kt.1@)),
            None => spec_classify_write(sql@) is None,
        }),
{
    let s = str_to_chars(sql);
    let n = s.len();
    let mut i: usize = 0;
    while i < n && char_is_space(s[i])
        invariant
            i <= n,
            n == s@.len(),
            forall|j: int| 0 <= j < i ==> is_space(s@[j]),
        decreases n - i,
    {
        i = i + 1;
    }
    proof {
        lemma_trim_skip(s@, i as int);
    }
    let words = split_words(&s);
    let kind: WriteKind;
    let word_index: usize;
    if lowered_starts_with(&s, i, "insert") {
        kind = WriteKind::Insert;
        word_index = 2;
    } else if lowered_starts_with(&s, i, "update") {
        kind = WriteKind::Update;
        word_index = 1;
    } else if lowered_starts_with(&s, i, "delete") {
        kind = WriteKind::Delete;
        word_index = 2;
    } else {
        return None;
    }
    if words.len() <= word_index {
        return None;
    }
    let unq = trim_char(&trim_char(&words[word_index], '"'), '`');
    proof {
        assert(words.deep_view()[word_index as int] == words@[word_index as int]@);
    }
    Some((kind, chars_to_string(&unq)))
}

} // verus!
