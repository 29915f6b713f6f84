//! Extraction of the row key from a rendered write statement.
//!
//! Replication and conflict resolution are per row: every captured
//! operation carries the string form of its row key, as far as the
//! statement shows it.  For an insert the key is the value standing
//! at the primary-key column's position in the `VALUES` list; for an
//! update or delete it is the value compared against the primary-key
//! column in the `WHERE` clause.  A statement that does not show the
//! key (an insert without that column, a delete of a whole table)
//! yields the empty string.

use vstd::prelude::*;

use crate::classify::{spec_unquote, trim_char};
use crate::messages::WriteKind;
use crate::render::{spec_trim, trim_spaces};
use crate::strutil::{
    char_is_space, chars_eq_lit, chars_to_string, copy_range, eq_at, find_sub, is_space, lower,
    match_at, spec_find, str_to_chars, to_lower,
};

verus! {

/// Position of the parenthesis that closes nesting depth `depth`,
/// scanning from `i`; single-quoted strings are skipped, a doubled
/// `''` stays inside its string.
pub open spec fn spec_close_paren(s: Seq<char>, i: int, depth: int, in_sq: bool) -> Option<int>
    decreases s.len() - i when 0 <= i
{
    if i < 0 || i >= s.len() {
        None
    } else {
        let c = s[i];
        if in_sq {
            spec_close_paren(s, i + 1, depth, c != '\'')
        } else if c == '\'' {
            spec_close_paren(s, i + 1, depth, true)
        } else if c == '(' {
            spec_close_paren(s, i + 1, depth + 1, false)
        } else if c == ')' {
            if depth == 1 {
                Some(i)
            } else {
                spec_close_paren(s, i + 1, depth - 1, false)
            }
        } else {
            spec_close_paren(s, i + 1, depth, false)
        }
    }
}

/// Find the parenthesis closing depth one, scanning from `i`.
fn close_paren(s: &Vec<char>, start: usize) -> (r: Option<usize>)
    requires
        start <= s@.len(),
    ensures
        (match r {
            Some(p) => spec_close_paren(s@, start as int, 1, false) == Some(p as int) && start
                <= p < s@.len(),
            None => spec_close_paren(s@, start as int, 1, false) is None,
        }),
{
    let n = s.len();
    let mut i: usize = start;
    let mut depth: u128 = 1;
    let mut in_sq: bool = false;
    while i < n
        invariant
            start <= i <= n,
            n == s@.len(),
            depth >= 1,
            depth <= 1 + i as u128,
            spec_close_paren(s@, start as int, 1, false) == spec_close_paren(
                s@,
                i as int,
                depth as int,
                in_sq,
            ),
        decreases n - i,
    {
        let c = s[i];
        if in_sq {
            in_sq = c != '\'';
        } else if c == '\'' {
            in_sq = true;
        } else if c == '(' {
            depth = depth + 1;
        } else if c == ')' {
            if depth == 1 {
                return Some(i);
            }
            depth = depth - 1;
        }
        i = i + 1;
    }
    None
}

/// The comma-separated items of a list, split at top level: commas
/// inside single-quoted strings or nested parentheses do not split.
pub open spec fn spec_split_list(
    s: Seq<char>,
    i: int,
    depth: int,
    in_sq: bool,
    cur: Seq<char>,
    acc: Seq<Seq<char>>,
) -> Seq<Seq<char>>
    decreases s.len() - i when 0 <= i
{
    if i < 0 || i >= s.len() {
        acc.push(cur)
    } else {
        let c = s[i];
        if in_sq {
            spec_split_list(s, i + 1, depth, c != '\'', cur.push(c), acc)
        } else if c == '\'' {
            spec_split_list(s, i + 1, depth, true, cur.push(c), acc)
        } else if c == '(' {
            spec_split_list(s, i + 1, depth + 1, false, cur.push(c), acc)
        } else if c == ')' {
            spec_split_list(s, i + 1, depth - 1, false, cur.push(c), acc)
        } else if c == ',' && depth == 0 {
            spec_split_list(s, i + 1, depth, false, Seq::empty(), acc.push(cur))
        } else {
            spec_split_list(s, i + 1, depth, false, cur.push(c), acc)
        }
    }
}

/// Split a list at its top-level commas.
fn split_list(s: &Vec<char>) -> (r: Vec<Vec<char>>)
    ensures
        r.deep_view() == spec_split_list(s@, 0, 0, false, Seq::empty(), Seq::empty()),
{
    let n = s.len();
    let mut r: Vec<Vec<char>> = Vec::new();
    let mut cur: Vec<char> = Vec::new();
    let mut depth: i128 = 0;
    let mut in_sq: bool = false;
    let mut i: usize = 0;
    proof {
        assert(r.deep_view() =~= Seq::<Seq<char>>::empty());
        assert(cur@ =~= Seq::<char>::empty());
    }
    while i < n
        invariant
            i <= n,
            n == s@.len(),
            -(i as int) <= depth as int <= i as int,
            spec_split_list(s@, 0, 0, false, Seq::empty(), Seq::empty()) == spec_split_list(
                s@,
                i as int,
                depth as int,
                in_sq,
                cur@,
                r.deep_view(),
            ),
        decreases n - i,
    {
        let c = s[i];
        if in_sq {
            in_sq = c != '\'';
            cur.push(c);
        } else if c == '\'' {
            in_sq = true;
            cur.push(c);
        } else if c == '(' {
            depth = depth + 1;
            cur.push(c);
        } else if c == ')' {
            depth = depth - 1;
            cur.push(c);
        } else if c == ',' && depth == 0 {
            let ghost pre = r.deep_view();
            let ghost gcur = cur@;
            proof {
                assert(cur.deep_view() =~= cur@);
            }
            r.push(cur);
            cur = Vec::new();
            proof {
                assert(r.deep_view() =~= pre.push(gcur));
                assert(cur@ =~= Seq::<char>::empty());
            }
        } else {
            cur.push(c);
        }
        i = i + 1;
    }
    let ghost pre = r.deep_view();
    let ghost gcur = cur@;
    proof {
        assert(cur.deep_view() =~= cur@);
    }
    r.push(cur);
    proof {
        assert(r.deep_view() =~= pre.push(gcur));
    }
    r
}

/// Whether a list item names the column, after trimming whitespace
/// and stripping identifier quoting.
pub open spec fn ident_names(x: Seq<char>, col: Seq<char>) -> bool {
    spec_unquote(spec_trim(x)) == col
}

/// The position of the column in a column list.
pub open spec fn spec_find_col(cols: Seq<Seq<char>>, col: Seq<char>, i: int) -> Option<int>
    decreases cols.len() - i when 0 <= i
{
    if i < 0 || i >= cols.len() {
        None
    } else if ident_names(cols[i], col) {
        Some(i)
    } else {
        spec_find_col(cols, col, i + 1)
    }
}

/// Find the column's position in a column list.
fn find_col(cols: &Vec<Vec<char>>, col: &str) -> (r: Option<usize>)
    ensures
        (match r {
            Some(k) => spec_find_col(cols.deep_view(), col@, 0) == Some(k as int) && k
                < cols@.len(),
            None => spec_find_col(cols.deep_view(), col@, 0) is None,
        }),
{
    let n = cols.len();
    let mut i: usize = 0;
    while i < n
        invariant
            i <= n,
            n == cols@.len(),
            cols.deep_view().len() == n,
            spec_find_col(cols.deep_view(), col@, 0) == spec_find_col(
                cols.deep_view(),
                col@,
                i as int,
            ),
        decreases n - i,
    {
        let t = trim_spaces(&cols[i]);
        let unq = trim_char(&trim_char(&t, '"'), '`');
        proof {
            assert(cols.deep_view()[i as int] == cols@[i as int]@);
        }
        if chars_eq_lit(&unq, col) {
            return Some(i);
        }
        i = i + 1;
    }
    None
}

/// `s` with every doubled `''` collapsed to a single quote.
pub open spec fn spec_undouble(s: Seq<char>) -> Seq<char>
    decreases s.len(),
{
    if s.len() == 0 {
        Seq::empty()
    } else if s.len() >= 2 && s[0] == '\'' && s[1] == '\'' {
        seq!['\''] + spec_undouble(s.skip(2))
    } else {
        seq![s[0]] + spec_undouble(s.skip(1))
    }
}

/// Collapse doubled quotes in a string's rendered contents.
fn undouble(s: &Vec<char>) -> (r: Vec<char>)
    ensures
        r@ == spec_undouble(s@),
{
    let n = s.len();
    let mut out: Vec<char> = Vec::new();
    let mut i: usize = 0;
    proof {
        assert(s@.skip(0) =~= s@);
        assert(out@ + spec_undouble(s@) =~= spec_undouble(s@));
    }
    while i < n
        invariant
            i <= n,
            n == s@.len(),
            spec_undouble(s@) == out@ + spec_undouble(s@.skip(i as int)),
        decreases n - i,
    {
        let ghost rest = s@.skip(i as int);
        if i + 1 < n && s[i] == '\'' && s[i + 1] == '\'' {
            proof {
                assert(rest[0] == s@[i as int]);
                assert(rest[1] == s@[i as int + 1]);
                assert(rest.skip(2) =~= s@.skip(i as int + 2));
                assert(out@ + (seq!['\''] + spec_undouble(rest.skip(2))) =~= (out@ + seq!['\''])
                    + spec_undouble(rest.skip(2)));
            }
            out.push('\'');
            i = i + 2;
        } else {
            proof {
                assert(rest[0] == s@[i as int]);
                assert(rest.skip(1) =~= s@.skip(i as int + 1));
                assert(out@ + (seq![rest[0]] + spec_undouble(rest.skip(1))) =~= (out@ + seq![
                    rest[0],
                ]) + spec_undouble(rest.skip(1)));
            }
            out.push(s[i]);
            i = i + 1;
        }
    }
    proof {
        assert(s@.skip(n as int) =~= Seq::<char>::empty());
        assert(out@ + Seq::<char>::empty() =~= out@);
    }
    out
}

/// The string form of a rendered value: whitespace trimmed; a
/// single-quoted string yields its contents with doubled quotes
/// collapsed; anything else is taken verbatim.
pub open spec fn spec_literal_form(v: Seq<char>) -> Seq<char> {
    let t = spec_trim(v);
    if t.len() >= 2 && t[0] == '\'' && t.last() == '\'' {
        spec_undouble(t.subrange(1, t.len() - 1))
    } else {
        t
    }
}

/// Read a rendered value's string form.
fn literal_form(v: &Vec<char>) -> (r: Vec<char>)
    ensures
        r@ == spec_literal_form(v@),
{
    let t = trim_spaces(v);
    if t.len() >= 2 && t[0] == '\'' && t[t.len() - 1] == '\'' {
        let inner = copy_range(&t, 1, t.len() - 1);
        undouble(&inner)
    } else {
        t
    }
}

/// The row key an insert statement shows: the value standing at the
/// primary-key column's position, reading the first parenthesized
/// list as the columns and the second as the values.  Empty when the
/// statement has no such lists or no such column.
pub open spec fn spec_insert_pk(sql: Seq<char>, col: Seq<char>) -> Seq<char> {
    match spec_find(sql, "("@, 0) {
        None => Seq::empty(),
        Some(o1) => match spec_close_paren(sql, o1 + 1, 1, false) {
            None => Seq::empty(),
            Some(c1) => {
                let cols = spec_split_list(
                    sql.subrange(o1 + 1, c1),
                    0,
                    0,
                    false,
                    Seq::empty(),
                    Seq::empty(),
                );
                match spec_find_col(cols, col, 0) {
                    None => Seq::empty(),
                    Some(idx) => match spec_find(sql, "("@, c1 + 1) {
                        None => Seq::empty(),
                        Some(o2) => match spec_close_paren(sql, o2 + 1, 1, false) {
                            None => Seq::empty(),
                            Some(c2) => {
                                let vals = spec_split_list(
                                    sql.subrange(o2 + 1, c2),
                                    0,
                                    0,
                                    false,
                                    Seq::empty(),
                                    Seq::empty(),
                                );
                                if idx < vals.len() {
                                    spec_literal_form(vals[idx])
                                } else {
                                    Seq::empty()
                                }
                            },
                        },
                    },
                }
            },
        },
    }
}

/// Extract the row key an insert statement shows.
pub fn insert_pk(sql: &str, col: &str) -> (r: Vec<char>)
    ensures
        r@ == spec_insert_pk(sql@, col@),
{
    let s = str_to_chars(sql);
    let n = s.len();
    let open = str_to_chars("(");
    proof {
        reveal_strlit("(");
    }
    let o1 = match find_sub(&s, &open) {
        Some(p) => {
            proof {
                crate::strutil::lemma_find_is_first(s@, open@, 0, p as int);
            }
            p
        },
        None => {
            return Vec::new();
        },
    };
    let c1 = match close_paren(&s, o1 + 1) {
        Some(p) => p,
        None => {
            return Vec::new();
        },
    };
    let cols_text = copy_range(&s, o1 + 1, c1);
    let cols = split_list(&cols_text);
    let idx = match find_col(&cols, col) {
        Some(k) => k,
        None => {
            return Vec::new();
        },
    };
    let tail = copy_range(&s, c1 + 1, n);
    let o2rel = match find_sub(&tail, &open) {
        Some(p) => {
            proof {
                crate::strutil::lemma_find_is_first(tail@, open@, 0, p as int);
                lemma_find_shift(s@, open@, c1 as int + 1, p as int);
            }
            p
        },
        None => {
            proof {
                lemma_find_shift_none(s@, open@, c1 as int + 1);
            }
            return Vec::new();
        },
    };
    let o2 = c1 + 1 + o2rel;
    let c2 = match close_paren(&s, o2 + 1) {
        Some(p) => p,
        None => {
            return Vec::new();
        },
    };
    let vals_text = copy_range(&s, o2 + 1, c2);
    let vals = split_list(&vals_text);
    if idx < vals.len() {
        proof {
            assert(vals.deep_view()[idx as int] == vals@[idx as int]@);
        }
        literal_form(&vals[idx])
    } else {
        Vec::new()
    }
}

/// Searching a suffix finds the same first match, shifted.
proof fn lemma_find_shift(s: Seq<char>, pat: Seq<char>, base: int, p: int)
    requires
        0 <= base <= s.len(),
        spec_find(s.subrange(base, s.len() as int), pat, 0) == Some(p),
    ensures
        spec_find(s, pat, base) == Some(base + p),
    decreases s.len() - base,
{
    let tail = s.subrange(base, s.len() as int);
    lemma_find_shift_step(s, pat, base, 0, p);
}

/// Step relation between a search in a suffix and in the whole.
proof fn lemma_find_shift_step(s: Seq<char>, pat: Seq<char>, base: int, k: int, p: int)
    requires
        0 <= base <= s.len(),
        0 <= k,
        spec_find(s.subrange(base, s.len() as int), pat, k) == Some(p),
    ensures
        spec_find(s, pat, base + k) == Some(base + p),
    decreases s.len() - base - k,
{
    let tail = s.subrange(base, s.len() as int);
    if k + pat.len() <= tail.len() {
        assert(tail.subrange(k, k + pat.len()) =~= s.subrange(base + k, base + k + pat.len()));
        if pat.len() == 0 {
        } else if tail.subrange(k, k + pat.len()) == pat {
        } else {
            lemma_find_shift_step(s, pat, base, k + 1, p);
        }
    }
}

/// A suffix with no match means no match from its start onward.
proof fn lemma_find_shift_none(s: Seq<char>, pat: Seq<char>, base: int)
    requires
        0 <= base <= s.len(),
        spec_find(s.subrange(base, s.len() as int), pat, 0) is None,
    ensures
        spec_find(s, pat, base) is None,
{
    lemma_find_shift_none_step(s, pat, base, 0);
}

/// Step relation for the empty search result.
proof fn lemma_find_shift_none_step(s: Seq<char>, pat: Seq<char>, base: int, k: int)
    requires
        0 <= base <= s.len(),
        0 <= k,
        spec_find(s.subrange(base, s.len() as int), pat, k) is None,
    ensures
        spec_find(s, pat, base + k) is None,
    decreases s.len() - base - k,
{
    let tail = s.subrange(base, s.len() as int);
    if k + pat.len() <= tail.len() {
        assert(tail.subrange(k, k + pat.len()) =~= s.subrange(base + k, base + k + pat.len()));
        if pat.len() == 0 {
        } else if tail.subrange(k, k + pat.len()) == pat {
        } else {
            lemma_find_shift_none_step(s, pat, base, k + 1);
        }
    }
}

/// A character that can stand inside a bare identifier.
pub open spec fn is_ident_char(c: char) -> bool {
    ('a' <= c && c <= 'z') || ('A' <= c && c <= 'Z') || ('0' <= c && c <= '9') || c == '_'
}

/// Whether `c` can stand inside a bare identifier.
fn char_is_ident(c: char) -> (r: bool)
    ensures
        r == is_ident_char(c),
{
    ('a' <= c && c <= 'z') || ('A' <= c && c <= 'Z') || ('0' <= c && c <= '9') || c == '_'
}

/// Whether the column stands at `j` — bare, on word boundaries, or
/// wrapped in identifier quotes — and the position right after it.
pub open spec fn spec_ident_at(s: Seq<char>, col: Seq<char>, j: int) -> Option<int> {
    if match_at(s, seq!['"'] + col + seq!['"'], j) {
        Some(j + col.len() + 2)
    } else if match_at(s, seq!['`'] + col + seq!['`'], j) {
        Some(j + col.len() + 2)
    } else if match_at(s, col, j) && (j == 0 || !is_ident_char(s[j - 1])) && (j + col.len()
        == s.len() || !is_ident_char(s[j + col.len()])) {
        Some(j + col.len())
    } else {
        None
    }
}

/// Decide whether the column stands at `j`.
fn ident_at(s: &Vec<char>, colv: &Vec<char>, dq: &Vec<char>, bt: &Vec<char>, j: usize) -> (r:
    Option<usize>)
    requires
        j <= s@.len(),
        dq@ == seq!['"'] + colv@ + seq!['"'],
        bt@ == seq!['`'] + colv@ + seq!['`'],
    ensures
        (match r {
            Some(e) => spec_ident_at(s@, colv@, j as int) == Some(e as int) && j <= e <= s@.len(),
            None => spec_ident_at(s@, colv@, j as int) is None,
        }),
{
    let n = s.len();
    if dq.len() <= n - j && eq_at(s, dq, j) {
        return Some(j + dq.len());
    }
    proof {
        assert(dq@.len() == colv@.len() + 2);
        assert(bt@.len() == colv@.len() + 2);
    }
    if bt.len() <= n - j && eq_at(s, bt, j) {
        return Some(j + bt.len());
    }
    if colv.len() <= n - j && eq_at(s, colv, j) {
        let left_ok = j == 0 || !char_is_ident(s[j - 1]);
        let right_ok = j + colv.len() == n || !char_is_ident(s[j + colv.len()]);
        if left_ok && right_ok {
            return Some(j + colv.len());
        }
    }
    None
}

/// The first non-whitespace position at or after `i`.
pub open spec fn spec_skip_spaces(s: Seq<char>, i: int) -> int
    decreases s.len() - i when 0 <= i
{
    if 0 <= i < s.len() && is_space(s[i]) {
        spec_skip_spaces(s, i + 1)
    } else {
        i
    }
}

/// Skip whitespace.
fn skip_spaces(s: &Vec<char>, start: usize) -> (r: usize)
    requires
        start <= s@.len(),
    ensures
        r as int == spec_skip_spaces(s@, start as int),
        start <= r <= s@.len(),
{
    let n = s.len();
    let mut j: usize = start;
    while j < n && char_is_space(s[j])
        invariant
            start <= j <= n,
            n == s@.len(),
            spec_skip_spaces(s@, start as int) == spec_skip_spaces(s@, j as int),
        decreases n - j,
    {
        j = j + 1;
    }
    j
}

/// The position of the quote closing a rendered string, scanning from
/// `i`; a doubled `''` stays inside.
pub open spec fn spec_string_end(s: Seq<char>, i: int) -> Option<int>
    decreases s.len() - i when 0 <= i
{
    if i < 0 || i >= s.len() {
        None
    } else if s[i] == '\'' {
        if i + 1 < s.len() && s[i + 1] == '\'' {
            spec_string_end(s, i + 2)
        } else {
            Some(i)
        }
    } else {
        spec_string_end(s, i + 1)
    }
}

/// Find the quote closing a rendered string.
fn string_end(s: &Vec<char>, start: usize) -> (r: Option<usize>)
    requires
        start <= s@.len(),
    ensures
        (match r {
            Some(e) => spec_string_end(s@, start as int) == Some(e as int) && start <= e
                < s@.len(),
            None => spec_string_end(s@, start as int) is None,
        }),
{
    let n = s.len();
    let mut j: usize = start;
    while j < n
        invariant
            start <= j <= n,
            n == s@.len(),
            spec_string_end(s@, start as int) == spec_string_end(s@, j as int),
        decreases n - j,
    {
        if s[j] == '\'' {
            if j + 1 < n && s[j + 1] == '\'' {
                j = j + 2;
            } else {
                return Some(j);
            }
        } else {
            j = j + 1;
        }
    }
    None
}

/// The end of a bare value token: the next whitespace, comma or
/// closing parenthesis.
pub open spec fn spec_token_end(s: Seq<char>, i: int) -> int
    decreases s.len() - i when 0 <= i
{
    if 0 <= i < s.len() && !(is_space(s[i]) || s[i] == ',' || s[i] == ')') {
        spec_token_end(s, i + 1)
    } else {
        i
    }
}

/// Find the end of a bare value token.
fn token_end(s: &Vec<char>, start: usize) -> (r: usize)
    requires
        start <= s@.len(),
    ensures
        r as int == spec_token_end(s@, start as int),
        start <= r <= s@.len(),
{
    let n = s.len();
    let mut j: usize = start;
    while j < n && !(char_is_space(s[j]) || s[j] == ',' || s[j] == ')')
        invariant
            start <= j <= n,
            n == s@.len(),
            spec_token_end(s@, start as int) == spec_token_end(s@, j as int),
        decreases n - j,
    {
        j = j + 1;
    }
    j
}

/// The string form of the value standing after position `i`: a
/// single-quoted string yields its contents with doubled quotes
/// collapsed, a bare token is taken up to the next delimiter.
pub open spec fn spec_value_token(s: Seq<char>, i: int) -> Seq<char> {
    let j = spec_skip_spaces(s, i);
    if 0 <= j < s.len() && s[j] == '\'' {
        match spec_string_end(s, j + 1) {
            Some(e) => spec_undouble(s.subrange(j + 1, e)),
            None => Seq::empty(),
        }
    } else {
        if 0 <= j <= s.len() {
            s.subrange(j, spec_token_end(s, j))
        } else {
            Seq::empty()
        }
    }
}

/// Read the value standing after position `i`.
fn value_token(s: &Vec<char>, start: usize) -> (r: Vec<char>)
    requires
        start <= s@.len(),
    ensures
        r@ == spec_value_token(s@, start as int),
{
    let n = s.len();
    let j = skip_spaces(s, start);
    if j < n && s[j] == '\'' {
        match string_end(s, j + 1) {
            Some(e) => {
                let inner = copy_range(s, j + 1, e);
                undouble(&inner)
            },
            None => Vec::new(),
        }
    } else {
        let e = token_end(s, j);
        copy_range(s, j, e)
    }
}

/// The value compared against the column in the text from `j` on: at
/// the first occurrence of the column followed by `=`, the value
/// after the `=`; empty when there is none.
pub open spec fn spec_where_scan(s: Seq<char>, col: Seq<char>, j: int) -> Seq<char>
    decreases s.len() - j when 0 <= j
{
    if j < 0 || j >= s.len() {
        Seq::empty()
    } else {
        match spec_ident_at(s, col, j) {
            Some(e) => {
                let k = spec_skip_spaces(s, e);
                if k < s.len() && s[k] == '=' {
                    spec_value_token(s, k + 1)
                } else {
                    spec_where_scan(s, col, j + 1)
                }
            },
            None => spec_where_scan(s, col, j + 1),
        }
    }
}

/// The row key an update or delete statement shows: the value the
/// `WHERE` clause compares against the primary-key column.  Empty
/// when the statement has no `WHERE` clause or no such comparison.
pub open spec fn spec_where_pk(sql: Seq<char>, col: Seq<char>) -> Seq<char> {
    match spec_find(lower(sql), "where"@, 0) {
        None => Seq::empty(),
        Some(w) => spec_where_scan(sql, col, w + "where"@.len()),
    }
}

/// Extract the row key an update or delete statement shows.
pub fn where_pk(sql: &str, col: &str) -> (r: Vec<char>)
    ensures
        r@ == spec_where_pk(sql@, col@),
{
    let s = str_to_chars(sql);
    let n = s.len();
    let ls = to_lower(&s);
    let pat = str_to_chars("where");
    let w = match find_sub(&ls, &pat) {
        Some(p) => {
            proof {
                crate::strutil::lemma_find_is_first(ls@, pat@, 0, p as int);
            }
            p
        },
        None => {
            return Vec::new();
        },
    };
    let colv = str_to_chars(col);
    let mut dq: Vec<char> = Vec::new();
    dq.push('"');
    let mut ci: usize = 0;
    while ci < colv.len()
        invariant
            ci <= colv@.len(),
            dq@ =~= seq!['"'] + colv@.subrange(0, ci as int),
        decreases colv.len() - ci,
    {
        dq.push(colv[ci]);
        ci = ci + 1;
    }
    dq.push('"');
    let mut bt: Vec<char> = Vec::new();
    bt.push('`');
    let mut cj: usize = 0;
    while cj < colv.len()
        invariant
            cj <= colv@.len(),
            bt@ =~= seq!['`'] + colv@.subrange(0, cj as int),
        decreases colv.len() - cj,
    {
        bt.push(colv[cj]);
        cj = cj + 1;
    }
    bt.push('`');
    proof {
        assert(colv@.subrange(0, colv@.len() as int) =~= colv@);
        assert(dq@ =~= seq!['"'] + colv@ + seq!['"']);
        assert(bt@ =~= seq!['`'] + colv@ + seq!['`']);
    }
    let mut j: usize = w + pat.len();
    proof {
        assert(spec_where_pk(sql@, col@) == spec_where_scan(s@, colv@, j as int));
    }
    while j < n
        invariant
            j <= n,
            n == s@.len(),
            colv@ == col@,
            s@ == sql@,
            dq@ == seq!['"'] + colv@ + seq!['"'],
            bt@ == seq!['`'] + colv@ + seq!['`'],
            spec_where_pk(sql@, col@) == spec_where_scan(s@, colv@, j as int),
        decreases n - j,
    {
        match ident_at(&s, &colv, &dq, &bt, j) {
            Some(e) => {
                let k = skip_spaces(&s, e);
                if k < n && s[k] == '=' {
                    return value_token(&s, k + 1);
                }
            },
            None => {},
        }
        j = j + 1;
    }
    proof {
        assert(spec_where_scan(s@, colv@, n as int) =~= Seq::<char>::empty());
    }
    Vec::new()
}

/// The row key a rendered write statement shows, by kind: the value
/// at the primary-key column of an insert's `VALUES` list, or the
/// value an update's or delete's `WHERE` clause compares against the
/// primary-key column; empty where the statement does not show it.
pub open spec fn spec_row_key(sql: Seq<char>, col: Seq<char>, kind: WriteKind) -> Seq<char> {
    match kind {
        WriteKind::Insert => spec_insert_pk(sql, col),
        WriteKind::Update => spec_where_pk(sql, col),
        WriteKind::Delete => spec_where_pk(sql, col),
    }
}

/// Extract the row key a rendered write statement shows.
pub fn extract_row_key(sql: &str, col: &str, kind: WriteKind) -> (r: String)
    ensures
        r@ == spec_row_key(sql@, col@, kind),
{
    let key = match kind {
        WriteKind::Insert => insert_pk(sql, col),
        WriteKind::Update => where_pk(sql, col),
        WriteKind::Delete => where_pk(sql, col),
    };
    chars_to_string(&key)
}

} // verus!
