//! Small verified helpers over strings and character vectors.
//!
//! The SQL-facing parts of the crate work on `Vec<char>` so that every
//! scan is plain indexed logic; these helpers move between `&str`,
//! `Vec<char>` and `String` and decide equality, with contracts over
//! the `Seq<char>` views.

use vstd::prelude::*;
use vstd::string::StrSliceExecFns;

verus! {

/// Equality of two string slices, decided by their character sequences.
pub fn str_eq_str(a: &str, b: &str) -> (r: bool)
    ensures
        r == (a@ == b@),
{
    let an = a.unicode_len();
    let bn = b.unicode_len();
    if an != bn {
        return false;
    }
    let mut i: usize = 0;
    while i < an
        invariant
            i <= an,
            an == a@.len(),
            bn == b@.len(),
            an == bn,
            forall|j: int| 0 <= j < i ==> a@[j] == b@[j],
        decreases an - i,
    {
        if a.get_char(i) != b.get_char(i) {
            return false;
        }
        i = i + 1;
    }
    proof {
        assert(a@ =~= b@);
    }
    true
}

/// The characters of a string, as a vector.
pub fn str_to_chars(s: &str) -> (r: Vec<char>)
    ensures
        r@ == s@,
{
    let n = s.unicode_len();
    let mut r: Vec<char> = Vec::new();
    let mut i: usize = 0;
    while i < n
        invariant
            i <= n,
            n == s@.len(),
            r@ =~= s@.subrange(0, i as int),
        decreases n - i,
    {
        r.push(s.get_char(i));
        i = i + 1;
    }
    proof {
        assert(r@ =~= s@);
    }
    r
}

/// Relies on `String: FromIterator<char>` (via `Iterator::collect`):
/// the collected string holds exactly the characters of the vector,
/// in order.
#[verifier::external_body]
pub fn chars_to_string(v: &Vec<char>) -> (r: String)
    ensures
        r@ == v@,
{
    v.iter().collect()
}

/// ASCII whitespace.
pub open spec fn is_space(c: char) -> bool {
    c == ' ' || c == '\t' || c == '\n' || c == '\r' || c == '\u{b}' || c == '\u{c}'
}

/// Whether `c` is ASCII whitespace.
pub fn char_is_space(c: char) -> (r: bool)
    ensures
        r == is_space(c),
{
    c == ' ' || c == '\t' || c == '\n' || c == '\r' || c == '\u{b}' || c == '\u{c}'
}

/// ASCII lowercasing of a single character; other characters are kept.
pub open spec fn lower_char(c: char) -> char {
    if 'A' <= c && c <= 'Z' {
        (((c as u8) + 32) as u8) as char
    } else {
        c
    }
}

/// ASCII-lowercase a character.
pub fn to_lower_char(c: char) -> (r: char)
    ensures
        r == lower_char(c),
{
    if 'A' <= c && c <= 'Z' {
        ((c as u8) + 32) as char
    } else {
        c
    }
}

/// ASCII lowercasing of a character sequence.
pub open spec fn lower(s: Seq<char>) -> Seq<char> {
    s.map_values(|c: char| lower_char(c))
}

/// ASCII-lowercase a character vector.
pub fn to_lower(s: &Vec<char>) -> (r: Vec<char>)
    ensures
        r@ == lower(s@),
{
    let mut r: Vec<char> = Vec::new();
    let mut i: usize = 0;
    while i < s.len()
        invariant
            i <= s@.len(),
            r@.len() == i,
            forall|j: int| 0 <= j < i ==> r@[j] == lower_char(s@[j]),
        decreases s.len() - i,
    {
        r.push(to_lower_char(s[i]));
        i = i + 1;
    }
    proof {
        assert(r@ =~= lower(s@));
    }
    r
}

/// Whether `pat` occurs in `s` starting at position `i`.
pub open spec fn match_at(s: Seq<char>, pat: Seq<char>, i: int) -> bool {
    0 <= i && i + pat.len() <= s.len() && s.subrange(i, i + pat.len()) == pat
}

/// Index of the first occurrence of `pat` in `s` at or after `i`.
pub open spec fn spec_find(s: Seq<char>, pat: Seq<char>, i: int) -> Option<int>
    decreases s.len() - i when 0 <= i
{
    if i < 0 || i + pat.len() > s.len() {
        None
    } else if pat.len() == 0 {
        Some(i)
    } else if s.subrange(i, i + pat.len()) == pat {
        Some(i)
    } else {
        spec_find(s, pat, i + 1)
    }
}

/// Index of the last occurrence of `pat` in `s` at or before `i`.
pub open spec fn spec_rfind(s: Seq<char>, pat: Seq<char>, i: int) -> Option<int>
    decreases i + 1 when i < s.len()
{
    if i < 0 || i >= s.len() {
        None
    } else if i + pat.len() <= s.len() && s.subrange(i, i + pat.len()) == pat {
        Some(i)
    } else {
        spec_rfind(s, pat, i - 1)
    }
}

/// Whether `pat` occurs anywhere in `s`.
pub open spec fn contains_sub(s: Seq<char>, pat: Seq<char>) -> bool {
    spec_find(s, pat, 0) is Some
}

/// Whether `pat` occurs in `s` at position `i`, decided by comparison.
pub fn eq_at(s: &Vec<char>, pat: &Vec<char>, i: usize) -> (r: bool)
    requires
        i + pat@.len() <= s@.len(),
    ensures
        r == (s@.subrange(i as int, i as int + pat@.len()) == pat@),
{
    let n = s.len();
    let m = pat.len();
    let mut j: usize = 0;
    while j < m
        invariant
            j <= m,
            n == s@.len(),
            m == pat@.len(),
            i + m <= n,
            forall|k: int| 0 <= k < j ==> s@[i + k] == pat@[k],
        decreases m - j,
    {
        if s[i + j] != pat[j] {
            proof {
                assert(s@.subrange(i as int, i as int + pat@.len())[j as int] != pat@[j as int]);
            }
            return false;
        }
        j = j + 1;
    }
    proof {
        assert(s@.subrange(i as int, i as int + pat@.len()) =~= pat@);
    }
    true
}

/// Find the first occurrence of `pat` in `s`.
pub fn find_sub(s: &Vec<char>, pat: &Vec<char>) -> (r: Option<usize>)
    ensures
        match r {
            Some(i) => spec_find(s@, pat@, 0) == Some(i as int),
            None => spec_find(s@, pat@, 0) is None,
        },
{
    let n = s.len();
    let m = pat.len();
    if m > n {
        proof {
            lemma_find_none_beyond(s@, pat@, 0);
        }
        return None;
    }
    if m == 0 {
        proof {
            assert(s@.subrange(0, 0) =~= pat@);
        }
        return Some(0);
    }
    let mut i: usize = 0;
    while i <= n - m
        invariant
            n == s@.len(),
            m == pat@.len(),
            0 < m <= n,
            i <= n - m + 1,
            spec_find(s@, pat@, 0) == spec_find(s@, pat@, i as int),
        decreases n - m + 1 - i,
    {
        if eq_at(s, pat, i) {
            return Some(i);
        }
        i = i + 1;
    }
    proof {
        lemma_find_none_beyond(s@, pat@, i as int);
    }
    None
}

/// Find the last occurrence of `pat` in `s`.
pub fn rfind_sub(s: &Vec<char>, pat: &Vec<char>) -> (r: Option<usize>)
    ensures
        match r {
            Some(i) => spec_rfind(s@, pat@, s@.len() - 1) == Some(i as int),
            None => spec_rfind(s@, pat@, s@.len() - 1) is None,
        },
{
    let mut i: usize = s.len();
    while i > 0
        invariant
            i <= s@.len(),
            spec_rfind(s@, pat@, s@.len() - 1) == spec_rfind(s@, pat@, i as int - 1),
        decreases i,
    {
        i = i - 1;
        if pat.len() <= s.len() - i {
            if eq_at(s, pat, i) {
                return Some(i);
            }
        }
    }
    None
}

/// Past the last position where `pat` could fit, there is no match.
proof fn lemma_find_none_beyond(s: Seq<char>, pat: Seq<char>, i: int)
    requires
        i >= 0,
        i + pat.len() > s.len() || i > s.len(),
    ensures
        spec_find(s, pat, i) is None,
    decreases s.len() - i,
{
    if i + pat.len() <= s.len() {
        lemma_find_none_beyond(s, pat, i + 1);
    }
}

/// A found position is a match, and nothing before it matches.
pub proof fn lemma_find_is_first(s: Seq<char>, pat: Seq<char>, i: int, r: int)
    requires
        0 <= i,
        spec_find(s, pat, i) == Some(r),
    ensures
        match_at(s, pat, r),
        i <= r,
        forall|j: int| i <= j < r ==> !match_at(s, pat, j),
    decreases s.len() - i,
{
    if pat.len() == 0 {
        if i <= s.len() {
            assert(s.subrange(i, i) =~= pat);
        }
    } else if i + pat.len() <= s.len() && s.subrange(i, i + pat.len()) != pat {
        lemma_find_is_first(s, pat, i + 1, r);
    }
}

/// A position found searching backward is in range and is a match.
pub proof fn lemma_rfind_is_match(s: Seq<char>, pat: Seq<char>, i: int, r: int)
    requires
        spec_rfind(s, pat, i) == Some(r),
        i < s.len(),
    ensures
        0 <= r <= i,
        r + pat.len() <= s.len(),
        s.subrange(r, r + pat.len()) == pat,
    decreases i + 1,
{
    if 0 <= i {
        if !(i + pat.len() <= s.len() && s.subrange(i, i + pat.len()) == pat) {
            lemma_rfind_is_match(s, pat, i - 1, r);
        }
    }
}

/// Equality of two byte vectors.
pub fn bytes_eq(a: &Vec<u8>, b: &Vec<u8>) -> (r: bool)
    ensures
        r == (a@ == b@),
{
    if a.len() != b.len() {
        return false;
    }
    let mut i: usize = 0;
    while i < a.len()
        invariant
            i <= a@.len(),
            a@.len() == b@.len(),
            forall|j: int| 0 <= j < i ==> a@[j] == b@[j],
        decreases a.len() - i,
    {
        if a[i] != b[i] {
            return false;
        }
        i = i + 1;
    }
    proof {
        assert(a@ =~= b@);
    }
    true
}

/// Whether a character vector spells the same characters as a string.
pub fn chars_eq_lit(w: &Vec<char>, lit: &str) -> (r: bool)
    ensures
        r == (w@ == lit@),
{
    let n = lit.unicode_len();
    if w.len() != n {
        return false;
    }
    let mut i: usize = 0;
    while i < n
        invariant
            i <= n,
            n == lit@.len(),
            w@.len() == n,
            forall|j: int| 0 <= j < i ==> w@[j] == lit@[j],
        decreases n - i,
    {
        if w[i] != lit.get_char(i) {
            return false;
        }
        i = i + 1;
    }
    proof {
        assert(w@ =~= lit@);
    }
    true
}

/// The characters of `s` between `a` (inclusive) and `b` (exclusive).
pub fn copy_range(s: &Vec<char>, a: usize, b: usize) -> (r: Vec<char>)
    requires
        a <= b <= s@.len(),
    ensures
        r@ == s@.subrange(a as int, b as int),
{
    let mut r: Vec<char> = Vec::new();
    let mut i: usize = a;
    while i < b
        invariant
            a <= i <= b <= s@.len(),
            r@ =~= s@.subrange(a as int, i as int),
        decreases b - i,
    {
        r.push(s[i]);
        i = i + 1;
    }
    proof {
        assert(r@ =~= s@.subrange(a as int, b as int));
    }
    r
}

} // verus!
