//! Rendering of logged queries into executable SQL.
//!
//! Drivers can log a statement together with its bind values as
//! `SQL -- binds: [v1, v2, ...]`.  To ship such a statement to a peer
//! it must be made self-contained: each placeholder (`?`, or `$N` for
//! numbered dialects) is replaced by the corresponding bind value
//! written as a SQL literal.  The scan never touches placeholders that
//! stand inside single-quoted strings, double-quoted or backtick
//! identifiers, `--` line comments or `/* */` block comments, and a
//! doubled `''` inside a string stays inside it.  A mismatch between
//! the number of placeholders and the number of binds fails the render
//! with a structured error.

use vstd::prelude::*;

use crate::dialect::DialectType;
use crate::strutil::{
    char_is_space, chars_eq_lit, chars_to_string, copy_range, find_sub, is_space, lower,
    spec_find, str_to_chars, to_lower,
};
use crate::classify::{spec_trim_start, lemma_trim_skip};

verus! {

/// Why a render failed.
#[derive(Debug, Clone, Copy, PartialEq, Eq, Structural)]
pub enum RewriterError {
    /// The input had no `-- binds:` trailer to parse.
    MissingBindsTrailer,
    /// The binds list could not be parsed.
    MalformedBinds,
    /// Placeholder count does not match the number of binds.
    PlaceholderCountMismatch { placeholders: usize, binds: usize },
}

/// Mathematical model of a [`Bind`].
#[verifier::ext_equal]
pub struct BindModel {
    pub raw: Seq<char>,
    pub was_quoted: bool,
}

/// One parsed bind value: its raw text and whether it stood in quotes.
#[derive(Debug)]
pub struct Bind {
    /// The text of the value, unquoted and unescaped.
    pub raw: String,
    /// Whether the value was written as a quoted string.
    pub was_quoted: bool,
}

impl View for Bind {
    type V = BindModel;

    open spec fn view(&self) -> BindModel {
        BindModel { raw: self.raw@, was_quoted: self.was_quoted }
    }
}

impl DeepView for Bind {
    type V = BindModel;

    open spec fn deep_view(&self) -> BindModel {
        self.view()
    }
}

/// `s` without its trailing whitespace.
pub open spec fn spec_trim_end(s: Seq<char>) -> Seq<char>
    decreases s.len(),
{
    if s.len() > 0 && is_space(s.last()) {
        spec_trim_end(s.drop_last())
    } else {
        s
    }
}

/// `s` without leading and trailing whitespace.
pub open spec fn spec_trim(s: Seq<char>) -> Seq<char> {
    spec_trim_end(spec_trim_start(s))
}

/// When the characters from `j` on are whitespace and the one before
/// `j` (if any) is not, trimming the end means keeping the first `j`.
pub proof fn lemma_trim_end_take(s: Seq<char>, j: int)
    requires
        0 <= j <= s.len(),
        forall|k: int| j <= k < s.len() ==> is_space(s[k]),
        j == 0 || !is_space(s[j - 1]),
    ensures
        spec_trim_end(s) == s.take(j),
    decreases s.len(),
{
    if j == s.len() {
        assert(s.take(j) =~= s);
    } else {
        assert(is_space(s.last()));
        let d = s.drop_last();
        assert forall|k: int| j <= k < d.len() implies is_space(d[k]) by {
            assert(d[k] == s[k]);
        }
        lemma_trim_end_take(d, j);
        assert(d.take(j) =~= s.take(j));
    }
}

/// Trim ASCII whitespace from both ends of a character vector.
pub fn trim_spaces(v: &Vec<char>) -> (r: Vec<char>)
    ensures
        r@ == spec_trim(v@),
{
    let n = v.len();
    let mut a: usize = 0;
    while a < n && char_is_space(v[a])
        invariant
            a <= n,
            n == v@.len(),
            forall|j: int| 0 <= j < a ==> is_space(v@[j]),
        decreases n - a,
    {
        a = a + 1;
    }
    proof {
        lemma_trim_skip(v@, a as int);
    }
    let ghost rest = v@.skip(a as int);
    let mut b: usize = n;
    while b > a && char_is_space(v[b - 1])
        invariant
            a <= b <= n,
            n == v@.len(),
            forall|k: int| b <= k < n ==> is_space(v@[k]),
        decreases b,
    {
        b = b - 1;
    }
    proof {
        assert forall|k: int| b - a <= k < rest.len() implies is_space(rest[k]) by {
            assert(rest[k] == v@[a + k]);
        }
        if b > a {
            assert(rest[b - a - 1] == v@[b - 1]);
        }
        lemma_trim_end_take(rest, b - a as int);
        assert(rest.take(b - a as int) =~= v@.subrange(a as int, b as int));
    }
    copy_range(v, a, b)
}

/// A decimal digit.
pub open spec fn is_digit(c: char) -> bool {
    '0' <= c && c <= '9'
}

/// How many characters of `s` satisfy `is_digit`.
pub open spec fn count_digits(s: Seq<char>) -> int
    decreases s.len(),
{
    if s.len() == 0 {
        0
    } else {
        count_digits(s.drop_last()) + if is_digit(s.last()) {
            1int
        } else {
            0int
        }
    }
}

/// How many characters of `s` are `.`.
pub open spec fn count_dots(s: Seq<char>) -> int
    decreases s.len(),
{
    if s.len() == 0 {
        0
    } else {
        count_dots(s.drop_last()) + if s.last() == '.' {
            1int
        } else {
            0int
        }
    }
}

/// `s` without a leading sign.
pub open spec fn strip_sign(s: Seq<char>) -> Seq<char> {
    if s.len() > 0 && (s[0] == '+' || s[0] == '-') {
        s.drop_first()
    } else {
        s
    }
}

/// Digits with at most one decimal point and at least one digit.
pub open spec fn is_mantissa(t: Seq<char>) -> bool {
    t.len() > 0 && count_digits(t) + count_dots(t) == t.len() && count_dots(t) <= 1
        && count_digits(t) >= 1
}

/// An exponent part: an optional sign, then at least one digit.
pub open spec fn is_exponent(x: Seq<char>) -> bool {
    let u = strip_sign(x);
    u.len() > 0 && count_digits(u) == u.len()
}

/// The position of the first exponent marker at or after `i`.
pub open spec fn spec_exp_pos(t: Seq<char>, i: int) -> Option<int>
    decreases t.len() - i when 0 <= i
{
    if i < 0 || i >= t.len() {
        None
    } else if t[i] == 'e' || t[i] == 'E' {
        Some(i)
    } else {
        spec_exp_pos(t, i + 1)
    }
}

/// A decimal number: an optional sign, a mantissa of digits with at
/// most one decimal point, and an optional exponent part.
pub open spec fn is_number(s: Seq<char>) -> bool {
    let t = strip_sign(s);
    match spec_exp_pos(t, 0) {
        None => is_mantissa(t),
        Some(e) => is_mantissa(t.subrange(0, e)) && is_exponent(t.skip(e + 1)),
    }
}

/// Whether every character is a digit, with at least one.
fn digits_only(m: &Vec<char>) -> (r: bool)
    ensures
        r == (m@.len() > 0 && count_digits(m@) == m@.len()),
{
    let n = m.len();
    if n == 0 {
        return false;
    }
    let mut digits: usize = 0;
    let mut i: usize = 0;
    while i < n
        invariant
            i <= n,
            n == m@.len(),
            digits <= i,
            digits == count_digits(m@.take(i as int)),
        decreases n - i,
    {
        proof {
            assert(m@.take(i as int + 1).drop_last() =~= m@.take(i as int));
            assert(m@.take(i as int + 1).last() == m@[i as int]);
        }
        if m[i] >= '0' && m[i] <= '9' {
            digits = digits + 1;
        }
        i = i + 1;
    }
    proof {
        assert(m@.take(n as int) =~= m@);
    }
    digits == n
}

/// Whether a character vector spells a mantissa.
fn mantissa_ok(m: &Vec<char>) -> (r: bool)
    ensures
        r == is_mantissa(m@),
{
    let n = m.len();
    if n == 0 {
        return false;
    }
    let mut digits: usize = 0;
    let mut dots: usize = 0;
    let mut i: usize = 0;
    while i < n
        invariant
            i <= n,
            n == m@.len(),
            digits + dots <= i,
            digits == count_digits(m@.take(i as int)),
            dots == count_dots(m@.take(i as int)),
        decreases n - i,
    {
        proof {
            assert(m@.take(i as int + 1).drop_last() =~= m@.take(i as int));
            assert(m@.take(i as int + 1).last() == m@[i as int]);
        }
        let c = m[i];
        if c >= '0' && c <= '9' {
            digits = digits + 1;
        } else if c == '.' {
            dots = dots + 1;
        }
        i = i + 1;
    }
    proof {
        assert(m@.take(n as int) =~= m@);
    }
    digits + dots == n && dots <= 1 && digits >= 1
}

/// Whether a character vector spells a decimal number.
pub fn chars_are_number(v: &Vec<char>) -> (r: bool)
    ensures
        r == is_number(v@),
{
    let n = v.len();
    let start: usize = if n > 0 && (v[0] == '+' || v[0] == '-') {
        1
    } else {
        0
    };
    let ghost t = strip_sign(v@);
    proof {
        assert(t =~= v@.subrange(start as int, n as int));
    }
    let mut j: usize = start;
    while j < n && !(v[j] == 'e' || v[j] == 'E')
        invariant
            start <= j <= n,
            n == v@.len(),
            t == v@.subrange(start as int, n as int),
            spec_exp_pos(t, 0) == spec_exp_pos(t, j - start as int),
        decreases n - j,
    {
        proof {
            assert(t[j - start as int] == v@[j as int]);
        }
        j = j + 1;
    }
    if j == n {
        proof {
            assert(spec_exp_pos(t, 0) is None);
        }
        let mant = crate::strutil::copy_range(v, start, n);
        proof {
            assert(mant@ =~= t);
        }
        mantissa_ok(&mant)
    } else {
        let ghost erel = j - start as int;
        proof {
            assert(t[erel] == v@[j as int]);
            assert(spec_exp_pos(t, 0) == Some(erel));
        }
        let mant = crate::strutil::copy_range(v, start, j);
        proof {
            assert(mant@ =~= t.subrange(0, erel));
        }
        let exp_raw = crate::strutil::copy_range(v, j + 1, n);
        proof {
            assert(exp_raw@ =~= t.skip(erel + 1));
        }
        let en = exp_raw.len();
        let estart: usize = if en > 0 && (exp_raw[0] == '+' || exp_raw[0] == '-') {
            1
        } else {
            0
        };
        let u = crate::strutil::copy_range(&exp_raw, estart, en);
        proof {
            assert(u@ =~= strip_sign(exp_raw@));
        }
        let m_ok = mantissa_ok(&mant);
        let e_ok = digits_only(&u);
        m_ok && e_ok
    }
}

/// `s` with every single quote doubled.
pub open spec fn spec_escape_quotes(s: Seq<char>) -> Seq<char>
    decreases s.len(),
{
    if s.len() == 0 {
        Seq::empty()
    } else {
        spec_escape_quotes(s.drop_last()) + if s.last() == '\'' {
            seq!['\'', '\'']
        } else {
            seq![s.last()]
        }
    }
}

/// The SQL literal a bind value renders to.  Unquoted `null`,
/// booleans and plain decimal numbers keep their meaning; everything
/// else becomes a single-quoted string with embedded quotes doubled.
/// Booleans render as `1`/`0` for SQLite and as `true`/`false` for
/// the other dialects.
pub open spec fn spec_format_literal(b: BindModel, d: DialectType) -> Seq<char> {
    if !b.was_quoted && lower(b.raw) == "null"@ {
        "NULL"@
    } else if !b.was_quoted && (lower(b.raw) == "true"@ || lower(b.raw) == "false"@) {
        if d == DialectType::SQLite {
            if lower(b.raw) == "true"@ {
                "1"@
            } else {
                "0"@
            }
        } else {
            lower(b.raw)
        }
    } else if !b.was_quoted && is_number(b.raw) {
        b.raw
    } else {
        seq!['\''] + spec_escape_quotes(b.raw) + seq!['\'']
    }
}

/// Render one bind value as a SQL literal for the given dialect.
pub fn format_literal(bind: &Bind, dialect: &DialectType) -> (r: Vec<char>)
    ensures
        r@ == spec_format_literal(bind@, *dialect),
{
    let raw = str_to_chars(bind.raw.as_str());
    let low = to_lower(&raw);
    if !bind.was_quoted && chars_eq_lit(&low, "null") {
        return str_to_chars("NULL");
    }
    if !bind.was_quoted && (chars_eq_lit(&low, "true") || chars_eq_lit(&low, "false")) {
        if matches!(dialect, DialectType::SQLite) {
            if chars_eq_lit(&low, "true") {
                return str_to_chars("1");
            } else {
                return str_to_chars("0");
            }
        } else {
            return low;
        }
    }
    if !bind.was_quoted && chars_are_number(&raw) {
        return raw;
    }
    let mut out: Vec<char> = Vec::new();
    out.push('\'');
    let mut i: usize = 0;
    while i < raw.len()
        invariant
            i <= raw@.len(),
            out@ =~= seq!['\''] + spec_escape_quotes(raw@.take(i as int)),
        decreases raw.len() - i,
    {
        proof {
            assert(raw@.take(i as int + 1).drop_last() =~= raw@.take(i as int));
            assert(raw@.take(i as int + 1).last() == raw@[i as int]);
        }
        if raw[i] == '\'' {
            out.push('\'');
            out.push('\'');
        } else {
            out.push(raw[i]);
        }
        i = i + 1;
    }
    out.push('\'');
    proof {
        assert(raw@.take(raw@.len() as int) =~= raw@);
        assert(out@ =~= seq!['\''] + spec_escape_quotes(bind@.raw) + seq!['\'']);
    }
    out
}

/// The bind values a binds list denotes, read left to right: items
/// separated by commas, strings in double quotes with backslash
/// escapes, everything else taken verbatim and trimmed.
pub open spec fn spec_parse_items(
    s: Seq<char>,
    i: int,
    cur: Seq<char>,
    in_str: bool,
    esc: bool,
    was_quoted: bool,
    acc: Seq<BindModel>,
) -> Seq<BindModel>
    decreases s.len() - i when 0 <= i
{
    if i >= s.len() {
        let item = spec_trim(cur);
        if item.len() > 0 || was_quoted {
            acc.push(BindModel { raw: item, was_quoted })
        } else {
            acc
        }
    } else {
        let c = s[i];
        if in_str && esc {
            spec_parse_items(s, i + 1, cur.push(c), true, false, was_quoted, acc)
        } else if in_str && c == '\\' {
            spec_parse_items(s, i + 1, cur, true, true, was_quoted, acc)
        } else if in_str && c == '"' {
            spec_parse_items(s, i + 1, cur, false, esc, was_quoted, acc)
        } else if in_str {
            spec_parse_items(s, i + 1, cur.push(c), true, esc, was_quoted, acc)
        } else if c == '"' {
            spec_parse_items(s, i + 1, cur, true, esc, true, acc)
        } else if c == ',' {
            let item = spec_trim(cur);
            let acc2 = if item.len() > 0 || was_quoted {
                acc.push(BindModel { raw: item, was_quoted })
            } else {
                acc
            };
            spec_parse_items(s, i + 1, Seq::empty(), false, esc, false, acc2)
        } else {
            spec_parse_items(s, i + 1, cur.push(c), false, esc, was_quoted, acc)
        }
    }
}

/// The binds list between the first `[` and the last `]`, parsed;
/// nothing when the brackets are missing or inverted.
pub open spec fn spec_parse_binds(s: Seq<char>) -> Option<Seq<BindModel>> {
    match spec_find(s, "["@, 0) {
        None => None,
        Some(l) => match crate::strutil::spec_rfind(s, "]"@, s.len() - 1) {
            None => None,
            Some(r) => if r < l + 1 {
                None
            } else {
                Some(
                    spec_parse_items(
                        s.subrange(l + 1, r),
                        0,
                        Seq::empty(),
                        false,
                        false,
                        false,
                        Seq::empty(),
                    ),
                )
            },
        },
    }
}

/// Parse the binds list of a logged query: a bracketed,
/// comma-separated list of double-quoted strings (with backslash
/// escapes) and bare literals.
pub fn parse_binds(binds_part: &str) -> (r: Result<Vec<Bind>, RewriterError>)
    ensures
        match r {
            Ok(binds) => spec_parse_binds(binds_part@) == Some(binds.deep_view()),
            Err(e) => spec_parse_binds(binds_part@) is None && e == RewriterError::MalformedBinds,
        },
{
    let s = str_to_chars(binds_part);
    let lb = match find_sub(&s, &str_to_chars("[")) {
        Some(l) => {
            proof {
                crate::strutil::lemma_find_is_first(s@, "["@, 0, l as int);
            }
            l
        },
        None => {
            return Err(RewriterError::MalformedBinds);
        },
    };
    let rb = match crate::strutil::rfind_sub(&s, &str_to_chars("]")) {
        Some(p) => {
            proof {
                crate::strutil::lemma_rfind_is_match(s@, "]"@, s@.len() - 1, p as int);
            }
            p
        },
        None => {
            return Err(RewriterError::MalformedBinds);
        },
    };
    if rb <= lb {
        return Err(RewriterError::MalformedBinds);
    }
    let inner = copy_range(&s, lb + 1, rb);
    let ghost gin = s@.subrange(lb + 1 as int, rb as int);
    let mut out: Vec<Bind> = Vec::new();
    let mut cur: Vec<char> = Vec::new();
    proof {
        assert(out.deep_view() =~= Seq::<BindModel>::empty());
        assert(cur@ =~= Seq::<char>::empty());
    }
    let mut in_str: bool = false;
    let mut esc: bool = false;
    let mut was_quoted: bool = false;
    let mut i: usize = 0;
    while i < inner.len()
        invariant
            i <= gin.len(),
            inner@ == gin,
            spec_parse_items(gin, 0, Seq::empty(), false, false, false, Seq::empty())
                == spec_parse_items(gin, i as int, cur@, in_str, esc, was_quoted, out.deep_view()),
        decreases inner.len() - i,
    {
        let c = inner[i];
        if in_str && esc {
            cur.push(c);
            esc = false;
        } else if in_str && c == '\\' {
            esc = true;
        } else if in_str && c == '"' {
            in_str = false;
        } else if in_str {
            cur.push(c);
        } else if c == '"' {
            in_str = true;
            was_quoted = true;
        } else if c == ',' {
            let item = trim_spaces(&cur);
            if item.len() > 0 || was_quoted {
                let ghost pre = out.deep_view();
                out.push(Bind { raw: chars_to_string(&item), was_quoted });
                proof {
                    assert(out.deep_view() =~= pre.push(
                        BindModel { raw: spec_trim(cur@), was_quoted },
                    ));
                }
            }
            cur = Vec::new();
            was_quoted = false;
        } else {
            cur.push(c);
        }
        i = i + 1;
    }
    let item = trim_spaces(&cur);
    if item.len() > 0 || was_quoted {
        let ghost pre = out.deep_view();
        out.push(Bind { raw: chars_to_string(&item), was_quoted });
        proof {
            assert(out.deep_view() =~= pre.push(BindModel { raw: spec_trim(cur@), was_quoted }));
        }
    }
    Ok(out)
}

/// Scanner state: whether the position stands inside a single-quoted
/// string, a double-quoted identifier, a backtick identifier, a `--`
/// line comment or a `/* */` block comment.
#[derive(Clone, Copy, Debug, PartialEq, Eq, Structural)]
pub struct ScanState {
    pub in_sq: bool,
    pub in_dq: bool,
    pub in_bt: bool,
    pub in_lc: bool,
    pub in_bc: bool,
}

/// The scanner state at the start of a statement.
pub open spec fn init_state() -> ScanState {
    ScanState { in_sq: false, in_dq: false, in_bt: false, in_lc: false, in_bc: false }
}

/// Outside every string, identifier and comment.
pub open spec fn outside(st: ScanState) -> bool {
    !st.in_sq && !st.in_dq && !st.in_bt && !st.in_lc && !st.in_bc
}

/// The number of consecutive decimal digits in `s` starting at `i`.
pub open spec fn digits_after(s: Seq<char>, i: int) -> int
    decreases s.len() - i when 0 <= i
{
    if 0 <= i < s.len() && is_digit(s[i]) {
        1 + digits_after(s, i + 1)
    } else {
        0
    }
}

/// The value of the digit `c`.
pub open spec fn digit_val(c: char) -> int {
    (c as u32) as int - 48
}

/// The value of the `nd` digits of `s` starting at `i`, read as a
/// decimal number.
pub open spec fn digits_val(s: Seq<char>, i: int, nd: int) -> int
    decreases nd,
{
    if nd <= 0 {
        0
    } else {
        digits_val(s, i, nd - 1) * 10 + digit_val(s[i + nd - 1])
    }
}

/// A digit run is non-negative and grows with its length.
pub proof fn lemma_digits_val_mono(s: Seq<char>, i: int, nd: int)
    requires
        0 <= i,
        0 <= nd,
        i + nd <= s.len(),
        forall|k: int| i <= k < i + nd ==> is_digit(s[k]),
    ensures
        0 <= digits_val(s, i, nd),
        forall|m: int| 0 <= m <= nd ==> digits_val(s, i, m) <= digits_val(s, i, nd),
    decreases nd,
{
    if nd > 0 {
        lemma_digits_val_mono(s, i, nd - 1);
        assert(is_digit(s[i + nd - 1]));
        assert(digit_val(s[i + nd - 1]) >= 0);
        assert(digits_val(s, i, nd - 1) * 10 >= digits_val(s, i, nd - 1));
    }
}

/// How many placeholders of the dialect stand in `s` from `i` on,
/// given the scanner state at `i`.  Placeholders inside strings,
/// identifiers and comments are not counted.  For the unknown dialect
/// nothing is counted.
pub open spec fn spec_count(s: Seq<char>, i: int, st: ScanState, d: DialectType) -> int
    decreases s.len() - i when 0 <= i
    via spec_count_decreases
{
    if d == DialectType::Unknown {
        0
    } else if i < 0 || i >= s.len() {
        0
    } else {
        let c = s[i];
        if st.in_lc {
            if c == '\n' {
                spec_count(s, i + 1, ScanState { in_lc: false, ..st }, d)
            } else {
                spec_count(s, i + 1, st, d)
            }
        } else if st.in_bc {
            if c == '*' && i + 1 < s.len() && s[i + 1] == '/' {
                spec_count(s, i + 2, ScanState { in_bc: false, ..st }, d)
            } else {
                spec_count(s, i + 1, st, d)
            }
        } else if c == '\'' && !st.in_dq && !st.in_bt {
            if st.in_sq && i + 1 < s.len() && s[i + 1] == '\'' {
                spec_count(s, i + 2, st, d)
            } else {
                spec_count(s, i + 1, ScanState { in_sq: !st.in_sq, ..st }, d)
            }
        } else if c == '"' && !st.in_sq && !st.in_bt {
            spec_count(s, i + 1, ScanState { in_dq: !st.in_dq, ..st }, d)
        } else if c == '`' && !st.in_sq && !st.in_dq {
            spec_count(s, i + 1, ScanState { in_bt: !st.in_bt, ..st }, d)
        } else if c == '-' && !st.in_sq && !st.in_dq && !st.in_bt && i + 1 < s.len() && s[i + 1]
            == '-' {
            spec_count(s, i + 2, ScanState { in_lc: true, ..st }, d)
        } else if c == '/' && !st.in_sq && !st.in_dq && !st.in_bt && i + 1 < s.len() && s[i + 1]
            == '*' {
            spec_count(s, i + 2, ScanState { in_bc: true, ..st }, d)
        } else if st.in_sq || st.in_dq || st.in_bt {
            spec_count(s, i + 1, st, d)
        } else if d == DialectType::PostgreSQL {
            if c == '$' {
                let nd = digits_after(s, i + 1);
                if nd > 0 {
                    1 + spec_count(s, i + 1 + nd, st, d)
                } else {
                    spec_count(s, i + 1, st, d)
                }
            } else {
                spec_count(s, i + 1, st, d)
            }
        } else {
            if c == '?' {
                1 + spec_count(s, i + 1, st, d)
            } else {
                spec_count(s, i + 1, st, d)
            }
        }
    }
}

#[via_fn]
proof fn spec_count_decreases(s: Seq<char>, i: int, st: ScanState, d: DialectType) {
    if 0 <= i {
        lemma_digits_after_bound(s, i + 1);
    }
}

/// The placeholder count never exceeds the characters left to scan.
pub proof fn lemma_count_bound(s: Seq<char>, i: int, st: ScanState, d: DialectType)
    requires
        0 <= i,
    ensures
        0 <= spec_count(s, i, st, d),
        i <= s.len() ==> spec_count(s, i, st, d) <= s.len() - i,
    decreases s.len() - i,
{
    if 0 <= i < s.len() && d != DialectType::Unknown {
        let c = s[i];
        if st.in_lc {
            if c == '\n' {
                lemma_count_bound(s, i + 1, ScanState { in_lc: false, ..st }, d);
            } else {
                lemma_count_bound(s, i + 1, st, d);
            }
        } else if st.in_bc {
            if c == '*' && i + 1 < s.len() && s[i + 1] == '/' {
                lemma_count_bound(s, i + 2, ScanState { in_bc: false, ..st }, d);
            } else {
                lemma_count_bound(s, i + 1, st, d);
            }
        } else if c == '\'' && !st.in_dq && !st.in_bt {
            if st.in_sq && i + 1 < s.len() && s[i + 1] == '\'' {
                lemma_count_bound(s, i + 2, st, d);
            } else {
                lemma_count_bound(s, i + 1, ScanState { in_sq: !st.in_sq, ..st }, d);
            }
        } else if c == '"' && !st.in_sq && !st.in_bt {
            lemma_count_bound(s, i + 1, ScanState { in_dq: !st.in_dq, ..st }, d);
        } else if c == '`' && !st.in_sq && !st.in_dq {
            lemma_count_bound(s, i + 1, ScanState { in_bt: !st.in_bt, ..st }, d);
        } else if c == '-' && !st.in_sq && !st.in_dq && !st.in_bt && i + 1 < s.len() && s[i + 1]
            == '-' {
            lemma_count_bound(s, i + 2, ScanState { in_lc: true, ..st }, d);
        } else if c == '/' && !st.in_sq && !st.in_dq && !st.in_bt && i + 1 < s.len() && s[i + 1]
            == '*' {
            lemma_count_bound(s, i + 2, ScanState { in_bc: true, ..st }, d);
        } else if st.in_sq || st.in_dq || st.in_bt {
            lemma_count_bound(s, i + 1, st, d);
        } else if d == DialectType::PostgreSQL {
            if c == '$' {
                lemma_digits_after_bound(s, i + 1);
                let nd = digits_after(s, i + 1);
                if nd > 0 {
                    lemma_count_bound(s, i + 1 + nd, st, d);
                } else {
                    lemma_count_bound(s, i + 1, st, d);
                }
            } else {
                lemma_count_bound(s, i + 1, st, d);
            }
        } else {
            lemma_count_bound(s, i + 1, st, d);
        }
    }
}

/// A digit run starting inside `s` ends within `s`.
pub proof fn lemma_digits_after_bound(s: Seq<char>, i: int)
    requires
        0 <= i,
    ensures
        0 <= digits_after(s, i),
        i <= s.len() ==> i + digits_after(s, i) <= s.len(),
    decreases s.len() - i,
{
    if 0 <= i < s.len() && is_digit(s[i]) {
        lemma_digits_after_bound(s, i + 1);
    }
}

/// Prefix a piece onto a successful suffix; failure passes through.
pub open spec fn prepend(piece: Seq<char>, rest: Option<Seq<char>>) -> Option<Seq<char>> {
    match rest {
        Some(r) => Some(piece + r),
        None => None,
    }
}

/// The rendered text of `s` from `i` on: every placeholder outside
/// strings, identifiers and comments is replaced by the literal form
/// of its bind; everything else is copied.  `None` when a placeholder
/// names no bind.  For the unknown dialect the text is copied as-is.
pub open spec fn spec_rewrite_chars(
    s: Seq<char>,
    i: int,
    st: ScanState,
    binds: Seq<BindModel>,
    bi: int,
    d: DialectType,
) -> Option<Seq<char>>
    decreases s.len() - i when 0 <= i
    via spec_rewrite_decreases
{
    if i < 0 || i >= s.len() {
        Some(Seq::empty())
    } else {
        let c = s[i];
        if st.in_lc {
            if c == '\n' {
                prepend(
                    seq![c],
                    spec_rewrite_chars(s, i + 1, ScanState { in_lc: false, ..st }, binds, bi, d),
                )
            } else {
                prepend(seq![c], spec_rewrite_chars(s, i + 1, st, binds, bi, d))
            }
        } else if st.in_bc {
            if c == '*' && i + 1 < s.len() && s[i + 1] == '/' {
                prepend(
                    seq![c, s[i + 1]],
                    spec_rewrite_chars(s, i + 2, ScanState { in_bc: false, ..st }, binds, bi, d),
                )
            } else {
                prepend(seq![c], spec_rewrite_chars(s, i + 1, st, binds, bi, d))
            }
        } else if c == '\'' && !st.in_dq && !st.in_bt {
            if st.in_sq && i + 1 < s.len() && s[i + 1] == '\'' {
                prepend(seq!['\'', '\''], spec_rewrite_chars(s, i + 2, st, binds, bi, d))
            } else {
                prepend(
                    seq!['\''],
                    spec_rewrite_chars(s, i + 1, ScanState { in_sq: !st.in_sq, ..st }, binds, bi, d),
                )
            }
        } else if c == '"' && !st.in_sq && !st.in_bt {
            prepend(
                seq!['"'],
                spec_rewrite_chars(s, i + 1, ScanState { in_dq: !st.in_dq, ..st }, binds, bi, d),
            )
        } else if c == '`' && !st.in_sq && !st.in_dq {
            prepend(
                seq!['`'],
                spec_rewrite_chars(s, i + 1, ScanState { in_bt: !st.in_bt, ..st }, binds, bi, d),
            )
        } else if c == '-' && !st.in_sq && !st.in_dq && !st.in_bt && i + 1 < s.len() && s[i + 1]
            == '-' {
            prepend(
                seq!['-', '-'],
                spec_rewrite_chars(s, i + 2, ScanState { in_lc: true, ..st }, binds, bi, d),
            )
        } else if c == '/' && !st.in_sq && !st.in_dq && !st.in_bt && i + 1 < s.len() && s[i + 1]
            == '*' {
            prepend(
                seq!['/', '*'],
                spec_rewrite_chars(s, i + 2, ScanState { in_bc: true, ..st }, binds, bi, d),
            )
        } else if st.in_sq || st.in_dq || st.in_bt {
            prepend(seq![c], spec_rewrite_chars(s, i + 1, st, binds, bi, d))
        } else if d == DialectType::PostgreSQL {
            if c == '$' {
                let nd = digits_after(s, i + 1);
                if nd == 0 {
                    prepend(seq!['$'], spec_rewrite_chars(s, i + 1, st, binds, bi, d))
                } else {
                    let v = digits_val(s, i + 1, nd);
                    if 1 <= v && v <= binds.len() {
                        prepend(
                            spec_format_literal(binds[v - 1], d),
                            spec_rewrite_chars(s, i + 1 + nd, st, binds, bi, d),
                        )
                    } else {
                        None
                    }
                }
            } else {
                prepend(seq![c], spec_rewrite_chars(s, i + 1, st, binds, bi, d))
            }
        } else if d == DialectType::Unknown {
            prepend(seq![c], spec_rewrite_chars(s, i + 1, st, binds, bi, d))
        } else {
            if c == '?' {
                if bi < binds.len() {
                    prepend(
                        spec_format_literal(binds[bi], d),
                        spec_rewrite_chars(s, i + 1, st, binds, bi + 1, d),
                    )
                } else {
                    None
                }
            } else {
                prepend(seq![c], spec_rewrite_chars(s, i + 1, st, binds, bi, d))
            }
        }
    }
}

#[via_fn]
proof fn spec_rewrite_decreases(
    s: Seq<char>,
    i: int,
    st: ScanState,
    binds: Seq<BindModel>,
    bi: int,
    d: DialectType,
) {
    if 0 <= i {
        lemma_digits_after_bound(s, i + 1);
    }
}

/// Append all characters of `piece` to `out`.
fn push_all(out: &mut Vec<char>, piece: &Vec<char>)
    ensures
        final(out)@ == old(out)@ + piece@,
{
    let mut k: usize = 0;
    while k < piece.len()
        invariant
            k <= piece@.len(),
            out@ =~= old(out)@ + piece@.subrange(0, k as int),
        decreases piece.len() - k,
    {
        out.push(piece[k]);
        k = k + 1;
    }
    proof {
        assert(out@ =~= old(out)@ + piece@);
    }
}

/// Trim ASCII whitespace from the end of a character vector.
fn trim_end_chars(v: &Vec<char>) -> (r: Vec<char>)
    ensures
        r@ == spec_trim_end(v@),
{
    let n = v.len();
    let mut b: usize = n;
    while b > 0 && char_is_space(v[b - 1])
        invariant
            b <= n,
            n == v@.len(),
            forall|k: int| b <= k < n ==> is_space(v@[k]),
        decreases b,
    {
        b = b - 1;
    }
    proof {
        lemma_trim_end_take(v@, b as int);
        assert(v@.take(b as int) =~= v@.subrange(0, b as int));
    }
    copy_range(v, 0, b)
}

/// Count placeholders of the dialect in `sql`: `?` for plain dialects
/// and `$N` for numbered ones, ignoring those inside strings,
/// identifiers and comments.  For the unknown dialect the count is
/// zero.
pub fn count_placeholders(sql: &str, dialect: &DialectType) -> (r: usize)
    ensures
        r as int == spec_count(sql@, 0, init_state(), *dialect),
{
    if matches!(dialect, DialectType::Unknown) {
        return 0;
    }
    let s = str_to_chars(sql);
    let n = s.len();
    let d = *dialect;
    let mut st = ScanState { in_sq: false, in_dq: false, in_bt: false, in_lc: false, in_bc: false };
    let mut count: usize = 0;
    let mut i: usize = 0;
    while i < n
        invariant
            i <= n,
            n == s@.len(),
            s@ == sql@,
            count <= i,
            d == *dialect,
            d != DialectType::Unknown,
            spec_count(sql@, 0, init_state(), d) == count + spec_count(s@, i as int, st, d),
        decreases n - i,
    {
        let c = s[i];
        if st.in_lc {
            if c == '\n' {
                st.in_lc = false;
            }
            i = i + 1;
        } else if st.in_bc {
            if c == '*' && i + 1 < n && s[i + 1] == '/' {
                st.in_bc = false;
                i = i + 2;
            } else {
                i = i + 1;
            }
        } else if c == '\'' && !st.in_dq && !st.in_bt {
            if st.in_sq && i + 1 < n && s[i + 1] == '\'' {
                i = i + 2;
            } else {
                st.in_sq = !st.in_sq;
                i = i + 1;
            }
        } else if c == '"' && !st.in_sq && !st.in_bt {
            st.in_dq = !st.in_dq;
            i = i + 1;
        } else if c == '`' && !st.in_sq && !st.in_dq {
            st.in_bt = !st.in_bt;
            i = i + 1;
        } else if c == '-' && !st.in_sq && !st.in_dq && !st.in_bt && i + 1 < n && s[i + 1] == '-' {
            st.in_lc = true;
            i = i + 2;
        } else if c == '/' && !st.in_sq && !st.in_dq && !st.in_bt && i + 1 < n && s[i + 1] == '*' {
            st.in_bc = true;
            i = i + 2;
        } else if st.in_sq || st.in_dq || st.in_bt {
            i = i + 1;
        } else if matches!(d, DialectType::PostgreSQL) {
            if c == '$' {
                let mut j: usize = i + 1;
                while j < n && s[j] >= '0' && s[j] <= '9'
                    invariant
                        i + 1 <= j <= n,
                        n == s@.len(),
                        digits_after(s@, i as int + 1) == (j - i - 1) + digits_after(
                            s@,
                            j as int,
                        ),
                    decreases n - j,
                {
                    j = j + 1;
                }
                if j > i + 1 {
                    count = count + 1;
                    i = j;
                } else {
                    i = i + 1;
                }
            } else {
                i = i + 1;
            }
        } else {
            if c == '?' {
                count = count + 1;
            }
            i = i + 1;
        }
    }
    count
}

/// What rendering a logged query means.  The text splits at the last
/// `-- binds:` — the trailer a driver appends at the end, so one
/// inside a string literal is never mistaken for it — into the SQL
/// part and the binds list; the binds must
/// parse and their number must equal the number of placeholders in
/// the SQL part; then every placeholder is replaced by its bind as a
/// literal and trailing whitespace is trimmed.
pub open spec fn spec_render(s: Seq<char>, d: DialectType) -> Result<Seq<char>, RewriterError> {
    match crate::strutil::spec_rfind(s, "-- binds:"@, s.len() - 1) {
        None => Err(RewriterError::MissingBindsTrailer),
        Some(p) => {
            let sql = s.subrange(0, p);
            let rest = s.skip(p + "-- binds:"@.len());
            match spec_parse_binds(rest) {
                None => Err(RewriterError::MalformedBinds),
                Some(binds) => {
                    let expected = spec_count(sql, 0, init_state(), d);
                    if expected != binds.len() {
                        Err(
                            RewriterError::PlaceholderCountMismatch {
                                placeholders: expected as usize,
                                binds: binds.len() as usize,
                            },
                        )
                    } else {
                        match spec_rewrite_chars(sql, 0, init_state(), binds, 0, d) {
                            Some(out) => Ok(spec_trim_end(out)),
                            None => Err(
                                RewriterError::PlaceholderCountMismatch {
                                    placeholders: expected as usize,
                                    binds: binds.len() as usize,
                                },
                            ),
                        }
                    }
                },
            }
        },
    }
}

/// One scan step moves the built prefix forward.
proof fn lemma_step(
    total: Option<Seq<char>>,
    outv: Seq<char>,
    piece: Seq<char>,
    at_i: Option<Seq<char>>,
    at_next: Option<Seq<char>>,
)
    requires
        at_i == prepend(piece, at_next),
        match at_i {
            Some(suf) => total == Some(outv + suf),
            None => total is None,
        },
    ensures
        match at_next {
            Some(s2) => total == Some((outv + piece) + s2),
            None => total is None,
        },
{
    match at_next {
        Some(s2) => {
            assert(outv + (piece + s2) =~= (outv + piece) + s2);
        },
        None => {},
    }
}

/// Replace the placeholders of a logged query by its binds, rendered
/// as SQL literals, and return the self-contained statement.  Fails
/// when the binds trailer is missing or malformed, or when the
/// placeholders do not pair up with the binds.
#[verifier::rlimit(100)]
pub fn rewrite_debugquery_to_sql(input: &str, dialect: &DialectType) -> (r: Result<
    String,
    RewriterError,
>)
    ensures
        (match r {
            Ok(out) => spec_render(input@, *dialect) == Ok::<Seq<char>, RewriterError>(out@),
            Err(e) => spec_render(input@, *dialect) == Err::<Seq<char>, RewriterError>(e),
        }),
{
    let s = str_to_chars(input);
    let pat = str_to_chars("-- binds:");
    let p: usize = match crate::strutil::rfind_sub(&s, &pat) {
        Some(q) => {
            proof {
                crate::strutil::lemma_rfind_is_match(s@, pat@, s@.len() - 1, q as int);
            }
            q
        },
        None => {
            return Err(RewriterError::MissingBindsTrailer);
        },
    };
    let sv = copy_range(&s, 0, p);
    let ghost gsql = input@.subrange(0, p as int);
    let n0 = s.len();
    let rest_v = copy_range(&s, p + pat.len(), n0);
    let binds_str = chars_to_string(&rest_v);
    proof {
        assert(binds_str@ =~= input@.skip(p + "-- binds:"@.len()));
    }
    let binds = match parse_binds(binds_str.as_str()) {
        Ok(b) => b,
        Err(_) => {
            return Err(RewriterError::MalformedBinds);
        },
    };
    let ghost bm = binds.deep_view();
    let sql_str = chars_to_string(&sv);
    let d = *dialect;
    let expected = count_placeholders(sql_str.as_str(), dialect);
    let blen = binds.len();
    proof {
        lemma_count_bound(gsql, 0, init_state(), d);
    }
    if expected != blen {
        return Err(
            RewriterError::PlaceholderCountMismatch { placeholders: expected, binds: blen },
        );
    }
    let ghost total = spec_rewrite_chars(gsql, 0, init_state(), bm, 0, d);
    proof {
        assert(match total {
            Some(o) => spec_render(input@, *dialect) == Ok::<Seq<char>, RewriterError>(
                spec_trim_end(o),
            ),
            None => spec_render(input@, *dialect) == Err::<Seq<char>, RewriterError>(
                RewriterError::PlaceholderCountMismatch { placeholders: expected, binds: blen },
            ),
        });
    }
    let n = sv.len();
    let mut st = ScanState { in_sq: false, in_dq: false, in_bt: false, in_lc: false, in_bc: false };
    let mut out: Vec<char> = Vec::new();
    let mut bi: usize = 0;
    let mut i: usize = 0;
    proof {
        assert(out@ + total->0 =~= total->0);
    }
    while i < n
        invariant
            i <= n,
            n == gsql.len(),
            sv@ == gsql,
            bi <= blen,
            blen == bm.len(),
            bm == binds.deep_view(),
            d == *dialect,
            total == spec_rewrite_chars(gsql, 0, init_state(), bm, 0, d),
            (match total {
                Some(o) => spec_render(input@, *dialect) == Ok::<Seq<char>, RewriterError>(
                    spec_trim_end(o),
                ),
                None => spec_render(input@, *dialect) == Err::<Seq<char>, RewriterError>(
                    RewriterError::PlaceholderCountMismatch { placeholders: expected, binds: blen },
                ),
            }),
            (match spec_rewrite_chars(gsql, i as int, st, bm, bi as int, d) {
                Some(suf) => total == Some(out@ + suf),
                None => total is None,
            }),
        decreases n - i,
    {
        let c = sv[i];
        let ghost at_i = spec_rewrite_chars(gsql, i as int, st, bm, bi as int, d);
        if st.in_lc {
            let new_st = if c == '\n' {
                ScanState { in_lc: false, ..st }
            } else {
                st
            };
            proof {
                lemma_step(
                    total,
                    out@,
                    seq![c],
                    at_i,
                    spec_rewrite_chars(gsql, i as int + 1, new_st, bm, bi as int, d),
                );
            }
            out.push(c);
            st = new_st;
            i = i + 1;
        } else if st.in_bc {
            if c == '*' && i + 1 < n && sv[i + 1] == '/' {
                let new_st = ScanState { in_bc: false, ..st };
                proof {
                    lemma_step(
                        total,
                        out@,
                        seq!['*', '/'],
                        at_i,
                        spec_rewrite_chars(gsql, i as int + 2, new_st, bm, bi as int, d),
                    );
                }
                out.push('*');
                out.push('/');
                st = new_st;
                i = i + 2;
            } else {
                proof {
                    lemma_step(
                        total,
                        out@,
                        seq![c],
                        at_i,
                        spec_rewrite_chars(gsql, i as int + 1, st, bm, bi as int, d),
                    );
                }
                out.push(c);
                i = i + 1;
            }
        } else if c == '\'' && !st.in_dq && !st.in_bt {
            if st.in_sq && i + 1 < n && sv[i + 1] == '\'' {
                proof {
                    lemma_step(
                        total,
                        out@,
                        seq!['\'', '\''],
                        at_i,
                        spec_rewrite_chars(gsql, i as int + 2, st, bm, bi as int, d),
                    );
                }
                out.push('\'');
                out.push('\'');
                i = i + 2;
            } else {
                let new_st = ScanState { in_sq: !st.in_sq, ..st };
                proof {
                    lemma_step(
                        total,
                        out@,
                        seq!['\''],
                        at_i,
                        spec_rewrite_chars(gsql, i as int + 1, new_st, bm, bi as int, d),
                    );
                }
                out.push('\'');
                st = new_st;
                i = i + 1;
            }
        } else if c == '"' && !st.in_sq && !st.in_bt {
            let new_st = ScanState { in_dq: !st.in_dq, ..st };
            proof {
                lemma_step(
                    total,
                    out@,
                    seq!['"'],
                    at_i,
                    spec_rewrite_chars(gsql, i as int + 1, new_st, bm, bi as int, d),
                );
            }
            out.push('"');
            st = new_st;
            i = i + 1;
        } else if c == '`' && !st.in_sq && !st.in_dq {
            let new_st = ScanState { in_bt: !st.in_bt, ..st };
            proof {
                lemma_step(
                    total,
                    out@,
                    seq!['`'],
                    at_i,
                    spec_rewrite_chars(gsql, i as int + 1, new_st, bm, bi as int, d),
                );
            }
            out.push('`');
            st = new_st;
            i = i + 1;
        } else if c == '-' && !st.in_sq && !st.in_dq && !st.in_bt && i + 1 < n && sv[i + 1] == '-' {
            let new_st = ScanState { in_lc: true, ..st };
            proof {
                lemma_step(
                    total,
                    out@,
                    seq!['-', '-'],
                    at_i,
                    spec_rewrite_chars(gsql, i as int + 2, new_st, bm, bi as int, d),
                );
            }
            out.push('-');
            out.push('-');
            st = new_st;
            i = i + 2;
        } else if c == '/' && !st.in_sq && !st.in_dq && !st.in_bt && i + 1 < n && sv[i + 1] == '*' {
            let new_st = ScanState { in_bc: true, ..st };
            proof {
                lemma_step(
                    total,
                    out@,
                    seq!['/', '*'],
                    at_i,
                    spec_rewrite_chars(gsql, i as int + 2, new_st, bm, bi as int, d),
                );
            }
            out.push('/');
            out.push('*');
            st = new_st;
            i = i + 2;
        } else if st.in_sq || st.in_dq || st.in_bt {
            proof {
                lemma_step(
                    total,
                    out@,
                    seq![c],
                    at_i,
                    spec_rewrite_chars(gsql, i as int + 1, st, bm, bi as int, d),
                );
            }
            out.push(c);
            i = i + 1;
        } else if matches!(d, DialectType::PostgreSQL) {
            if c == '$' {
                let mut j: usize = i + 1;
                while j < n && sv[j] >= '0' && sv[j] <= '9'
                    invariant
                        i + 1 <= j <= n,
                        n == gsql.len(),
                        sv@ == gsql,
                        digits_after(gsql, i as int + 1) == (j - i - 1) + digits_after(
                            gsql,
                            j as int,
                        ),
                        forall|k: int| i + 1 <= k < j ==> is_digit(gsql[k]),
                    decreases n - j,
                {
                    j = j + 1;
                }
                let ghost nd = digits_after(gsql, i as int + 1);
                proof {
                    assert(nd == j - i - 1);
                }
                if j == i + 1 {
                    proof {
                        lemma_step(
                            total,
                            out@,
                            seq!['$'],
                            at_i,
                            spec_rewrite_chars(gsql, i as int + 1, st, bm, bi as int, d),
                        );
                    }
                    out.push('$');
                    i = i + 1;
                } else {
                    let ghost v = digits_val(gsql, i as int + 1, nd);
                    let cap: u128 = blen as u128 + 1;
                    let mut acc: u128 = 0;
                    let mut k: usize = i + 1;
                    proof {
                        lemma_digits_val_mono(gsql, i as int + 1, nd);
                    }
                    while k < j
                        invariant
                            i + 1 <= k <= j <= n,
                            n == gsql.len(),
                            sv@ == gsql,
                            cap == blen as u128 + 1,
                            blen <= usize::MAX,
                            forall|t: int| i + 1 <= t < j ==> is_digit(gsql[t]),
                            acc as int == (if digits_val(gsql, i as int + 1, k - i - 1) <= cap as int {
                                digits_val(gsql, i as int + 1, k - i - 1)
                            } else {
                                cap as int
                            }),
                        decreases j - k,
                    {
                        let dch = sv[k];
                        proof {
                            assert(is_digit(gsql[k as int]));
                            lemma_digits_val_mono(gsql, i as int + 1, k - i - 1 as int);
                            assert(digits_val(gsql, i as int + 1, k - i)
                                == digits_val(gsql, i as int + 1, k - i - 1) * 10 + digit_val(
                                gsql[k as int],
                            ));
                        }
                        let dv: u128 = (dch as u32 - 48) as u128;
                        let next = acc * 10 + dv;
                        acc = if next > cap {
                            cap
                        } else {
                            next
                        };
                        k = k + 1;
                    }
                    proof {
                        lemma_digits_val_mono(gsql, i as int + 1, nd);
                    }
                    if acc == 0 || acc > blen as u128 {
                        proof {
                            assert(!(1 <= v && v <= bm.len()));
                            assert(at_i is None);
                        }
                        return Err(
                            RewriterError::PlaceholderCountMismatch {
                                placeholders: expected,
                                binds: blen,
                            },
                        );
                    }
                    let idx = acc as usize;
                    proof {
                        assert(v == acc as int);
                        assert(1 <= v && v <= bm.len());
                        assert(bm[v - 1] == binds@[v - 1]@);
                    }
                    let lit = format_literal(&binds[idx - 1], dialect);
                    proof {
                        lemma_step(
                            total,
                            out@,
                            lit@,
                            at_i,
                            spec_rewrite_chars(gsql, i as int + 1 + nd, st, bm, bi as int, d),
                        );
                    }
                    push_all(&mut out, &lit);
                    i = j;
                }
            } else {
                proof {
                    lemma_step(
                        total,
                        out@,
                        seq![c],
                        at_i,
                        spec_rewrite_chars(gsql, i as int + 1, st, bm, bi as int, d),
                    );
                }
                out.push(c);
                i = i + 1;
            }
        } else if matches!(d, DialectType::Unknown) {
            proof {
                lemma_step(
                    total,
                    out@,
                    seq![c],
                    at_i,
                    spec_rewrite_chars(gsql, i as int + 1, st, bm, bi as int, d),
                );
            }
            out.push(c);
            i = i + 1;
        } else {
            if c == '?' {
                if bi >= blen {
                    proof {
                        assert(at_i is None);
                    }
                    return Err(
                        RewriterError::PlaceholderCountMismatch {
                            placeholders: expected,
                            binds: blen,
                        },
                    );
                }
                proof {
                    assert(bm[bi as int] == binds@[bi as int]@);
                }
                let lit = format_literal(&binds[bi], dialect);
                proof {
                    lemma_step(
                        total,
                        out@,
                        lit@,
                        at_i,
                        spec_rewrite_chars(gsql, i as int + 1, st, bm, bi as int + 1, d),
                    );
                }
                push_all(&mut out, &lit);
                bi = bi + 1;
                i = i + 1;
            } else {
                proof {
                    lemma_step(
                        total,
                        out@,
                        seq![c],
                        at_i,
                        spec_rewrite_chars(gsql, i as int + 1, st, bm, bi as int, d),
                    );
                }
                out.push(c);
                i = i + 1;
            }
        }
    }
    proof {
        assert(spec_rewrite_chars(gsql, n as int, st, bm, bi as int, d) == Some(
            Seq::<char>::empty(),
        ));
        assert(out@ + Seq::<char>::empty() =~= out@);
        assert(total == Some(out@));
    }
    let trimmed = trim_end_chars(&out);
    Ok(chars_to_string(&trimmed))
}

/// Renderer fidelity for the copied text: where the scan counts no
/// placeholder — in particular inside single-quoted strings, quoted
/// identifiers and comments, whose contents are never counted — the
/// renderer copies the text unchanged, whatever binds it holds.
pub proof fn lemma_rewrite_identity(
    s: Seq<char>,
    i: int,
    st: ScanState,
    binds: Seq<BindModel>,
    bi: int,
    d: DialectType,
)
    requires
        0 <= i <= s.len(),
        spec_count(s, i, st, d) == 0,
    ensures
        spec_rewrite_chars(s, i, st, binds, bi, d) == Some(s.skip(i)),
    decreases s.len() - i,
{
    if i == s.len() {
        assert(s.skip(i) =~= Seq::<char>::empty());
    } else {
        let c = s[i];
        assert(s.skip(i) =~= seq![c] + s.skip(i + 1));
        if i + 2 <= s.len() {
            assert(s.skip(i) =~= seq![c, s[i + 1]] + s.skip(i + 2));
        }
        if st.in_lc {
            let st2 = if c == '\n' {
                ScanState { in_lc: false, ..st }
            } else {
                st
            };
            if d == DialectType::Unknown {
                lemma_unknown_count_zero(s, i + 1, st2, d);
            }
            lemma_rewrite_identity(s, i + 1, st2, binds, bi, d);
        } else if st.in_bc {
            if c == '*' && i + 1 < s.len() && s[i + 1] == '/' {
                let st2 = ScanState { in_bc: false, ..st };
                if d == DialectType::Unknown {
                    lemma_unknown_count_zero(s, i + 2, st2, d);
                }
                lemma_rewrite_identity(s, i + 2, st2, binds, bi, d);
            } else {
                if d == DialectType::Unknown {
                    lemma_unknown_count_zero(s, i + 1, st, d);
                }
                lemma_rewrite_identity(s, i + 1, st, binds, bi, d);
            }
        } else if c == '\'' && !st.in_dq && !st.in_bt {
            if st.in_sq && i + 1 < s.len() && s[i + 1] == '\'' {
                assert(s.skip(i) =~= seq!['\'', '\''] + s.skip(i + 2));
                if d == DialectType::Unknown {
                    lemma_unknown_count_zero(s, i + 2, st, d);
                }
                lemma_rewrite_identity(s, i + 2, st, binds, bi, d);
            } else {
                let st2 = ScanState { in_sq: !st.in_sq, ..st };
                if d == DialectType::Unknown {
                    lemma_unknown_count_zero(s, i + 1, st2, d);
                }
                lemma_rewrite_identity(s, i + 1, st2, binds, bi, d);
            }
        } else if c == '"' && !st.in_sq && !st.in_bt {
            let st2 = ScanState { in_dq: !st.in_dq, ..st };
            if d == DialectType::Unknown {
                lemma_unknown_count_zero(s, i + 1, st2, d);
            }
            lemma_rewrite_identity(s, i + 1, st2, binds, bi, d);
        } else if c == '`' && !st.in_sq && !st.in_dq {
            let st2 = ScanState { in_bt: !st.in_bt, ..st };
            if d == DialectType::Unknown {
                lemma_unknown_count_zero(s, i + 1, st2, d);
            }
            lemma_rewrite_identity(s, i + 1, st2, binds, bi, d);
        } else if c == '-' && !st.in_sq && !st.in_dq && !st.in_bt && i + 1 < s.len() && s[i + 1]
            == '-' {
            assert(s.skip(i) =~= seq!['-', '-'] + s.skip(i + 2));
            let st2 = ScanState { in_lc: true, ..st };
            if d == DialectType::Unknown {
                lemma_unknown_count_zero(s, i + 2, st2, d);
            }
            lemma_rewrite_identity(s, i + 2, st2, binds, bi, d);
        } else if c == '/' && !st.in_sq && !st.in_dq && !st.in_bt && i + 1 < s.len() && s[i + 1]
            == '*' {
            assert(s.skip(i) =~= seq!['/', '*'] + s.skip(i + 2));
            let st2 = ScanState { in_bc: true, ..st };
            if d == DialectType::Unknown {
                lemma_unknown_count_zero(s, i + 2, st2, d);
            }
            lemma_rewrite_identity(s, i + 2, st2, binds, bi, d);
        } else if st.in_sq || st.in_dq || st.in_bt {
            if d == DialectType::Unknown {
                lemma_unknown_count_zero(s, i + 1, st, d);
            }
            lemma_rewrite_identity(s, i + 1, st, binds, bi, d);
        } else if d == DialectType::PostgreSQL {
            if c == '$' {
                lemma_digits_after_bound(s, i + 1);
                let nd = digits_after(s, i + 1);
                assert(nd == 0) by {
                    if nd > 0 {
                        lemma_count_bound(s, i + 1 + nd, st, d);
                    }
                }
                lemma_rewrite_identity(s, i + 1, st, binds, bi, d);
                assert(s.skip(i) =~= seq!['$'] + s.skip(i + 1));
            } else {
                lemma_rewrite_identity(s, i + 1, st, binds, bi, d);
            }
        } else if d == DialectType::Unknown {
            lemma_unknown_count_zero(s, i + 1, st, d);
            lemma_rewrite_identity(s, i + 1, st, binds, bi, d);
        } else {
            assert(c != '?') by {
                if c == '?' {
                    lemma_count_bound(s, i + 1, st, d);
                }
            }
            lemma_rewrite_identity(s, i + 1, st, binds, bi, d);
        }
    }
}

/// For the unknown dialect nothing is ever counted.
proof fn lemma_unknown_count_zero(s: Seq<char>, i: int, st: ScanState, d: DialectType)
    requires
        0 <= i,
        d == DialectType::Unknown,
    ensures
        spec_count(s, i, st, d) == 0,
{
}

/// Renderer fidelity, end to end: a logged query whose SQL part holds
/// no placeholders and whose binds list is empty renders to its SQL
/// part itself, with only trailing whitespace trimmed.
pub proof fn lemma_render_fidelity(s: Seq<char>, d: DialectType, p: int)
    requires
        crate::strutil::spec_rfind(s, "-- binds:"@, s.len() - 1) == Some(p),
        spec_parse_binds(s.skip(p + "-- binds:"@.len())) == Some(Seq::<BindModel>::empty()),
        spec_count(s.subrange(0, p), 0, init_state(), d) == 0,
    ensures
        spec_render(s, d) == Ok::<Seq<char>, RewriterError>(spec_trim_end(s.subrange(0, p))),
{
    let sql = s.subrange(0, p);
    lemma_rewrite_identity(sql, 0, init_state(), Seq::empty(), 0, d);
    assert(sql.skip(0) =~= sql);
}

/// Renderer totality: with binds left for every placeholder ahead,
/// the scan of a positional dialect cannot fail.  (A numbered dialect
/// can still fail on a placeholder whose number names no bind.)
pub proof fn lemma_count_match_renders(
    s: Seq<char>,
    i: int,
    st: ScanState,
    binds: Seq<BindModel>,
    bi: int,
    d: DialectType,
)
    requires
        d != DialectType::PostgreSQL,
        0 <= i <= s.len(),
        0 <= bi,
        bi + spec_count(s, i, st, d) <= binds.len(),
    ensures
        spec_rewrite_chars(s, i, st, binds, bi, d) is Some,
    decreases s.len() - i,
{
    if i < s.len() {
        let c = s[i];
        if st.in_lc {
            if c == '\n' {
                lemma_count_match_renders(s, i + 1, ScanState { in_lc: false, ..st }, binds, bi, d);
            } else {
                lemma_count_match_renders(s, i + 1, st, binds, bi, d);
            }
        } else if st.in_bc {
            if c == '*' && i + 1 < s.len() && s[i + 1] == '/' {
                lemma_count_match_renders(s, i + 2, ScanState { in_bc: false, ..st }, binds, bi, d);
            } else {
                lemma_count_match_renders(s, i + 1, st, binds, bi, d);
            }
        } else if c == '\'' && !st.in_dq && !st.in_bt {
            if st.in_sq && i + 1 < s.len() && s[i + 1] == '\'' {
                lemma_count_match_renders(s, i + 2, st, binds, bi, d);
            } else {
                lemma_count_match_renders(
                    s,
                    i + 1,
                    ScanState { in_sq: !st.in_sq, ..st },
                    binds,
                    bi,
                    d,
                );
            }
        } else if c == '"' && !st.in_sq && !st.in_bt {
            lemma_count_match_renders(s, i + 1, ScanState { in_dq: !st.in_dq, ..st }, binds, bi, d);
        } else if c == '`' && !st.in_sq && !st.in_dq {
            lemma_count_match_renders(s, i + 1, ScanState { in_bt: !st.in_bt, ..st }, binds, bi, d);
        } else if c == '-' && !st.in_sq && !st.in_dq && !st.in_bt && i + 1 < s.len() && s[i + 1]
            == '-' {
            lemma_count_match_renders(s, i + 2, ScanState { in_lc: true, ..st }, binds, bi, d);
        } else if c == '/' && !st.in_sq && !st.in_dq && !st.in_bt && i + 1 < s.len() && s[i + 1]
            == '*' {
            lemma_count_match_renders(s, i + 2, ScanState { in_bc: true, ..st }, binds, bi, d);
        } else if st.in_sq || st.in_dq || st.in_bt {
            lemma_count_match_renders(s, i + 1, st, binds, bi, d);
        } else if d == DialectType::Unknown {
            lemma_unknown_count_zero(s, i + 1, st, d);
            lemma_count_match_renders(s, i + 1, st, binds, bi, d);
        } else {
            if c == '?' {
                lemma_count_bound(s, i + 1, st, d);
                lemma_count_match_renders(s, i + 1, st, binds, bi + 1, d);
            } else {
                lemma_count_match_renders(s, i + 1, st, binds, bi, d);
            }
        }
    }
}

/// Renderer totality, end to end, for positional dialects: a logged
/// query whose binds parse and pair up one-to-one with its
/// placeholders renders successfully.
pub proof fn lemma_render_total(s: Seq<char>, d: DialectType, p: int, binds: Seq<BindModel>)
    requires
        d != DialectType::PostgreSQL,
        crate::strutil::spec_rfind(s, "-- binds:"@, s.len() - 1) == Some(p),
        spec_parse_binds(s.skip(p + "-- binds:"@.len())) == Some(binds),
        spec_count(s.subrange(0, p), 0, init_state(), d) == binds.len(),
    ensures
        spec_render(s, d) is Ok,
{
    lemma_count_match_renders(s.subrange(0, p), 0, init_state(), binds, 0, d);
}

} // verus!
