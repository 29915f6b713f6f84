//! The SQL dialect a connection speaks, guessed from its URL.
//!
//! The dialect decides the placeholder syntax the literal renderer
//! looks for (`?` against numbered `$N`) and how boolean literals are
//! written.

use vstd::prelude::*;

use crate::strutil::{contains_sub, find_sub, str_to_chars};

verus! {

/// A SQL dialect.
#[derive(Clone, Copy, Debug, PartialEq, Eq, Structural)]
pub enum DialectType {
    PostgreSQL,
    MySQL,
    SQLite,
    Unknown,
}

/// The dialect a database URL names: the first of `postgres`, `mysql`
/// and `sqlite` that occurs in it, in that order of precedence.
pub open spec fn spec_from_url(url: Seq<char>) -> DialectType {
    if contains_sub(url, "postgres"@) {
        DialectType::PostgreSQL
    } else if contains_sub(url, "mysql"@) {
        DialectType::MySQL
    } else if contains_sub(url, "sqlite"@) {
        DialectType::SQLite
    } else {
        DialectType::Unknown
    }
}

impl DialectType {
    /// Guess the dialect from a database URL.
    pub fn from_url(url: &str) -> (r: DialectType)
        ensures
            r == spec_from_url(url@),
    {
        let s = str_to_chars(url);
        if find_sub(&s, &str_to_chars("postgres")).is_some() {
            DialectType::PostgreSQL
        } else if find_sub(&s, &str_to_chars("mysql")).is_some() {
            DialectType::MySQL
        } else if find_sub(&s, &str_to_chars("sqlite")).is_some() {
            DialectType::SQLite
        } else {
            DialectType::Unknown
        }
    }
}

} // verus!
