//! A captured query, ready to be handed to the replication engine.

use vstd::prelude::*;

use crate::classify::{classify_sql_query, spec_classify, SqlQueryKind};
use crate::dialect::DialectType;
use crate::render::{rewrite_debugquery_to_sql, spec_render};

verus! {

/// A statement captured from the local store together with the
/// replication group it belongs to.
#[derive(Debug)]
pub struct DbQuery {
    sql: String,
    parameters: Vec<String>,
    topic: String,
}

impl DbQuery {
    /// The statement text, as a character sequence.
    pub closed spec fn sql_model(&self) -> Seq<char> {
        self.sql@
    }

    /// The parameter values, as character sequences.
    pub closed spec fn parameters_model(&self) -> Seq<Seq<char>> {
        self.parameters.deep_view()
    }

    /// The replication group, as a character sequence.
    pub closed spec fn topic_model(&self) -> Seq<char> {
        self.topic@
    }

    /// Bundle a statement, its parameters and its replication group.
    pub fn new(sql: String, parameters: Vec<String>, topic: String) -> (r: DbQuery)
        ensures
            r.sql_model() == sql@,
            r.parameters_model() == parameters.deep_view(),
            r.topic_model() == topic@,
    {
        DbQuery { sql, parameters, topic }
    }

    /// The statement text.
    pub fn sql(&self) -> (r: &str)
        ensures
            r@ == self.sql_model(),
    {
        self.sql.as_str()
    }

    /// The captured parameter values, in bind order.
    pub fn parameters(&self) -> (r: &Vec<String>)
        ensures
            r.deep_view() == self.parameters_model(),
    {
        &self.parameters
    }

    /// The replication group the statement belongs to.
    pub fn topic(&self) -> (r: &str)
        ensures
            r@ == self.topic_model(),
    {
        self.topic.as_str()
    }
}

/// What a driver's query hook does with a finished statement: a
/// write — insert, update or delete — whose logged form renders to a
/// self-contained statement is captured for the replication engine,
/// with the rendered statement and its topic; reads, schema changes
/// and statements whose render fails are not.
pub fn plan_query_capture(query: &str, dialect: &DialectType, topic: &str) -> (r: Option<DbQuery>)
    ensures
        ({
            let k = spec_classify(query@);
            let is_write = k == SqlQueryKind::Insert || k == SqlQueryKind::Update || k
                == SqlQueryKind::Delete;
            match r {
                Some(q) => is_write && (spec_render(query@, *dialect) matches Ok(out)
                    && q.sql_model() == out) && q.parameters_model() == Seq::<Seq<char>>::empty()
                    && q.topic_model() == topic@,
                None => !is_write || spec_render(query@, *dialect) is Err,
            }
        }),
{
    let kind = classify_sql_query(query);
    let is_write = matches!(
        kind,
        SqlQueryKind::Insert | SqlQueryKind::Update | SqlQueryKind::Delete
    );
    if !is_write {
        return None;
    }
    match rewrite_debugquery_to_sql(query, dialect) {
        Ok(sql) => {
            let params: Vec<String> = Vec::new();
            proof {
                assert(params.deep_view() =~= Seq::<Seq<char>>::empty());
            }
            Some(
                DbQuery::new(
                    sql,
                    params,
                    crate::strutil::chars_to_string(&crate::strutil::str_to_chars(topic)),
                ),
            )
        },
        Err(_) => None,
    }
}

} // verus!
