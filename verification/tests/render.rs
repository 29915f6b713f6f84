use wavesyncdb::dialect::DialectType;
use wavesyncdb::render::{count_placeholders, format_literal, parse_binds,
    rewrite_debugquery_to_sql, Bind, RewriterError};

#[test]
fn insert_sqlite() {
    let dbg = r#"INSERT INTO `tasks` (`title`, `description`, `completed`) VALUES (?, ?, ?) -- binds: ["Sample Task", "This is a sample task", false]"#;
    let out = rewrite_debugquery_to_sql(dbg, &DialectType::SQLite).unwrap();
    assert_eq!(
        out,
        "INSERT INTO `tasks` (`title`, `description`, `completed`) VALUES ('Sample Task', 'This is a sample task', 0)"
    );
}

#[test]
fn update_mysql_bool_literal() {
    let dbg = r#"UPDATE `tasks` SET `completed` = ? WHERE (`tasks`.`id` = ?) -- binds: [true, 1]"#;
    let out = rewrite_debugquery_to_sql(dbg, &DialectType::MySQL).unwrap();
    assert_eq!(
        out,
        "UPDATE `tasks` SET `completed` = true WHERE (`tasks`.`id` = 1)"
    );
}

#[test]
fn delete_sqlite() {
    let dbg = r#"DELETE FROM `tasks` WHERE (`tasks`.`id` = ?) -- binds: [1]"#;
    let out = rewrite_debugquery_to_sql(dbg, &DialectType::SQLite).unwrap();
    assert_eq!(out, "DELETE FROM `tasks` WHERE (`tasks`.`id` = 1)");
}

#[test]
fn postgres_numbered_placeholders() {
    let dbg = r#"SELECT * FROM users WHERE id = $1 AND name = $2 -- binds: [42, "Alice"]"#;
    let out = rewrite_debugquery_to_sql(dbg, &DialectType::PostgreSQL).unwrap();
    assert_eq!(out, "SELECT * FROM users WHERE id = 42 AND name = 'Alice'");
}

#[test]
fn does_not_replace_inside_strings_or_comments() {
    let dbg = r#"SELECT '?' AS q, '-- binds: nope' AS c /* $1 ? */ , col FROM t WHERE x = ? -- binds: [7]"#;
    let out = rewrite_debugquery_to_sql(dbg, &DialectType::SQLite).unwrap();
    assert_eq!(
        out,
        "SELECT '?' AS q, '-- binds: nope' AS c /* $1 ? */ , col FROM t WHERE x = 7"
    );
}

#[test]
fn doubled_single_quotes_inside_string() {
    let dbg = r#"SELECT 'it''s ? not a placeholder' AS s, col FROM t WHERE x = ? -- binds: [9]"#;
    let out = rewrite_debugquery_to_sql(dbg, &DialectType::SQLite).unwrap();
    assert_eq!(
        out,
        "SELECT 'it''s ? not a placeholder' AS s, col FROM t WHERE x = 9"
    );
}

#[test]
fn placeholders_mismatch_error() {
    let dbg = r#"SELECT * FROM t WHERE a = ? AND b = ? -- binds: [1]"#;
    let err = rewrite_debugquery_to_sql(dbg, &DialectType::SQLite).unwrap_err();
    match err {
        RewriterError::PlaceholderCountMismatch { placeholders, binds } => {
            assert_eq!(placeholders, 2);
            assert_eq!(binds, 1);
        }
        _ => panic!("unexpected error"),
    }
}

#[test]
fn null_and_numbers_and_strings() {
    let dbg = r#"INSERT INTO t (a,b,c,d) VALUES ($1,$2,$3,$4) -- binds: [NULL, 3.14, 7, "hey"]"#;
    let out = rewrite_debugquery_to_sql(dbg, &DialectType::PostgreSQL).unwrap();
    assert_eq!(
        out,
        "INSERT INTO t (a,b,c,d) VALUES (NULL,3.14,7,'hey')"
    );
}

#[test]
fn quoted_identifiers_and_backticks() {
    let dbg = r#"UPDATE "weird-table" SET `val` = ? WHERE "id" = ? -- binds: ["a'b", 5]"#;
    let out = rewrite_debugquery_to_sql(dbg, &DialectType::MySQL).unwrap();
    assert_eq!(
        out,
        "UPDATE \"weird-table\" SET `val` = 'a''b' WHERE \"id\" = 5"
    );
}

#[test]
fn missing_binds_trailer() {
    let dbg = r#"SELECT 1"#;
    let err = rewrite_debugquery_to_sql(dbg, &DialectType::SQLite).unwrap_err();
    assert!(matches!(err, RewriterError::MissingBindsTrailer));
}

#[test]
fn malformed_binds() {
    let dbg = r#"SELECT ? -- binds: [1, "unterminated]"#;
    let err = match parse_binds("-- binds: [1, \"unterminated]") {
        Ok(_) => RewriterError::MalformedBinds,
        Err(e) => e,
    };
    let _ = dbg;
    match err {
        RewriterError::MalformedBinds => {}
        _ => panic!("expected MalformedBinds"),
    }
}

#[test]
fn render_tight_insert_scenario() {
    let dbg = r#"INSERT INTO `tasks` (`title`,`description`,`completed`) VALUES (?,?,?) -- binds: ["Sample Task","This is a sample task", false]"#;
    let out = rewrite_debugquery_to_sql(dbg, &DialectType::SQLite).unwrap();
    assert_eq!(
        out,
        "INSERT INTO `tasks` (`title`,`description`,`completed`) VALUES ('Sample Task','This is a sample task',0)"
    );
}

#[test]
fn render_comment_boundary_scenario() {
    let dbg = r#"SELECT '?' AS q, '-- binds: nope' AS c /* $1 ? */, col FROM t WHERE x = ? -- binds: [7]"#;
    let out = rewrite_debugquery_to_sql(dbg, &DialectType::SQLite).unwrap();
    assert_eq!(
        out,
        "SELECT '?' AS q, '-- binds: nope' AS c /* $1 ? */, col FROM t WHERE x = 7"
    );
}

#[test]
fn count_ignores_quoted_placeholders() {
    assert_eq!(count_placeholders("SELECT '?' WHERE a = ?", &DialectType::SQLite), 1);
    assert_eq!(count_placeholders("SELECT $1, $2 FROM t", &DialectType::PostgreSQL), 2);
    assert_eq!(count_placeholders("SELECT ?", &DialectType::Unknown), 0);
}

#[test]
fn parse_binds_reads_items() {
    let binds = parse_binds(r#" [ "a", 1, NULL, true ]"#).unwrap();
    assert_eq!(binds.len(), 4);
    assert_eq!(binds[0].raw, "a");
    assert!(binds[0].was_quoted);
    assert_eq!(binds[1].raw, "1");
    assert!(!binds[1].was_quoted);
    assert_eq!(binds[2].raw, "NULL");
    assert_eq!(binds[3].raw, "true");
}

#[test]
fn format_literal_forms() {
    let sqlite = DialectType::SQLite;
    let pg = DialectType::PostgreSQL;
    let null = Bind { raw: "NULL".to_string(), was_quoted: false };
    let t = Bind { raw: "true".to_string(), was_quoted: false };
    let f = Bind { raw: "false".to_string(), was_quoted: false };
    let n = Bind { raw: "3.14".to_string(), was_quoted: false };
    let s = Bind { raw: "it's".to_string(), was_quoted: true };
    let chars = |v: Vec<char>| v.into_iter().collect::<String>();
    assert_eq!(chars(format_literal(&null, &sqlite)), "NULL");
    assert_eq!(chars(format_literal(&t, &sqlite)), "1");
    assert_eq!(chars(format_literal(&f, &sqlite)), "0");
    assert_eq!(chars(format_literal(&t, &pg)), "true");
    assert_eq!(chars(format_literal(&n, &pg)), "3.14");
    assert_eq!(chars(format_literal(&s, &pg)), "'it''s'");
}

#[test]
fn exponent_numbers_stay_unquoted() {
    let dbg = r#"INSERT INTO t (a,b) VALUES (?,?) -- binds: [1e5, -2.5E-3]"#;
    let out = rewrite_debugquery_to_sql(dbg, &DialectType::SQLite).unwrap();
    assert_eq!(out, "INSERT INTO t (a,b) VALUES (1e5,-2.5E-3)");
    let word = Bind { raw: "e5".to_string(), was_quoted: false };
    let chars = |v: Vec<char>| v.into_iter().collect::<String>();
    assert_eq!(chars(format_literal(&word, &DialectType::SQLite)), "'e5'");
}
