use wavesyncdb::classify::{classify_write, classify_sql_query, rewrite_insert_or_replace,
    strip_returning, SqlQueryKind};
use wavesyncdb::messages::WriteKind;

#[test]
fn test_insert() {
    let dbg = r#"INSERT INTO `tasks` (...) VALUES (?) -- binds: [1]"#;
    assert_eq!(classify_sql_query(dbg), SqlQueryKind::Insert);
}

#[test]
fn test_update() {
    let dbg = r#"   UPDATE tasks SET x = ? -- binds: [1]"#;
    assert_eq!(classify_sql_query(dbg), SqlQueryKind::Update);
}

#[test]
fn test_delete() {
    let dbg = r#"DELETE FROM tasks WHERE id = ? -- binds: [42]"#;
    assert_eq!(classify_sql_query(dbg), SqlQueryKind::Delete);
}

#[test]
fn test_select() {
    let dbg = r#"SELECT * FROM users -- binds: []"#;
    assert_eq!(classify_sql_query(dbg), SqlQueryKind::Select);
}

#[test]
fn test_other() {
    let dbg = r#"PRAGMA table_info(tasks)"#;
    assert_eq!(classify_sql_query(dbg), SqlQueryKind::Other);
}

#[test]
fn classify_is_case_insensitive() {
    assert_eq!(classify_sql_query("insert into t values (1)"), SqlQueryKind::Insert);
    assert_eq!(classify_sql_query("CrEaTe TABLE t (a)"), SqlQueryKind::Create);
    assert_eq!(classify_sql_query("alter table t add b"), SqlQueryKind::Alter);
    assert_eq!(classify_sql_query("drop table t"), SqlQueryKind::Drop);
}

#[test]
fn classify_write_extracts_table() {
    let r = classify_write(r#"INSERT INTO "tasks" (id) VALUES (1)"#);
    match r {
        Some((kind, table)) => {
            assert_eq!(kind, WriteKind::Insert);
            assert_eq!(table, "tasks");
        }
        None => panic!("expected a write"),
    }
    let r = classify_write("UPDATE `users` SET a = 1");
    match r {
        Some((kind, table)) => {
            assert_eq!(kind, WriteKind::Update);
            assert_eq!(table, "users");
        }
        None => panic!("expected a write"),
    }
    let r = classify_write("DELETE FROM logs WHERE id = 3");
    match r {
        Some((kind, table)) => {
            assert_eq!(kind, WriteKind::Delete);
            assert_eq!(table, "logs");
        }
        None => panic!("expected a write"),
    }
    assert!(classify_write("SELECT * FROM t").is_none());
}

#[test]
fn strip_returning_cuts_tail() {
    assert_eq!(
        strip_returning(r#"INSERT INTO "tasks" (a) VALUES (1) RETURNING "id""#),
        r#"INSERT INTO "tasks" (a) VALUES (1)"#
    );
    assert_eq!(
        strip_returning("INSERT INTO t (a) VALUES (1) returning a"),
        "INSERT INTO t (a) VALUES (1)"
    );
    assert_eq!(strip_returning("UPDATE t SET a = 1"), "UPDATE t SET a = 1");
}

#[test]
fn insert_becomes_insert_or_replace() {
    assert_eq!(
        rewrite_insert_or_replace("INSERT INTO t (a) VALUES (1)"),
        "INSERT OR REPLACE INTO t (a) VALUES (1)"
    );
    assert_eq!(rewrite_insert_or_replace("UPDATE t SET a = 1"), "UPDATE t SET a = 1");
}
