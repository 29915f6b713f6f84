use wavesyncdb::messages::WriteKind;
use wavesyncdb::rowkey::extract_row_key;

#[test]
fn insert_key_from_values_list() {
    assert_eq!(
        extract_row_key(
            "INSERT INTO tasks (id, title, completed) VALUES ('u1', 'Buy milk', 0)",
            "id",
            WriteKind::Insert,
        ),
        "u1"
    );
    assert_eq!(
        extract_row_key(
            r#"INSERT INTO "tasks" ("title", "id") VALUES ('it''s, fine', 'u2')"#,
            "id",
            WriteKind::Insert,
        ),
        "u2"
    );
    assert_eq!(
        extract_row_key(
            "INSERT INTO t (`a`, `id`) VALUES ((1 + 2), 7)",
            "id",
            WriteKind::Insert,
        ),
        "7"
    );
}

#[test]
fn insert_key_quotes_are_undoubled() {
    assert_eq!(
        extract_row_key(
            "INSERT INTO t (id) VALUES ('it''s')",
            "id",
            WriteKind::Insert,
        ),
        "it's"
    );
}

#[test]
fn insert_without_key_column_yields_empty() {
    assert_eq!(
        extract_row_key(
            "INSERT INTO t (title) VALUES ('x')",
            "id",
            WriteKind::Insert,
        ),
        ""
    );
    assert_eq!(extract_row_key("INSERT INTO t DEFAULT VALUES", "id", WriteKind::Insert), "");
}

#[test]
fn where_key_for_update_and_delete() {
    assert_eq!(
        extract_row_key(
            "UPDATE `tasks` SET `completed` = 1 WHERE (`tasks`.`id` = 'u1')",
            "id",
            WriteKind::Update,
        ),
        "u1"
    );
    assert_eq!(
        extract_row_key(
            r#"DELETE FROM "tasks" WHERE "id" = 42"#,
            "id",
            WriteKind::Delete,
        ),
        "42"
    );
    assert_eq!(
        extract_row_key("DELETE FROM tasks", "id", WriteKind::Delete),
        ""
    );
}

#[test]
fn where_key_needs_word_boundaries() {
    assert_eq!(
        extract_row_key(
            "UPDATE t SET keyed = 1 WHERE grid = 5 AND id = 6",
            "id",
            WriteKind::Update,
        ),
        "6"
    );
}
