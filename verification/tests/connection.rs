use wavesyncdb::clock::Hlc;
use wavesyncdb::connection::{derive_node_id, intercept_local_write, normalize_prefix,
    scope_matches, WaveSyncDbBuilder};
use wavesyncdb::dialect::DialectType;
use wavesyncdb::messages::WriteKind;
use wavesyncdb::registry::{TableMeta, TableRegistry};

fn registry_with_tasks() -> TableRegistry {
    let mut r = TableRegistry::new();
    r.register(TableMeta {
        table_name: "tasks".to_string(),
        primary_key_column: "id".to_string(),
        columns: vec!["id".to_string(), "title".to_string(), "completed".to_string()],
    });
    r
}

#[test]
fn registered_write_produces_op_and_notification() {
    let registry = registry_with_tasks();
    let mut clock = Hlc::new();
    let sql = "INSERT INTO tasks (id, title) VALUES ('u1', 'Buy milk')";
    let r = intercept_local_write(sql, &registry, &mut clock, 100, 7, [1; 16]);
    let (op, note) = r.expect("registered write replicates");
    assert_eq!(op.table, "tasks");
    assert_eq!(op.kind, WriteKind::Insert);
    assert_eq!(op.op_id, 7);
    assert_eq!(op.node_id, [1; 16]);
    assert_eq!(op.hlc_time, 100);
    assert_eq!(op.hlc_counter, 0);
    assert_eq!(op.primary_key, "u1");
    assert_eq!(op.data, Some(sql.as_bytes().to_vec()));
    assert_eq!(note.table, "tasks");
    assert_eq!(note.kind, WriteKind::Insert);
    assert_eq!(note.primary_key, "u1");
}

#[test]
fn unregistered_table_produces_nothing() {
    let registry = registry_with_tasks();
    let mut clock = Hlc::new();
    let r = intercept_local_write(
        "INSERT INTO users (id) VALUES (1)",
        &registry,
        &mut clock,
        100,
        7,
        [1; 16],
    );
    assert!(r.is_none());
    assert_eq!(clock.last_time, 0);
}

#[test]
fn reserved_table_produces_nothing() {
    let mut registry = registry_with_tasks();
    registry.register(TableMeta {
        table_name: "_wavesync_log".to_string(),
        primary_key_column: "op_id".to_string(),
        columns: vec!["op_id".to_string()],
    });
    let mut clock = Hlc::new();
    let r = intercept_local_write(
        "INSERT INTO _wavesync_log (op_id) VALUES (1)",
        &registry,
        &mut clock,
        100,
        7,
        [1; 16],
    );
    assert!(r.is_none());
}

#[test]
fn reads_produce_nothing() {
    let registry = registry_with_tasks();
    let mut clock = Hlc::new();
    let r = intercept_local_write("SELECT * FROM tasks", &registry, &mut clock, 100, 7, [1; 16]);
    assert!(r.is_none());
}

#[test]
fn builder_records_settings() {
    let b = WaveSyncDbBuilder::new("sqlite::memory:", "test-crud")
        .with_node_id([9; 16])
        .with_relay_server("/ip4/10.0.0.1/tcp/4001");
    assert_eq!(b.database_url, "sqlite::memory:");
    assert_eq!(b.topic, "test-crud");
    assert_eq!(b.node_id, Some([9; 16]));
    assert_eq!(b.relay_server.as_deref(), Some("/ip4/10.0.0.1/tcp/4001"));
}

#[test]
fn node_id_is_never_zero() {
    let id = derive_node_id(0, 0);
    assert!(id.iter().any(|b| *b != 0));
}

#[test]
fn dialect_from_url() {
    assert_eq!(DialectType::from_url("postgres://db"), DialectType::PostgreSQL);
    assert_eq!(DialectType::from_url("mysql://db"), DialectType::MySQL);
    assert_eq!(DialectType::from_url("sqlite::memory:"), DialectType::SQLite);
    assert_eq!(DialectType::from_url("odbc://db"), DialectType::Unknown);
}

#[test]
fn prefix_normalisation() {
    assert_eq!(normalize_prefix("my-app::entity::*"), "my_app::entity");
    assert_eq!(normalize_prefix("my-app"), "my_app");
    assert_eq!(normalize_prefix("plain::path"), "plain::path");
    assert!(scope_matches("my_app::entity::task", "my-app::*"));
    assert!(!scope_matches("other::entity", "my-app"));
}

#[test]
fn update_and_delete_carry_where_key() {
    let registry = registry_with_tasks();
    let mut clock = Hlc::new();
    let (op, _) = intercept_local_write(
        "UPDATE tasks SET title = 'x' WHERE (tasks.id = 'u1')",
        &registry,
        &mut clock,
        100,
        1,
        [1; 16],
    )
    .expect("registered write replicates");
    assert_eq!(op.kind, WriteKind::Update);
    assert_eq!(op.primary_key, "u1");
    let (op, _) = intercept_local_write(
        "DELETE FROM tasks WHERE `id` = 42",
        &registry,
        &mut clock,
        200,
        2,
        [1; 16],
    )
    .expect("registered write replicates");
    assert_eq!(op.kind, WriteKind::Delete);
    assert_eq!(op.primary_key, "42");
}
