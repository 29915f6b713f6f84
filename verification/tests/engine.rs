use wavesyncdb::dialect::DialectType;
use wavesyncdb::engine::{plan_remote_apply, refresh_op_ids, replace_op_ids, PeerTracker,
    RemoteApplyPlan};
use wavesyncdb::query::plan_query_capture;
use wavesyncdb::messages::{SyncOperation, WriteKind};
use wavesyncdb::query::DbQuery;

fn op(id: u128, time: u64, kind: WriteKind, sql: &str) -> SyncOperation {
    SyncOperation {
        op_id: id,
        hlc_time: time,
        hlc_counter: 0,
        node_id: [1; 16],
        table: "tasks".to_string(),
        kind,
        primary_key: "u1".to_string(),
        data: Some(sql.as_bytes().to_vec()),
        columns: None,
    }
}

#[test]
fn losing_op_is_skipped() {
    let remote = op(1, 100, WriteKind::Update, "UPDATE tasks SET a = 1");
    let local = op(2, 200, WriteKind::Update, "UPDATE tasks SET a = 2");
    let plan = plan_remote_apply(&remote, Some(&local));
    assert!(matches!(plan, RemoteApplyPlan::Skip));
}

#[test]
fn winning_insert_is_rewritten() {
    let remote = op(
        1,
        300,
        WriteKind::Insert,
        "INSERT INTO tasks (id) VALUES ('u1') RETURNING id",
    );
    let plan = plan_remote_apply(&remote, None);
    match plan {
        RemoteApplyPlan::Execute { sql } => {
            assert_eq!(sql, "INSERT OR REPLACE INTO tasks (id) VALUES ('u1')");
        }
        _ => panic!("expected an executable plan"),
    }
}

#[test]
fn winning_update_keeps_statement() {
    let remote = op(1, 300, WriteKind::Update, "UPDATE tasks SET a = 1");
    let local = op(2, 200, WriteKind::Update, "UPDATE tasks SET a = 2");
    let plan = plan_remote_apply(&remote, Some(&local));
    match plan {
        RemoteApplyPlan::Execute { sql } => assert_eq!(sql, "UPDATE tasks SET a = 1"),
        _ => panic!("expected an executable plan"),
    }
}

#[test]
fn payloadless_op_is_recorded_only() {
    let mut remote = op(1, 300, WriteKind::Delete, "x");
    remote.data = None;
    let plan = plan_remote_apply(&remote, None);
    assert!(matches!(plan, RemoteApplyPlan::RecordOnly));
}

#[test]
fn only_first_discovery_is_new() {
    let mut peers = PeerTracker::new();
    assert!(peers.discover(vec![1, 2, 3], "/ip4/10.0.0.1".to_string()));
    assert!(!peers.discover(vec![1, 2, 3], "/ip4/10.0.0.2".to_string()));
    assert!(peers.discover(vec![4, 5], "/ip4/10.0.0.3".to_string()));
    peers.expire(&vec![1, 2, 3]);
    assert!(peers.discover(vec![1, 2, 3], "/ip4/10.0.0.4".to_string()));
}

#[test]
fn refreshed_history_changes_only_ids() {
    let ops = vec![
        op(1, 100, WriteKind::Insert, "INSERT INTO tasks (id) VALUES ('u1')"),
        op(2, 200, WriteKind::Update, "UPDATE tasks SET a = 1"),
    ];
    let fresh = refresh_op_ids(&ops);
    assert_eq!(fresh.len(), 2);
    for (a, b) in fresh.iter().zip(ops.iter()) {
        assert_eq!(a.hlc_time, b.hlc_time);
        assert_eq!(a.hlc_counter, b.hlc_counter);
        assert_eq!(a.node_id, b.node_id);
        assert_eq!(a.table, b.table);
        assert_eq!(a.primary_key, b.primary_key);
        assert_eq!(a.data, b.data);
    }
}

#[test]
fn db_query_keeps_its_parts() {
    let q = DbQuery::new(
        "SELECT 1".to_string(),
        vec!["a".to_string()],
        "test-topic".to_string(),
    );
    assert_eq!(q.sql(), "SELECT 1");
    assert_eq!(q.parameters(), &vec!["a".to_string()]);
    assert_eq!(q.topic(), "test-topic");
}

#[test]
fn replaced_ids_are_the_drawn_ones() {
    let ops = vec![
        op(1, 100, WriteKind::Insert, "INSERT INTO tasks (id) VALUES ('u1')"),
        op(2, 200, WriteKind::Update, "UPDATE tasks SET a = 1"),
    ];
    let ids: Vec<u128> = vec![77, 88];
    let fresh = replace_op_ids(&ops, &ids);
    assert_eq!(fresh[0].op_id, 77);
    assert_eq!(fresh[1].op_id, 88);
    assert_eq!(fresh[0].hlc_time, 100);
    assert_eq!(fresh[1].data, ops[1].data);
}

#[test]
fn peer_addresses_are_kept() {
    let mut peers = PeerTracker::new();
    peers.discover(vec![1], "/ip4/10.0.0.1".to_string());
    peers.discover(vec![2], "/ip4/10.0.0.2".to_string());
    peers.discover(vec![1], "/ip4/10.0.0.9".to_string());
    assert_eq!(peers.address_of(&vec![1]).as_deref(), Some("/ip4/10.0.0.9"));
    assert_eq!(peers.address_of(&vec![2]).as_deref(), Some("/ip4/10.0.0.2"));
    peers.expire(&vec![2]);
    assert!(peers.address_of(&vec![2]).is_none());
}

#[test]
fn query_hook_captures_writes_only() {
    let q = plan_query_capture(
        "UPDATE tasks SET a = ? -- binds: [1]",
        &DialectType::SQLite,
        "topic-a",
    )
    .expect("a rendered write is captured");
    assert_eq!(q.sql(), "UPDATE tasks SET a = 1");
    assert!(q.parameters().is_empty());
    assert_eq!(q.topic(), "topic-a");
    assert!(plan_query_capture("SELECT 1 -- binds: []", &DialectType::SQLite, "t").is_none());
    assert!(plan_query_capture("UPDATE t SET a = ?", &DialectType::SQLite, "t").is_none());
}
