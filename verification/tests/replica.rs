use wavesyncdb::messages::{SyncOperation, WriteKind};
use wavesyncdb::oplog::{OpLog, Replica};

fn op(id: u128, time: u64, counter: u32, node: u8, pk: &str, sql: &str) -> SyncOperation {
    SyncOperation {
        op_id: id,
        hlc_time: time,
        hlc_counter: counter,
        node_id: [node; 16],
        table: "tasks".to_string(),
        kind: WriteKind::Update,
        primary_key: pk.to_string(),
        data: Some(sql.as_bytes().to_vec()),
        columns: None,
    }
}

#[test]
fn idempotent_apply_leaves_one_log_row() {
    let mut r = Replica::new();
    let o = op(1, 100, 0, 1, "u1", "UPDATE tasks SET title = 'a' WHERE id = 'u1'");
    assert!(r.apply_remote(o.duplicate()));
    assert_eq!(r.log_len(), 1);
    let before = r.current_row_op("tasks", "u1").expect("row governed");
    assert!(!r.apply_remote(o.duplicate()));
    assert_eq!(r.log_len(), 1);
    let after = r.current_row_op("tasks", "u1").expect("row governed");
    assert_eq!(before.op_id, after.op_id);
    assert_eq!(before.data, after.data);
}

#[test]
fn stale_remote_op_is_dropped() {
    let mut r = Replica::new();
    let newer = op(1, 200, 0, 2, "u1", "UPDATE tasks SET title = 'new' WHERE id = 'u1'");
    let older = op(2, 100, 0, 1, "u1", "UPDATE tasks SET title = 'old' WHERE id = 'u1'");
    assert!(r.apply_remote(newer));
    assert!(!r.apply_remote(older));
    let cur = r.current_row_op("tasks", "u1").expect("row governed");
    assert_eq!(cur.hlc_time, 200);
    assert_eq!(r.log_len(), 1);
}

#[test]
fn tie_break_lets_larger_node_win() {
    let mut r = Replica::new();
    let local = op(1, 100, 0, 3, "u1", "UPDATE tasks SET title = 'l' WHERE id = 'u1'");
    let remote = op(2, 100, 0, 5, "u1", "UPDATE tasks SET title = 'r' WHERE id = 'u1'");
    assert!(r.apply_remote(local));
    assert!(r.apply_remote(remote));
    let cur = r.current_row_op("tasks", "u1").expect("row governed");
    assert_eq!(cur.node_id, [5; 16]);
}

#[test]
fn convergence_under_reordering() {
    let a1 = op(1, 100, 0, 1, "u1", "INSERT INTO tasks VALUES ('u1','x')");
    let a2 = op(2, 150, 0, 2, "u2", "INSERT INTO tasks VALUES ('u2','y')");
    let a3 = op(3, 200, 0, 1, "u1", "UPDATE tasks SET title = 'p' WHERE id = 'u1'");
    let a4 = op(4, 200, 0, 2, "u1", "UPDATE tasks SET title = 'q' WHERE id = 'u1'");

    let mut n1 = Replica::new();
    n1.apply_remote(a1.duplicate());
    n1.apply_remote(a2.duplicate());
    n1.apply_remote(a3.duplicate());
    n1.apply_remote(a4.duplicate());

    let mut n2 = Replica::new();
    n2.apply_remote(a4.duplicate());
    n2.apply_remote(a3.duplicate());
    n2.apply_remote(a2.duplicate());
    n2.apply_remote(a1.duplicate());

    for pk in ["u1", "u2"] {
        let r1 = n1.current_row_op("tasks", pk).expect("row governed");
        let r2 = n2.current_row_op("tasks", pk).expect("row governed");
        assert_eq!(r1.op_id, r2.op_id);
        assert_eq!(r1.data, r2.data);
    }
    let w = n1.current_row_op("tasks", "u1").unwrap();
    assert_eq!(w.node_id, [2; 16]);
}

#[test]
fn ops_since_filters_and_sorts() {
    let mut log = OpLog::new();
    log.insert_op(op(1, 300, 0, 1, "a", "s1"));
    log.insert_op(op(2, 100, 0, 1, "b", "s2"));
    log.insert_op(op(3, 200, 1, 1, "c", "s3"));
    log.insert_op(op(4, 200, 0, 1, "d", "s4"));
    let since = log.get_ops_since(100);
    let times: Vec<(u64, u32)> = since.iter().map(|o| (o.hlc_time, o.hlc_counter)).collect();
    assert_eq!(times, vec![(200, 0), (200, 1), (300, 0)]);
}

#[test]
fn compact_drops_old_entries() {
    let mut log = OpLog::new();
    log.insert_op(op(1, 100, 0, 1, "a", "s1"));
    log.insert_op(op(2, 200, 0, 1, "b", "s2"));
    log.insert_op(op(3, 300, 0, 1, "c", "s3"));
    log.compact(200);
    assert_eq!(log.len(), 2);
    assert!(log.get_latest_for_row("tasks", "a").is_none());
    assert!(log.get_latest_for_row("tasks", "b").is_some());
}

#[test]
fn insert_op_replaces_by_op_id() {
    let mut log = OpLog::new();
    log.insert_op(op(1, 100, 0, 1, "a", "s1"));
    log.insert_op(op(1, 100, 0, 1, "a", "s1"));
    assert_eq!(log.len(), 1);
}

#[test]
fn latest_for_row_picks_greatest_stamp() {
    let mut log = OpLog::new();
    log.insert_op(op(1, 100, 0, 1, "u1", "s1"));
    log.insert_op(op(2, 100, 5, 1, "u1", "s2"));
    log.insert_op(op(3, 90, 9, 1, "u1", "s3"));
    let m = log.get_latest_for_row("tasks", "u1").expect("history exists");
    assert_eq!(m.op_id, 2);
}
