use wavesyncdb::conflict::should_apply;
use wavesyncdb::messages::{SyncOperation, WriteKind};

fn make_op(hlc_time: u64, hlc_counter: u32, node_id: u8) -> SyncOperation {
    SyncOperation {
        op_id: 0,
        hlc_time,
        hlc_counter,
        node_id: [node_id; 16],
        table: "test".into(),
        kind: WriteKind::Update,
        primary_key: "1".into(),
        data: None,
        columns: None,
    }
}

#[test]
fn test_no_local_always_applies() {
    let remote = make_op(100, 0, 1);
    assert!(should_apply(&remote, None));
}

#[test]
fn test_newer_hlc_wins() {
    let remote = make_op(200, 0, 1);
    let local = make_op(100, 0, 2);
    assert!(should_apply(&remote, Some(&local)));
}

#[test]
fn test_older_hlc_loses() {
    let remote = make_op(100, 0, 1);
    let local = make_op(200, 0, 2);
    assert!(!should_apply(&remote, Some(&local)));
}

#[test]
fn test_same_hlc_higher_counter_wins() {
    let remote = make_op(100, 5, 1);
    let local = make_op(100, 3, 2);
    assert!(should_apply(&remote, Some(&local)));
}

#[test]
fn test_same_hlc_same_counter_higher_node_wins() {
    let remote = make_op(100, 0, 5);
    let local = make_op(100, 0, 3);
    assert!(should_apply(&remote, Some(&local)));
}

#[test]
fn test_identical_ops_do_not_apply() {
    let remote = make_op(100, 0, 1);
    let local = make_op(100, 0, 1);
    assert!(!should_apply(&remote, Some(&local)));
}

#[test]
fn local_newer_time_drops_remote() {
    let local = make_op(200, 0, 2);
    let remote = make_op(100, 0, 1);
    assert!(!should_apply(&remote, Some(&local)));
}

#[test]
fn tie_break_on_node_bytes() {
    let local = make_op(100, 0, 3);
    let remote = make_op(100, 0, 5);
    assert!(should_apply(&remote, Some(&local)));
    assert!(!should_apply(&local, Some(&remote)));
}
