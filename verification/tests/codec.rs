use wavesyncdb::codec::{decode_op, encode_op};
use wavesyncdb::messages::{SyncOperation, WriteKind};

fn sample_op() -> SyncOperation {
    SyncOperation {
        op_id: 0x0011223344556677_8899aabbccddeeff,
        hlc_time: 1_700_000_000_000_000_000,
        hlc_counter: 42,
        node_id: [7; 16],
        table: "tasks".to_string(),
        kind: WriteKind::Update,
        primary_key: "u1".to_string(),
        data: Some(b"UPDATE tasks SET title = 'x' WHERE id = 'u1'".to_vec()),
        columns: Some(vec!["title".to_string()]),
    }
}

#[test]
fn round_trip_full_operation() {
    let op = sample_op();
    let bytes = encode_op(&op);
    let back = decode_op(&bytes).expect("decodes");
    assert_eq!(back.op_id, op.op_id);
    assert_eq!(back.hlc_time, op.hlc_time);
    assert_eq!(back.hlc_counter, op.hlc_counter);
    assert_eq!(back.node_id, op.node_id);
    assert_eq!(back.table, op.table);
    assert_eq!(back.kind, op.kind);
    assert_eq!(back.primary_key, op.primary_key);
    assert_eq!(back.data, op.data);
    assert_eq!(back.columns, op.columns);
}

#[test]
fn round_trip_minimal_operation() {
    let op = SyncOperation {
        op_id: 1,
        hlc_time: 0,
        hlc_counter: 0,
        node_id: [0; 16],
        table: String::new(),
        kind: WriteKind::Insert,
        primary_key: String::new(),
        data: None,
        columns: None,
    };
    let bytes = encode_op(&op);
    let back = decode_op(&bytes).expect("decodes");
    assert_eq!(back.op_id, 1);
    assert_eq!(back.kind, WriteKind::Insert);
    assert!(back.data.is_none());
    assert!(back.columns.is_none());
}

#[test]
fn layout_is_little_endian_with_length_prefixes() {
    let op = sample_op();
    let bytes = encode_op(&op);
    assert_eq!(bytes[0], 0xff);
    assert_eq!(bytes[15], 0x00);
    assert_eq!(&bytes[28..44], &[7u8; 16]);
    assert_eq!(&bytes[44..48], &[5, 0, 0, 0]);
    assert_eq!(&bytes[48..53], b"tasks");
    assert_eq!(bytes[53], 1);
}

#[test]
fn truncated_input_is_rejected() {
    let op = sample_op();
    let mut bytes = encode_op(&op);
    bytes.pop();
    assert!(decode_op(&bytes).is_none());
    assert!(decode_op(&vec![0u8; 10]).is_none());
}

#[test]
fn trailing_garbage_is_rejected() {
    let op = sample_op();
    let mut bytes = encode_op(&op);
    bytes.push(0);
    assert!(decode_op(&bytes).is_none());
}

#[test]
fn bad_kind_byte_is_rejected() {
    let op = sample_op();
    let mut bytes = encode_op(&op);
    bytes[53] = 9;
    assert!(decode_op(&bytes).is_none());
}

#[test]
fn round_trip_keeps_unicode_text() {
    let op = SyncOperation {
        op_id: 2,
        hlc_time: 5,
        hlc_counter: 1,
        node_id: [3; 16],
        table: "t\u{e4}lle".to_string(),
        kind: WriteKind::Delete,
        primary_key: "sch\u{fc}ssel \u{1f680}".to_string(),
        data: None,
        columns: Some(vec!["sp\u{e4}lte".to_string(), "b".to_string()]),
    };
    let bytes = encode_op(&op);
    let back = decode_op(&bytes).expect("decodes");
    assert_eq!(back.table, op.table);
    assert_eq!(back.primary_key, op.primary_key);
    assert_eq!(back.columns, op.columns);
}
