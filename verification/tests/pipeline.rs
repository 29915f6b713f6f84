use wavesyncdb::clock::Hlc;
use wavesyncdb::codec::{decode_op, encode_op};
use wavesyncdb::connection::intercept_local_write;
use wavesyncdb::engine::{plan_remote_apply, RemoteApplyPlan};
use wavesyncdb::messages::WriteKind;
use wavesyncdb::oplog::Replica;
use wavesyncdb::registry::{TableMeta, TableRegistry};

fn tasks_registry() -> TableRegistry {
    let mut r = TableRegistry::new();
    r.register(TableMeta {
        table_name: "tasks".to_string(),
        primary_key_column: "id".to_string(),
        columns: vec!["id".to_string(), "title".to_string(), "completed".to_string()],
    });
    r
}

#[test]
fn write_travels_from_one_node_to_another() {
    let registry = tasks_registry();
    let mut clock = Hlc::new();
    let sql = "INSERT INTO tasks (id, title, completed) VALUES ('u1', 'Buy milk', 0) RETURNING id";

    let (op, note) = intercept_local_write(sql, &registry, &mut clock, 100, 1, [1; 16])
        .expect("registered write replicates");
    assert_eq!(note.table, "tasks");

    let wire = encode_op(&op);
    let received = decode_op(&wire).expect("well-formed message decodes");
    assert_eq!(received.table, "tasks");
    assert_eq!(received.kind, WriteKind::Insert);

    match plan_remote_apply(&received, None) {
        RemoteApplyPlan::Execute { sql } => {
            assert_eq!(
                sql,
                "INSERT OR REPLACE INTO tasks (id, title, completed) VALUES ('u1', 'Buy milk', 0)"
            );
        }
        _ => panic!("a first write for a row must execute"),
    }

    let mut peer = Replica::new();
    assert_eq!(received.primary_key, "u1");
    assert!(peer.apply_remote(received));
    let governed = peer.current_row_op("tasks", "u1").expect("row has history");
    assert_eq!(governed.op_id, op.op_id);
    assert_eq!(governed.node_id, [1; 16]);
}
