use wavesyncdb::registry::{TableMeta, TableRegistry};

fn meta(name: &str, pk: &str, cols: &[&str]) -> TableMeta {
    TableMeta {
        table_name: name.to_string(),
        primary_key_column: pk.to_string(),
        columns: cols.iter().map(|c| c.to_string()).collect(),
    }
}

#[test]
fn register_and_lookup() {
    let mut r = TableRegistry::new();
    assert!(!r.is_registered("tasks"));
    r.register(meta("tasks", "id", &["id", "title", "completed"]));
    assert!(r.is_registered("tasks"));
    assert!(!r.is_registered("users"));
    let m = r.get("tasks").expect("registered table");
    assert_eq!(m.table_name, "tasks");
    assert_eq!(m.primary_key_column, "id");
    assert_eq!(m.columns, vec!["id", "title", "completed"]);
    assert!(r.get("users").is_none());
}

#[test]
fn register_is_an_upsert() {
    let mut r = TableRegistry::new();
    r.register(meta("tasks", "id", &["id", "title"]));
    r.register(meta("tasks", "uuid", &["uuid", "title", "done"]));
    let m = r.get("tasks").expect("registered table");
    assert_eq!(m.primary_key_column, "uuid");
    assert_eq!(m.columns.len(), 3);
    assert_eq!(r.all_tables().len(), 1);
}

#[test]
fn all_tables_lists_each_once() {
    let mut r = TableRegistry::new();
    r.register(meta("a", "id", &["id"]));
    r.register(meta("b", "id", &["id"]));
    r.register(meta("a", "id2", &["id2"]));
    let all = r.all_tables();
    assert_eq!(all.len(), 2);
    let mut names: Vec<String> = all.iter().map(|m| m.table_name.clone()).collect();
    names.sort();
    assert_eq!(names, vec!["a", "b"]);
}
