use toydb::kv_store::Value;
use toydb::storage_engine::{Database, MemoryStorage, Storage};

fn memory_storage_crud() {
    let mut store = MemoryStorage::new();
    store.set("a", Value::Int(1));
    assert_eq!(store.get("a"), Some(&Value::Int(1)));
    store.delete("a");
    assert_eq!(store.get("a"), None);
}

fn scan_range() {
    let mut store = MemoryStorage::new();
    store.set("a", Value::Int(1));
    store.set("b", Value::Int(2));
    store.set("c", Value::Int(3));
    store.set("d", Value::Int(4));
    let results = store.scan("b", "d");
    let keys: Vec<&str> = results.iter().map(|(k, _)| k.as_str()).collect();
    assert_eq!(keys, vec!["b", "c"]);
}

fn generic_database() {
    let storage = MemoryStorage::new();
    let mut db = Database::new(storage);
    assert_eq!(db.execute("SET name Alice"), "OK");
    assert_eq!(db.execute("GET name"), "Alice");
    assert_eq!(db.execute("DELETE name"), "OK");
    assert_eq!(db.execute("GET name"), "NULL");
}

#[test]
fn main_test_memory_storage_crud() {
    memory_storage_crud();
}

#[test]
fn solution_test_memory_storage_crud() {
    memory_storage_crud();
}

#[test]
fn main_test_scan_range() {
    scan_range();
}

#[test]
fn solution_test_scan_range() {
    scan_range();
}

#[test]
fn main_test_generic_database() {
    generic_database();
}

#[test]
fn solution_test_generic_database() {
    generic_database();
}

#[test]
fn scan_returns_values_in_key_order() {
    let mut store = MemoryStorage::new();
    for k in ["m", "b", "z", "a", "c"] {
        store.set(k, Value::String(k.to_uppercase()));
    }
    let rows = store.scan("a", "n");
    let got: Vec<(String, Value)> = rows.into_iter().map(|(k, v)| (k.clone(), v.clone())).collect();
    assert_eq!(
        got,
        vec![
            ("a".to_string(), Value::String("A".into())),
            ("b".to_string(), Value::String("B".into())),
            ("c".to_string(), Value::String("C".into())),
            ("m".to_string(), Value::String("M".into())),
        ]
    );
    assert!(store.scan("q", "q").is_empty());
    assert_eq!(store.delete("z"), Some(Value::String("Z".into())));
    assert_eq!(store.delete("z"), None);
}

#[test]
fn set_keeps_the_rest_of_the_line_and_bad_commands_error() {
    let mut db = Database::new(MemoryStorage::new());
    assert_eq!(db.execute("SET greeting hello world"), "OK");
    assert_eq!(db.execute("GET greeting"), "hello world");
    assert_eq!(db.execute("GET"), "ERROR: unknown command");
    assert_eq!(db.execute("SET k"), "ERROR: unknown command");
    assert_eq!(db.execute("DELETE missing"), "OK");
    assert_eq!(db.execute("PUT a b"), "ERROR: unknown command");
}
