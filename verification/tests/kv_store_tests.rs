use toydb::kv_store::{KvStore, Value};
use toydb::record::Row;

fn set_and_get() {
    let mut store = KvStore::new();
    store.set("name", Value::String("Alice".to_string()));
    assert_eq!(store.get("name"), Some(&Value::String("Alice".to_string())));
}

fn get_missing_key() {
    let store = KvStore::new();
    assert_eq!(store.get("missing"), None);
}

fn overwrite() {
    let mut store = KvStore::new();
    store.set("x", Value::Int(1));
    store.set("x", Value::Int(2));
    assert_eq!(store.get("x"), Some(&Value::Int(2)));
}

fn delete() {
    let mut store = KvStore::new();
    store.set("key", Value::Bool(true));
    let old = store.delete("key");
    assert_eq!(old, Some(Value::Bool(true)));
    assert_eq!(store.get("key"), None);
}

fn delete_missing() {
    let mut store = KvStore::new();
    assert_eq!(store.delete("nope"), None);
}

fn len() {
    let mut store = KvStore::new();
    assert_eq!(store.len(), 0);
    store.set("a", Value::Int(1));
    store.set("b", Value::Int(2));
    assert_eq!(store.len(), 2);
    store.delete("a");
    assert_eq!(store.len(), 1);
}

fn value_display() {
    assert_eq!(Value::Null.to_string(), "NULL");
    assert_eq!(Value::Int(42).to_string(), "42");
    assert_eq!(Value::String("hello".to_string()).to_string(), "hello");
}

#[test]
fn kv_store_test_set_and_get() {
    set_and_get();
}

#[test]
fn main_test_get_missing_key() {
    get_missing_key();
}

#[test]
fn solution_test_get_missing_key() {
    get_missing_key();
}

#[test]
fn test_overwrite() {
    overwrite();
}

#[test]
fn kv_store_test_delete() {
    delete();
}

#[test]
fn main_test_delete_missing() {
    delete_missing();
}

#[test]
fn solution_test_delete_missing() {
    delete_missing();
}

#[test]
fn main_test_len() {
    len();
}

#[test]
fn solution_test_len() {
    len();
}

#[test]
fn main_test_value_display() {
    value_display();
}

#[test]
fn solution_test_value_display() {
    value_display();
}

#[test]
fn booleans_and_float_text_display() {
    assert_eq!(Value::Bool(true).to_string(), "true");
    assert_eq!(Value::Bool(false).to_string(), "false");
    assert_eq!(Value::Int(-7).to_string(), "-7");
    assert_eq!(Value::Float(format!("{}", 2.5f64)).to_string(), "2.5");
}

#[test]
fn main_test_row_get() {
    let row = Row::new(vec!["x".into(), "y".into()], vec![Value::Int(10), Value::Int(20)]);
    assert_eq!(row.get("x"), Some(&Value::Int(10)));
    assert_eq!(row.get("y"), Some(&Value::Int(20)));
    assert_eq!(row.get("z"), None);
}

#[test]
fn solution_test_row_get() {
    let row = Row::new(vec!["x".into(), "y".into()], vec![Value::Int(10), Value::Int(20)]);
    assert_eq!(row.get("x"), Some(&Value::Int(10)));
    assert_eq!(row.get("y"), Some(&Value::Int(20)));
    assert_eq!(row.get("z"), None);
}

#[test]
fn row_get_takes_the_first_column_of_a_name() {
    let row = Row::new(vec!["x".into(), "y".into(), "x".into()], vec![Value::Int(10), Value::Int(20), Value::Int(30)]);
    assert_eq!(row.get("x"), Some(&Value::Int(10)));
    assert_eq!(row.get("X"), None);
}
