use toydb::golden::{prop_delete_get, prop_len_tracks_keys, prop_set_get, GoldenRunner, KvStore, Value};

fn golden_basic() {
    let mut r = GoldenRunner::new();
    r.execute("SET name Alice");
    r.execute("GET name");
    r.execute("LEN");
    assert_eq!(r.output(), "OK\nAlice\n1");
}

fn golden_delete() {
    let mut r = GoldenRunner::new();
    r.execute("SET x hello");
    r.execute("DELETE x");
    r.execute("GET x");
    r.execute("DELETE x");
    assert_eq!(r.output(), "OK\nOK\nNULL\nNOT_FOUND");
}

fn prop_set_get_cases() {
    assert!(prop_set_get("a", Value::Int(42)));
    assert!(prop_set_get("hello", Value::Str("world".into())));
}

#[test]
fn main_test_golden_basic() {
    golden_basic();
}

#[test]
fn solution_test_golden_basic() {
    golden_basic();
}

#[test]
fn main_test_golden_delete() {
    golden_delete();
}

#[test]
fn solution_test_golden_delete() {
    golden_delete();
}

#[test]
fn test_golden_keys() {
    let mut r = GoldenRunner::new();
    r.execute("KEYS");
    r.execute("SET b 2");
    r.execute("SET a 1");
    r.execute("KEYS");
    assert_eq!(r.output(), "(empty)\nOK\nOK\na,b");
}

#[test]
fn test_golden_unknown() {
    let mut r = GoldenRunner::new();
    r.execute("FROBNICATE");
    assert_eq!(r.output(), "ERROR: unknown command");
}

#[test]
fn main_test_prop_set_get() {
    prop_set_get_cases();
    assert!(prop_set_get("empty", Value::Str(String::new())));
}

#[test]
fn solution_test_prop_set_get() {
    prop_set_get_cases();
}

#[test]
fn test_prop_delete_get() {
    assert!(prop_delete_get("x", Value::Int(1)));
    assert!(prop_delete_get("name", Value::Str("test".into())));
}

#[test]
fn test_prop_len_tracks_keys() {
    let ops: Vec<(String, Value)> = vec![
        ("a".into(), Value::Int(1)),
        ("b".into(), Value::Int(2)),
        ("a".into(), Value::Int(3)),
    ];
    assert!(prop_len_tracks_keys(&ops));
    let empty: Vec<(String, Value)> = vec![];
    assert!(prop_len_tracks_keys(&empty));
}

#[test]
fn test_prop_len() {
    let ops: Vec<(String, Value)> =
        vec![("a".into(), Value::Int(1)), ("b".into(), Value::Int(2)), ("a".into(), Value::Int(3))];
    assert!(prop_len_tracks_keys(&ops));
}

#[test]
fn values_display_as_text() {
    assert_eq!(Value::Int(-42).to_string(), "-42");
    assert_eq!(Value::Int(i64::MIN).to_string(), "-9223372036854775808");
    assert_eq!(Value::Int(0).to_string(), "0");
    assert_eq!(Value::Str("hi there".into()).to_string(), "hi there");
    assert_eq!(Value::Null.to_string(), "NULL");
}

#[test]
fn malformed_commands_report_errors() {
    let mut r = GoldenRunner::new();
    r.execute("SET onlykey");
    r.execute("GET");
    r.execute("DELETE");
    r.execute("  SET k a value with spaces  ");
    r.execute("GET k");
    r.execute("get k");
    assert_eq!(
        r.output(),
        "ERROR: SET requires key and value\nERROR: GET requires a key\nERROR: DELETE requires a key\nOK\na value with spaces\nERROR: unknown command"
    );
}

#[test]
fn store_keys_are_sorted_and_len_counts_them() {
    let mut s = KvStore::new();
    s.set("pear", Value::Int(1));
    s.set("apple", Value::Null);
    s.set("fig", Value::Str("x".into()));
    s.set("apple", Value::Int(2));
    assert_eq!(s.keys(), vec!["apple".to_string(), "fig".to_string(), "pear".to_string()]);
    assert_eq!(s.len(), 3);
    assert_eq!(s.get("apple"), Value::Int(2));
    assert_eq!(s.get("kiwi"), Value::Null);
    assert!(s.delete("fig"));
    assert!(!s.delete("fig"));
    assert_eq!(s.len(), 2);
}

#[test]
fn len_line_counts_distinct_keys() {
    let mut r = GoldenRunner::new();
    for i in 0..12 {
        r.execute(&format!("SET k{} v", i % 11));
    }
    r.execute("LEN");
    assert!(r.output().ends_with("\n11"));
}
