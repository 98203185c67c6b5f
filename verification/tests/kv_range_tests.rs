use toydb::kv_range::SortedKvStore;

fn sample_store() -> SortedKvStore {
    let mut s = SortedKvStore::new();
    for i in 1..=10 {
        s.set(format!("key:{:02}", i), format!("val{}", i));
    }
    s
}

#[test]
fn c1_kv_range_query_test_range() {
    let s = sample_store();
    let r = s.range("key:03", "key:07");
    assert_eq!(r.len(), 4);
    assert_eq!(r[0].0, "key:03");
    assert_eq!(r[3].0, "key:06");
}

#[test]
fn test_prefix_scan() {
    let mut s = SortedKvStore::new();
    s.set("user:1".into(), "Alice".into());
    s.set("user:2".into(), "Bob".into());
    s.set("item:1".into(), "Widget".into());
    let users = s.prefix_scan("user:");
    assert_eq!(users.len(), 2);
}

#[test]
fn c1_kv_range_query_test_min_max() {
    let s = sample_store();
    assert_eq!(s.min().unwrap().0, "key:01");
    assert_eq!(s.max().unwrap().0, "key:10");
}

#[test]
fn test_empty() {
    let s = SortedKvStore::new();
    assert!(s.min().is_none());
    assert!(s.max().is_none());
    assert!(s.range("a", "z").is_empty());
}

#[test]
fn c1_kv_range_query_solution_test_range() {
    let r = sample_store().range("key:03", "key:07");
    assert_eq!(r.len(), 4);
}

#[test]
fn test_prefix() {
    let mut s = SortedKvStore::new();
    s.set("user:1".into(), "A".into());
    s.set("user:2".into(), "B".into());
    s.set("item:1".into(), "W".into());
    assert_eq!(s.prefix_scan("user:").len(), 2);
}

#[test]
fn c1_kv_range_query_solution_test_min_max() {
    let s = sample_store();
    assert_eq!(s.min().unwrap().0, "key:01");
    assert_eq!(s.max().unwrap().0, "key:10");
}

#[test]
fn sorted_store_keeps_keys_in_order_and_overwrites() {
    let mut s = SortedKvStore::new();
    s.set("b".into(), "2".into());
    s.set("a".into(), "1".into());
    s.set("c".into(), "3".into());
    s.set("b".into(), "two".into());
    let all = s.range("", "zz");
    let keys: Vec<&str> = all.iter().map(|(k, _)| k.as_str()).collect();
    assert_eq!(keys, vec!["a", "b", "c"]);
    assert_eq!(all[1].1, "two");
}

#[test]
fn range_is_half_open() {
    let s = sample_store();
    let r = s.range("key:05", "key:05");
    assert!(r.is_empty());
    let r = s.range("key:09", "key:99");
    assert_eq!(r.len(), 2);
    assert_eq!(r[1].0, "key:10");
}

#[test]
fn empty_prefix_selects_every_key() {
    let s = sample_store();
    assert_eq!(s.prefix_scan("").len(), 10);
    assert!(s.prefix_scan("nope").is_empty());
}

#[test]
fn range_orders_by_code_point() {
    let mut s = SortedKvStore::new();
    s.set("Z".into(), "upper".into());
    s.set("a".into(), "lower".into());
    s.set("é".into(), "accent".into());
    assert_eq!(s.min().unwrap().0, "Z");
    assert_eq!(s.max().unwrap().0, "é");
}

#[test]
fn range_with_start_after_end_is_empty() {
    let s = sample_store();
    assert!(s.range("key:07", "key:03").is_empty());
    assert!(s.range("b", "a").is_empty());
    assert!(s.range("key:05", "key:05").is_empty());
}
