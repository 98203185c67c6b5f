use toydb::mvcc::{MvccStore, Value};

fn basic_read_write() {
    let mut store = MvccStore::new();
    let mut txn = store.begin();
    txn.set("name", Value::String("Alice".into()));
    store.commit(txn);

    let txn2 = store.begin();
    assert_eq!(txn2.get(&store, "name"), Some(&Value::String("Alice".into())));
}

fn snapshot_isolation() {
    let mut store = MvccStore::new();
    let mut txn1 = store.begin();
    txn1.set("name", Value::String("Alice".into()));
    store.commit(txn1);

    let txn2 = store.begin();

    let mut txn3 = store.begin();
    txn3.set("name", Value::String("Bob".into()));
    store.commit(txn3);

    assert_eq!(txn2.get(&store, "name"), Some(&Value::String("Alice".into())));

    let txn4 = store.begin();
    assert_eq!(txn4.get(&store, "name"), Some(&Value::String("Bob".into())));
}

#[test]
fn main_test_basic_read_write() {
    basic_read_write();
}

#[test]
fn solution_test_basic_read_write() {
    basic_read_write();
}

#[test]
fn main_test_snapshot_isolation() {
    snapshot_isolation();
}

#[test]
fn solution_test_snapshot_isolation() {
    snapshot_isolation();
}

#[test]
fn test_delete() {
    let mut store = MvccStore::new();
    let mut txn = store.begin();
    txn.set("k", Value::Int(1));
    store.commit(txn);

    let mut txn2 = store.begin();
    txn2.delete("k");
    store.commit(txn2);

    let txn3 = store.begin();
    assert_eq!(txn3.get(&store, "k"), None);
}

#[test]
fn versions_start_at_one_and_count_up() {
    let mut store = MvccStore::new();
    let t1 = store.begin();
    let t2 = store.begin();
    assert_eq!(t1.read_version, 1);
    assert_eq!(t1.write_version, 1);
    assert_eq!(t2.read_version, 2);
}

#[test]
fn uncommitted_and_own_writes_are_not_visible() {
    let mut store = MvccStore::new();
    let mut txn = store.begin();
    txn.set("a", Value::Int(1));
    assert_eq!(txn.get(&store, "a"), None);
    let other = store.begin();
    assert_eq!(other.get(&store, "a"), None);
    store.commit(txn);
    assert_eq!(other.get(&store, "a"), Some(&Value::Int(1)));
}

#[test]
fn last_write_of_a_transaction_wins() {
    let mut store = MvccStore::new();
    let mut txn = store.begin();
    txn.set("a", Value::Int(1));
    txn.set("a", Value::Int(2));
    txn.set("b", Value::Int(3));
    txn.delete("b");
    store.commit(txn);
    let reader = store.begin();
    assert_eq!(reader.get(&store, "a"), Some(&Value::Int(2)));
    assert_eq!(reader.get(&store, "b"), None);
    assert_eq!(reader.get(&store, "c"), None);
}

#[test]
fn deleted_key_stays_visible_to_older_snapshots() {
    let mut store = MvccStore::new();
    let mut w = store.begin();
    w.set("k", Value::Int(7));
    store.commit(w);
    let old_reader = store.begin();
    let mut d = store.begin();
    d.delete("k");
    store.commit(d);
    assert_eq!(old_reader.get(&store, "k"), Some(&Value::Int(7)));
    let new_reader = store.begin();
    assert_eq!(new_reader.get(&store, "k"), None);
}
