use toydb::log_compaction::CompactableLog;

#[test]
fn c5_raft_log_compaction_test_compact() {
    let mut log = CompactableLog::new();
    log.append(1, "SET x 1".into());
    log.append(1, "SET y 2".into());
    log.append(1, "SET z 3".into());
    log.append(2, "SET x 4".into());

    assert_eq!(log.log_len(), 4);
    log.compact(2).unwrap();
    assert_eq!(log.log_len(), 2);
    assert_eq!(log.snapshot_index(), 2);
    assert_eq!(log.snapshot_state().len(), 2);
}

#[test]
fn test_entry_at_after_compact() {
    let mut log = CompactableLog::new();
    log.append(1, "SET a 1".into());
    log.append(1, "SET b 2".into());
    log.append(1, "SET c 3".into());
    log.compact(1).unwrap();

    assert!(log.entry_at(1).is_none());
    assert!(log.entry_at(2).is_some());
    assert_eq!(log.entry_at(2).unwrap().command, "SET b 2");
}

#[test]
fn test_snapshot_overwrites() {
    let mut log = CompactableLog::new();
    log.append(1, "SET x 1".into());
    log.append(1, "SET x 2".into());
    log.compact(2).unwrap();
    let x_val = log.snapshot_state().iter().find(|(k, _)| k == "x").unwrap();
    assert_eq!(x_val.1, "2");
}

#[test]
fn c5_raft_log_compaction_solution_test_compact() {
    let mut l = CompactableLog::new();
    l.append(1, "SET x 1".into());
    l.append(1, "SET y 2".into());
    l.append(1, "SET z 3".into());
    l.append(2, "SET x 4".into());
    l.compact(2).unwrap();
    assert_eq!(l.log_len(), 2);
    assert_eq!(l.snapshot_index(), 2);
}

#[test]
fn test_entry_at() {
    let mut l = CompactableLog::new();
    l.append(1, "SET a 1".into());
    l.append(1, "SET b 2".into());
    l.append(1, "SET c 3".into());
    l.compact(1).unwrap();
    assert!(l.entry_at(1).is_none());
    assert_eq!(l.entry_at(2).unwrap().command, "SET b 2");
}

#[test]
fn c5_raft_log_compaction_solution_test_overwrite() {
    let mut l = CompactableLog::new();
    l.append(1, "SET x 1".into());
    l.append(1, "SET x 2".into());
    l.compact(2).unwrap();
    assert_eq!(l.snapshot_state().iter().find(|(k, _)| k == "x").unwrap().1, "2");
}

#[test]
fn compact_rejects_old_and_future_indices() {
    let mut l = CompactableLog::new();
    l.append(1, "SET a 1".into());
    l.append(1, "SET b 2".into());
    assert_eq!(l.compact(0), Err("Already compacted past this index".to_string()));
    assert_eq!(l.compact(3), Err("Index beyond log end".to_string()));
    l.compact(1).unwrap();
    assert_eq!(l.compact(1), Err("Already compacted past this index".to_string()));
    assert_eq!(l.log_len(), 1);
}

#[test]
fn compact_skips_non_set_commands_and_keeps_value_spaces() {
    let mut l = CompactableLog::new();
    l.append(1, "DEL a".into());
    l.append(1, "SET k hello world".into());
    l.append(1, "SET lonely".into());
    l.compact(3).unwrap();
    let st = l.snapshot_state();
    assert_eq!(st.len(), 1);
    assert_eq!(st[0].0, "k");
    assert_eq!(st[0].1, "hello world");
}

#[test]
fn appended_indices_continue_after_compaction() {
    let mut l = CompactableLog::new();
    l.append(1, "SET a 1".into());
    l.append(1, "SET b 2".into());
    l.compact(2).unwrap();
    l.append(3, "SET c 3".into());
    let e = l.entry_at(3).unwrap();
    assert_eq!(e.index, 3);
    assert_eq!(e.term, 3);
    assert!(l.entry_at(4).is_none());
}

#[test]
fn snapshot_index_plus_log_len_counts_the_appends() {
    let mut log = CompactableLog::new();
    let mut appends: u64 = 0;
    let mut last_snapshot = 0;
    for i in 0..6u64 {
        log.append(1, format!("SET k{} v{}", i, i));
        appends += 1;
        assert_eq!(log.snapshot_index() + log.log_len() as u64, appends);
    }
    for up_to in [2u64, 2, 9, 4, 6] {
        let _ = log.compact(up_to);
        assert!(log.snapshot_index() >= last_snapshot);
        last_snapshot = log.snapshot_index();
        assert_eq!(log.snapshot_index() + log.log_len() as u64, appends);
    }
    log.append(2, "SET z 1".to_string());
    assert_eq!(log.snapshot_index() + log.log_len() as u64, 7);
    assert_eq!(log.entry_at(7).unwrap().index, 7);
}
