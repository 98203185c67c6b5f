use toydb::sql_server::{parse_command, Command, MemoryStorage, RaftNode, Server, SqlResult};

#[test]
fn solution_test_set_and_get() {
    let mut s = Server::new(MemoryStorage::new());
    assert_eq!(s.execute("SET name Alice"), SqlResult::Done);
    assert_eq!(s.execute("GET name"), SqlResult::Value("Alice".into()));
}

#[test]
fn solution_test_delete() {
    let mut s = Server::new(MemoryStorage::new());
    s.execute("SET x 42");
    assert_eq!(s.execute("DELETE x"), SqlResult::Done);
    assert!(matches!(s.execute("GET x"), SqlResult::Error(_)));
}

#[test]
fn solution_test_raft_log_grows() {
    let mut s = Server::new(MemoryStorage::new());
    s.execute("SET a 1");
    s.execute("SET b 2");
    s.execute("SET c 3");
    assert_eq!(s.raft_status(), (1, 3));
}

#[test]
fn main_test_set_and_get() {
    let mut server = Server::new(MemoryStorage::new());
    assert_eq!(server.execute("SET name Alice"), SqlResult::Done);
    assert_eq!(server.execute("GET name"), SqlResult::Value("Alice".into()));
}

#[test]
fn main_test_delete() {
    let mut server = Server::new(MemoryStorage::new());
    server.execute("SET x 42");
    assert_eq!(server.execute("DELETE x"), SqlResult::Done);
    match server.execute("GET x") {
        SqlResult::Error(_) => {}
        other => panic!("Expected Error, got {:?}", other),
    }
}

#[test]
fn main_test_raft_log_grows() {
    let mut server = Server::new(MemoryStorage::new());
    server.execute("SET a 1");
    server.execute("SET b 2");
    server.execute("SET c 3");
    let (term, commit) = server.raft_status();
    assert_eq!(term, 1);
    assert_eq!(commit, 3);
}

#[test]
fn main_test_scan() {
    let mut server = Server::new(MemoryStorage::new());
    server.execute("SET user:1 Alice");
    server.execute("SET user:2 Bob");
    server.execute("SET item:1 Widget");
    match server.execute("SCAN user:") {
        SqlResult::Rows(rows) => assert_eq!(rows.len(), 2),
        other => panic!("Expected Rows, got {:?}", other),
    }
}

#[test]
fn test_parse_error() {
    let mut server = Server::new(MemoryStorage::new());
    match server.execute("INVALID cmd") {
        SqlResult::Error(_) => {}
        other => panic!("Expected Error, got {:?}", other),
    }
}

#[test]
fn parse_command_reads_each_form() {
    assert!(matches!(parse_command("get k"), Ok(Command::Get { key }) if key == "k"));
    assert!(matches!(parse_command("  SET k hello world  "), Ok(Command::SetValue { key, value }) if key == "k" && value == "hello world"));
    assert!(matches!(parse_command("DELETE k"), Ok(Command::Delete { key }) if key == "k"));
    assert!(matches!(parse_command("SCAN"), Ok(Command::Scan { prefix }) if prefix.is_empty()));
    assert_eq!(parse_command("GET").err(), Some("GET requires a key".to_string()));
    assert_eq!(parse_command("SET k").err(), Some("SET requires key and value".to_string()));
    assert_eq!(parse_command("DELETE").err(), Some("DELETE requires a key".to_string()));
    assert_eq!(parse_command("NOPE x").err(), Some("Unknown command: NOPE x".to_string()));
}

#[test]
fn failed_parse_is_not_logged_and_missing_key_is_an_error() {
    let mut server = Server::new(MemoryStorage::new());
    server.execute("BOGUS");
    assert_eq!(server.raft_status(), (1, 0));
    assert_eq!(server.execute("GET nothing"), SqlResult::Error("Key not found".into()));
    assert_eq!(server.raft_status(), (1, 1));
}

#[test]
fn scan_rows_are_key_value_pairs() {
    let mut server = Server::new(MemoryStorage::new());
    server.execute("SET a:1 x");
    server.execute("SET b:1 y");
    assert_eq!(server.execute("SCAN a:"), SqlResult::Rows(vec![vec!["a:1".to_string(), "x".to_string()]]));
}

#[test]
fn raft_node_commits_each_proposal() {
    let mut node = RaftNode::new();
    let e = node.propose("SET a 1".into());
    assert_eq!((e.term, e.index, e.command.as_str()), (1, 1, "SET a 1"));
    node.propose("SET b 2".into());
    assert_eq!(node.commit_index(), 2);
    assert_eq!(node.term(), 1);
    assert_eq!(node.committed_entries().len(), 2);
    assert_eq!(node.committed_entries()[1].command, "SET b 2");
}
