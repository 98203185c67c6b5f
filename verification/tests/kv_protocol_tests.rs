use toydb::kv_protocol::handle_request;
use toydb::strmap::StrMap;

#[test]
fn handle_set_then_get() {
    let mut state: StrMap<String> = StrMap::new();
    assert_eq!(handle_request(&mut state, b"SET name ToyDB"), "OK");
    assert_eq!(state.get("name"), Some(&"ToyDB".to_string()));
    assert_eq!(handle_request(&mut state, b"GET name\n"), "ToyDB");
    assert_eq!(handle_request(&mut state, b"GET other"), "NULL");
}

#[test]
fn set_keeps_spaces_in_the_value_and_malformed_requests_are_errors() {
    let mut state: StrMap<String> = StrMap::new();
    assert_eq!(handle_request(&mut state, b"  SET greeting hello there  "), "OK");
    assert_eq!(handle_request(&mut state, b"GET greeting"), "hello there");
    assert_eq!(handle_request(&mut state, b"GET"), "ERROR");
    assert_eq!(handle_request(&mut state, b"GET a b"), "ERROR");
    assert_eq!(handle_request(&mut state, b"SET onlykey"), "ERROR");
    assert_eq!(handle_request(&mut state, b"DELETE greeting"), "ERROR");
    assert_eq!(state.len(), 1);
}

#[test]
fn invalid_utf8_is_decoded_lossily() {
    let mut state: StrMap<String> = StrMap::new();
    assert_eq!(handle_request(&mut state, b"SET k \xff"), "OK");
    assert_eq!(handle_request(&mut state, b"GET k"), "\u{fffd}");
}
