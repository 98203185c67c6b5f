use toydb::text::{split_n, trim};

#[test]
fn trim_removes_unicode_white_space_only() {
    assert_eq!(trim("\t  GET k \r\n"), "GET k");
    assert_eq!(trim("\u{3000}\u{2009}x\u{85}\u{a0}"), "x");
    assert_eq!(trim("\u{200b}x\u{200b}"), "\u{200b}x\u{200b}");
    assert_eq!(trim("   "), "");
}

#[test]
fn split_n_stops_after_n_pieces() {
    assert_eq!(split_n("SET a b c", 3, ' '), vec!["SET", "a", "b c"]);
    assert_eq!(split_n("GET", 3, ' '), vec!["GET"]);
}
