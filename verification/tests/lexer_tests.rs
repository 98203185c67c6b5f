use toydb::lexer::{Keyword, Lexer, Token};

/// A token with its number read as `f64`, as the SQL layer uses it.
#[derive(Debug, Clone, PartialEq)]
enum Tok {
    Number(f64),
    String(String),
    Ident(String),
    Keyword(Keyword),
    Star,
    Comma,
    LeftParen,
    RightParen,
    Semicolon,
    Equals,
    NotEquals,
    LessThan,
    GreaterThan,
    Plus,
    Minus,
    Eof,
}

fn tok(t: Token) -> Tok {
    match t {
        Token::Number(s) => Tok::Number(s.parse().unwrap()),
        Token::String(s) => Tok::String(s),
        Token::Ident(s) => Tok::Ident(s),
        Token::Keyword(k) => Tok::Keyword(k),
        Token::Star => Tok::Star,
        Token::Comma => Tok::Comma,
        Token::LeftParen => Tok::LeftParen,
        Token::RightParen => Tok::RightParen,
        Token::Semicolon => Tok::Semicolon,
        Token::Equals => Tok::Equals,
        Token::NotEquals => Tok::NotEquals,
        Token::LessThan => Tok::LessThan,
        Token::GreaterThan => Tok::GreaterThan,
        Token::Plus => Tok::Plus,
        Token::Minus => Tok::Minus,
        Token::Eof => Tok::Eof,
    }
}

fn tokens(sql: &str) -> Vec<Tok> {
    Lexer::new(sql).tokenize().into_iter().map(tok).collect()
}

fn select_star() {
    assert_eq!(
        tokens("SELECT * FROM users"),
        vec![
            Tok::Keyword(Keyword::Select),
            Tok::Star,
            Tok::Keyword(Keyword::From),
            Tok::Ident("users".into()),
            Tok::Eof,
        ]
    );
}

fn insert() {
    assert_eq!(
        tokens("INSERT INTO t VALUES (1, 'hello')"),
        vec![
            Tok::Keyword(Keyword::Insert),
            Tok::Keyword(Keyword::Into),
            Tok::Ident("t".into()),
            Tok::Keyword(Keyword::Values),
            Tok::LeftParen,
            Tok::Number(1.0),
            Tok::Comma,
            Tok::String("hello".into()),
            Tok::RightParen,
            Tok::Eof,
        ]
    );
}

fn where_clause() {
    let t = tokens("SELECT * FROM t WHERE x = 42");
    assert!(t.contains(&Tok::Keyword(Keyword::Where)));
    assert!(t.contains(&Tok::Equals));
    assert!(t.contains(&Tok::Number(42.0)));
}

fn operators() {
    let t = tokens("a + b - c");
    assert!(t.contains(&Tok::Plus));
    assert!(t.contains(&Tok::Minus));
}

#[test]
fn main_test_select_star() {
    select_star();
}

#[test]
fn solution_test_select_star() {
    select_star();
}

#[test]
fn main_test_insert() {
    insert();
}

#[test]
fn solution_test_insert() {
    insert();
}

#[test]
fn main_test_where_clause() {
    where_clause();
}

#[test]
fn solution_test_where_clause() {
    where_clause();
}

#[test]
fn main_test_operators() {
    operators();
}

#[test]
fn solution_test_operators() {
    operators();
}

#[test]
fn keywords_ignore_case_and_numbers_keep_their_text() {
    let t = Lexer::new("select Age from T where x >= 3.25.7").tokenize();
    assert_eq!(
        t,
        vec![
            Token::Keyword(Keyword::Select),
            Token::Ident("Age".into()),
            Token::Keyword(Keyword::From),
            Token::Ident("T".into()),
            Token::Keyword(Keyword::Where),
            Token::Ident("x".into()),
            Token::GreaterThan,
            Token::Equals,
            Token::Number("3.25".into()),
            Token::Number("7".into()),
            Token::Eof,
        ]
    );
}

#[test]
fn bang_equals_unknown_characters_and_open_strings() {
    let t = Lexer::new("a != b ! c # d; 'open").tokenize();
    assert_eq!(
        t,
        vec![
            Token::Ident("a".into()),
            Token::NotEquals,
            Token::Ident("b".into()),
            Token::Ident("c".into()),
            Token::Ident("d".into()),
            Token::Semicolon,
            Token::String("open".into()),
            Token::Eof,
        ]
    );
}

#[test]
fn empty_input_is_just_eof() {
    assert_eq!(Lexer::new("   ").tokenize(), vec![Token::Eof]);
    assert_eq!(Lexer::lookup_keyword("Bool"), Some(Keyword::Bool));
    assert_eq!(Lexer::lookup_keyword("_x1"), None);
    assert_eq!(Lexer::new("_x1<y").tokenize(), vec![
        Token::Ident("_x1".into()),
        Token::LessThan,
        Token::Ident("y".into()),
        Token::Eof,
    ]);
}
