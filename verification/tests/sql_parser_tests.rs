use toydb::sql_parser::{Expression, Op, Parser, Statement, Token};

fn tokens(input: &[Token]) -> Vec<Token> {
    let mut v = input.to_vec();
    v.push(Token::Eof);
    v
}

fn kw(s: &str) -> Token {
    Token::Keyword(s.into())
}

fn ident(s: &str) -> Token {
    Token::Ident(s.into())
}

fn num(s: &str) -> Token {
    Token::Number(s.into())
}

fn parse_select() {
    let toks = tokens(&[kw("SELECT"), ident("a"), Token::Comma, ident("b"), kw("FROM"), ident("t")]);
    match Parser::new(toks).parse() {
        Statement::Select { columns, from, .. } => {
            assert_eq!(columns.len(), 2);
            assert_eq!(from, "t");
        }
        _ => panic!("Expected Select"),
    }
}

fn parse_insert() {
    let toks = tokens(&[
        kw("INSERT"),
        kw("INTO"),
        ident("t"),
        kw("VALUES"),
        Token::LeftParen,
        num("1"),
        Token::Comma,
        Token::String("hi".into()),
        Token::RightParen,
    ]);
    match Parser::new(toks).parse() {
        Statement::Insert { table, values } => {
            assert_eq!(table, "t");
            assert_eq!(values.len(), 2);
        }
        _ => panic!("Expected Insert"),
    }
}

fn expression_precedence() {
    let toks = tokens(&[num("1"), Token::Plus, num("2"), Token::Plus, num("3")]);
    match Parser::new(toks).parse_expression() {
        Expression::BinaryOp { op: Op::Add, .. } => {}
        _ => panic!("Expected addition"),
    }
}

#[test]
fn main_test_parse_select() {
    parse_select();
}

#[test]
fn solution_test_parse_select() {
    parse_select();
}

#[test]
fn main_test_parse_insert() {
    parse_insert();
}

#[test]
fn solution_test_parse_insert() {
    parse_insert();
}

#[test]
fn main_test_expression_precedence() {
    expression_precedence();
}

#[test]
fn solution_test_expression_precedence() {
    expression_precedence();
}

fn col(s: &str) -> Expression {
    Expression::Column(s.into())
}

fn bin(l: Expression, op: Op, r: Expression) -> Expression {
    Expression::BinaryOp { left: Box::new(l), op, right: Box::new(r) }
}

#[test]
fn addition_groups_left_and_binds_tighter_than_comparison() {
    let toks = tokens(&[ident("a"), Token::Minus, ident("b"), Token::Plus, ident("c"), Token::LessThan, num("10")]);
    let e = Parser::new(toks).parse_expression();
    assert_eq!(
        e,
        bin(bin(bin(col("a"), Op::Sub, col("b")), Op::Add, col("c")), Op::Lt, Expression::Number("10".into()))
    );
}

#[test]
fn select_star_with_where_and_lowercase_keywords() {
    let toks = tokens(&[
        kw("select"),
        Token::Star,
        kw("From"),
        ident("users"),
        kw("where"),
        Token::LeftParen,
        ident("age"),
        Token::Plus,
        num("1"),
        Token::RightParen,
        Token::NotEquals,
        num("21"),
    ]);
    let s = Parser::new(toks).parse();
    assert_eq!(
        s,
        Statement::Select {
            columns: vec![col("*")],
            from: "users".into(),
            where_clause: Some(bin(
                bin(col("age"), Op::Add, Expression::Number("1".into())),
                Op::NotEq,
                Expression::Number("21".into())
            )),
        }
    );
}

#[test]
fn create_table_lists_columns() {
    let toks = tokens(&[
        kw("CREATE"),
        kw("TABLE"),
        ident("users"),
        Token::LeftParen,
        ident("id"),
        ident("INT"),
        Token::Comma,
        ident("name"),
        ident("TEXT"),
        Token::RightParen,
    ]);
    assert_eq!(
        Parser::new(toks).parse(),
        Statement::CreateTable {
            name: "users".into(),
            columns: vec![("id".into(), "INT".into()), ("name".into(), "TEXT".into())],
        }
    );
}

#[test]
fn malformed_statements_are_refused() {
    assert!(Parser::new(tokens(&[kw("SELECT"), ident("a"), ident("t")])).try_parse().is_none());
    assert!(Parser::new(tokens(&[kw("UPDATE"), ident("t")])).try_parse().is_none());
    assert!(Parser::new(tokens(&[kw("INSERT"), kw("INTO"), ident("t"), kw("VALUES"), Token::LeftParen, num("1")]))
        .try_parse()
        .is_none());
    assert!(Parser::new(tokens(&[Token::LeftParen, num("1")])).try_parse_expression().is_none());
    assert!(Parser::new(vec![]).try_parse().is_none());
}
