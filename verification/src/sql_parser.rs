//! Recursive-descent SQL parser: tokens to a statement tree (`SELECT`,
//! `INSERT`, `CREATE TABLE`), with `+`/`-` binding tighter than the
//! comparisons `=`, `!=`, `<`, `>`. Number literals keep their text.
use vstd::prelude::*;
use crate::text::{same_chars, to_upper, upper};

verus! {

/// Binary operators.
#[derive(Debug, Clone, Copy, PartialEq, Eq, Structural)]
pub enum Op {
    Add,
    Sub,
    Mul,
    Div,
    Eq,
    NotEq,
    Lt,
    Gt,
}

/// An expression.
#[derive(Debug, PartialEq)]
pub enum Expression {
    Number(String),
    String(String),
    Column(String),
    BinaryOp { left: Box<Expression>, op: Op, right: Box<Expression> },
}

/// A statement.
#[derive(Debug, PartialEq)]
pub enum Statement {
    Select { columns: Vec<Expression>, from: String, where_clause: Option<Expression> },
    Insert { table: String, values: Vec<Expression> },
    CreateTable { name: String, columns: Vec<(String, String)> },
}

/// A token; `Number` holds the literal's text, `Keyword` the word as written.
#[derive(Debug, Clone, PartialEq)]
pub enum Token {
    Number(String),
    String(String),
    Ident(String),
    Keyword(String),
    Star,
    Comma,
    LeftParen,
    RightParen,
    Semicolon,
    Equals,
    NotEquals,
    LessThan,
    GreaterThan,
    Plus,
    Minus,
    Slash,
    Eof,
}

/// A token with its text as characters.
pub enum Tok {
    Number(Seq<char>),
    String(Seq<char>),
    Ident(Seq<char>),
    Keyword(Seq<char>),
    Star,
    Comma,
    LeftParen,
    RightParen,
    Semicolon,
    Equals,
    NotEquals,
    LessThan,
    GreaterThan,
    Plus,
    Minus,
    Slash,
    Eof,
}

/// An expression with its text as characters.
pub enum Expr {
    Number(Seq<char>),
    String(Seq<char>),
    Column(Seq<char>),
    BinaryOp(Box<Expr>, Op, Box<Expr>),
}

/// A statement with its text as characters.
pub enum Stmt {
    Select(Seq<Expr>, Seq<char>, Option<Expr>),
    Insert(Seq<char>, Seq<Expr>),
    CreateTable(Seq<char>, Seq<(Seq<char>, Seq<char>)>),
}

impl View for Token {
    type V = Tok;

    open spec fn view(&self) -> Tok {
        match self {
            Token::Number(s) => Tok::Number(s@),
            Token::String(s) => Tok::String(s@),
            Token::Ident(s) => Tok::Ident(s@),
            Token::Keyword(s) => Tok::Keyword(s@),
            Token::Star => Tok::Star,
            Token::Comma => Tok::Comma,
            Token::LeftParen => Tok::LeftParen,
            Token::RightParen => Tok::RightParen,
            Token::Semicolon => Tok::Semicolon,
            Token::Equals => Tok::Equals,
            Token::NotEquals => Tok::NotEquals,
            Token::LessThan => Tok::LessThan,
            Token::GreaterThan => Tok::GreaterThan,
            Token::Plus => Tok::Plus,
            Token::Minus => Tok::Minus,
            Token::Slash => Tok::Slash,
            Token::Eof => Tok::Eof,
        }
    }
}

/// The expression as characters.
pub open spec fn expr_of(e: Expression) -> Expr
    decreases e,
{
    match e {
        Expression::Number(s) => Expr::Number(s@),
        Expression::String(s) => Expr::String(s@),
        Expression::Column(s) => Expr::Column(s@),
        Expression::BinaryOp { left, op, right } => Expr::BinaryOp(
            Box::new(expr_of(*left)),
            op,
            Box::new(expr_of(*right)),
        ),
    }
}

pub open spec fn exprs_of(v: Seq<Expression>) -> Seq<Expr> {
    v.map_values(|e: Expression| expr_of(e))
}

/// The statement as characters.
pub open spec fn stmt_of(s: Statement) -> Stmt {
    match s {
        Statement::Select { columns, from, where_clause } => Stmt::Select(
            exprs_of(columns@),
            from@,
            match where_clause {
                Some(w) => Some(expr_of(w)),
                None => None,
            },
        ),
        Statement::Insert { table, values } => Stmt::Insert(table@, exprs_of(values@)),
        Statement::CreateTable { name, columns } => Stmt::CreateTable(
            name@,
            columns@.map_values(|c: (String, String)| (c.0@, c.1@)),
        ),
    }
}

pub open spec fn toks_of(v: Seq<Token>) -> Seq<Tok> {
    v.map_values(|t: Token| t@)
}

/// The token at `i`, `Eof` past the end.
pub open spec fn tok(ts: Seq<Tok>, i: nat) -> Tok {
    if i < ts.len() {
        ts[i as int]
    } else {
        Tok::Eof
    }
}

/// The name an identifier token carries.
pub open spec fn ident_of(t: Tok) -> Seq<char> {
    match t {
        Tok::Ident(s) => s,
        _ => Seq::empty(),
    }
}

/// A keyword token spelling `kw` in any case.
pub open spec fn is_kw(t: Tok, kw: Seq<char>) -> bool {
    t matches Tok::Keyword(k) && upper(k) == kw
}

/// The comparison operator a token stands for.
pub open spec fn comparison(t: Tok) -> Option<Op> {
    match t {
        Tok::Equals => Some(Op::Eq),
        Tok::NotEquals => Some(Op::NotEq),
        Tok::LessThan => Some(Op::Lt),
        Tok::GreaterThan => Some(Op::Gt),
        _ => None,
    }
}

/// A literal, a column, or a parenthesised expression at `i`, and the
/// position after it.
pub open spec fn primary(ts: Seq<Tok>, i: nat) -> Option<(Expr, nat)>
    decreases ts.len() - i, 0nat,
{
    match tok(ts, i) {
        Tok::Number(n) => Some((Expr::Number(n), i + 1)),
        Tok::String(s) => Some((Expr::String(s), i + 1)),
        Tok::Ident(s) => Some((Expr::Column(s), i + 1)),
        Tok::LeftParen => if i < ts.len() {
            match expression(ts, i + 1) {
                Some((e, j)) => if tok(ts, j) is RightParen {
                    Some((e, j + 1))
                } else {
                    None
                },
                None => None,
            }
        } else {
            None
        },
        _ => None,
    }
}

/// More `+ primary` / `- primary` after `left`, grouping to the left.
pub open spec fn additive_rest(ts: Seq<Tok>, left: Expr, i: nat) -> Option<(Expr, nat)>
    decreases ts.len() - i, 1nat,
{
    if i < ts.len() && (tok(ts, i) is Plus || tok(ts, i) is Minus) {
        let op = if tok(ts, i) is Plus {
            Op::Add
        } else {
            Op::Sub
        };
        match primary(ts, i + 1) {
            Some((r, j)) => if i + 1 < j <= ts.len() {
                additive_rest(ts, Expr::BinaryOp(Box::new(left), op, Box::new(r)), j)
            } else {
                None
            },
            None => None,
        }
    } else {
        Some((left, i))
    }
}

/// Primaries joined by `+` and `-`.
pub open spec fn additive(ts: Seq<Tok>, i: nat) -> Option<(Expr, nat)>
    decreases ts.len() - i, 2nat,
{
    match primary(ts, i) {
        Some((l, j)) => if i < j <= ts.len() {
            additive_rest(ts, l, j)
        } else {
            None
        },
        None => None,
    }
}

/// An additive expression, optionally compared with a second one.
pub open spec fn expression(ts: Seq<Tok>, i: nat) -> Option<(Expr, nat)>
    decreases ts.len() - i, 3nat,
{
    match additive(ts, i) {
        Some((l, j)) => if i <= j < ts.len() && comparison(tok(ts, j)) is Some {
            match additive(ts, j + 1) {
                Some((r, k)) => Some((Expr::BinaryOp(Box::new(l), comparison(tok(ts, j)).unwrap(), Box::new(r)), k)),
                None => None,
            }
        } else if i <= j <= ts.len() {
            Some((l, j))
        } else {
            None
        },
        None => None,
    }
}

/// More `, expression` after the expressions `acc`.
pub open spec fn list_rest(ts: Seq<Tok>, acc: Seq<Expr>, i: nat) -> Option<(Seq<Expr>, nat)>
    decreases ts.len() - i,
{
    if i < ts.len() && tok(ts, i) is Comma {
        match expression(ts, i + 1) {
            Some((e, j)) => if i + 1 < j <= ts.len() {
                list_rest(ts, acc.push(e), j)
            } else {
                None
            },
            None => None,
        }
    } else {
        Some((acc, i))
    }
}

/// Expressions separated by commas.
pub open spec fn expr_list(ts: Seq<Tok>, i: nat) -> Option<(Seq<Expr>, nat)> {
    match expression(ts, i) {
        Some((e, j)) => list_rest(ts, seq![e], j),
        None => None,
    }
}

/// `SELECT cols FROM table [WHERE expr]`.
pub open spec fn select(ts: Seq<Tok>, i: nat) -> Option<(Stmt, nat)> {
    if !is_kw(tok(ts, i), "SELECT"@) {
        None
    } else {
        let cols = if tok(ts, i + 1) is Star {
            Some((seq![Expr::Column("*"@)], i + 2))
        } else {
            expr_list(ts, i + 1)
        };
        match cols {
            Some((cs, j)) => if is_kw(tok(ts, j), "FROM"@) && tok(ts, j + 1) is Ident {
                let from = ident_of(tok(ts, j + 1));
                if is_kw(tok(ts, j + 2), "WHERE"@) {
                    match expression(ts, j + 3) {
                        Some((w, k)) => Some((Stmt::Select(cs, from, Some(w)), k)),
                        None => None,
                    }
                } else {
                    Some((Stmt::Select(cs, from, None), j + 2))
                }
            } else {
                None
            },
            None => None,
        }
    }
}

/// `INSERT INTO table VALUES (exprs)`.
pub open spec fn insert(ts: Seq<Tok>, i: nat) -> Option<(Stmt, nat)> {
    if is_kw(tok(ts, i), "INSERT"@) && is_kw(tok(ts, i + 1), "INTO"@) && tok(ts, i + 2) is Ident
        && is_kw(tok(ts, i + 3), "VALUES"@) && tok(ts, i + 4) is LeftParen {
        match expr_list(ts, i + 5) {
            Some((vs, j)) => if tok(ts, j) is RightParen {
                Some((Stmt::Insert(ident_of(tok(ts, i + 2)), vs), j + 1))
            } else {
                None
            },
            None => None,
        }
    } else {
        None
    }
}

/// More `, name type` column definitions after `acc`.
pub open spec fn columns_rest(ts: Seq<Tok>, acc: Seq<(Seq<char>, Seq<char>)>, i: nat) -> Option<
    (Seq<(Seq<char>, Seq<char>)>, nat),
>
    decreases ts.len() - i,
{
    if i < ts.len() && tok(ts, i) is Comma {
        if tok(ts, i + 1) is Ident && tok(ts, i + 2) is Ident {
            columns_rest(ts, acc.push((ident_of(tok(ts, i + 1)), ident_of(tok(ts, i + 2)))), i + 3)
        } else {
            None
        }
    } else {
        Some((acc, i))
    }
}

/// `CREATE TABLE name (col type, ...)`.
pub open spec fn create_table(ts: Seq<Tok>, i: nat) -> Option<(Stmt, nat)> {
    if is_kw(tok(ts, i), "CREATE"@) && is_kw(tok(ts, i + 1), "TABLE"@) && tok(ts, i + 2) is Ident
        && tok(ts, i + 3) is LeftParen && tok(ts, i + 4) is Ident && tok(ts, i + 5) is Ident {
        let first = (ident_of(tok(ts, i + 4)), ident_of(tok(ts, i + 5)));
        match columns_rest(ts, seq![first], i + 6) {
            Some((cs, j)) => if tok(ts, j) is RightParen {
                Some((Stmt::CreateTable(ident_of(tok(ts, i + 2)), cs), j + 1))
            } else {
                None
            },
            None => None,
        }
    } else {
        None
    }
}

/// The statement at `i`, chosen by its first keyword; `None` where the
/// tokens do not form one.
pub open spec fn statement(ts: Seq<Tok>, i: nat) -> Option<(Stmt, nat)> {
    if is_kw(tok(ts, i), "SELECT"@) {
        select(ts, i)
    } else if is_kw(tok(ts, i), "INSERT"@) {
        insert(ts, i)
    } else if is_kw(tok(ts, i), "CREATE"@) {
        create_table(ts, i)
    } else {
        None
    }
}

fn copy_text(s: &String) -> (r: String)
    ensures
        r@ == s@,
{
    s.clone()
}

/// A parser over a token list.
pub struct Parser {
    tokens: Vec<Token>,
    pos: usize,
}

impl Parser {
    /// The tokens.
    pub closed spec fn tokens(&self) -> Seq<Tok> {
        toks_of(self.tokens@)
    }

    /// The position of the next token.
    pub closed spec fn position(&self) -> nat {
        self.pos as nat
    }

    pub closed spec fn wf(&self) -> bool {
        self.pos <= self.tokens@.len()
    }

    /// A parser at the first token.
    pub fn new(tokens: Vec<Token>) -> (p: Parser)
        ensures
            p.wf(),
            p.tokens() == toks_of(tokens@),
            p.position() == 0,
    {
        Parser { tokens, pos: 0 }
    }

    fn peek(&self) -> (t: &Token)
        requires
            self.wf(),
        ensures
            t@ == tok(self.tokens(), self.position()),
    {
        if self.pos < self.tokens.len() {
            &self.tokens[self.pos]
        } else {
            &Token::Eof
        }
    }

    fn bump(&mut self)
        requires
            old(self).wf(),
            old(self).pos < old(self).tokens@.len(),
        ensures
            final(self).wf(),
            final(self).tokens() == old(self).tokens(),
            final(self).pos == old(self).pos + 1,
    {
        let n = self.tokens.len();
        assert(self.pos < n);
        self.pos = self.pos + 1;
    }

    /// Consumes a keyword spelling `kw` in any case.
    fn expect_keyword(&mut self, kw: &str) -> (ok: bool)
        requires
            old(self).wf(),
        ensures
            final(self).wf(),
            final(self).tokens() == old(self).tokens(),
            ok == is_kw(tok(old(self).tokens(), old(self).position()), kw@),
            ok ==> final(self).pos == old(self).pos + 1,
    {
        let ok = match self.peek() {
            Token::Keyword(k) => {
                let u = to_upper(k.as_str());
                same_chars(u.as_str(), kw)
            },
            _ => false,
        };
        if ok {
            self.bump();
        }
        ok
    }

    /// Consumes an identifier and returns its name.
    fn expect_ident(&mut self) -> (r: Option<String>)
        requires
            old(self).wf(),
        ensures
            final(self).wf(),
            final(self).tokens() == old(self).tokens(),
            match tok(old(self).tokens(), old(self).position()) {
                Tok::Ident(s) => r matches Some(name) && name@ == s && final(self).pos == old(self).pos + 1,
                _ => r is None,
            },
    {
        let r = match self.peek() {
            Token::Ident(s) => Some(copy_text(s)),
            _ => None,
        };
        if r.is_some() {
            self.bump();
        }
        r
    }

    /// Consumes a token of the given kind (`(` or `)`).
    fn expect_paren(&mut self, open: bool) -> (ok: bool)
        requires
            old(self).wf(),
        ensures
            final(self).wf(),
            final(self).tokens() == old(self).tokens(),
            ok == if open {
                tok(old(self).tokens(), old(self).position()) is LeftParen
            } else {
                tok(old(self).tokens(), old(self).position()) is RightParen
            },
            ok ==> final(self).pos == old(self).pos + 1,
    {
        let ok = match self.peek() {
            Token::LeftParen => open,
            Token::RightParen => !open,
            _ => false,
        };
        if ok {
            self.bump();
        }
        ok
    }

    /// Parses a statement; `None` where the tokens do not form one.
    pub fn try_parse(&mut self) -> (r: Option<Statement>)
        requires
            old(self).wf(),
        ensures
            final(self).wf(),
            final(self).tokens() == old(self).tokens(),
            match statement(old(self).tokens(), old(self).position()) {
                Some((s, j)) => r matches Some(st) && stmt_of(st) == s && final(self).position() == j,
                None => r is None,
            },
    {
        let (is_select, is_insert, is_create) = match self.peek() {
            Token::Keyword(k) => {
                let u = to_upper(k.as_str());
                (same_chars(u.as_str(), "SELECT"), same_chars(u.as_str(), "INSERT"), same_chars(u.as_str(), "CREATE"))
            },
            _ => (false, false, false),
        };
        if is_select {
            self.parse_select()
        } else if is_insert {
            self.parse_insert()
        } else if is_create {
            self.parse_create_table()
        } else {
            None
        }
    }

    /// Parses a statement.
    pub fn parse(&mut self) -> (s: Statement)
        requires
            old(self).wf(),
            statement(old(self).tokens(), old(self).position()) is Some,
        ensures
            final(self).wf(),
            final(self).tokens() == old(self).tokens(),
            statement(old(self).tokens(), old(self).position()) == Some((stmt_of(s), final(self).position())),
    {
        self.try_parse().unwrap()
    }

    fn parse_select(&mut self) -> (r: Option<Statement>)
        requires
            old(self).wf(),
        ensures
            final(self).wf(),
            final(self).tokens() == old(self).tokens(),
            match select(old(self).tokens(), old(self).position()) {
                Some((s, j)) => r matches Some(st) && stmt_of(st) == s && final(self).position() == j,
                None => r is None,
            },
    {
        let ghost ts = self.tokens();
        let ghost i = self.position();
        if !self.expect_keyword("SELECT") {
            return None;
        }
        let mut columns: Vec<Expression> = Vec::new();
        let star = match self.peek() {
            Token::Star => true,
            _ => false,
        };
        if star {
            self.bump();
            columns.push(Expression::Column(String::from_str("*")));
            proof {
                assert(exprs_of(columns@) =~= seq![Expr::Column("*"@)]);
            }
        } else {
            match self.parse_list() {
                Some(cs) => {
                    columns = cs;
                },
                None => {
                    return None;
                },
            }
        }
        if !self.expect_keyword("FROM") {
            return None;
        }
        let from = match self.expect_ident() {
            Some(f) => f,
            None => {
                return None;
            },
        };
        let has_where = match self.peek() {
            Token::Keyword(k) => {
                let u = to_upper(k.as_str());
                same_chars(u.as_str(), "WHERE")
            },
            _ => false,
        };
        let where_clause = if has_where {
            self.bump();
            match self.try_parse_expression() {
                Some(e) => Some(e),
                None => {
                    return None;
                },
            }
        } else {
            None
        };
        Some(Statement::Select { columns, from, where_clause })
    }

    fn parse_insert(&mut self) -> (r: Option<Statement>)
        requires
            old(self).wf(),
        ensures
            final(self).wf(),
            final(self).tokens() == old(self).tokens(),
            match insert(old(self).tokens(), old(self).position()) {
                Some((s, j)) => r matches Some(st) && stmt_of(st) == s && final(self).position() == j,
                None => r is None,
            },
    {
        if !self.expect_keyword("INSERT") {
            return None;
        }
        if !self.expect_keyword("INTO") {
            return None;
        }
        let table = match self.expect_ident() {
            Some(t) => t,
            None => {
                return None;
            },
        };
        if !self.expect_keyword("VALUES") {
            return None;
        }
        if !self.expect_paren(true) {
            return None;
        }
        let values = match self.parse_list() {
            Some(vs) => vs,
            None => {
                return None;
            },
        };
        if !self.expect_paren(false) {
            return None;
        }
        Some(Statement::Insert { table, values })
    }

    fn parse_create_table(&mut self) -> (r: Option<Statement>)
        requires
            old(self).wf(),
        ensures
            final(self).wf(),
            final(self).tokens() == old(self).tokens(),
            match create_table(old(self).tokens(), old(self).position()) {
                Some((s, j)) => r matches Some(st) && stmt_of(st) == s && final(self).position() == j,
                None => r is None,
            },
    {
        let ghost ts = self.tokens();
        let ghost i0 = self.position();
        if !self.expect_keyword("CREATE") {
            return None;
        }
        if !self.expect_keyword("TABLE") {
            return None;
        }
        let name = match self.expect_ident() {
            Some(n) => n,
            None => {
                return None;
            },
        };
        if !self.expect_paren(true) {
            return None;
        }
        let col_name = match self.expect_ident() {
            Some(n) => n,
            None => {
                return None;
            },
        };
        let col_type = match self.expect_ident() {
            Some(t) => t,
            None => {
                return None;
            },
        };
        let mut columns: Vec<(String, String)> = Vec::new();
        columns.push((col_name, col_type));
        proof {
            let first = (ident_of(tok(ts, i0 + 4)), ident_of(tok(ts, i0 + 5)));
            assert(columns@.map_values(|c: (String, String)| (c.0@, c.1@)) =~= seq![first]);
        }
        loop
            invariant
                self.wf(),
                self.tokens() == ts,
                ts == old(self).tokens(),
                i0 == old(self).position(),
                create_table(ts, i0) == match columns_rest(
                    ts,
                    columns@.map_values(|c: (String, String)| (c.0@, c.1@)),
                    self.position(),
                ) {
                    Some((cs, j)) => if tok(ts, j) is RightParen {
                        Some((Stmt::CreateTable(name@, cs), j + 1))
                    } else {
                        None
                    },
                    None => None,
                },
            ensures
                self.wf(),
                self.tokens() == ts,
                create_table(ts, i0) == if tok(ts, self.position()) is RightParen {
                    Some(
                        (
                            Stmt::CreateTable(name@, columns@.map_values(|c: (String, String)| (c.0@, c.1@))),
                            self.position() + 1,
                        ),
                    )
                } else {
                    None
                },
            decreases ts.len() - self.pos,
        {
            let comma = match self.peek() {
                Token::Comma => true,
                _ => false,
            };
            if !comma {
                break;
            }
            let ghost acc = columns@.map_values(|c: (String, String)| (c.0@, c.1@));
            self.bump();
            let cn = match self.expect_ident() {
                Some(n) => n,
                None => {
                    return None;
                },
            };
            let ct = match self.expect_ident() {
                Some(t) => t,
                None => {
                    return None;
                },
            };
            let ghost pair = (cn@, ct@);
            columns.push((cn, ct));
            proof {
                assert(columns@.map_values(|c: (String, String)| (c.0@, c.1@)) =~= acc.push(pair));
            }
        }
        if !self.expect_paren(false) {
            return None;
        }
        Some(Statement::CreateTable { name, columns })
    }

    fn parse_list(&mut self) -> (r: Option<Vec<Expression>>)
        requires
            old(self).wf(),
        ensures
            final(self).wf(),
            final(self).tokens() == old(self).tokens(),
            match expr_list(old(self).tokens(), old(self).position()) {
                Some((es, j)) => r matches Some(v) && exprs_of(v@) == es && final(self).position() == j,
                None => r is None,
            },
    {
        let ghost ts = self.tokens();
        let ghost i0 = self.position();
        let first = match self.try_parse_expression() {
            Some(e) => e,
            None => {
                return None;
            },
        };
        let mut items: Vec<Expression> = Vec::new();
        items.push(first);
        proof {
            assert(exprs_of(items@) =~= seq![expr_of(items@[0])]);
        }
        loop
            invariant
                self.wf(),
                self.tokens() == ts,
                ts == old(self).tokens(),
                i0 == old(self).position(),
                expr_list(ts, i0) == list_rest(ts, exprs_of(items@), self.position()),
            ensures
                self.wf(),
                self.tokens() == ts,
                expr_list(ts, i0) == Some((exprs_of(items@), self.position())),
            decreases ts.len() - self.pos,
        {
            let comma = match self.peek() {
                Token::Comma => true,
                _ => false,
            };
            if !comma {
                break;
            }
            let ghost acc = exprs_of(items@);
            self.bump();
            let e = match self.try_parse_expression() {
                Some(e) => e,
                None => {
                    return None;
                },
            };
            let ghost ev = expr_of(e);
            items.push(e);
            proof {
                assert(exprs_of(items@) =~= acc.push(ev));
            }
        }
        Some(items)
    }

    /// Parses an expression; `None` where the tokens do not form one.
    pub fn try_parse_expression(&mut self) -> (r: Option<Expression>)
        requires
            old(self).wf(),
        ensures
            final(self).wf(),
            final(self).tokens() == old(self).tokens(),
            match expression(old(self).tokens(), old(self).position()) {
                Some((e, j)) => r matches Some(x) && expr_of(x) == e && final(self).position() == j,
                None => r is None,
            },
            r is Some ==> old(self).position() < final(self).position(),
        decreases old(self).tokens().len() - old(self).position(), 3nat,
    {
        let left = match self.parse_additive() {
            Some(l) => l,
            None => {
                return None;
            },
        };
        let op = match self.peek() {
            Token::Equals => Some(Op::Eq),
            Token::NotEquals => Some(Op::NotEq),
            Token::LessThan => Some(Op::Lt),
            Token::GreaterThan => Some(Op::Gt),
            _ => None,
        };
        match op {
            Some(op) => {
                self.bump();
                match self.parse_additive() {
                    Some(right) => Some(Expression::BinaryOp { left: Box::new(left), op, right: Box::new(right) }),
                    None => None,
                }
            },
            None => Some(left),
        }
    }

    /// Parses an expression.
    pub fn parse_expression(&mut self) -> (e: Expression)
        requires
            old(self).wf(),
            expression(old(self).tokens(), old(self).position()) is Some,
        ensures
            final(self).wf(),
            final(self).tokens() == old(self).tokens(),
            expression(old(self).tokens(), old(self).position()) == Some((expr_of(e), final(self).position())),
    {
        self.try_parse_expression().unwrap()
    }

    fn parse_additive(&mut self) -> (r: Option<Expression>)
        requires
            old(self).wf(),
        ensures
            final(self).wf(),
            final(self).tokens() == old(self).tokens(),
            match additive(old(self).tokens(), old(self).position()) {
                Some((e, j)) => r matches Some(x) && expr_of(x) == e && final(self).position() == j,
                None => r is None,
            },
            r is Some ==> old(self).position() < final(self).position(),
        decreases old(self).tokens().len() - old(self).position(), 2nat,
    {
        let ghost ts = self.tokens();
        let ghost i0 = self.position();
        let mut left = match self.parse_primary() {
            Some(l) => l,
            None => {
                return None;
            },
        };
        loop
            invariant
                self.wf(),
                self.tokens() == ts,
                ts == old(self).tokens(),
                i0 == old(self).position(),
                self.position() > i0,
                additive(ts, i0) == additive_rest(ts, expr_of(left), self.position()),
            ensures
                self.wf(),
                self.tokens() == ts,
                self.position() > i0,
                additive(ts, i0) == Some((expr_of(left), self.position())),
            decreases ts.len() - self.pos,
        {
            let op = match self.peek() {
                Token::Plus => Some(Op::Add),
                Token::Minus => Some(Op::Sub),
                _ => None,
            };
            let op = match op {
                Some(o) => o,
                None => {
                    break;
                },
            };
            self.bump();
            let right = match self.parse_primary() {
                Some(r) => r,
                None => {
                    return None;
                },
            };
            left = Expression::BinaryOp { left: Box::new(left), op, right: Box::new(right) };
        }
        Some(left)
    }

    fn parse_primary(&mut self) -> (r: Option<Expression>)
        requires
            old(self).wf(),
        ensures
            final(self).wf(),
            final(self).tokens() == old(self).tokens(),
            match primary(old(self).tokens(), old(self).position()) {
                Some((e, j)) => r matches Some(x) && expr_of(x) == e && final(self).position() == j,
                None => r is None,
            },
            r is Some ==> old(self).position() < final(self).position(),
        decreases old(self).tokens().len() - old(self).position(), 0nat,
    {
        let r = match self.peek() {
            Token::Number(n) => Some(Expression::Number(copy_text(n))),
            Token::String(s) => Some(Expression::String(copy_text(s))),
            Token::Ident(s) => Some(Expression::Column(copy_text(s))),
            _ => None,
        };
        if r.is_some() {
            self.bump();
            return r;
        }
        if !self.expect_paren(true) {
            return None;
        }
        let e = match self.try_parse_expression() {
            Some(e) => e,
            None => {
                return None;
            },
        };
        if !self.expect_paren(false) {
            return None;
        }
        Some(e)
    }
}

proof fn lemma_additive_rest_advances(ts: Seq<Tok>, left: Expr, i: nat)
    ensures
        additive_rest(ts, left, i) is Some ==> i <= additive_rest(ts, left, i).unwrap().1,
        additive_rest(ts, left, i) is Some && i <= ts.len() ==> additive_rest(ts, left, i).unwrap().1 <= ts.len(),
    decreases ts.len() - i,
{
    if i < ts.len() && (tok(ts, i) is Plus || tok(ts, i) is Minus) {
        let op = if tok(ts, i) is Plus {
            Op::Add
        } else {
            Op::Sub
        };
        match primary(ts, i + 1) {
            Some((r, j)) => {
                if i + 1 < j <= ts.len() {
                    lemma_additive_rest_advances(ts, Expr::BinaryOp(Box::new(left), op, Box::new(r)), j);
                }
            },
            None => {},
        }
    }
}

/// An additive expression followed by a comparison token and a second
/// additive expression is their comparison, each token with its own
/// operator: `=` gives `Eq`, `!=` gives `NotEq`, `<` gives `Lt` and `>`
/// gives `Gt`. Without a comparison token the expression is the additive
/// one alone.
pub proof fn lemma_comparison_operators(ts: Seq<Tok>, i: nat)
    requires
        additive(ts, i) is Some,
    ensures
        ({
            let l = additive(ts, i).unwrap().0;
            let j = additive(ts, i).unwrap().1;
            &&& tok(ts, j) is Equals && additive(ts, j + 1) is Some ==> expression(ts, i) == Some(
                (Expr::BinaryOp(Box::new(l), Op::Eq, Box::new(additive(ts, j + 1).unwrap().0)), additive(ts, j + 1).unwrap().1),
            )
            &&& tok(ts, j) is NotEquals && additive(ts, j + 1) is Some ==> expression(ts, i) == Some(
                (Expr::BinaryOp(Box::new(l), Op::NotEq, Box::new(additive(ts, j + 1).unwrap().0)), additive(ts, j + 1).unwrap().1),
            )
            &&& tok(ts, j) is LessThan && additive(ts, j + 1) is Some ==> expression(ts, i) == Some(
                (Expr::BinaryOp(Box::new(l), Op::Lt, Box::new(additive(ts, j + 1).unwrap().0)), additive(ts, j + 1).unwrap().1),
            )
            &&& tok(ts, j) is GreaterThan && additive(ts, j + 1) is Some ==> expression(ts, i) == Some(
                (Expr::BinaryOp(Box::new(l), Op::Gt, Box::new(additive(ts, j + 1).unwrap().0)), additive(ts, j + 1).unwrap().1),
            )
            &&& !(tok(ts, j) is Equals || tok(ts, j) is NotEquals || tok(ts, j) is LessThan || tok(ts, j) is GreaterThan)
                ==> expression(ts, i) == Some((l, j))
        }),
{
    let (l0, j0) = primary(ts, i).unwrap();
    assert(i < j0 <= ts.len());
    lemma_additive_rest_advances(ts, l0, j0);
    let l = additive(ts, i).unwrap().0;
    let j = additive(ts, i).unwrap().1;
    assert(i <= j <= ts.len());
}

proof fn lemma_one_addition(x: Seq<char>, n: Seq<char>, o: Tok, op: Op)
    requires
        (o is Plus && op == Op::Add) || (o is Minus && op == Op::Sub),
    ensures
        expression(seq![Tok::Ident(x), o, Tok::Number(n)], 0) == Some(
            (Expr::BinaryOp(Box::new(Expr::Column(x)), op, Box::new(Expr::Number(n))), 3nat),
        ),
{
    let ts = seq![Tok::Ident(x), o, Tok::Number(n)];
    let e = Expr::BinaryOp(Box::new(Expr::Column(x)), op, Box::new(Expr::Number(n)));
    assert(tok(ts, 0) == Tok::Ident(x));
    assert(tok(ts, 1) == o);
    assert(tok(ts, 2) == Tok::Number(n));
    assert(tok(ts, 3) == Tok::Eof);
    assert(primary(ts, 0) == Some((Expr::Column(x), 1nat)));
    assert(primary(ts, 2) == Some((Expr::Number(n), 3nat)));
    assert(additive_rest(ts, e, 3) == Some((e, 3nat)));
    assert(additive_rest(ts, Expr::Column(x), 1) == Some((e, 3nat)));
    assert(additive(ts, 0) == Some((e, 3nat)));
}

/// A column compared with, added to or subtracted from a number parses to
/// that operation on the two: `+` is `Add`, `-` is `Sub`, `=` is `Eq`, `!=`
/// is `NotEq`, `<` is `Lt` and `>` is `Gt`.
pub proof fn lemma_binary_operators(x: Seq<char>, n: Seq<char>)
    ensures
        expression(seq![Tok::Ident(x), Tok::Equals, Tok::Number(n)], 0) == Some(
            (Expr::BinaryOp(Box::new(Expr::Column(x)), Op::Eq, Box::new(Expr::Number(n))), 3nat),
        ),
        expression(seq![Tok::Ident(x), Tok::NotEquals, Tok::Number(n)], 0) == Some(
            (Expr::BinaryOp(Box::new(Expr::Column(x)), Op::NotEq, Box::new(Expr::Number(n))), 3nat),
        ),
        expression(seq![Tok::Ident(x), Tok::LessThan, Tok::Number(n)], 0) == Some(
            (Expr::BinaryOp(Box::new(Expr::Column(x)), Op::Lt, Box::new(Expr::Number(n))), 3nat),
        ),
        expression(seq![Tok::Ident(x), Tok::GreaterThan, Tok::Number(n)], 0) == Some(
            (Expr::BinaryOp(Box::new(Expr::Column(x)), Op::Gt, Box::new(Expr::Number(n))), 3nat),
        ),
        expression(seq![Tok::Ident(x), Tok::Plus, Tok::Number(n)], 0) == Some(
            (Expr::BinaryOp(Box::new(Expr::Column(x)), Op::Add, Box::new(Expr::Number(n))), 3nat),
        ),
        expression(seq![Tok::Ident(x), Tok::Minus, Tok::Number(n)], 0) == Some(
            (Expr::BinaryOp(Box::new(Expr::Column(x)), Op::Sub, Box::new(Expr::Number(n))), 3nat),
        ),
{
    lemma_one_addition(x, n, Tok::Plus, Op::Add);
    lemma_one_addition(x, n, Tok::Minus, Op::Sub);
}

} // verus!
