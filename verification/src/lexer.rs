//! SQL lexer: turns text into keywords, identifiers, literals and symbols.
//! A number token carries its digit text (digits with at most one `.`).
use vstd::prelude::*;
use crate::text::{char_is_whitespace, chars_of, is_white_space, piece, same_chars, to_upper, upper};

verus! {

/// Whether `c` is alphabetic (what `char::is_alphabetic` answers).
pub uninterp spec fn is_alpha(c: char) -> bool;

/// Whether `c` is alphanumeric (what `char::is_alphanumeric` answers).
pub uninterp spec fn is_alnum(c: char) -> bool;

/// Calls `char::is_alphabetic`; the result is named `is_alpha`.
#[verifier::external_body]
fn char_is_alphabetic(c: char) -> (b: bool)
    ensures
        b == is_alpha(c),
{
    c.is_alphabetic()
}

/// Calls `char::is_alphanumeric`; the result is named `is_alnum`.
#[verifier::external_body]
fn char_is_alphanumeric(c: char) -> (b: bool)
    ensures
        b == is_alnum(c),
{
    c.is_alphanumeric()
}

/// SQL keywords.
#[derive(Debug, Clone, PartialEq, Eq, Structural)]
pub enum Keyword {
    Select,
    From,
    Where,
    Insert,
    Into,
    Values,
    Create,
    Table,
    And,
    Or,
    Not,
    Int,
    Text,
    Bool,
}

/// A token; `Number` holds the literal's text.
#[derive(Debug, Clone, PartialEq)]
pub enum Token {
    Number(String),
    String(String),
    Ident(String),
    Keyword(Keyword),
    Star,
    Comma,
    LeftParen,
    RightParen,
    Semicolon,
    Equals,
    NotEquals,
    LessThan,
    GreaterThan,
    Plus,
    Minus,
    Eof,
}

/// A token with its text as characters.
pub enum Lexeme {
    Number(Seq<char>),
    String(Seq<char>),
    Ident(Seq<char>),
    Keyword(Keyword),
    Star,
    Comma,
    LeftParen,
    RightParen,
    Semicolon,
    Equals,
    NotEquals,
    LessThan,
    GreaterThan,
    Plus,
    Minus,
    Eof,
}

impl View for Token {
    type V = Lexeme;

    open spec fn view(&self) -> Lexeme {
        match self {
            Token::Number(s) => Lexeme::Number(s@),
            Token::String(s) => Lexeme::String(s@),
            Token::Ident(s) => Lexeme::Ident(s@),
            Token::Keyword(k) => Lexeme::Keyword(*k),
            Token::Star => Lexeme::Star,
            Token::Comma => Lexeme::Comma,
            Token::LeftParen => Lexeme::LeftParen,
            Token::RightParen => Lexeme::RightParen,
            Token::Semicolon => Lexeme::Semicolon,
            Token::Equals => Lexeme::Equals,
            Token::NotEquals => Lexeme::NotEquals,
            Token::LessThan => Lexeme::LessThan,
            Token::GreaterThan => Lexeme::GreaterThan,
            Token::Plus => Lexeme::Plus,
            Token::Minus => Lexeme::Minus,
            Token::Eof => Lexeme::Eof,
        }
    }
}

pub open spec fn lexemes(v: Seq<Token>) -> Seq<Lexeme> {
    v.map_values(|t: Token| t@)
}

pub open spec fn is_digit(c: char) -> bool {
    '0' <= c && c <= '9'
}

/// The token of a one-character symbol.
pub open spec fn symbol(c: char) -> Option<Lexeme> {
    if c == '*' {
        Some(Lexeme::Star)
    } else if c == '(' {
        Some(Lexeme::LeftParen)
    } else if c == ')' {
        Some(Lexeme::RightParen)
    } else if c == ',' {
        Some(Lexeme::Comma)
    } else if c == ';' {
        Some(Lexeme::Semicolon)
    } else if c == '+' {
        Some(Lexeme::Plus)
    } else if c == '-' {
        Some(Lexeme::Minus)
    } else if c == '<' {
        Some(Lexeme::LessThan)
    } else if c == '>' {
        Some(Lexeme::GreaterThan)
    } else if c == '=' {
        Some(Lexeme::Equals)
    } else {
        None
    }
}

/// A token begins at `k`: a symbol, `!=`, a quote, a digit, or a letter or `_`.
pub open spec fn starts_token(s: Seq<char>, k: int) -> bool {
    let c = s[k];
    if symbol(c) is Some {
        true
    } else if c == '!' {
        k + 1 < s.len() && s[k + 1] == '='
    } else {
        c == '\'' || is_digit(c) || is_alpha(c) || c == '_'
    }
}

/// The first position at or after `i` where a token begins (or the end):
/// white space, a lone `!` and characters that begin no token are skipped.
pub open spec fn skip(s: Seq<char>, i: nat) -> nat
    decreases s.len() - i,
{
    if i < s.len() && (is_white_space(s[i as int]) || !starts_token(s, i as int)) {
        skip(s, i + 1)
    } else {
        i
    }
}

/// The end of a number starting at `i`: digits, and one `.` unless `dot`.
pub open spec fn number_end(s: Seq<char>, i: nat, dot: bool) -> nat
    decreases s.len() - i,
{
    if i < s.len() && (is_digit(s[i as int]) || (s[i as int] == '.' && !dot)) {
        number_end(s, i + 1, dot || s[i as int] == '.')
    } else {
        i
    }
}

/// The first quote at or after `i`, or the end.
pub open spec fn quote_at(s: Seq<char>, i: nat) -> nat
    decreases s.len() - i,
{
    if i < s.len() && s[i as int] != '\'' {
        quote_at(s, i + 1)
    } else {
        i
    }
}

/// The end of identifier characters (alphanumeric or `_`) from `i`.
pub open spec fn word_end(s: Seq<char>, i: nat) -> nat
    decreases s.len() - i,
{
    if i < s.len() && (is_alnum(s[i as int]) || s[i as int] == '_') {
        word_end(s, i + 1)
    } else {
        i
    }
}

/// The keyword a word spells, ignoring case.
pub open spec fn keyword_of(w: Seq<char>) -> Option<Keyword> {
    let u = upper(w);
    if u == "SELECT"@ {
        Some(Keyword::Select)
    } else if u == "FROM"@ {
        Some(Keyword::From)
    } else if u == "WHERE"@ {
        Some(Keyword::Where)
    } else if u == "INSERT"@ {
        Some(Keyword::Insert)
    } else if u == "INTO"@ {
        Some(Keyword::Into)
    } else if u == "VALUES"@ {
        Some(Keyword::Values)
    } else if u == "CREATE"@ {
        Some(Keyword::Create)
    } else if u == "TABLE"@ {
        Some(Keyword::Table)
    } else if u == "AND"@ {
        Some(Keyword::And)
    } else if u == "OR"@ {
        Some(Keyword::Or)
    } else if u == "NOT"@ {
        Some(Keyword::Not)
    } else if u == "INT"@ {
        Some(Keyword::Int)
    } else if u == "TEXT"@ {
        Some(Keyword::Text)
    } else if u == "BOOL"@ {
        Some(Keyword::Bool)
    } else {
        None
    }
}

/// The spelling of a keyword.
pub open spec fn keyword_name(k: Keyword) -> Seq<char> {
    match k {
        Keyword::Select => "SELECT"@,
        Keyword::From => "FROM"@,
        Keyword::Where => "WHERE"@,
        Keyword::Insert => "INSERT"@,
        Keyword::Into => "INTO"@,
        Keyword::Values => "VALUES"@,
        Keyword::Create => "CREATE"@,
        Keyword::Table => "TABLE"@,
        Keyword::And => "AND"@,
        Keyword::Or => "OR"@,
        Keyword::Not => "NOT"@,
        Keyword::Int => "INT"@,
        Keyword::Text => "TEXT"@,
        Keyword::Bool => "BOOL"@,
    }
}

/// A word is a keyword exactly when its upper-case spelling is that
/// keyword's name: each keyword word maps to the keyword of the same name,
/// and to no other.
pub proof fn lemma_keyword_words(w: Seq<char>, k: Keyword)
    ensures
        keyword_of(w) == Some(k) <==> upper(w) == keyword_name(k),
{
    reveal_strlit("SELECT");
    reveal_strlit("FROM");
    reveal_strlit("WHERE");
    reveal_strlit("INSERT");
    reveal_strlit("INTO");
    reveal_strlit("VALUES");
    reveal_strlit("CREATE");
    reveal_strlit("TABLE");
    reveal_strlit("AND");
    reveal_strlit("OR");
    reveal_strlit("NOT");
    reveal_strlit("INT");
    reveal_strlit("TEXT");
    reveal_strlit("BOOL");
    assert("SELECT"@.len() == 6 && "SELECT"@[0] == 'S');
    assert("FROM"@.len() == 4 && "FROM"@[0] == 'F');
    assert("WHERE"@.len() == 5 && "WHERE"@[0] == 'W');
    assert("INSERT"@.len() == 6 && "INSERT"@[0] == 'I');
    assert("INTO"@.len() == 4 && "INTO"@[0] == 'I');
    assert("VALUES"@.len() == 6 && "VALUES"@[0] == 'V');
    assert("CREATE"@.len() == 6 && "CREATE"@[0] == 'C');
    assert("TABLE"@.len() == 5 && "TABLE"@[0] == 'T');
    assert("AND"@.len() == 3 && "AND"@[0] == 'A');
    assert("OR"@.len() == 2 && "OR"@[0] == 'O');
    assert("NOT"@.len() == 3 && "NOT"@[0] == 'N');
    assert("INT"@.len() == 3 && "INT"@[0] == 'I');
    assert("TEXT"@.len() == 4 && "TEXT"@[0] == 'T');
    assert("BOOL"@.len() == 4 && "BOOL"@[0] == 'B');
}

/// The token read from position `i`, and the position after it.
pub open spec fn next_lexeme(s: Seq<char>, i: nat) -> (Lexeme, nat) {
    let k = skip(s, i);
    if k >= s.len() {
        (Lexeme::Eof, k)
    } else {
        let c = s[k as int];
        if symbol(c) is Some {
            (symbol(c)->0, k + 1)
        } else if c == '!' {
            (Lexeme::NotEquals, k + 2)
        } else if c == '\'' {
            let q = quote_at(s, k + 1);
            (Lexeme::String(s.subrange(k + 1 as int, q as int)), if q < s.len() {
                q + 1
            } else {
                q
            })
        } else if is_digit(c) {
            let e = number_end(s, k, false);
            (Lexeme::Number(s.subrange(k as int, e as int)), e)
        } else {
            let e = word_end(s, k + 1);
            let w = s.subrange(k as int, e as int);
            (
                match keyword_of(w) {
                    Some(kw) => Lexeme::Keyword(kw),
                    None => Lexeme::Ident(w),
                },
                e,
            )
        }
    }
}

/// Each operator and punctuation character reads as its own one-character
/// token: `*` is `Star`, `(` and `)` the parentheses, `,` `Comma`, `;`
/// `Semicolon`, `+` `Plus`, `-` `Minus`, `<` `LessThan`, `>` `GreaterThan`
/// and `=` `Equals`; `!` starts the two-character `NotEquals`.
pub proof fn lemma_symbol_tokens(s: Seq<char>, i: nat)
    requires
        skip(s, i) < s.len(),
    ensures
        ({
            let k = skip(s, i);
            let c = s[k as int];
            &&& c == '*' ==> next_lexeme(s, i) == (Lexeme::Star, k + 1)
            &&& c == '(' ==> next_lexeme(s, i) == (Lexeme::LeftParen, k + 1)
            &&& c == ')' ==> next_lexeme(s, i) == (Lexeme::RightParen, k + 1)
            &&& c == ',' ==> next_lexeme(s, i) == (Lexeme::Comma, k + 1)
            &&& c == ';' ==> next_lexeme(s, i) == (Lexeme::Semicolon, k + 1)
            &&& c == '+' ==> next_lexeme(s, i) == (Lexeme::Plus, k + 1)
            &&& c == '-' ==> next_lexeme(s, i) == (Lexeme::Minus, k + 1)
            &&& c == '<' ==> next_lexeme(s, i) == (Lexeme::LessThan, k + 1)
            &&& c == '>' ==> next_lexeme(s, i) == (Lexeme::GreaterThan, k + 1)
            &&& c == '=' ==> next_lexeme(s, i) == (Lexeme::Equals, k + 1)
            &&& c == '!' ==> next_lexeme(s, i) == (Lexeme::NotEquals, k + 2)
        }),
{
}

proof fn lemma_skip(s: Seq<char>, i: nat)
    requires
        i <= s.len(),
    ensures
        i <= skip(s, i) <= s.len(),
        skip(s, i) < s.len() ==> starts_token(s, skip(s, i) as int) && !is_white_space(s[skip(s, i) as int]),
    decreases s.len() - i,
{
    if i < s.len() && (is_white_space(s[i as int]) || !starts_token(s, i as int)) {
        lemma_skip(s, i + 1);
    }
}

proof fn lemma_number_end(s: Seq<char>, i: nat, dot: bool)
    requires
        i <= s.len(),
    ensures
        i <= number_end(s, i, dot) <= s.len(),
    decreases s.len() - i,
{
    if i < s.len() && (is_digit(s[i as int]) || (s[i as int] == '.' && !dot)) {
        lemma_number_end(s, i + 1, dot || s[i as int] == '.');
    }
}

proof fn lemma_quote_at(s: Seq<char>, i: nat)
    requires
        i <= s.len(),
    ensures
        i <= quote_at(s, i) <= s.len(),
    decreases s.len() - i,
{
    if i < s.len() && s[i as int] != '\'' {
        lemma_quote_at(s, i + 1);
    }
}

proof fn lemma_word_end(s: Seq<char>, i: nat)
    requires
        i <= s.len(),
    ensures
        i <= word_end(s, i) <= s.len(),
    decreases s.len() - i,
{
    if i < s.len() && (is_alnum(s[i as int]) || s[i as int] == '_') {
        lemma_word_end(s, i + 1);
    }
}

/// Every token but `Eof` moves forward; the position stays within the input.
pub proof fn lemma_next_lexeme_advances(s: Seq<char>, i: nat)
    requires
        i <= s.len(),
    ensures
        next_lexeme(s, i).1 <= s.len(),
        next_lexeme(s, i).0 is Eof <==> next_lexeme(s, i).1 == s.len() && skip(s, i) == s.len(),
        !(next_lexeme(s, i).0 is Eof) ==> next_lexeme(s, i).1 > i,
{
    lemma_skip(s, i);
    let k = skip(s, i);
    if k < s.len() {
        let c = s[k as int];
        if symbol(c) is Some {
        } else if c == '!' {
            assert(starts_token(s, k as int));
            assert(k + 1 < s.len());
        } else if c == '\'' {
            lemma_quote_at(s, k + 1);
        } else if is_digit(c) {
            lemma_number_end(s, k + 1, false);
            assert(number_end(s, k, false) == number_end(s, k + 1, false));
        } else {
            lemma_word_end(s, k + 1);
        }
    }
}

/// The tokens read from position `i` to the end, ending with `Eof`.
pub open spec fn lex(s: Seq<char>, i: nat) -> Seq<Lexeme>
    decreases s.len() - i,
{
    let (t, j) = next_lexeme(s, i);
    if t is Eof || j <= i || j > s.len() {
        seq![t]
    } else {
        seq![t] + lex(s, j)
    }
}

/// The tokens end with `Eof`, and no other token is `Eof`.
pub proof fn lemma_lex_ends_with_eof(s: Seq<char>, i: nat)
    requires
        i <= s.len(),
    ensures
        lex(s, i).len() >= 1,
        lex(s, i).last() is Eof,
        forall|k: int| 0 <= k < lex(s, i).len() - 1 ==> !(#[trigger] lex(s, i)[k] is Eof),
    decreases s.len() - i,
{
    lemma_next_lexeme_advances(s, i);
    let (t, j) = next_lexeme(s, i);
    if !(t is Eof) {
        lemma_lex_ends_with_eof(s, j);
        let rest = lex(s, j);
        assert(lex(s, i) == seq![t] + rest);
        assert forall|k: int| 0 <= k < lex(s, i).len() - 1 implies !(#[trigger] lex(s, i)[k] is Eof) by {
            if k > 0 {
                assert(lex(s, i)[k] == rest[k - 1]);
            }
        }
    }
}

/// A lexer over an input string.
pub struct Lexer {
    source: String,
    chars: Vec<char>,
    pos: usize,
}

impl Lexer {
    /// The input characters.
    pub closed spec fn input(&self) -> Seq<char> {
        self.chars@
    }

    /// How far the lexer has read.
    pub closed spec fn position(&self) -> nat {
        self.pos as nat
    }

    pub closed spec fn wf(&self) -> bool {
        &&& self.pos <= self.chars@.len()
        &&& self.chars@.len() <= usize::MAX
        &&& self.chars@ == self.source@
    }

    /// A lexer at the start of `input`.
    pub fn new(input: &str) -> (l: Lexer)
        ensures
            l.wf(),
            l.input() == input@,
            l.position() == 0,
    {
        let chars = chars_of(input);
        let _n = chars.len();
        Lexer { source: String::from_str(input), chars, pos: 0 }
    }

    /// All tokens from the current position, ending with `Eof`.
    pub fn tokenize(&mut self) -> (tokens: Vec<Token>)
        requires
            old(self).wf(),
        ensures
            final(self).wf(),
            final(self).input() == old(self).input(),
            lexemes(tokens@) == lex(old(self).input(), old(self).position()),
            final(self).position() == old(self).input().len(),
    {
        let ghost s = self.chars@;
        let ghost start = self.pos as nat;
        let mut tokens: Vec<Token> = Vec::new();
        loop
            invariant
                self.wf(),
                self.chars@ == s,
                s == old(self).chars@,
                start == old(self).pos,
                start <= self.pos,
                lexemes(tokens@) + lex(s, self.pos as nat) == lex(s, start),
            decreases s.len() - self.pos,
        {
            let ghost before = self.pos as nat;
            let ghost done = lexemes(tokens@);
            let tok = self.next_token();
            proof {
                lemma_next_lexeme_advances(s, before);
            }
            let is_eof = match tok {
                Token::Eof => true,
                _ => false,
            };
            let ghost tv = tok@;
            tokens.push(tok);
            proof {
                assert(lexemes(tokens@) =~= done.push(tv));
            }
            if is_eof {
                proof {
                    assert(lex(s, before) == seq![tv]);
                    assert(lexemes(tokens@) =~= done + seq![tv]);
                }
                return tokens;
            }
            proof {
                assert(lex(s, before) == seq![tv] + lex(s, self.pos as nat));
                assert(lexemes(tokens@) + lex(s, self.pos as nat) =~= done + lex(s, before));
            }
        }
    }

    fn peek(&self) -> (c: Option<char>)
        requires
            self.wf(),
        ensures
            c == (if self.pos < self.chars@.len() {
                Some(self.chars@[self.pos as int])
            } else {
                None::<char>
            }),
    {
        if self.pos < self.chars.len() {
            Some(self.chars[self.pos])
        } else {
            None
        }
    }

    /// Reads the next token.
    pub fn next_token(&mut self) -> (t: Token)
        requires
            old(self).wf(),
        ensures
            final(self).wf(),
            final(self).input() == old(self).input(),
            (t@, final(self).position()) == next_lexeme(old(self).input(), old(self).position()),
    {
        let ghost s = self.chars@;
        let ghost i0 = self.pos as nat;
        loop
            invariant
                self.wf(),
                self.chars@ == s,
                s == old(self).chars@,
                i0 == old(self).pos,
                skip(s, self.pos as nat) == skip(s, i0),
            decreases s.len() - self.pos,
        {
            self.skip_whitespace();
            match self.peek() {
                None => {
                    return Token::Eof;
                },
                Some(c) => {
                    let starts = if c == '*' || c == '(' || c == ')' || c == ',' || c == ';' || c == '+'
                        || c == '-' || c == '<' || c == '>' || c == '=' {
                        true
                    } else if c == '!' {
                        self.pos + 1 < self.chars.len() && self.chars[self.pos + 1] == '='
                    } else {
                        c == '\'' || is_ascii_digit(c) || char_is_alphabetic(c) || c == '_'
                    };
                    if starts {
                        let ghost k = self.pos as nat;
                        assert(k == skip(s, i0));
                        if c == '*' {
                            self.pos = self.pos + 1;
                            return Token::Star;
                        } else if c == '(' {
                            self.pos = self.pos + 1;
                            return Token::LeftParen;
                        } else if c == ')' {
                            self.pos = self.pos + 1;
                            return Token::RightParen;
                        } else if c == ',' {
                            self.pos = self.pos + 1;
                            return Token::Comma;
                        } else if c == ';' {
                            self.pos = self.pos + 1;
                            return Token::Semicolon;
                        } else if c == '+' {
                            self.pos = self.pos + 1;
                            return Token::Plus;
                        } else if c == '-' {
                            self.pos = self.pos + 1;
                            return Token::Minus;
                        } else if c == '<' {
                            self.pos = self.pos + 1;
                            return Token::LessThan;
                        } else if c == '>' {
                            self.pos = self.pos + 1;
                            return Token::GreaterThan;
                        } else if c == '=' {
                            self.pos = self.pos + 1;
                            return Token::Equals;
                        } else if c == '!' {
                            self.pos = self.pos + 2;
                            return Token::NotEquals;
                        } else if c == '\'' {
                            return self.scan_string();
                        } else if is_ascii_digit(c) {
                            return self.scan_number();
                        } else {
                            return self.scan_identifier();
                        }
                    }
                    self.pos = self.pos + 1;
                },
            }
        }
    }

    fn skip_whitespace(&mut self)
        requires
            old(self).wf(),
        ensures
            final(self).wf(),
            final(self).chars@ == old(self).chars@,
            skip(final(self).chars@, final(self).pos as nat) == skip(old(self).chars@, old(self).pos as nat),
            final(self).pos < final(self).chars@.len() ==> !is_white_space(final(self).chars@[final(self).pos as int]),
            final(self).pos >= old(self).pos,
    {
        while self.pos < self.chars.len() && char_is_whitespace(self.chars[self.pos])
            invariant
                self.wf(),
                self.chars@ == old(self).chars@,
                self.pos >= old(self).pos,
                skip(self.chars@, self.pos as nat) == skip(old(self).chars@, old(self).pos as nat),
            decreases self.chars@.len() - self.pos,
        {
            self.pos = self.pos + 1;
        }
    }

    fn scan_number(&mut self) -> (t: Token)
        requires
            old(self).wf(),
            old(self).pos < old(self).chars@.len(),
            is_digit(old(self).chars@[old(self).pos as int]),
        ensures
            final(self).wf(),
            final(self).chars@ == old(self).chars@,
            final(self).pos == number_end(old(self).chars@, old(self).pos as nat, false),
            t@ == Lexeme::Number(old(self).chars@.subrange(old(self).pos as int, final(self).pos as int)),
    {
        let ghost s = self.chars@;
        let start = self.pos;
        let mut has_dot = false;
        while self.pos < self.chars.len() && (is_ascii_digit(self.chars[self.pos]) || (self.chars[self.pos]
            == '.' && !has_dot))
            invariant
                self.wf(),
                self.chars@ == s,
                start <= self.pos,
                number_end(s, self.pos as nat, has_dot) == number_end(s, start as nat, false),
            decreases s.len() - self.pos,
        {
            if self.chars[self.pos] == '.' {
                has_dot = true;
            }
            self.pos = self.pos + 1;
        }
        Token::Number(self.text(start, self.pos))
    }

    fn scan_string(&mut self) -> (t: Token)
        requires
            old(self).wf(),
            old(self).pos < old(self).chars@.len(),
        ensures
            final(self).wf(),
            final(self).chars@ == old(self).chars@,
            ({
                let q = quote_at(old(self).chars@, old(self).pos as nat + 1);
                &&& t@ == Lexeme::String(old(self).chars@.subrange(old(self).pos + 1, q as int))
                &&& final(self).pos == if q < old(self).chars@.len() {
                    q + 1
                } else {
                    q
                }
            }),
    {
        let ghost s = self.chars@;
        let n = self.chars.len();
        assert(self.pos < n);
        self.pos = self.pos + 1;
        let start = self.pos;
        while self.pos < self.chars.len() && self.chars[self.pos] != '\''
            invariant
                self.wf(),
                self.chars@ == s,
                start <= self.pos,
                quote_at(s, self.pos as nat) == quote_at(s, start as nat),
            decreases s.len() - self.pos,
        {
            self.pos = self.pos + 1;
        }
        let text = self.text(start, self.pos);
        if self.pos < self.chars.len() {
            self.pos = self.pos + 1;
        }
        Token::String(text)
    }

    fn scan_identifier(&mut self) -> (t: Token)
        requires
            old(self).wf(),
            old(self).pos < old(self).chars@.len(),
        ensures
            final(self).wf(),
            final(self).chars@ == old(self).chars@,
            ({
                let e = word_end(old(self).chars@, old(self).pos as nat + 1);
                let w = old(self).chars@.subrange(old(self).pos as int, e as int);
                &&& final(self).pos == e
                &&& t@ == match keyword_of(w) {
                    Some(kw) => Lexeme::Keyword(kw),
                    None => Lexeme::Ident(w),
                }
            }),
    {
        let ghost s = self.chars@;
        let start = self.pos;
        let n = self.chars.len();
        assert(self.pos < n);
        self.pos = self.pos + 1;
        while self.pos < self.chars.len() && (char_is_alphanumeric(self.chars[self.pos]) || self.chars[self.pos]
            == '_')
            invariant
                self.wf(),
                self.chars@ == s,
                start < self.pos,
                word_end(s, self.pos as nat) == word_end(s, start as nat + 1),
            decreases s.len() - self.pos,
        {
            self.pos = self.pos + 1;
        }
        let word = self.text(start, self.pos);
        match Self::lookup_keyword(word.as_str()) {
            Some(kw) => Token::Keyword(kw),
            None => Token::Ident(word),
        }
    }

    fn text(&self, from: usize, to: usize) -> (r: String)
        requires
            self.wf(),
            from <= to <= self.chars@.len(),
        ensures
            r@ == self.chars@.subrange(from as int, to as int),
    {
        piece(self.source.as_str(), from, to)
    }

    /// The keyword `word` spells, ignoring case.
    pub fn lookup_keyword(word: &str) -> (k: Option<Keyword>)
        ensures
            k == keyword_of(word@),
    {
        let u = to_upper(word);
        let w = u.as_str();
        if same_chars(w, "SELECT") {
            Some(Keyword::Select)
        } else if same_chars(w, "FROM") {
            Some(Keyword::From)
        } else if same_chars(w, "WHERE") {
            Some(Keyword::Where)
        } else if same_chars(w, "INSERT") {
            Some(Keyword::Insert)
        } else if same_chars(w, "INTO") {
            Some(Keyword::Into)
        } else if same_chars(w, "VALUES") {
            Some(Keyword::Values)
        } else if same_chars(w, "CREATE") {
            Some(Keyword::Create)
        } else if same_chars(w, "TABLE") {
            Some(Keyword::Table)
        } else if same_chars(w, "AND") {
            Some(Keyword::And)
        } else if same_chars(w, "OR") {
            Some(Keyword::Or)
        } else if same_chars(w, "NOT") {
            Some(Keyword::Not)
        } else if same_chars(w, "INT") {
            Some(Keyword::Int)
        } else if same_chars(w, "TEXT") {
            Some(Keyword::Text)
        } else if same_chars(w, "BOOL") {
            Some(Keyword::Bool)
        } else {
            None
        }
    }
}

fn is_ascii_digit(c: char) -> (b: bool)
    ensures
        b == is_digit(c),
{
    '0' <= c && c <= '9'
}

} // verus!
