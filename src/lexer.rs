use vstd::prelude::*;
use crate::text::{alphabetic, chars_of, is_alphabetic, is_whitespace, push_char, white_space};
use crate::value::is_digit;

verus! {

/// The kind of a token, with its text where it has one.
#[derive(Clone, Debug)]
pub enum TokenType {
    Ident(String),
    Equals,
    String(String),
    Int(String),
    Float(String),
    LeftBrace,
    RightBrace,
    LeftBracket,
    RightBracket,
    Comma,
    Newline,
}

/// Location of a token in form (col, line), both counted from 1.
#[derive(Clone, Copy, Debug, PartialEq, Eq, Structural)]
pub struct Loc(pub usize, pub usize);

/// A token and where it starts.
#[derive(Clone, Debug)]
pub struct Token(pub TokenType, pub Loc);

/// The mathematical form of a token kind.
pub enum Kind {
    Ident(Seq<char>),
    Equals,
    Str(Seq<char>),
    Int(Seq<char>),
    Float(Seq<char>),
    LeftBrace,
    RightBrace,
    LeftBracket,
    RightBracket,
    Comma,
    Newline,
}

/// The mathematical form of a token.
pub struct Tok {
    pub kind: Kind,
    pub loc: Loc,
}

impl TokenType {
    pub open spec fn view(&self) -> Kind {
        match self {
            TokenType::Ident(s) => Kind::Ident(s@),
            TokenType::Equals => Kind::Equals,
            TokenType::String(s) => Kind::Str(s@),
            TokenType::Int(s) => Kind::Int(s@),
            TokenType::Float(s) => Kind::Float(s@),
            TokenType::LeftBrace => Kind::LeftBrace,
            TokenType::RightBrace => Kind::RightBrace,
            TokenType::LeftBracket => Kind::LeftBracket,
            TokenType::RightBracket => Kind::RightBracket,
            TokenType::Comma => Kind::Comma,
            TokenType::Newline => Kind::Newline,
        }
    }
}

impl Token {
    pub open spec fn view(&self) -> Tok {
        Tok { kind: self.0@, loc: self.1 }
    }
}

pub open spec fn toks_view(v: Seq<Token>) -> Seq<Tok> {
    v.map_values(|t: Token| t@)
}

/// What went wrong while scanning.
#[derive(Clone, Copy, Debug, PartialEq, Eq, Structural)]
pub enum LexErrorKind {
    /// A second `.` in a numeric literal.
    DoublePeriod,
    /// A raw newline inside a string literal.
    NewlineInString,
    /// A string literal without its closing quote.
    UnterminatedString,
    /// A character that starts no token.
    UnexpectedCharacter(char),
}

/// A scanning failure and where it happened.
#[derive(Clone, Copy, Debug, PartialEq, Eq, Structural)]
pub struct LexError {
    pub kind: LexErrorKind,
    pub loc: Loc,
}

pub open spec fn loc(col: int, line: int) -> Loc {
    Loc(col as usize, line as usize)
}

/// Scans the rest of a numeric literal from `i`: the end and whether a period
/// was seen, or the position of a second period.
pub open spec fn num_scan(s: Seq<char>, i: int, seen: bool) -> Result<(int, bool), int>
    decreases s.len() - i,
{
    if 0 <= i < s.len() && (is_digit(s[i]) || s[i] == '.') {
        if s[i] == '.' {
            if seen {
                Err(i)
            } else {
                num_scan(s, i + 1, true)
            }
        } else {
            num_scan(s, i + 1, seen)
        }
    } else {
        Ok((i, seen))
    }
}

pub open spec fn ident_char(c: char) -> bool {
    alphabetic(c) && !white_space(c) && c != '='
}

/// The end of the identifier characters from `i`.
pub open spec fn ident_end(s: Seq<char>, i: int) -> int
    decreases s.len() - i,
{
    if 0 <= i < s.len() && ident_char(s[i]) {
        ident_end(s, i + 1)
    } else {
        i
    }
}

/// The position of the closing quote of a string whose text starts at `i`.
pub open spec fn string_end(s: Seq<char>, i: int) -> Result<int, LexErrorKind>
    decreases s.len() - i,
{
    if i < 0 || i >= s.len() {
        Err(LexErrorKind::UnterminatedString)
    } else if s[i] == '"' {
        Ok(i)
    } else if s[i] == '\n' {
        Err(LexErrorKind::NewlineInString)
    } else {
        string_end(s, i + 1)
    }
}

/// The numeric token that starts at `i`, and where scanning goes on.
pub open spec fn number_token(s: Seq<char>, i: int, line: int, col: int) -> Result<(Tok, int), LexError> {
    match num_scan(s, i + 1, false) {
        Ok((j, float)) => Ok((
            Tok {
                kind: if float { Kind::Float(s.subrange(i, j)) } else { Kind::Int(s.subrange(i, j)) },
                loc: loc(col, line),
            },
            j,
        )),
        Err(k) => Err(LexError { kind: LexErrorKind::DoublePeriod, loc: loc(col + (k - i), line) }),
    }
}

/// The identifier token that starts at `i`, and where scanning goes on.
pub open spec fn ident_token(s: Seq<char>, i: int, line: int, col: int) -> (Tok, int) {
    let j = ident_end(s, i + 1);
    (Tok { kind: Kind::Ident(s.subrange(i, j)), loc: loc(col, line) }, j)
}

/// The string token whose opening quote is at `i`, and where scanning goes on.
pub open spec fn string_token(s: Seq<char>, i: int, line: int, col: int) -> Result<(Tok, int), LexError> {
    match string_end(s, i + 1) {
        Ok(q) => Ok((Tok { kind: Kind::Str(s.subrange(i + 1, q)), loc: loc(col, line) }, q + 1)),
        Err(kind) => Err(LexError { kind, loc: loc(col, line) }),
    }
}

/// The token of a one-character punctuation mark.
pub open spec fn punct_kind(c: char) -> Option<Kind> {
    if c == '{' {
        Some(Kind::LeftBrace)
    } else if c == '}' {
        Some(Kind::RightBrace)
    } else if c == '=' {
        Some(Kind::Equals)
    } else if c == '[' {
        Some(Kind::LeftBracket)
    } else if c == ']' {
        Some(Kind::RightBracket)
    } else if c == ',' {
        Some(Kind::Comma)
    } else {
        None
    }
}

pub open spec fn cons(t: Tok, r: Result<Seq<Tok>, LexError>) -> Result<Seq<Tok>, LexError> {
    match r {
        Ok(ts) => Ok(seq![t] + ts),
        Err(e) => Err(e),
    }
}

/// The tokens of `s` from position `i`, which stands at `line` and `col`.
pub open spec fn lex_from(s: Seq<char>, i: int, line: int, col: int) -> Result<Seq<Tok>, LexError>
    decreases s.len() - i,
    via lex_from_decreases
{
    if i < 0 || i >= s.len() {
        Ok(Seq::empty())
    } else {
        let c = s[i];
        if c == '\n' {
            cons(Tok { kind: Kind::Newline, loc: loc(col, line) }, lex_from(s, i + 1, line + 1, 1))
        } else if white_space(c) {
            lex_from(s, i + 1, line, col + 1)
        } else if is_digit(c) {
            match number_token(s, i, line, col) {
                Ok((t, j)) => cons(t, lex_from(s, j, line, col + (j - i))),
                Err(e) => Err(e),
            }
        } else if alphabetic(c) {
            let (t, j) = ident_token(s, i, line, col);
            cons(t, lex_from(s, j, line, col + (j - i)))
        } else if c == '"' {
            match string_token(s, i, line, col) {
                Ok((t, j)) => cons(t, lex_from(s, j, line, col + (j - i))),
                Err(e) => Err(e),
            }
        } else {
            match punct_kind(c) {
                Some(k) => cons(Tok { kind: k, loc: loc(col, line) }, lex_from(s, i + 1, line, col + 1)),
                None => Err(LexError { kind: LexErrorKind::UnexpectedCharacter(c), loc: loc(col, line) }),
            }
        }
    }
}

pub proof fn lemma_num_scan(s: Seq<char>, i: int, seen: bool)
    requires
        0 <= i,
    ensures
        num_scan(s, i, seen) matches Ok((j, _)) ==> i <= j && (j <= s.len() || j == i),
        num_scan(s, i, seen) matches Ok((j, _)) ==> (j >= s.len() || !(is_digit(s[j]) || s[j] == '.')),
        num_scan(s, i, seen) matches Err(k) ==> i <= k < s.len() && s[k] == '.',
    decreases s.len() - i,
{
    if 0 <= i < s.len() && (is_digit(s[i]) || s[i] == '.') {
        if !(s[i] == '.' && seen) {
            lemma_num_scan(s, i + 1, seen || s[i] == '.');
        }
    }
}

pub proof fn lemma_ident_end(s: Seq<char>, i: int)
    requires
        0 <= i,
    ensures
        i <= ident_end(s, i),
        ident_end(s, i) <= s.len() || ident_end(s, i) == i,
        forall|x: int| i <= x < ident_end(s, i) ==> ident_char(#[trigger] s[x]),
    decreases s.len() - i,
{
    if 0 <= i < s.len() && ident_char(s[i]) {
        lemma_ident_end(s, i + 1);
    }
}

pub proof fn lemma_string_end(s: Seq<char>, i: int)
    requires
        0 <= i,
    ensures
        string_end(s, i) matches Ok(q) ==> i <= q < s.len() && s[q] == '"',
        string_end(s, i) matches Ok(q) ==> forall|x: int| i <= x < q ==> #[trigger] s[x] != '"' && s[x] != '\n',
    decreases s.len() - i,
{
    if 0 <= i < s.len() && s[i] != '"' && s[i] != '\n' {
        lemma_string_end(s, i + 1);
    }
}

#[via_fn]
proof fn lex_from_decreases(s: Seq<char>, i: int, line: int, col: int) {
    if 0 <= i < s.len() {
        lemma_num_scan(s, i + 1, false);
        lemma_ident_end(s, i + 1);
        lemma_string_end(s, i + 1);
    }
}

/// The tokens of a whole text.
pub open spec fn lex(s: Seq<char>) -> Result<Seq<Tok>, LexError> {
    lex_from(s, 0, 1, 1)
}

/// A token scan's result `r`, in mathematical form, is `sp`.
pub open spec fn scan_agrees(r: Result<(Token, usize), LexError>, sp: Result<(Tok, int), LexError>) -> bool {
    match r {
        Ok((t, j)) => sp == Ok::<(Tok, int), LexError>((t@, j as int)),
        Err(e) => sp == Err::<(Tok, int), LexError>(e),
    }
}

pub open spec fn append_all(p: Seq<Tok>, r: Result<Seq<Tok>, LexError>) -> Result<Seq<Tok>, LexError> {
    match r {
        Ok(ts) => Ok(p + ts),
        Err(e) => Err(e),
    }
}

/// Turns text into tokens.
pub struct Tokenizer {
    content: Vec<char>,
}

impl Tokenizer {
    pub closed spec fn view(&self) -> Seq<char> {
        self.content@
    }

    pub fn new(content: &str) -> (r: Tokenizer)
        ensures
            r@ == content@,
    {
        Tokenizer { content: chars_of(content) }
    }

    /// Scans the numeric literal whose first digit is at `i`.
    fn parse_number(&self, i: usize, line: usize, col: usize) -> (r: Result<(Token, usize), LexError>)
        requires
            i < self@.len(),
            is_digit(self@[i as int]),
            1 <= col <= i + 1,
            self@.len() < usize::MAX,
        ensures
            scan_agrees(r, number_token(self@, i as int, line as int, col as int)),
    {
        let ghost s = self@;
        let mut buf = String::new();
        push_char(&mut buf, self.content[i]);
        let mut is_float = false;
        let mut j: usize = i + 1;
        assert(buf@ =~= s.subrange(i as int, j as int));
        while j < self.content.len() && ('0' <= self.content[j] && self.content[j] <= '9' || self.content[j] == '.')
            invariant
                s == self@,
                s.len() == self.content@.len(),
                i < j <= s.len(),
                buf@ == s.subrange(i as int, j as int),
                num_scan(s, i + 1, false) == num_scan(s, j as int, is_float),
                1 <= col <= i + 1,
                s.len() < usize::MAX,
            decreases s.len() - j,
        {
            let c = self.content[j];
            if c == '.' {
                if is_float {
                    return Err(LexError { kind: LexErrorKind::DoublePeriod, loc: Loc(col + (j - i), line) });
                }
                is_float = true;
            }
            push_char(&mut buf, c);
            j += 1;
            assert(buf@ =~= s.subrange(i as int, j as int));
        }
        let kind = if is_float { TokenType::Float(buf) } else { TokenType::Int(buf) };
        Ok((Token(kind, Loc(col, line)), j))
    }

    /// Scans the string literal whose opening quote is at `i`.
    fn parse_string(&self, i: usize, line: usize, col: usize) -> (r: Result<(Token, usize), LexError>)
        requires
            i < self@.len(),
            self@[i as int] == '"',
            self@.len() < usize::MAX,
        ensures
            scan_agrees(r, string_token(self@, i as int, line as int, col as int)),
    {
        let ghost s = self@;
        let mut buf = String::new();
        let mut j: usize = i + 1;
        assert(buf@ =~= s.subrange(i + 1, j as int));
        while j < self.content.len() && self.content[j] != '"'
            invariant
                s == self@,
                s.len() == self.content@.len(),
                i < j <= s.len(),
                buf@ == s.subrange(i + 1, j as int),
                string_end(s, i + 1) == string_end(s, j as int),
                s.len() < usize::MAX,
            decreases s.len() - j,
        {
            let c = self.content[j];
            if c == '\n' {
                return Err(LexError { kind: LexErrorKind::NewlineInString, loc: Loc(col, line) });
            }
            push_char(&mut buf, c);
            j += 1;
            assert(buf@ =~= s.subrange(i + 1, j as int));
        }
        if j >= self.content.len() {
            return Err(LexError { kind: LexErrorKind::UnterminatedString, loc: Loc(col, line) });
        }
        Ok((Token(TokenType::String(buf), Loc(col, line)), j + 1))
    }

    /// Scans the identifier whose first letter is at `i`.
    fn parse_ident(&self, i: usize, line: usize, col: usize) -> (r: (Token, usize))
        requires
            i < self@.len(),
            self@.len() < usize::MAX,
        ensures
            (r.0@, r.1 as int) == ident_token(self@, i as int, line as int, col as int),
    {
        let ghost s = self@;
        let mut buf = String::new();
        push_char(&mut buf, self.content[i]);
        let mut j: usize = i + 1;
        assert(buf@ =~= s.subrange(i as int, j as int));
        while j < self.content.len()
            invariant
                s == self@,
                s.len() == self.content@.len(),
                i < j <= s.len(),
                buf@ == s.subrange(i as int, j as int),
                ident_end(s, i + 1) == ident_end(s, j as int),
                s.len() < usize::MAX,
            ensures
                i < j <= s.len(),
                buf@ == s.subrange(i as int, j as int),
                ident_end(s, i + 1) == j,
            decreases s.len() - j,
        {
            let c = self.content[j];
            if !(is_alphabetic(c) && !is_whitespace(c) && c != '=') {
                break;
            }
            push_char(&mut buf, c);
            j += 1;
            assert(buf@ =~= s.subrange(i as int, j as int));
        }
        (Token(TokenType::Ident(buf), Loc(col, line)), j)
    }

    /// The tokens of the whole text, or the first scanning failure.
    pub fn tokenize(&self) -> (r: Result<Vec<Token>, LexError>)
        requires
            self@.len() < usize::MAX,
        ensures
            match lex(self@) {
                Ok(ts) => r matches Ok(v) && toks_view(v@) == ts,
                Err(e) => r == Err::<Vec<Token>, LexError>(e),
            },
    {
        let ghost s = self@;
        let mut tokens: Vec<Token> = Vec::new();
        let mut i: usize = 0;
        let mut line: usize = 1;
        let mut col: usize = 1;
        assert(append_all(toks_view(tokens@), lex_from(s, 0, 1, 1)) =~= lex(s)) by {
            assert(toks_view(tokens@) + Seq::<Tok>::empty() =~= Seq::<Tok>::empty());
            match lex_from(s, 0, 1, 1) {
                Ok(ts) => { assert(Seq::<Tok>::empty() + ts =~= ts); },
                Err(_) => {},
            }
        }
        while i < self.content.len()
            invariant
                s == self@,
                s.len() == self.content@.len(),
                s.len() < usize::MAX,
                i <= s.len(),
                1 <= col <= i + 1,
                1 <= line <= i + 1,
                append_all(toks_view(tokens@), lex_from(s, i as int, line as int, col as int)) == lex(s),
            decreases s.len() - i,
        {
            let ghost p = toks_view(tokens@);
            let c = self.content[i];
            if c == '\n' {
                let t = Token(TokenType::Newline, Loc(col, line));
                proof { lemma_append_cons(p, t@, lex_from(s, i + 1, line + 1, 1)); }
                tokens.push(t);
                assert(toks_view(tokens@) =~= p.push(t@));
                i += 1;
                line += 1;
                col = 1;
            } else if is_whitespace(c) {
                i += 1;
                col += 1;
            } else if '0' <= c && c <= '9' {
                let (t, j) = self.parse_number(i, line, col)?;
                proof {
                    lemma_num_scan(s, i + 1, false);
                    lemma_append_cons(p, t@, lex_from(s, j as int, line as int, col + (j - i)));
                }
                tokens.push(t);
                assert(toks_view(tokens@) =~= p.push(t@));
                col = col + (j - i);
                i = j;
            } else if is_alphabetic(c) {
                let (t, j) = self.parse_ident(i, line, col);
                proof {
                    lemma_ident_end(s, i + 1);
                    lemma_append_cons(p, t@, lex_from(s, j as int, line as int, col + (j - i)));
                }
                tokens.push(t);
                assert(toks_view(tokens@) =~= p.push(t@));
                col = col + (j - i);
                i = j;
            } else if c == '"' {
                let (t, j) = self.parse_string(i, line, col)?;
                proof {
                    lemma_string_end(s, i + 1);
                    lemma_append_cons(p, t@, lex_from(s, j as int, line as int, col + (j - i)));
                }
                tokens.push(t);
                assert(toks_view(tokens@) =~= p.push(t@));
                col = col + (j - i);
                i = j;
            } else {
                let kind = if c == '{' {
                    TokenType::LeftBrace
                } else if c == '}' {
                    TokenType::RightBrace
                } else if c == '=' {
                    TokenType::Equals
                } else if c == '[' {
                    TokenType::LeftBracket
                } else if c == ']' {
                    TokenType::RightBracket
                } else if c == ',' {
                    TokenType::Comma
                } else {
                    return Err(LexError { kind: LexErrorKind::UnexpectedCharacter(c), loc: Loc(col, line) });
                };
                let t = Token(kind, Loc(col, line));
                proof { lemma_append_cons(p, t@, lex_from(s, i + 1, line as int, col + 1)); }
                tokens.push(t);
                assert(toks_view(tokens@) =~= p.push(t@));
                i += 1;
                col += 1;
            }
        }
        assert(append_all(toks_view(tokens@), lex_from(s, i as int, line as int, col as int)) == Ok::<Seq<Tok>, LexError>(toks_view(tokens@) + Seq::<Tok>::empty()));
        assert(toks_view(tokens@) + Seq::<Tok>::empty() =~= toks_view(tokens@));
        Ok(tokens)
    }
}

pub proof fn lemma_append_cons(p: Seq<Tok>, t: Tok, r: Result<Seq<Tok>, LexError>)
    ensures
        append_all(p, cons(t, r)) == append_all(p.push(t), r),
{
    match r {
        Ok(ts) => {
            assert(p + (seq![t] + ts) =~= p.push(t) + ts);
        },
        Err(_) => {},
    }
}

} // verus!
