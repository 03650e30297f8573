use vstd::prelude::*;
use crate::lexer::{Kind, LexError, Loc, Tok, Token, TokenType, toks_view};
use crate::value::{
    CoolDataList, CoolDataObject, CoolDataType, Val, ValueError, int_of, is_float_literal, obj_set,
};

verus! {

/// What the parser looked for where it failed.
#[derive(Clone, Copy, Debug, PartialEq, Eq, Structural)]
pub enum Expected {
    /// The `=` after a field name.
    Equals,
    /// The `}` that closes an object, or a field name before it.
    RightBrace,
    /// The `]` that closes a list, or a list element before it.
    RightBracket,
    /// A value after `=`.
    Value,
    /// A field name at the top level.
    Field,
}

/// A grammar violation.
#[derive(Clone, Debug)]
pub enum ParseError {
    /// `expected` was wanted where the token `found` stands, at `loc`.
    ExpectedToken(Expected, TokenType, Loc),
    /// The tokens ended while more were wanted.
    UnexpectedEof,
}

/// Any failure of turning text into a value tree.
#[derive(Clone, Debug)]
pub enum Error {
    Lex(LexError),
    Parse(ParseError),
    Value(ValueError),
}

/// The mathematical form of a failure.
pub enum Fail {
    Lex(LexError),
    Expected(Expected, Kind, Loc),
    Eof,
    InvalidNumber(Seq<char>),
}

impl Error {
    pub open spec fn view(&self) -> Fail {
        match self {
            Error::Lex(e) => Fail::Lex(*e),
            Error::Parse(ParseError::ExpectedToken(x, t, l)) => Fail::Expected(*x, t@, *l),
            Error::Parse(ParseError::UnexpectedEof) => Fail::Eof,
            Error::Value(ValueError::InvalidNumber(s)) => Fail::InvalidNumber(s@),
        }
    }
}

pub type Fields = Seq<(Seq<char>, Val)>;

/// The value of a scalar token; `None` for a token that is no scalar.
pub open spec fn scalar(k: Kind) -> Option<Result<Val, Fail>> {
    match k {
        Kind::Int(t) => Some(
            match int_of(t) {
                Some(n) => Ok(Val::Int(n)),
                None => Err(Fail::InvalidNumber(t)),
            },
        ),
        Kind::Float(t) => Some(
            if is_float_literal(t) {
                Ok(Val::Float(t))
            } else {
                Err(Fail::InvalidNumber(t))
            },
        ),
        Kind::Str(t) => Some(Ok(Val::Str(t))),
        _ => None,
    }
}

/// The value that starts at token `i`, and the position after it.
pub open spec fn value(ts: Seq<Tok>, i: int) -> Result<(Val, int), Fail>
    decreases ts.len() - i, 0int,
{
    if i < 0 || i >= ts.len() {
        Err(Fail::Eof)
    } else {
        match ts[i].kind {
            Kind::LeftBrace => match fields(ts, i + 1, Seq::empty(), false) {
                Ok((fs, j)) => Ok((Val::Obj(fs), j + 1)),
                Err(e) => Err(e),
            },
            Kind::LeftBracket => match items(ts, i + 1, Seq::empty()) {
                Ok((vs, j)) => Ok((Val::List(vs), j)),
                Err(e) => Err(e),
            },
            k => match scalar(k) {
                Some(Ok(v)) => Ok((v, i + 1)),
                Some(Err(e)) => Err(e),
                None => Err(Fail::Expected(Expected::Value, k, ts[i].loc)),
            },
        }
    }
}

/// The fields from token `i` on, added to `acc`. At the top level they end
/// with the tokens; inside an object at its `}`, whose position comes back.
///
/// A value always ends after it starts (the parser's own contracts show it);
/// the test of that below only lets the definition terminate.
pub open spec fn fields(ts: Seq<Tok>, i: int, acc: Fields, top: bool) -> Result<(Fields, int), Fail>
    decreases ts.len() - i, 1int,
{
    if i < 0 || i >= ts.len() {
        if top && i >= 0 {
            Ok((acc, i))
        } else {
            Err(Fail::Eof)
        }
    } else {
        match ts[i].kind {
            Kind::Newline => fields(ts, i + 1, acc, top),
            Kind::Ident(name) => if i + 1 >= ts.len() {
                Err(Fail::Eof)
            } else if !(ts[i + 1].kind is Equals) {
                Err(Fail::Expected(Expected::Equals, ts[i + 1].kind, ts[i + 1].loc))
            } else {
                match value(ts, i + 2) {
                    Ok((v, j)) => if i < j <= ts.len() {
                        fields(ts, j, obj_set(acc, name, v), top)
                    } else {
                        Err(Fail::Eof)
                    },
                    Err(e) => Err(e),
                }
            },
            k => if !top && k is RightBrace {
                Ok((acc, i))
            } else {
                Err(Fail::Expected(if top { Expected::Field } else { Expected::RightBrace }, k, ts[i].loc))
            },
        }
    }
}

/// The list elements from token `i` on, after `acc`, and the position after the `]`.
/// As in [`fields`], the test that a value moved the position on never fails.
pub open spec fn items(ts: Seq<Tok>, i: int, acc: Seq<Val>) -> Result<(Seq<Val>, int), Fail>
    decreases ts.len() - i, 1int,
{
    if i < 0 || i >= ts.len() {
        Err(Fail::Eof)
    } else {
        match ts[i].kind {
            Kind::RightBracket => Ok((acc, i + 1)),
            Kind::Comma | Kind::Newline => items(ts, i + 1, acc),
            Kind::LeftBrace | Kind::LeftBracket | Kind::Int(_) | Kind::Float(_) | Kind::Str(_) => {
                match value(ts, i) {
                    Ok((v, j)) => if i < j <= ts.len() {
                        items(ts, j, acc.push(v))
                    } else {
                        Err(Fail::Eof)
                    },
                    Err(e) => Err(e),
                }
            },
            k => Err(Fail::Expected(Expected::RightBracket, k, ts[i].loc)),
        }
    }
}

/// The object that a whole token sequence denotes.
pub open spec fn document(ts: Seq<Tok>) -> Result<Fields, Fail> {
    match fields(ts, 0, Seq::empty(), true) {
        Ok((fs, _)) => Ok(fs),
        Err(e) => Err(e),
    }
}

/// A copy of a token kind.
fn copy_kind(k: &TokenType) -> (r: TokenType)
    ensures
        r@ == k@,
{
    match k {
        TokenType::Ident(s) => TokenType::Ident(s.clone()),
        TokenType::Equals => TokenType::Equals,
        TokenType::String(s) => TokenType::String(s.clone()),
        TokenType::Int(s) => TokenType::Int(s.clone()),
        TokenType::Float(s) => TokenType::Float(s.clone()),
        TokenType::LeftBrace => TokenType::LeftBrace,
        TokenType::RightBrace => TokenType::RightBrace,
        TokenType::LeftBracket => TokenType::LeftBracket,
        TokenType::RightBracket => TokenType::RightBracket,
        TokenType::Comma => TokenType::Comma,
        TokenType::Newline => TokenType::Newline,
    }
}

/// Builds a value tree from tokens.
pub struct Parser {
    tokens: Vec<Token>,
    index: usize,
}

impl Parser {
    /// The tokens, in mathematical form.
    pub closed spec fn tokens(&self) -> Seq<Tok> {
        toks_view(self.tokens@)
    }

    /// The position of the next token.
    pub closed spec fn pos(&self) -> int {
        self.index as int
    }

    pub fn new(tokens: Vec<Token>) -> (r: Parser)
        ensures
            r.tokens() == toks_view(tokens@),
            r.pos() == 0,
    {
        Parser { tokens, index: 0 }
    }

    /// Where a token-kind mismatch at `i` is reported.
    fn expected_at(&self, expected: Expected, i: usize) -> (r: Error)
        requires
            i < self.tokens@.len(),
        ensures
            r@ == Fail::Expected(expected, self.tokens()[i as int].kind, self.tokens()[i as int].loc),
    {
        let t = &self.tokens[i];
        Error::Parse(ParseError::ExpectedToken(expected, copy_kind(&t.0), t.1))
    }

    /// The value at the cursor; the cursor moves past it.
    fn parse_value(&mut self) -> (r: Result<CoolDataType, Error>)
        requires
            old(self).index <= old(self).tokens@.len(),
        ensures
            final(self).tokens@ == old(self).tokens@,
            match value(old(self).tokens(), old(self).pos()) {
                Ok((v, j)) => (r matches Ok(x) && x@ == v) && final(self).pos() == j
                    && old(self).pos() < j <= final(self).tokens@.len(),
                Err(e) => r matches Err(x) && x@ == e,
            },
        decreases old(self).tokens@.len() - old(self).index, 0int,
    {
        let ghost ts = self.tokens();
        let i = self.index;
        if i >= self.tokens.len() {
            return Err(Error::Parse(ParseError::UnexpectedEof));
        }
        assert(ts[i as int] == self.tokens@[i as int]@);
        match &self.tokens[i].0 {
            TokenType::LeftBrace => {
                self.index = i + 1;
                let o = self.parse_fields(false)?;
                self.index = self.index + 1;
                Ok(CoolDataType::Object(o))
            },
            TokenType::LeftBracket => {
                self.index = i + 1;
                let l = self.parse_list()?;
                Ok(CoolDataType::List(l))
            },
            TokenType::Int(t) => {
                let r = CoolDataType::integer(t.as_str());
                self.index = i + 1;
                match r {
                    Ok(v) => Ok(v),
                    Err(e) => Err(Error::Value(e)),
                }
            },
            TokenType::Float(t) => {
                let r = CoolDataType::float(t.as_str());
                self.index = i + 1;
                match r {
                    Ok(v) => Ok(v),
                    Err(e) => Err(Error::Value(e)),
                }
            },
            TokenType::String(t) => {
                let t = t.clone();
                self.index = i + 1;
                Ok(CoolDataType::String(t))
            },
            _ => Err(self.expected_at(Expected::Value, i)),
        }
    }

    /// The fields from the cursor on: to the end of the tokens at the top level,
    /// else up to the `}`, where the cursor stops.
    fn parse_fields(&mut self, top: bool) -> (r: Result<CoolDataObject, Error>)
        requires
            old(self).index <= old(self).tokens@.len(),
        ensures
            final(self).tokens@ == old(self).tokens@,
            match fields(old(self).tokens(), old(self).pos(), Seq::empty(), top) {
                Ok((fs, j)) => (r matches Ok(o) && o@ == fs) && final(self).pos() == j
                    && old(self).pos() <= j && (top || j < final(self).tokens@.len()),
                Err(e) => r matches Err(x) && x@ == e,
            },
        decreases old(self).tokens@.len() - old(self).index, 1int,
    {
        let ghost ts = self.tokens();
        let ghost start = self.pos();
        let mut out = CoolDataObject::new();
        loop
            invariant
                self.tokens@ == old(self).tokens@,
                self.tokens() == ts,
                ts.len() == self.tokens@.len(),
                start == old(self).index,
                start <= self.index <= self.tokens@.len(),
                fields(ts, start, Seq::empty(), top) == fields(ts, self.pos(), out@, top),
            decreases self.tokens@.len() - self.index,
        {
            let i = self.index;
            if i >= self.tokens.len() {
                if top {
                    return Ok(out);
                }
                return Err(Error::Parse(ParseError::UnexpectedEof));
            }
            assert(ts[i as int] == self.tokens@[i as int]@);
            match &self.tokens[i].0 {
                TokenType::Newline => {
                    self.index = i + 1;
                },
                TokenType::Ident(name) => {
                    let name = name.clone();
                    if i + 1 >= self.tokens.len() {
                        return Err(Error::Parse(ParseError::UnexpectedEof));
                    }
                    assert(ts[i + 1] == self.tokens@[i + 1]@);
                    match &self.tokens[i + 1].0 {
                        TokenType::Equals => {},
                        _ => {
                            return Err(self.expected_at(Expected::Equals, i + 1));
                        },
                    }
                    self.index = i + 2;
                    let v = self.parse_value()?;
                    out.add_field(name, v);
                },
                TokenType::RightBrace => {
                    if top {
                        return Err(self.expected_at(Expected::Field, i));
                    }
                    return Ok(out);
                },
                _ => {
                    return Err(self.expected_at(if top { Expected::Field } else { Expected::RightBrace }, i));
                },
            }
        }
    }

    /// The list whose `[` is just behind the cursor; the cursor moves past its `]`.
    fn parse_list(&mut self) -> (r: Result<CoolDataList, Error>)
        requires
            old(self).index <= old(self).tokens@.len(),
        ensures
            final(self).tokens@ == old(self).tokens@,
            match items(old(self).tokens(), old(self).pos(), Seq::empty()) {
                Ok((vs, j)) => (r matches Ok(l) && l@ == vs) && final(self).pos() == j
                    && old(self).pos() < j <= final(self).tokens@.len(),
                Err(e) => r matches Err(x) && x@ == e,
            },
        decreases old(self).tokens@.len() - old(self).index, 1int,
    {
        let ghost ts = self.tokens();
        let ghost start = self.pos();
        let mut out = CoolDataList::new();
        loop
            invariant
                self.tokens@ == old(self).tokens@,
                self.tokens() == ts,
                ts.len() == self.tokens@.len(),
                start == old(self).index,
                start <= self.index <= self.tokens@.len(),
                items(ts, start, Seq::empty()) == items(ts, self.pos(), out@),
            decreases self.tokens@.len() - self.index,
        {
            let i = self.index;
            if i >= self.tokens.len() {
                return Err(Error::Parse(ParseError::UnexpectedEof));
            }
            assert(ts[i as int] == self.tokens@[i as int]@);
            match &self.tokens[i].0 {
                TokenType::RightBracket => {
                    self.index = i + 1;
                    return Ok(out);
                },
                TokenType::Comma | TokenType::Newline => {
                    self.index = i + 1;
                },
                TokenType::LeftBrace | TokenType::LeftBracket | TokenType::Int(_)
                | TokenType::Float(_) | TokenType::String(_) => {
                    let v = self.parse_value()?;
                    out.push(v);
                },
                _ => {
                    return Err(self.expected_at(Expected::RightBracket, i));
                },
            }
        }
    }

    /// The object that the tokens from the cursor to their end denote.
    pub fn parse(&mut self) -> (r: Result<CoolDataObject, Error>)
        requires
            old(self).pos() <= old(self).tokens().len(),
        ensures
            final(self).tokens() == old(self).tokens(),
            match fields(old(self).tokens(), old(self).pos(), Seq::empty(), true) {
                Ok((fs, _)) => r matches Ok(o) && o@ == fs,
                Err(e) => r matches Err(x) && x@ == e,
            },
    {
        self.parse_fields(true)
    }
}

} // verus!
