//! A reader and writer for a small configuration language: nested
//! `name = value` fields, `{ ... }` objects, `[ ... ]` lists, and integer,
//! float and string literals.
use vstd::prelude::*;

pub mod text;
pub mod value;
pub mod lexer;
pub mod parser;
pub mod round_trip;

use crate::lexer::{Tokenizer, lex};
use crate::parser::{Error, Fail, Fields, Parser, document};
use crate::value::{CoolDataObject, render_fields};

verus! {

/// The object that a text denotes, or why it denotes none.
pub open spec fn parse_text(s: Seq<char>) -> Result<Fields, Fail> {
    match lex(s) {
        Ok(ts) => document(ts),
        Err(e) => Err(Fail::Lex(e)),
    }
}

/// Scans and parses a whole document.
pub fn parse(content: &str) -> (r: Result<CoolDataObject, Error>)
    requires
        content@.len() < usize::MAX,
    ensures
        match parse_text(content@) {
            Ok(fs) => r matches Ok(o) && o@ == fs,
            Err(e) => r matches Err(x) && x@ == e,
        },
{
    let tokenizer = Tokenizer::new(content);
    let tokens = match tokenizer.tokenize() {
        Ok(t) => t,
        Err(e) => return Err(Error::Lex(e)),
    };
    let mut parser = Parser::new(tokens);
    parser.parse()
}

/// The text of a document: one `name = value` line for each top-level field.
pub fn render(object: &CoolDataObject) -> (r: String)
    ensures
        r@ == render_fields(object@),
{
    object.render()
}

} // verus!
