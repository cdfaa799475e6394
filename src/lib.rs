//! A JSON parser in two stages: a tokenizer that splits text into tokens, and a
//! recursive-descent parser that builds a value tree from them, decoding the
//! escape sequences of string literals.
use vstd::prelude::*;

pub mod canonical;
pub mod escape;
pub mod parse;
mod text;
pub mod tokenize;
pub mod value;

pub use parse::{parse_tokens, TokenParseError};
pub use tokenize::{tokenize, Token, TokenizeError};
pub use value::{JsonValue, Value};

use value::well_formed;

use parse::value_at;
use tokenize::{lex, lexemes, Lexeme};

verus! {

/// What can go wrong while parsing JSON text.
#[derive(Debug, PartialEq, Eq, Clone, Copy)]
pub enum ParseError {
    /// The text could not be split into tokens.
    Tokenize(TokenizeError),
    /// The tokens do not form one JSON value.
    Parse(TokenParseError),
}

/// The value that the tokens `ts` form: one value that takes them all.
pub open spec fn document(ts: Seq<Lexeme>) -> Result<JsonValue, TokenParseError> {
    match value_at(ts, 0) {
        Ok((v, n)) => if n == ts.len() {
            Ok(v)
        } else {
            Err(TokenParseError::UnexpectedToken)
        },
        Err(e) => Err(e),
    }
}

/// The value that the JSON text `cs` spells.
pub open spec fn parse_spec(cs: Seq<char>) -> Result<JsonValue, ParseError> {
    match lex(cs) {
        Err(e) => Err(ParseError::Tokenize(e)),
        Ok(ts) => match document(ts) {
            Ok(v) => Ok(v),
            Err(e) => Err(ParseError::Parse(e)),
        },
    }
}

/// Parses JSON text into a value. A token left over after the value is an
/// `UnexpectedToken`.
pub fn parse(text: String) -> (r: Result<Value, ParseError>)
    ensures
        match parse_spec(text@) {
            Ok(v) => r matches Ok(val) && val@ == v && well_formed(v),
            Err(e) => r == Result::<Value, ParseError>::Err(e),
        },
{
    let tokens = match tokenize(text) {
        Ok(ts) => ts,
        Err(e) => return Err(ParseError::Tokenize(e)),
    };
    assert(lexemes(tokens@).len() == tokens@.len());
    let mut index: usize = 0;
    let slice = tokens.as_slice();
    assert(slice@ == tokens@);
    let value = match parse_tokens(slice, &mut index) {
        Ok(v) => v,
        Err(e) => return Err(ParseError::Parse(e)),
    };
    if index < tokens.len() {
        return Err(ParseError::Parse(TokenParseError::UnexpectedToken));
    }
    Ok(value)
}

} // verus!
