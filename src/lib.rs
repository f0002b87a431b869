//! A small JSON-like document reader: a character tokenizer followed by a
//! recursive-descent parser, both verified against mathematical models.
use vstd::prelude::*;

pub mod laws;
pub mod parser;
pub mod tokenizer;
pub mod value;

pub use parser::{ParseError, JsonParser};
pub use tokenizer::{JsonToken, JsonTokenizer, TokenizeError};
pub use value::JsonValue;

verus! {

use crate::parser::{parse_value, value_agrees};
use crate::tokenizer::{lex, token_models, tokenize_model};

/// Scans the whole of `text` into tokens, or returns the first lexical error.
pub fn tokenize(text: &str) -> (r: Result<Vec<JsonToken>, TokenizeError>)
    requires
        text@.len() < u32::MAX,
    ensures
        tokenize_model(r) == lex(text@),
{
    let mut tokenizer = JsonTokenizer::new(text);
    tokenizer.tokenize()
}

/// Reads the first value of `tokens`; tokens after it are ignored.
pub fn parse(tokens: &[JsonToken]) -> (r: Result<JsonValue, ParseError>)
    ensures
        value_agrees(parse_value(token_models(tokens@), 0), r),
{
    let mut parser = JsonParser::new(tokens);
    parser.parse()
}

} // verus!
