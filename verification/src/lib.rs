//! A parser for JSON text in two stages: a scanner that turns the text into
//! tokens, and a recursive-descent parser that builds a value tree from
//! them.

use crate::parse::{parse_tokens, value_at, TokenParseError};
use crate::tokenize::{tokenize, tokenize_spec, TokenizeError, TokenizeErrorView};
use crate::value::{Value, ValueView};
use vstd::prelude::*;
use vstd::std_specs::convert::FromSpecImpl;

pub mod document;
pub mod laws;
pub mod number;
pub mod parse;
pub mod text;
pub mod tokenize;
pub mod value;

verus! {

/// Why a text could not be parsed, by the stage that failed.
#[derive(Debug, PartialEq)]
pub enum ParseError {
    /// The scanner stopped on the text.
    TokenizeError(TokenizeError),
    /// The parser stopped on the tokens.
    ParseError(TokenParseError),
}

/// The model of a [`ParseError`].
#[verifier::ext_equal]
pub ghost enum ParseErrorView {
    TokenizeError(TokenizeErrorView),
    ParseError(TokenParseError),
}

impl View for ParseError {
    type V = ParseErrorView;

    open spec fn view(&self) -> ParseErrorView {
        match self {
            ParseError::TokenizeError(e) => ParseErrorView::TokenizeError(e@),
            ParseError::ParseError(e) => ParseErrorView::ParseError(*e),
        }
    }
}

impl From<TokenParseError> for ParseError {
    fn from(err: TokenParseError) -> (r: Self) {
        Self::ParseError(err)
    }
}

impl FromSpecImpl<TokenParseError> for ParseError {
    open spec fn obeys_from_spec() -> bool {
        true
    }

    open spec fn from_spec(err: TokenParseError) -> Self {
        ParseError::ParseError(err)
    }
}

impl From<TokenizeError> for ParseError {
    fn from(err: TokenizeError) -> (r: Self) {
        Self::TokenizeError(err)
    }
}

impl FromSpecImpl<TokenizeError> for ParseError {
    open spec fn obeys_from_spec() -> bool {
        true
    }

    open spec fn from_spec(err: TokenizeError) -> Self {
        ParseError::TokenizeError(err)
    }
}

/// What parsing the text `s` yields: the value that begins with the first
/// token, or the first error of the scanner or, where there is none, of
/// the parser. Tokens after that value are not looked at.
pub open spec fn parse_spec(s: Seq<char>) -> Result<ValueView, ParseErrorView> {
    match tokenize_spec(s) {
        Err(e) => Err(ParseErrorView::TokenizeError(e)),
        Ok(tokens) => match value_at(tokens, 0).result {
            Ok(value) => Ok(value),
            Err(e) => Err(ParseErrorView::ParseError(e)),
        },
    }
}

/// Parses a whole document: scans `input` and parses the tokens from the
/// first one on.
pub fn parse(input: &str) -> (r: Result<Value, ParseError>)
    ensures
        match parse_spec(input@) {
            Ok(v) => r matches Ok(value) && value@ == v,
            Err(e) => r matches Err(err) && err@ == e,
        },
{
    match tokenize(input.to_owned()) {
        Err(e) => Err(ParseError::from(e)),
        Ok(tokens) => {
            let mut index: usize = 0;
            match parse_tokens(tokens.as_slice(), &mut index) {
                Ok(value) => Ok(value),
                Err(e) => Err(ParseError::from(e)),
            }
        },
    }
}

} // verus!
