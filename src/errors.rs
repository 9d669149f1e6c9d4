//! Errors of the lexer, the parser and the dispatch table.

use vstd::prelude::*;

use crate::parser::Parameter;
use crate::tokenizer::Token;

verus! {

/// What was met where something else was required.
#[derive(Clone, Debug, PartialEq)]
pub enum Unexpected {
    Char(char),
    Token(Token),
    Parameter(Parameter),
    TokenUnspecified,
    ParameterUnspecified,
}

#[derive(Clone, Debug, PartialEq)]
pub enum Error {
    /// The input ended while a delimiter was open or more tokens were required.
    UnexpectedEOF,
    Unexpected(Unexpected),
    /// A numeric literal that does not denote a number.
    IncorrectNumber,
    /// A construct reserved for later use, such as `$` variables.
    NotSupported,
    /// Bracketed spans stand inside one another deeper than the lexer allows.
    NestingTooDeep,
    /// A function was given an identifier outside its vocabulary.
    InvalidKeyword(String),
}

} // verus!
