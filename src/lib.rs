//! A compiler front end for a terse, function-call-shaped styling language:
//! a lexer, a recursive-descent parser and a dispatch table that lowers
//! function nodes into style property values.
//!
//! Each stage is stated as a spec function over mathematical models
//! (`lex_spec`, `parse_spec`, `compile_from`, `render`) and the executable
//! code is proved to compute exactly that.

pub mod chars;
pub mod compiler;
pub mod display;
pub mod errors;
pub mod number;
pub mod parser;
pub mod round_trip;
pub mod tokenizer;
