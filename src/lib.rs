//! A lexer and micro-parser for an indentation-sensitive markup language.
//!
//! Two surfaces read text. [`parse_string`] scans a whole text into tokens,
//! with `Indent` and `Dedent` markers for its block structure.
//! [`extract_tokens`] reads a single line: it tokenizes the line, then reduces
//! the tokens to expressions, folding `key="value"` attributes and
//! `src.trait` / `$src<arg>.trait` trait-tags.
pub mod chars;
pub mod errors;
pub mod laws;
pub mod lexing;
pub mod lines;
pub mod render;
pub mod structs;
pub mod token;

pub use errors::{describe, ErrorEnum};
pub use lexing::{parse_chars, parse_string, predicated_char_writes, CharRun};
pub use lines::{
    extract_tokens, number_or_raw_of, parse_u16_chars, reduce_line, reduce_tokens, tokenize_line,
    Line, LineConversionFailure,
};
pub use render::render_tokens;
pub use structs::{
    ArithmeticToken, CompositeRelationalOperator, Expr, ExprConversionFailure,
    RelationalOperator,
};
pub use token::{Operator, Token, TokenError};
