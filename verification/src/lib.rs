//! A reader for a Scheme-like textual notation: a lexer that turns source
//! text into a token stream, and a parser that turns the token stream into
//! a tree of S-expressions.

pub mod buffer;
pub mod chars;
pub mod lexer;
pub mod parser;
pub mod props;
