//! A JSON reader: a byte buffer goes through a single-pass lexer and a
//! non-recursive tree builder and comes out as a [`Json`] tree, or as `None`
//! when the buffer is not one JSON text.
//!
//! Every function is verified against a specification of what it returns:
//! [`lexer::lex`] says which tokens a text holds, [`grammar::parse_tokens`]
//! which tree tokens spell, and [`grammar::parse_text`], their composition,
//! is what [`Json::parse`] computes. The theorems under [`laws`] say what
//! follows from those specifications for every input.
//!
//! - [`ascii`], [`utf8`], [`keys`]: bytes, text and the order of keys.
//! - [`value`], [`members`]: the tree, its model, and the ordered members of
//!   an object.
//! - [`number`], [`text`], [`lexer`]: the scanners for number and string
//!   literals and the lexer.
//! - [`grammar`], [`parser`]: the grammar over tokens and the stack machine
//!   that follows it.

pub mod ascii;
pub mod grammar;
pub mod keys;
pub mod laws;
pub mod lexer;
pub mod members;
pub mod number;
pub mod parser;
pub mod text;
pub mod utf8;
pub mod value;

pub use lexer::{peek_keyword, tokenize, Token};
pub use number::peek_number;
pub use parser::parse;
pub use text::peek_string;
pub use value::Json;
