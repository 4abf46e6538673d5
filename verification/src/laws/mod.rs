//! What holds of every text: theorems about the lexer's and the grammar's
//! specifications, proved once and for all inputs.
//!
//! - [`boundary`]: whitespace between tokens changes nothing; what fails
//!   where a token should start fails the parse.
//! - [`follow`]: which token may follow which; a comma before a closing
//!   bracket and two values side by side fail the parse.
//! - [`extent`]: a value depends on its own tokens only; tokens behind the
//!   root value fail the parse.
//! - [`writer`]: the bytes that spell tokens, and that they lex to those
//!   tokens.
//! - [`canonical`]: the tokens that spell a tree parse to the tree with its
//!   members in key order, or to nothing where a key is repeated.
//! - [`roundtrip`]: a tree's text parses to the tree.

pub mod boundary;
pub mod canonical;
pub mod extent;
pub mod follow;
pub mod roundtrip;
pub mod writer;
