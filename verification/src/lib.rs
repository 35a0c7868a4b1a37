//! Tokenizer for a small configuration language: positions, errors and the
//! lexeme stream, each with a mathematical model that the contracts speak of.

pub mod lex;
pub mod utils;

pub use lex::lex;
pub use utils::Source;
