//! Lexical analysis for a small C-like language: source text in, an ordered
//! list of tokens or the first error out, with byte-accurate positions.
pub mod error;
pub mod grammar;
pub mod laws;
pub mod lexer;
pub mod token;
mod utf8_facts;

pub use error::{ErrorView, LexerError};
pub use lexer::Lexer;
pub use token::{Token, TokenView};
