//! A byte-level lexer for JSON text.
//!
//! The lexer owns its input and a cursor; each call of
//! [`lexer::JsonLexer::next_token`] classifies the next lexical unit. What a
//! call produces is given exactly by the spec function [`grammar::lex`], and
//! [`laws`] proves what holds of every run.
pub mod grammar;
pub mod laws;
pub mod lexer;
pub mod token;

pub use lexer::JsonLexer;
pub use token::{ReserveCode, Token, TokenType};
