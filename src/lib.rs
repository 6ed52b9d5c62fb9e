//! A streaming tokenizer: whitespace skipping, bracket depth accounting,
//! decimal numeric literals and position tracking, each stated over a
//! mathematical model of the lexer and proved.
pub mod chars;
pub mod laws;
pub mod lexer;
pub mod model;
pub mod token;

pub use lexer::Lexer;
pub use token::{LexerError, NumericHint, PunctuationKind, Token, TokenType};
