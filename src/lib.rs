//! A lexer for 8080/8085 assembly source text.
//!
//! [`create_tokens`] splits source text into mnemonics, operands, comments,
//! directives, labels and separators. Its result is stated by the spec
//! function [`lexer::tokenize`]; the module [`laws`] proves properties of it.

pub mod comment;
pub mod keywords;
pub mod laws;
pub mod lexer;
pub mod text;

pub use lexer::{create_tokens, Token};
