//! A configurable character-classifying tokenizer.
//!
//! A [`CharTable`] sorts characters into quotation marks, spaces and special
//! single-character tokens; every other character belongs to words.
//! [`CharTable::lex`] splits a text into [`Token`]s that borrow from it, each
//! with its byte span.
pub mod laws;
pub mod model;
pub mod scanner;
pub mod table;
pub mod text;
pub mod token;

pub use table::CharTable;
pub use token::{LexError, Span, Token, TokenView};
