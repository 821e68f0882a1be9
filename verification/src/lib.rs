//! A verified tokenizer for a small markdown dialect.
//!
//! The scanner walks a text buffer once and produces a linear sequence of
//! typed tokens: headers (levels 1 through 6), single-line paragraphs, and
//! unordered lists with three interchangeable bullet delimiters.  The token
//! sequence handed to callers always ends in exactly one `EOF` sentinel.

pub mod laws;
pub mod lexer;
pub mod token;
