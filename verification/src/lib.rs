//! A compact textual rhythm-notation language: a lexer that turns score text
//! into tokens, and a score builder that folds the tokens into ordered bars of
//! accented, exactly-timed durations.

pub mod error;
pub mod laws;
pub mod scanner;
pub mod score;
pub mod units;
pub mod writer;
