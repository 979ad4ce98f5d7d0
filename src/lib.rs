//! A whitespace tokenizer with punctuation heuristics: text is split on
//! Unicode whitespace, while contractions, hyphenated compounds, decimal
//! numbers, clock times and runs of `.` or `!` stay whole. Each token carries
//! the byte span it covers in the input.
pub mod classify;
pub mod model;
pub mod encoding;
pub mod tokenizer;
pub mod laws;

pub use tokenizer::{tokenize_classified, whitespace_tokenize, Token};
