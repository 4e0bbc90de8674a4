//! Matching file paths against glob patterns, one or many at a time.
pub mod error;
pub mod expression;
pub mod glob;
pub mod meaning;
pub mod options;
pub mod parse;
pub mod regex;
pub mod set;
pub mod table;
pub mod token;
pub mod written;
