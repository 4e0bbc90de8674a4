//! Attributes that files have by their paths.
pub mod line;
pub mod meaning;
pub mod search;
