//! Configuration files.
pub mod body;
pub mod conditions;
pub mod file;
pub mod follow;
pub mod inclusion;
pub mod meaning;
pub mod parse;
pub mod source;
pub mod value;
