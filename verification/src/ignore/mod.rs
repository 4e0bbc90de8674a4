//! Which files of a directory tree are ignored, and walking the others.
pub mod chain;
pub mod entry;
pub mod error;
pub mod excludes;
pub mod gitignore;
pub mod lines;
pub mod order;
pub mod paths;
pub mod run;
pub mod types;
pub mod walk;
