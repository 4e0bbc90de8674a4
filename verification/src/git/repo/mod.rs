//! Where repositories are.
pub mod discover;
pub mod meaning;
pub mod realpath;
pub mod resolved;
pub mod worktree;
