//! References: their names, their files and how a short name is found.
pub mod follow;
pub mod loose;
pub mod meaning;
pub mod name;
pub mod packed;
pub mod store;
