//! The objects of a repository.
pub mod find;
pub mod loose;
pub mod slots;
pub mod store;
