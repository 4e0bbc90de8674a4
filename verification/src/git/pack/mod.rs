//! Packs: many objects in one file, most of them as differences to others.
pub mod cache;
pub mod data;
pub mod delta;
pub mod entry;
pub mod index;
