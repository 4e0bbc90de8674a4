//! Reading git repositories.
pub mod alternates;
pub mod attributes;
pub mod bom;
pub mod classes;
pub mod commit;
pub mod config;
pub mod depths;
pub mod error;
pub mod filter;
pub mod head;
pub mod meaning;
pub mod number;
pub mod object;
pub mod odb;
pub mod oid;
pub mod pack;
pub mod pattern;
pub mod pipeline;
pub mod quote;
pub mod refs;
pub mod repo;
pub mod tree;
pub mod unicode;
pub mod wildcards;
pub mod wildmatch;
pub mod zlib;
