//! Reading git repositories, matching paths against patterns, and walking directories.
use vstd::prelude::*;

pub mod ascii;
pub mod bytes;
pub mod components;
pub mod git;
pub mod globset;
pub mod ignore;
pub mod names;
pub mod path;
pub mod text;

verus! {

} // verus!
