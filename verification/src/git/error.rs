//! What can go wrong.
use crate::git::oid::ObjectId;
use vstd::prelude::*;

verus! {

/// Why a repository could not be read.
#[derive(Clone, Copy, Debug)]
pub enum GitError {
    Gen,
    Io,
    NotFound,
    Unborn,
    Error,
    KeyMissing,
    /// The object that a delta builds on is not at hand.
    DeltaBaseUnresolved(ObjectId),
}

} // verus!
