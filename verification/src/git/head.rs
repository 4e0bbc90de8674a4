//! What the repository is at, and the objects that are read from it.
use crate::git::commit::{commit_tree, CommitRefIter};
use crate::git::error::GitError;
use crate::git::object::ObjectKind;
use crate::git::oid::{empty_tree_id, ObjectId};
use crate::git::refs::loose::{Target, TargetView};
use crate::git::refs::name::{FullName, FullNameRef};
use crate::git::refs::store::RawReference;
use vstd::prelude::*;

verus! {

/// An object with its contents.
#[derive(Debug)]
pub struct Object {
    pub id: ObjectId,
    pub kind: ObjectKind,
    pub data: Vec<u8>,
}

/// A commit with its contents.
#[derive(Debug)]
pub struct Commit {
    pub id: ObjectId,
    pub data: Vec<u8>,
}

/// A tree with its contents.
#[derive(Debug)]
pub struct Tree {
    pub data: Vec<u8>,
}

/// The contents of a file.
#[derive(Debug)]
pub struct Blob {
    pub data: Vec<u8>,
}

/// A reference that was found.
#[derive(Debug)]
pub struct Reference {
    pub inner: RawReference,
}

impl Object {
    /// The object with the given id, where it need not be looked for: the tree without entries is always
    /// there.
    pub fn built_in(id: ObjectId) -> (r: Option<Object>)
        ensures
            r is Some <==> id@ == empty_tree_id(),
            r matches Some(o) ==> o.id == id && o.kind == ObjectKind::Tree && o.data@.len() == 0,
    {
        if id.same(&ObjectId::empty_tree()) {
            Some(Object { id, kind: ObjectKind::Tree, data: Vec::new() })
        } else {
            None
        }
    }

    /// The commit that this object is.
    pub fn try_into_commit(self) -> (r: Result<Commit, GitError>)
        ensures
            r is Ok <==> self.kind == ObjectKind::Commit,
            r matches Ok(c) ==> c.id == self.id && c.data == self.data,
            r matches Err(e) ==> e is Gen,
    {
        match self.kind {
            ObjectKind::Commit => Ok(Commit { id: self.id, data: self.data }),
            _ => Err(GitError::Gen),
        }
    }

    /// The tree that this object is.
    pub fn try_into_tree(self) -> (r: Result<Tree, GitError>)
        ensures
            r is Ok <==> self.kind == ObjectKind::Tree,
            r matches Ok(t) ==> t.data == self.data,
            r matches Err(e) ==> e is Gen,
    {
        match self.kind {
            ObjectKind::Tree => Ok(Tree { data: self.data }),
            _ => Err(GitError::Gen),
        }
    }

    /// The file that this object is.
    pub fn try_into_blob(self) -> (r: Result<Blob, GitError>)
        ensures
            r is Ok <==> self.kind == ObjectKind::Blob,
            r matches Ok(b) ==> b.data == self.data,
            r matches Err(e) ==> e is Gen,
    {
        match self.kind {
            ObjectKind::Blob => Ok(Blob { data: self.data }),
            _ => Err(GitError::Gen),
        }
    }
}

impl Commit {
    /// The id of the commit's tree.
    pub fn hx_tree_id(&self) -> (r: Result<ObjectId, GitError>)
        ensures
            r is Ok <==> commit_tree(self.data@) is Some,
            r matches Ok(id) ==> commit_tree(self.data@) == Some(id@),
            r matches Err(e) ==> e is Gen,
    {
        let mut parts = CommitRefIter::hx_from_bytes(self.data.as_slice());
        parts.tree_id()
    }
}

impl Reference {
    /// The complete name of the reference.
    pub fn name(&self) -> (r: FullNameRef<'_>)
        ensures
            r@ == self.inner.name@,
    {
        self.inner.name.hx_as_ref()
    }
}

/// What the repository is at.
#[derive(Debug)]
pub enum GixGitHeadKind {
    /// A reference that is there.
    Symbolic(RawReference),
    /// A reference that is not there yet.
    Unborn(FullName),
    /// An object.
    Detached { target: ObjectId, peeled: Option<ObjectId> },
}

/// What is known of what the repository is at.
#[derive(Debug)]
pub enum HeadStep {
    Known(GixGitHeadKind),
    /// The reference with this name is to be looked for.
    Find(FullName),
}

/// What is to be done to find the commit that the repository is at.
#[derive(Debug)]
pub enum HeadPeel {
    /// There is none.
    Nothing,
    /// It is this one.
    Known(ObjectId),
    /// It is this one if it is a commit.
    IfCommit(ObjectId),
    /// It is where this reference leads.
    Follow(RawReference),
}

/// What is known once the reference `HEAD` was looked for.
pub fn hx_head(head: Option<RawReference>) -> (r: Result<HeadStep, GitError>)
    ensures
        match head {
            None => r matches Err(e) && e is NotFound,
            Some(h) => match h.target@ {
                TargetView::Symbolic(name) => r matches Ok(HeadStep::Find(n)) && n@ == name,
                TargetView::Object(id) => r matches Ok(HeadStep::Known(k)) && (k matches GixGitHeadKind::Detached {
                    target,
                    peeled,
                } && target@ == id && peeled == h.peeled),
            },
        },
{
    match head {
        None => Err(GitError::NotFound),
        Some(h) => match h.target {
            Target::Symbolic(name) => Ok(HeadStep::Find(name)),
            Target::Object(target) => Ok(
                HeadStep::Known(GixGitHeadKind::Detached { target, peeled: h.peeled }),
            ),
        },
    }
}

impl GixGitHeadKind {
    /// What the repository is at whose `HEAD` names `branch`, which was looked for.
    pub fn on_branch(branch: FullName, found: Option<RawReference>) -> (r: GixGitHeadKind)
        ensures
            match found {
                Some(f) => r matches GixGitHeadKind::Symbolic(x) && x == f,
                None => r matches GixGitHeadKind::Unborn(x) && x == branch,
            },
    {
        match found {
            Some(f) => GixGitHeadKind::Symbolic(f),
            None => GixGitHeadKind::Unborn(branch),
        }
    }

    /// The reference that the repository is at.
    pub fn try_into_referent(self) -> (r: Option<Reference>)
        ensures
            match self {
                GixGitHeadKind::Symbolic(x) => r matches Some(f) && f.inner == x,
                _ => r is None,
            },
    {
        match self {
            GixGitHeadKind::Symbolic(inner) => Some(Reference { inner }),
            _ => None,
        }
    }

    /// What is to be done to find the commit that the repository is at.
    pub fn hx_try_peel_to_id(self) -> (r: HeadPeel)
        ensures
            match self {
                GixGitHeadKind::Unborn(_) => r is Nothing,
                GixGitHeadKind::Detached { target, peeled } => match peeled {
                    Some(id) => r matches HeadPeel::Known(k) && k == id,
                    None => r matches HeadPeel::IfCommit(k) && k == target,
                },
                GixGitHeadKind::Symbolic(x) => r matches HeadPeel::Follow(f) && f == x,
            },
    {
        match self {
            GixGitHeadKind::Unborn(_) => HeadPeel::Nothing,
            GixGitHeadKind::Detached { target, peeled } => match peeled {
                Some(id) => HeadPeel::Known(id),
                None => HeadPeel::IfCommit(target),
            },
            GixGitHeadKind::Symbolic(x) => HeadPeel::Follow(x),
        }
    }
}

/// The object that the repository is at: none where nothing was committed, and none where it is
/// detached from all references and at something else than a commit.
pub fn peeled_head(id: Option<ObjectId>, only_commit: bool, kind: Option<ObjectKind>) -> (r: Result<ObjectId, GitError>)
    ensures
        r is Ok <==> id is Some && (only_commit ==> kind == Some(ObjectKind::Commit)),
        r matches Ok(x) ==> id == Some(x),
        r matches Err(e) ==> if id is Some && only_commit && kind is None {
            e is Gen
        } else {
            e is Unborn
        },
{
    match id {
        None => Err(GitError::Unborn),
        Some(x) => if only_commit {
            match kind {
                None => Err(GitError::Gen),
                Some(ObjectKind::Commit) => Ok(x),
                Some(_) => Err(GitError::Unborn),
            }
        } else {
            Ok(x)
        },
    }
}

} // verus!
