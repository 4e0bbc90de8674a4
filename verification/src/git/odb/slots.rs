//! The files of packs, and the slots that hold them.
use crate::bytes::to_vec;
use crate::git::error::GitError;
use crate::git::pack::data::DataFile;
use crate::git::pack::index::IndexFile;
use crate::path::{extension_replaced, with_extension};
use std::sync::Arc;
use vstd::prelude::*;

verus! {

/// What is known of a file.
#[derive(Debug)]
pub enum OnDiskFileState<T> {
    /// It was not read yet.
    Unloaded,
    /// It was read.
    Loaded(Arc<T>),
    /// It was read, and then it was gone.
    Garbage(Arc<T>),
    /// It is gone.
    Missing,
}

/// A file.
#[derive(Debug)]
pub struct OnDiskFile<T> {
    pub path: Vec<u8>,
    pub state: OnDiskFileState<T>,
}

impl<T> OnDiskFileState<T> {
    /// What was read.
    pub open spec fn contents(self) -> Option<Arc<T>> {
        match self {
            OnDiskFileState::Loaded(v) => Some(v),
            OnDiskFileState::Garbage(v) => Some(v),
            _ => None,
        }
    }

    /// The file is gone.
    pub open spec fn disposable(self) -> bool {
        self is Garbage || self is Missing
    }

    /// The file is back.
    pub open spec fn is_back(self) -> OnDiskFileState<T> {
        match self {
            OnDiskFileState::Garbage(v) => OnDiskFileState::Loaded(v),
            OnDiskFileState::Missing => OnDiskFileState::Unloaded,
            other => other,
        }
    }

    /// The file is gone, and what was read of it stays.
    pub open spec fn is_trash(self) -> OnDiskFileState<T> {
        match self {
            OnDiskFileState::Loaded(v) => OnDiskFileState::Garbage(v),
            other => other,
        }
    }
}

/// A file that was there, and whose loss was taken back, is as it was.
pub proof fn law_put_back_undoes_trash<T>(s: OnDiskFileState<T>)
    requires
        !s.disposable(),
    ensures
        s.is_trash().is_back() == s,
{
}

/// Neither loses what was read.
pub proof fn law_contents_are_kept<T>(s: OnDiskFileState<T>)
    ensures
        s.is_trash().contents() == s.contents(),
        s.is_back().contents() == s.contents(),
        !s.is_back().disposable(),
{
}

/// What came of reading a file.
#[derive(Debug)]
pub enum Loading<T> {
    Done(Arc<T>),
    NotFound,
    Failed,
}

impl<T> OnDiskFile<T> {
    /// A file that was not read yet.
    pub fn new(path: Vec<u8>) -> (r: OnDiskFile<T>)
        ensures
            r.path@ == path@,
            r.state is Unloaded,
    {
        OnDiskFile { path, state: OnDiskFileState::Unloaded }
    }

    /// Whether what was read of the file is at hand.
    pub fn is_loaded(&self) -> (r: bool)
        ensures
            r == (self.state.contents() is Some),
    {
        match &self.state {
            OnDiskFileState::Loaded(_) | OnDiskFileState::Garbage(_) => true,
            _ => false,
        }
    }

    /// Whether the file is gone.
    pub fn is_disposable(&self) -> (r: bool)
        ensures
            r == self.state.disposable(),
    {
        match &self.state {
            OnDiskFileState::Garbage(_) | OnDiskFileState::Missing => true,
            _ => false,
        }
    }

    /// What was read of the file.
    pub fn loaded(&self) -> (r: Option<Arc<T>>)
        ensures
            r == self.state.contents(),
    {
        match &self.state {
            OnDiskFileState::Loaded(v) => Some(v.clone()),
            OnDiskFileState::Garbage(v) => Some(v.clone()),
            _ => None,
        }
    }

    /// Takes note of what came of reading the file, which is done unless it was read before. A file that
    /// cannot be read counts as gone.
    pub fn load_strict(&mut self, loading: Loading<T>) -> (r: Result<(), GitError>)
        ensures
            final(self).path == old(self).path,
            old(self).state.contents() is Some ==> r is Ok && final(self).state == old(self).state,
            old(self).state.contents() is None ==> match loading {
                Loading::Done(v) => r is Ok && final(self).state == OnDiskFileState::Loaded(v),
                _ => (r matches Err(e) && e is Io) && final(self).state is Missing,
            },
    {
        if self.is_loaded() {
            return Ok(());
        }
        match loading {
            Loading::Done(v) => {
                self.state = OnDiskFileState::Loaded(v);
                Ok(())
            },
            _ => {
                self.state = OnDiskFileState::Missing;
                Err(GitError::Io)
            },
        }
    }

    /// Whether the file is to be read when what it holds is needed.
    pub fn wants_loading(&self) -> (r: bool)
        ensures
            r == (self.state is Unloaded),
    {
        match &self.state {
            OnDiskFileState::Unloaded => true,
            _ => false,
        }
    }

    /// What the file holds, in view of what came of reading it, which is done where nothing is known of it. A
    /// file that is not found is gone.
    pub fn load_with_recovery(&mut self, loading: Loading<T>) -> (r: Result<Option<Arc<T>>, GitError>)
        ensures
            final(self).path == old(self).path,
            match old(self).state {
                OnDiskFileState::Loaded(v) => r == Ok::<Option<Arc<T>>, GitError>(Some(v)) && final(self).state == old(self).state,
                OnDiskFileState::Garbage(v) => r == Ok::<Option<Arc<T>>, GitError>(Some(v)) && final(self).state == old(self).state,
                OnDiskFileState::Missing => r == Ok::<Option<Arc<T>>, GitError>(None) && final(self).state
                    == old(self).state,
                OnDiskFileState::Unloaded => match loading {
                    Loading::Done(v) => r == Ok::<Option<Arc<T>>, GitError>(Some(v)) && final(self).state
                        == OnDiskFileState::Loaded(v),
                    Loading::NotFound => r == Ok::<Option<Arc<T>>, GitError>(None) && final(self).state
                        is Missing,
                    Loading::Failed => (r matches Err(e) && e is Io) && final(self).state == old(self).state,
                },
            },
    {
        if self.wants_loading() {
            match loading {
                Loading::Done(v) => {
                    self.state = OnDiskFileState::Loaded(v.clone());
                    Ok(Some(v))
                },
                Loading::NotFound => {
                    self.state = OnDiskFileState::Missing;
                    Ok(None)
                },
                Loading::Failed => Err(GitError::Io),
            }
        } else {
            Ok(self.loaded())
        }
    }

    /// The file is back.
    pub fn put_back(&mut self)
        ensures
            final(self).path == old(self).path,
            final(self).state == old(self).state.is_back(),
    {
        let mut s: OnDiskFileState<T> = OnDiskFileState::Missing;
        std::mem::swap(&mut s, &mut self.state);
        match s {
            OnDiskFileState::Garbage(v) => {
                self.state = OnDiskFileState::Loaded(v);
            },
            OnDiskFileState::Missing => {
                self.state = OnDiskFileState::Unloaded;
            },
            other => {
                self.state = other;
            },
        }
    }

    /// The file is gone.
    pub fn trash(&mut self)
        ensures
            final(self).path == old(self).path,
            final(self).state == old(self).state.is_trash(),
    {
        let mut s: OnDiskFileState<T> = OnDiskFileState::Missing;
        std::mem::swap(&mut s, &mut self.state);
        match s {
            OnDiskFileState::Loaded(v) => {
                self.state = OnDiskFileState::Garbage(v);
            },
            other => {
                self.state = other;
            },
        }
    }
}

/// A pack: its index and its data.
#[derive(Debug)]
pub struct IndexFileBundle {
    pub index: OnDiskFile<IndexFile>,
    pub data: OnDiskFile<DataFile>,
}

impl IndexFileBundle {
    /// A part of the pack is gone.
    pub open spec fn disposable(self) -> bool {
        self.index.state.disposable() || self.data.state.disposable()
    }

    /// The pack with the index at `index_path`, of which nothing was read.
    pub fn new_single(index_path: Vec<u8>) -> (r: IndexFileBundle)
        ensures
            r.index.path@ == index_path@,
            r.data.path@ == extension_replaced(index_path@, crate::bytes::lit("pack")),
            r.index.state is Unloaded,
            r.data.state is Unloaded,
    {
        let data_path = with_extension(index_path.as_slice(), "pack".as_bytes());
        IndexFileBundle { index: OnDiskFile::new(index_path), data: OnDiskFile::new(data_path) }
    }

    /// Where the index is.
    pub fn index_path(&self) -> (r: &[u8])
        ensures
            r@ == self.index.path@,
    {
        self.index.path.as_slice()
    }

    /// The pack is back.
    pub fn put_back(&mut self)
        ensures
            final(self).index.path == old(self).index.path,
            final(self).data.path == old(self).data.path,
            final(self).index.state == old(self).index.state.is_back(),
            final(self).data.state == old(self).data.state.is_back(),
    {
        self.index.put_back();
        self.data.put_back();
    }

    /// The pack is gone.
    pub fn trash(&mut self)
        ensures
            final(self).index.path == old(self).index.path,
            final(self).data.path == old(self).data.path,
            final(self).index.state == old(self).index.state.is_trash(),
            final(self).data.state == old(self).data.state.is_trash(),
    {
        self.index.trash();
        self.data.trash();
    }

    /// Whether the index was read.
    pub fn index_is_loaded(&self) -> (r: bool)
        ensures
            r == (self.index.state.contents() is Some),
    {
        self.index.is_loaded()
    }

    /// Whether a part of the pack is gone.
    pub fn is_disposable(&self) -> (r: bool)
        ensures
            r == self.disposable(),
    {
        self.index.is_disposable() || self.data.is_disposable()
    }
}

/// A place for a pack. Its generation says since when it holds what it holds.
#[derive(Debug)]
pub struct Slot {
    pub files: Option<IndexFileBundle>,
    pub generation: u32,
}

/// The slot holds the pack with the index at `path`.
pub open spec fn holds(s: Slot, path: Seq<u8>) -> bool {
    s.files matches Some(b) && b.index.path@ == path
}

impl Slot {
    /// An empty slot.
    pub fn new() -> (r: Slot)
        ensures
            r.files is None,
            r.generation == 0,
    {
        Slot { files: None, generation: 0 }
    }

    /// The slot takes in the pack with the index at `path`: it is empty, or what it holds is another pack that
    /// nobody relies on.
    pub open spec fn accepts(self, path: Seq<u8>, needs_stable_indices: bool) -> bool {
        match self.files {
            None => true,
            Some(b) => b.index.path@ != path && !(b.disposable() && needs_stable_indices),
        }
    }

    /// Whether the slot takes in the pack with the index at `path`.
    pub fn is_free_for(&self, path: &[u8], needs_stable_indices: bool) -> (r: bool)
        ensures
            r == self.accepts(path@, needs_stable_indices),
    {
        match &self.files {
            None => true,
            Some(b) => !crate::bytes::eq_bytes(b.index_path(), path) && !(b.is_disposable()
                && needs_stable_indices),
        }
    }

    /// The slot gets a pack of which nothing was read.
    pub fn set_to_index(&mut self, path: Vec<u8>, generation: u32)
        ensures
            holds(*final(self), path@),
            final(self).files matches Some(b) && b.index.state is Unloaded && b.data.state is Unloaded,
            final(self).generation == generation,
    {
        self.generation = generation;
        self.files = Some(IndexFileBundle::new_single(path));
    }

    /// A copy of the path of the index.
    pub fn path(&self) -> (r: Option<Vec<u8>>)
        ensures
            r is Some <==> self.files is Some,
            r matches Some(p) ==> holds(*self, p@),
    {
        match &self.files {
            None => None,
            Some(b) => Some(to_vec(b.index_path())),
        }
    }
}

} // verus!
