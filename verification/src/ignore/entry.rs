//! The entries of a walk.
use crate::bytes::lit;
use crate::ignore::error::Error;
use crate::path::{file_name, name_of};
use vstd::prelude::*;

verus! {

/// The type of a file.
#[derive(Clone, Copy, Debug, PartialEq, Eq, Structural)]
pub enum FileType {
    File,
    Dir,
    Symlink,
    Other,
}

impl FileType {
    pub fn is_dir(&self) -> (r: bool)
        ensures
            r == (*self == FileType::Dir),
    {
        *self == FileType::Dir
    }

    pub fn is_symlink(&self) -> (r: bool)
        ensures
            r == (*self == FileType::Symlink),
    {
        *self == FileType::Symlink
    }

    pub fn is_file(&self) -> (r: bool)
        ensures
            r == (*self == FileType::File),
    {
        *self == FileType::File
    }
}

/// An entry that was found in a directory.
#[derive(Debug)]
pub struct DirEntryRaw {
    /// The path, as the directory gave it.
    pub path: Vec<u8>,
    pub ty: FileType,
    /// The entry was reached by following a symbolic link.
    pub follow_link: bool,
    /// How deep below the root the entry is.
    pub depth: usize,
    pub ino: u64,
}

/// Where an entry is from.
#[derive(Debug)]
pub enum DirEntryInner {
    /// The standard input.
    Stdin,
    Raw(DirEntryRaw),
}

/// An entry of a walk, with an error in the ignore files of the directory that it is.
#[derive(Debug)]
pub struct DirEntry {
    pub dent: DirEntryInner,
    pub err: Option<Error>,
}

impl DirEntry {
    /// The path of the entry.
    pub open spec fn path_view(self) -> Seq<u8> {
        match self.dent {
            DirEntryInner::Stdin => lit("<stdin>"),
            DirEntryInner::Raw(x) => x.path@,
        }
    }

    pub open spec fn depth_view(self) -> int {
        match self.dent {
            DirEntryInner::Stdin => 0,
            DirEntryInner::Raw(x) => x.depth as int,
        }
    }

    pub open spec fn type_view(self) -> Option<FileType> {
        match self.dent {
            DirEntryInner::Stdin => None,
            DirEntryInner::Raw(x) => Some(x.ty),
        }
    }

    /// The path of the entry.
    pub fn path(&self) -> (r: &[u8])
        ensures
            r@ == self.path_view(),
    {
        match &self.dent {
            DirEntryInner::Stdin => "<stdin>".as_bytes(),
            DirEntryInner::Raw(x) => x.path.as_slice(),
        }
    }

    /// The path of the entry.
    pub fn into_path(self) -> (r: Vec<u8>)
        ensures
            r@ == self.path_view(),
    {
        match self.dent {
            DirEntryInner::Stdin => crate::bytes::to_vec("<stdin>".as_bytes()),
            DirEntryInner::Raw(x) => x.path,
        }
    }

    /// Whether the path is that of a symbolic link.
    pub fn path_is_symlink(&self) -> (r: bool)
        ensures
            r == (self.dent matches DirEntryInner::Raw(x) && (x.ty == FileType::Symlink
                || x.follow_link)),
    {
        match &self.dent {
            DirEntryInner::Stdin => false,
            DirEntryInner::Raw(x) => x.ty.is_symlink() || x.follow_link,
        }
    }

    /// Whether the entry is the standard input.
    pub fn is_stdin(&self) -> (r: bool)
        ensures
            r == (self.dent is Stdin),
    {
        matches!(self.dent, DirEntryInner::Stdin)
    }

    /// The type of the file. The standard input has none.
    pub fn file_type(&self) -> (r: Option<FileType>)
        ensures
            r == self.type_view(),
    {
        match &self.dent {
            DirEntryInner::Stdin => None,
            DirEntryInner::Raw(x) => Some(x.ty),
        }
    }

    /// The name of the file, or the whole path where it has none.
    pub fn file_name(&self) -> (r: &[u8])
        ensures
            r@ == (match self.dent {
                DirEntryInner::Stdin => lit("<stdin>"),
                DirEntryInner::Raw(x) => match name_of(x.path@) {
                    Some(n) => n,
                    None => x.path@,
                },
            }),
    {
        match &self.dent {
            DirEntryInner::Stdin => "<stdin>".as_bytes(),
            DirEntryInner::Raw(x) => match file_name(x.path.as_slice()) {
                Some(n) => n,
                None => x.path.as_slice(),
            },
        }
    }

    /// How deep below the root the entry is.
    pub fn depth(&self) -> (r: usize)
        ensures
            r == self.depth_view(),
    {
        match &self.dent {
            DirEntryInner::Stdin => 0,
            DirEntryInner::Raw(x) => x.depth,
        }
    }

    /// The number of the entry's inode.
    pub fn ino(&self) -> (r: Option<u64>)
        ensures
            r == (match self.dent {
                DirEntryInner::Stdin => None,
                DirEntryInner::Raw(x) => Some(x.ino),
            }),
    {
        match &self.dent {
            DirEntryInner::Stdin => None,
            DirEntryInner::Raw(x) => Some(x.ino),
        }
    }

    /// Whether the entry is a directory.
    pub fn is_dir(&self) -> (r: bool)
        ensures
            r == (self.type_view() == Some(FileType::Dir)),
    {
        match self.file_type() {
            Some(t) => t.is_dir(),
            None => false,
        }
    }

    /// The entry for the standard input.
    pub fn new_stdin() -> (r: DirEntry)
        ensures
            r.dent is Stdin,
            r.err is None,
    {
        DirEntry { dent: DirEntryInner::Stdin, err: None }
    }

    /// An entry that was found in a directory.
    pub fn new_raw(dent: DirEntryRaw, err: Option<Error>) -> (r: DirEntry)
        ensures
            r.dent == DirEntryInner::Raw(dent),
            r.err == err,
    {
        DirEntry { dent: DirEntryInner::Raw(dent), err }
    }
}

} // verus!
