//! What can go wrong when ignore files are read and directories are walked.
use crate::bytes::to_vec;
use crate::git::number::{decimal, format_decimal};
use crate::text::{lossy, lossy_text};
use vstd::prelude::*;

verus! {

/// An error in an ignore file or in a walk.
#[derive(Debug)]
pub enum Error {
    /// Errors that did not keep the rest of an ignore file from being read.
    Partial(Vec<Error>),
    /// An error in a line of a file.
    WithLineNumber { line: u64, err: Box<Error> },
    /// An error that has to do with a path.
    WithPath { path: Vec<u8>, err: Box<Error> },
    /// An error at a given depth of a walk.
    WithDepth { depth: usize, err: Box<Error> },
    /// A symbolic link points to a directory that it is below.
    Loop { ancestor: Vec<u8>, child: Vec<u8> },
    /// A file or directory could not be read; the text says why.
    Io(String),
    /// A glob pattern could not be read; the text says why.
    Glob { glob: Option<String>, err: String },
    /// A file type was selected that is not defined.
    UnrecognizedFileType(String),
    /// The definition of a file type is not valid.
    InvalidDefinition,
}

/// The error is nothing but a failure to read.
pub open spec fn only_io(e: Error) -> bool
    decreases e,
{
    match e {
        Error::Partial(errs) => errs@.len() == 1 && only_io(errs@[0]),
        Error::WithLineNumber { line, err } => only_io(*err),
        Error::WithPath { path, err } => only_io(*err),
        Error::WithDepth { depth, err } => only_io(*err),
        Error::Io(_) => true,
        _ => false,
    }
}

impl Error {
    /// Whether the error is nothing but a failure to read.
    pub fn is_io(&self) -> (r: bool)
        ensures
            r == only_io(*self),
        decreases self,
    {
        match self {
            Error::Partial(errs) => {
                if errs.len() == 1 {
                    assert(decreases_to!(self => errs@[0]));
                    errs[0].is_io()
                } else {
                    false
                }
            },
            Error::WithLineNumber { line, err } => err.is_io(),
            Error::WithPath { path, err } => err.is_io(),
            Error::WithDepth { depth, err } => err.is_io(),
            Error::Io(_) => true,
            _ => false,
        }
    }

    /// The error, with the path that it has to do with.
    pub fn with_path(self, path: &[u8]) -> (r: Error)
        ensures
            r matches Error::WithPath { path: p, err } && p@ == path@ && *err == self,
    {
        Error::WithPath { path: to_vec(path), err: Box::new(self) }
    }

    /// The error, with the depth at which it came.
    pub fn with_depth(self, depth: usize) -> (r: Error)
        ensures
            r == (Error::WithDepth { depth, err: Box::new(self) }),
    {
        Error::WithDepth { depth, err: Box::new(self) }
    }

    /// The error, with the line and the file that it is in. An empty path is left out.
    pub fn tagged(self, path: &[u8], line: u64) -> (r: Error)
        ensures
            if path@.len() == 0 {
                r == (Error::WithLineNumber { line, err: Box::new(self) })
            } else {
                r matches Error::WithPath { path: p, err } && p@ == path@ && *err == (
                Error::WithLineNumber { line, err: Box::new(self) })
            },
    {
        let tagged = Error::WithLineNumber { line, err: Box::new(self) };
        if path.len() == 0 {
            return tagged;
        }
        tagged.with_path(path)
    }

    /// An error of a walk: a loop of symbolic links, or a failure to read.
    pub fn from_walkdir(
        depth: usize,
        path: Option<Vec<u8>>,
        loop_ancestor: Option<Vec<u8>>,
        text: String,
    ) -> (r: Error)
        ensures
            match (loop_ancestor, path) {
                (Some(ancestor), Some(child)) => r == (Error::WithDepth {
                    depth,
                    err: Box::new(Error::Loop { ancestor, child }),
                }),
                (None, Some(p)) => r == (Error::WithPath {
                    path: p,
                    err: Box::new(
                        Error::WithDepth { depth, err: Box::new(Error::Io(text)) },
                    ),
                }),
                (_, None) => r == (Error::WithDepth { depth, err: Box::new(Error::Io(text)) }),
            },
    {
        match (loop_ancestor, path) {
            (Some(ancestor), Some(child)) => Error::WithDepth {
                depth,
                err: Box::new(Error::Loop { ancestor, child }),
            },
            (_, Some(p)) => Error::WithPath {
                path: p,
                err: Box::new(Error::WithDepth { depth, err: Box::new(Error::Io(text)) }),
            },
            (_, None) => Error::WithDepth { depth, err: Box::new(Error::Io(text)) },
        }
    }
}

/// What the error is about, in words.
pub open spec fn description_of(e: Error) -> Seq<char>
    decreases e,
{
    match e {
        Error::Partial(_) => "partial error"@,
        Error::WithLineNumber { line, err } => description_of(*err),
        Error::WithPath { path, err } => description_of(*err),
        Error::WithDepth { depth, err } => description_of(*err),
        Error::Loop { ancestor, child } => "file system loop found"@,
        Error::Io(text) => text@,
        Error::Glob { glob, err } => err@,
        Error::UnrecognizedFileType(_) => "unrecognized file type"@,
        Error::InvalidDefinition => "invalid definition"@,
    }
}

impl Error {
    /// What the error is about, in words.
    pub fn description(&self) -> (r: String)
        ensures
            r@ == description_of(*self),
        decreases self,
    {
        match self {
            Error::Partial(_) => "partial error".to_owned(),
            Error::WithLineNumber { line, err } => err.description(),
            Error::WithPath { path, err } => err.description(),
            Error::WithDepth { depth, err } => err.description(),
            Error::Loop { ancestor, child } => "file system loop found".to_owned(),
            Error::Io(text) => text.clone(),
            Error::Glob { glob, err } => err.clone(),
            Error::UnrecognizedFileType(_) => "unrecognized file type".to_owned(),
            Error::InvalidDefinition => "invalid definition".to_owned(),
        }
    }
}

/// The error as a message says it.
pub open spec fn text_of(e: Error) -> Seq<char>
    decreases e, 0int,
{
    match e {
        Error::Partial(errs) => texts_of(errs@, errs@.len() as int),
        Error::WithLineNumber { line, err } => "line "@ + lossy_text(decimal(line as nat)) + ": "@ + text_of(*err),
        Error::WithPath { path, err } => lossy_text(path@) + ": "@ + text_of(*err),
        Error::WithDepth { depth, err } => text_of(*err),
        Error::Loop { ancestor, child } => "File system loop found: "@ + lossy_text(child@) + " points to an ancestor "@
            + lossy_text(ancestor@),
        Error::Io(text) => text@,
        Error::Glob { glob: None, err } => err@,
        Error::Glob { glob: Some(glob), err } => "error parsing glob '"@ + glob@ + "': "@ + err@,
        Error::UnrecognizedFileType(ty) => "unrecognized file type: "@ + ty@,
        Error::InvalidDefinition => "invalid definition (format is type:glob, e.g., html:*.html)"@,
    }
}

/// The first `n` errors as messages say them, each on a line of its own.
pub open spec fn texts_of(errs: Seq<Error>, n: int) -> Seq<char>
    decreases errs, n,
{
    if n <= 0 || n > errs.len() {
        Seq::empty()
    } else if n == 1 {
        text_of(errs[0])
    } else {
        texts_of(errs, n - 1) + "\n"@ + text_of(errs[n - 1])
    }
}

impl Error {
    /// The error as a message says it.
    pub fn to_text(&self) -> (r: String)
        ensures
            r@ == text_of(*self),
        decreases self, 0int,
    {
        match self {
            Error::Partial(errs) => {
                assert(decreases_to!(self => errs));
                texts(errs)
            },
            Error::WithLineNumber { line, err } => {
                let mut s = "line ".to_owned();
                let digits = format_decimal(*line);
                s.push_str(lossy(digits.as_slice()).as_str());
                s.push_str(": ");
                s.push_str(err.to_text().as_str());
                s
            },
            Error::WithPath { path, err } => {
                let mut s = lossy(path.as_slice());
                s.push_str(": ");
                s.push_str(err.to_text().as_str());
                s
            },
            Error::WithDepth { depth, err } => err.to_text(),
            Error::Loop { ancestor, child } => {
                let mut s = "File system loop found: ".to_owned();
                s.push_str(lossy(child.as_slice()).as_str());
                s.push_str(" points to an ancestor ");
                s.push_str(lossy(ancestor.as_slice()).as_str());
                s
            },
            Error::Io(text) => text.clone(),
            Error::Glob { glob, err } => match glob {
                None => err.clone(),
                Some(glob) => {
                    let mut s = "error parsing glob '".to_owned();
                    s.push_str(glob.as_str());
                    s.push_str("': ");
                    s.push_str(err.as_str());
                    s
                },
            },
            Error::UnrecognizedFileType(ty) => {
                let mut s = "unrecognized file type: ".to_owned();
                s.push_str(ty.as_str());
                s
            },
            Error::InvalidDefinition => "invalid definition (format is type:glob, e.g., html:*.html)".to_owned(),
        }
    }
}

/// The errors as messages say them, each on a line of its own.
fn texts(errs: &Vec<Error>) -> (r: String)
    ensures
        r@ == texts_of(errs@, errs@.len() as int),
    decreases errs, 1int,
{
    let mut s = "".to_owned();
    let mut i: usize = 0;
    proof {
        reveal_strlit("");
        assert(s@ =~= Seq::<char>::empty());
    }
    while i < errs.len()
        invariant
            i <= errs@.len(),
            s@ == texts_of(errs@, i as int),
        decreases errs@.len() - i,
    {
        assert(decreases_to!(errs => errs@[i as int]));
        let t = errs[i].to_text();
        if i > 0 {
            s.push_str("\n");
        }
        let ghost before = s@;
        s.push_str(t.as_str());
        proof {
            if i == 0 {
                assert(before + t@ =~= t@);
            }
        }
        i += 1;
    }
    s
}

/// Errors that are collected while the work goes on.
pub struct PartialErrorBuilder(Vec<Error>);

/// `r` is the errors as one, if there are any.
pub open spec fn as_one(errs: Seq<Error>, r: Option<Error>) -> bool {
    if errs.len() == 0 {
        r is None
    } else if errs.len() == 1 {
        r == Some(errs[0])
    } else {
        r matches Some(Error::Partial(all)) && all@ == errs
    }
}

/// The errors, and one more if there is one.
pub open spec fn pushed(errs: Seq<Error>, err: Option<Error>) -> Seq<Error> {
    match err {
        Some(e) => errs.push(e),
        None => errs,
    }
}

impl PartialErrorBuilder {
    pub closed spec fn errors(self) -> Seq<Error> {
        self.0@
    }

    pub fn new() -> (r: PartialErrorBuilder)
        ensures
            r.errors() == Seq::<Error>::empty(),
    {
        PartialErrorBuilder(Vec::new())
    }

    pub fn add_error(&mut self, err: Error)
        ensures
            final(self).errors() == old(self).errors().push(err),
    {
        self.0.push(err);
    }

    /// Adds the error, unless it is nothing but a failure to read.
    pub fn push_ignore_io(&mut self, err: Error)
        ensures
            final(self).errors() == (if only_io(err) {
                old(self).errors()
            } else {
                old(self).errors().push(err)
            }),
    {
        if !err.is_io() {
            self.add_error(err);
        }
    }

    pub fn maybe_push(&mut self, err: Option<Error>)
        ensures
            final(self).errors() == pushed(old(self).errors(), err),
    {
        if let Some(e) = err {
            self.add_error(e);
        }
    }

    pub fn maybe_push_ignore_io(&mut self, err: Option<Error>)
        ensures
            final(self).errors() == (match err {
                Some(e) if !only_io(e) => old(self).errors().push(e),
                _ => old(self).errors(),
            }),
    {
        if let Some(e) = err {
            self.push_ignore_io(e);
        }
    }

    /// The errors as one, if there are any.
    pub fn into_error_option(self) -> (r: Option<Error>)
        ensures
            as_one(self.errors(), r),
    {
        let mut errs = self.0;
        if errs.len() == 0 {
            None
        } else if errs.len() == 1 {
            Some(errs.swap_remove(0))
        } else {
            Some(Error::Partial(errs))
        }
    }
}

/// What was found of a path: nothing, or a rule by which it is ignored or kept.
#[derive(Debug)]
pub enum Match<T> {
    Nothing,
    Ignore(T),
    Whitelist(T),
}

impl<T> Match<T> {
    pub fn is_none(&self) -> (r: bool)
        ensures
            r == (self is Nothing),
    {
        matches!(self, Match::Nothing)
    }

    pub fn is_ignore(&self) -> (r: bool)
        ensures
            r == (self is Ignore),
    {
        matches!(self, Match::Ignore(_))
    }

    pub fn is_whitelist(&self) -> (r: bool)
        ensures
            r == (self is Whitelist),
    {
        matches!(self, Match::Whitelist(_))
    }

    /// This match, or the other one where this is nothing.
    pub fn or(self, other: Match<T>) -> (r: Match<T>)
        ensures
            r == (if self is Nothing {
                other
            } else {
                self
            }),
    {
        if self.is_none() {
            other
        } else {
            self
        }
    }
}

} // verus!
