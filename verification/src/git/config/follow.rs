//! The sections of a configuration file that name further files, and which of those files
//! are taken in.
use crate::bytes::{begins, ends, eq_bytes, find_byte, from, lemma_pos_of, lit, pos_of, push_all, starts_with, ends_with, to_vec};
use crate::git::config::body::{body_values, strings, values};
use crate::git::config::file::ConfigFileSection;
use crate::git::config::parse::SectionHeaderView;
use crate::git::config::value::{opt_slice, ConfigPath};
use crate::git::error::GitError;
use crate::git::wildmatch::{wild_matches, wildmatch, WildmatchMode};
use crate::path::{absolute, is_absolute, join, joined, parent, parent_of};
use vstd::prelude::*;

verus! {

/// When the files that a section names are taken in.
#[derive(Debug)]
pub enum Condition {
    Never,
    Always,
    /// Where the repository's directory matches a pattern.
    GitDir { pattern: Vec<u8>, ignore_case: bool },
}

pub enum ConditionView {
    Never,
    Always,
    GitDir { pattern: Seq<u8>, ignore_case: bool },
}

impl View for Condition {
    type V = ConditionView;

    open spec fn view(&self) -> ConditionView {
        match self {
            Condition::Never => ConditionView::Never,
            Condition::Always => ConditionView::Always,
            Condition::GitDir { pattern, ignore_case } => ConditionView::GitDir {
                pattern: pattern@,
                ignore_case: *ignore_case,
            },
        }
    }
}

/// The condition that a section's subsection writes: a kind, a colon and a pattern.
pub open spec fn written_condition(s: Seq<u8>) -> ConditionView {
    let c = pos_of(s, ':' as u8, 0);
    if c >= s.len() {
        ConditionView::Never
    } else if s.subrange(0, c) == lit("gitdir") {
        ConditionView::GitDir { pattern: from(s, c + 1), ignore_case: false }
    } else if s.subrange(0, c) == lit("gitdir/i") {
        ConditionView::GitDir { pattern: from(s, c + 1), ignore_case: true }
    } else {
        ConditionView::Never
    }
}

/// When the files that a section with the header `h` names are taken in.
pub open spec fn condition_of(h: SectionHeaderView) -> ConditionView {
    if h.name == lit("include") && h.subsection_name is None {
        ConditionView::Always
    } else if h.name == lit("includeIf") && h.subsection_name is Some {
        written_condition(h.subsection_name->0)
    } else {
        ConditionView::Never
    }
}

/// The condition that `s` writes.
pub fn include_condition_match(s: &[u8]) -> (r: Condition)
    ensures
        r@ == written_condition(s@),
{
    proof {
        lemma_pos_of(s@, ':' as u8, 0);
    }
    let c: usize = match find_byte(s, ':' as u8) {
        Some(c) => c,
        None => {
            return Condition::Never;
        },
    };
    let len: usize = s.len();
    let kind: &[u8] = &s[0..c];
    let exact: bool = eq_bytes(kind, "gitdir".as_bytes());
    let folded: bool = eq_bytes(kind, "gitdir/i".as_bytes());
    if exact || folded {
        Condition::GitDir { pattern: to_vec(&s[c + 1..len]), ignore_case: !exact }
    } else {
        Condition::Never
    }
}

/// When the files that a section names are taken in.
pub fn section_condition(section: &ConfigFileSection) -> (r: Condition)
    ensures
        r@ == condition_of(section@.header),
{
    let name: &[u8] = section.header.name.as_slice();
    match &section.header.subsection_name {
        None => {
            if eq_bytes(name, "include".as_bytes()) {
                Condition::Always
            } else {
                Condition::Never
            }
        },
        Some(sub) => {
            if eq_bytes(name, "includeIf".as_bytes()) {
                include_condition_match(sub.as_slice())
            } else {
                Condition::Never
            }
        },
    }
}

/// The path that a value writes, and whether it may be missing.
pub open spec fn path_value(v: Seq<u8>) -> (Seq<u8>, bool) {
    if begins(v, lit(":(optional)")) {
        (from(v, lit(":(optional)").len() as int), true)
    } else {
        (v, false)
    }
}

/// The paths that the section names.
pub fn gather_paths(section: &ConfigFileSection) -> (r: Vec<ConfigPath>)
    ensures
        r@.len() == body_values(section@.events, lit("path")).len(),
        forall|i: int|
            0 <= i < r@.len() ==> ((#[trigger] r@[i]).value@, r@[i].is_optional) == path_value(
                body_values(section@.events, lit("path"))[i],
            ),
{
    let found = values(&section.events, "path".as_bytes());
    let ghost texts = strings(found@);
    assert(texts == body_values(section@.events, lit("path")));
    let mut out: Vec<ConfigPath> = Vec::new();
    for v in it: found
        invariant
            it.seq() == found@,
            texts == strings(found@),
            out@.len() == it.index(),
            forall|i: int|
                0 <= i < out@.len() ==> ((#[trigger] out@[i]).value@, out@[i].is_optional)
                    == path_value(texts[i]),
    {
        assert(texts[it.index() as int] == v@);
        out.push(ConfigPath::from_bytes(v));
    }
    out
}

/// How files that other files name are followed.
#[derive(Debug)]
pub struct FileIncludesOptions {
    pub max_depth: u8,
    pub err_on_max_depth_exceeded: bool,
    pub err_on_missing_config_path: bool,
}

impl FileIncludesOptions {
    /// No file is followed.
    pub fn hx_no_follow() -> (r: FileIncludesOptions)
        ensures
            r.max_depth == 0,
            !r.err_on_max_depth_exceeded,
            !r.err_on_missing_config_path,
    {
        FileIncludesOptions {
            max_depth: 0,
            err_on_max_depth_exceeded: false,
            err_on_missing_config_path: false,
        }
    }

    /// Files are followed ten levels deep.
    pub fn hx_follow() -> (r: FileIncludesOptions)
        ensures
            r.max_depth == 10,
            r.err_on_max_depth_exceeded,
            r.err_on_missing_config_path,
    {
        FileIncludesOptions {
            max_depth: 10,
            err_on_max_depth_exceeded: true,
            err_on_missing_config_path: true,
        }
    }

    /// Whether the files named at the given depth are followed. An error where the files are
    /// named deeper than is allowed.
    pub fn follows_at(&self, depth: u8) -> (r: Result<bool, GitError>)
        ensures
            match r {
                Ok(b) => b == (depth != self.max_depth) && (b || !self.err_on_max_depth_exceeded),
                Err(e) => e is Gen && depth == self.max_depth && self.err_on_max_depth_exceeded,
            },
    {
        if depth == self.max_depth {
            if self.err_on_max_depth_exceeded {
                Err(GitError::Gen)
            } else {
                Ok(false)
            }
        } else {
            Ok(true)
        }
    }

    /// Whether the completion of a path failed in a way that only leaves the path out.
    pub fn check_interpolation_result(res: Result<Vec<u8>, GitError>) -> (r: Result<
        Option<Vec<u8>>,
        GitError,
    >)
        ensures
            match res {
                Ok(p) => r == Ok::<Option<Vec<u8>>, GitError>(Some(p)),
                Err(GitError::Gen) => r matches Ok(None),
                Err(_) => r matches Err(e) && e is Gen,
            },
    {
        match res {
            Ok(p) => Ok(Some(p)),
            Err(GitError::Gen) => Ok(None),
            Err(_) => Err(GitError::Gen),
        }
    }

    /// The place of a file that the file at `config_path` names by the completed path `path`:
    /// a relative path is taken from the directory of the file that names it.
    pub fn resolve_path(&self, path: &[u8], config_path: Option<&[u8]>) -> (r: Result<
        Option<Vec<u8>>,
        GitError,
    >)
        requires
            config_path matches Some(p) ==> parent_of(p@) is Some,
        ensures
            if absolute(path@) {
                r matches Ok(Some(p)) && p@ == path@
            } else {
                match config_path {
                    Some(c) => r matches Ok(Some(p)) && p@ == joined(parent_of(c@)->0, path@),
                    None => if self.err_on_missing_config_path {
                        r matches Err(e) && e is Gen
                    } else {
                        r matches Ok(None)
                    },
                }
            },
    {
        if is_absolute(path) {
            return Ok(Some(to_vec(path)));
        }
        match config_path {
            None => {
                if self.err_on_missing_config_path {
                    Err(GitError::Gen)
                } else {
                    Ok(None)
                }
            },
            Some(c) => match parent(c) {
                Some(dir) => Ok(Some(join(dir, path))),
                None => Err(GitError::Gen),
            },
        }
    }

    /// The pattern for repositories that the completed path `path` writes in the file at
    /// `config_path`.
    pub fn gitdir_pattern(&self, path: &[u8], config_path: Option<&[u8]>) -> (r: Result<
        Option<Vec<u8>>,
        GitError,
    >)
        requires
            config_path matches Some(p) ==> parent_of(p@) is Some,
        ensures
            if begins(path@, lit("./")) && config_path is None {
                if self.err_on_missing_config_path {
                    r matches Err(e) && e is Gen
                } else {
                    r matches Ok(None)
                }
            } else {
                r matches Ok(Some(p)) && p@ == dir_pattern(path@, opt_slice(config_path))
            },
    {
        let here: &[u8] = "./".as_bytes();
        let mut pattern: Vec<u8> = if starts_with(path, here) {
            match config_path {
                None => {
                    return if self.err_on_missing_config_path {
                        Err(GitError::Gen)
                    } else {
                        Ok(None)
                    };
                },
                Some(c) => {
                    let mut p: Vec<u8> = match parent(c) {
                        Some(dir) => to_vec(dir),
                        None => Vec::new(),
                    };
                    p.push('/' as u8);
                    push_all(&mut p, &path[here.len()..path.len()]);
                    assert(p@ =~= parent_of(c@)->0 + seq!['/' as u8] + from(
                        path@,
                        lit("./").len() as int,
                    ));
                    p
                },
            }
        } else {
            to_vec(path)
        };
        assert(pattern@ == anchored(path@, opt_slice(config_path)));
        if !is_absolute(pattern.as_slice()) {
            let mut p = to_vec("**/".as_bytes());
            push_all(&mut p, pattern.as_slice());
            pattern = p;
        }
        if ends_with(pattern.as_slice(), "/".as_bytes()) {
            push_all(&mut pattern, "**".as_bytes());
        }
        Ok(Some(pattern))
    }
}

/// The path, with `./` standing for the directory of the file that writes it.
pub open spec fn anchored(path: Seq<u8>, config_path: Option<Seq<u8>>) -> Seq<u8> {
    if begins(path, lit("./")) {
        parent_of(config_path->0)->0 + seq!['/' as u8] + from(path, lit("./").len() as int)
    } else {
        path
    }
}

/// A path that is not absolute matches at any depth, and one that ends in a slash with
/// everything below it.
pub open spec fn dir_pattern(path: Seq<u8>, config_path: Option<Seq<u8>>) -> Seq<u8> {
    let p = anchored(path, config_path);
    let q = if absolute(p) {
        p
    } else {
        lit("**/") + p
    };
    if ends(q, lit("/")) {
        q + lit("**")
    } else {
        q
    }
}

/// Whether the repository's directory matches the pattern, by its own path or by the one
/// that it has without symbolic links, where that is known.
pub fn gitdir_matches(pattern: &[u8], git_dir: &[u8], real_dir: Option<&[u8]>, ignore_case: bool) -> (r:
    bool)
    ensures
        r == (wild_matches(
            pattern@,
            git_dir@,
            (WildmatchMode { no_match_slash_literal: true, ignore_case }),
        ) || (real_dir matches Some(d) && wild_matches(
            pattern@,
            d@,
            (WildmatchMode { no_match_slash_literal: true, ignore_case }),
        ))),
{
    let mode = WildmatchMode { no_match_slash_literal: true, ignore_case };
    if wildmatch(pattern, git_dir, mode) {
        return true;
    }
    match real_dir {
        Some(d) => wildmatch(pattern, d, mode),
        None => false,
    }
}

} // verus!
