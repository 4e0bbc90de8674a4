//! Finding the repository of a directory, and telling what kind of repository it is.
use crate::bytes::{begins, eq_bytes, from, lit, strip_prefix, to_vec};
use crate::components::{normalize, normalized, part_path, parts, parts_of, parts_view, Part, PartView};
use crate::git::error::GitError;
use crate::path::{absolute, extension, extension_of, file_name, is_absolute, is_current_dir, is_here, join, joined, name_of, parent, parent_of};
use vstd::prelude::*;

verus! {

/// Where a repository is.
#[derive(Debug)]
pub enum RepositoryPath {
    /// The repository of a worktree is elsewhere.
    LinkedWorkTree { work_dir: Vec<u8>, git_dir: Vec<u8> },
    /// The repository is in the worktree.
    WorkTree(Vec<u8>),
    /// There is no worktree.
    Repository(Vec<u8>),
}

/// What a `RepositoryPath` stands for.
pub enum PlaceView {
    LinkedWorkTree { work_dir: Seq<u8>, git_dir: Seq<u8> },
    WorkTree(Seq<u8>),
    Repository(Seq<u8>),
}

impl View for RepositoryPath {
    type V = PlaceView;

    open spec fn view(&self) -> PlaceView {
        match *self {
            RepositoryPath::LinkedWorkTree { work_dir, git_dir } => PlaceView::LinkedWorkTree {
                work_dir: work_dir@,
                git_dir: git_dir@,
            },
            RepositoryPath::WorkTree(w) => PlaceView::WorkTree(w@),
            RepositoryPath::Repository(r) => PlaceView::Repository(r@),
        }
    }
}

impl PlaceView {
    /// The directory of the repository.
    pub open spec fn dir(self) -> Seq<u8> {
        match self {
            PlaceView::LinkedWorkTree { git_dir, .. } => git_dir,
            PlaceView::WorkTree(w) => joined(w, lit(".git")),
            PlaceView::Repository(r) => r,
        }
    }

    /// The worktree.
    pub open spec fn work_tree(self) -> Option<Seq<u8>> {
        match self {
            PlaceView::LinkedWorkTree { work_dir, .. } => Some(work_dir),
            PlaceView::WorkTree(w) => Some(w),
            PlaceView::Repository(_) => None,
        }
    }
}

impl RepositoryPath {
    /// The directory of the repository.
    pub fn helix_into_repository_dir(self) -> (r: Vec<u8>)
        ensures
            r@ == self@.dir(),
    {
        match self {
            RepositoryPath::LinkedWorkTree { git_dir, .. } => git_dir,
            RepositoryPath::WorkTree(w) => join(w.as_slice(), ".git".as_bytes()),
            RepositoryPath::Repository(r) => r,
        }
    }

    /// The directory of the repository, and the worktree.
    pub fn hx_into_repository_and_work_tree_directories(self) -> (r: (Vec<u8>, Option<Vec<u8>>))
        ensures
            r.0@ == self@.dir(),
            crate::git::config::source::maybe(r.1) == self@.work_tree(),
    {
        match self {
            RepositoryPath::LinkedWorkTree { work_dir, git_dir } => (git_dir, Some(work_dir)),
            RepositoryPath::WorkTree(w) => (join(w.as_slice(), ".git".as_bytes()), Some(w)),
            RepositoryPath::Repository(r) => (r, None),
        }
    }
}

/// What kind of repository a directory is.
#[derive(Debug)]
pub enum GitRepositoryKind {
    PossiblyBare,
    WorkTree { linked_git_dir: Option<Vec<u8>> },
    WorkTreeGitDir { work_dir: Vec<u8> },
    Submodule { git_dir: Vec<u8> },
    SubmoduleGitDir,
}

/// What a `GitRepositoryKind` stands for.
pub enum KindView {
    PossiblyBare,
    WorkTree(Option<Seq<u8>>),
    WorkTreeGitDir(Seq<u8>),
    Submodule(Seq<u8>),
    SubmoduleGitDir,
}

impl View for GitRepositoryKind {
    type V = KindView;

    open spec fn view(&self) -> KindView {
        match *self {
            GitRepositoryKind::PossiblyBare => KindView::PossiblyBare,
            GitRepositoryKind::WorkTree { linked_git_dir } => KindView::WorkTree(
                crate::git::config::source::maybe(linked_git_dir),
            ),
            GitRepositoryKind::WorkTreeGitDir { work_dir } => KindView::WorkTreeGitDir(work_dir@),
            GitRepositoryKind::Submodule { git_dir } => KindView::Submodule(git_dir@),
            GitRepositoryKind::SubmoduleGitDir => KindView::SubmoduleGitDir,
        }
    }
}

/// The path without a last component `.git`.
pub open spec fn without_dot_git(p: Seq<u8>) -> Seq<u8> {
    if name_of(p) == Some(lit(".git")) {
        parent_of(p)->0
    } else {
        p
    }
}

/// The path without a last component `.git`.
pub fn without_dot_git_dir(path: Vec<u8>) -> (r: Vec<u8>)
    ensures
        r@ == without_dot_git(path@),
{
    let dot_git = match file_name(path.as_slice()) {
        Some(n) => eq_bytes(n, ".git".as_bytes()),
        None => false,
    };
    if dot_git {
        match parent(path.as_slice()) {
            Some(d) => to_vec(d),
            None => path,
        }
    } else {
        path
    }
}

/// The path, with every `..` carried out where it ends with one.
pub open spec fn normal_end(p: Seq<u8>, cwd: Seq<u8>) -> Option<Seq<u8>> {
    let v = parts(p);
    if v.len() > 0 && v.last() is Up {
        normalized(p, cwd)
    } else {
        Some(p)
    }
}

/// The path, with every `..` carried out where it ends with one.
fn normalize_on_trailing_dot_dot(p: Vec<u8>, cwd: &[u8]) -> (r: Option<Vec<u8>>)
    ensures
        r is Some <==> normal_end(p@, cwd@) is Some,
        r matches Some(q) ==> normal_end(p@, cwd@) == Some(q@),
{
    let v = parts_of(p.as_slice());
    let n = v.len();
    let up = if n > 0 {
        assert(parts_view(v@)[n - 1] == v@[n - 1]@);
        match &v[n - 1] {
            Part::Up => true,
            _ => false,
        }
    } else {
        false
    };
    if up {
        normalize(p.as_slice(), cwd)
    } else {
        Some(p)
    }
}

/// Where the repository at `path` of the given kind is; `None` where a path cannot be normalized.
pub open spec fn repository_at(path: Seq<u8>, kind: KindView, cwd: Seq<u8>) -> Option<PlaceView> {
    match kind {
        KindView::Submodule(git_dir) => match (normalized(git_dir, cwd), normal_end(path, cwd)) {
            (Some(g), Some(p)) => Some(PlaceView::LinkedWorkTree { work_dir: without_dot_git(p), git_dir: g }),
            _ => None,
        },
        KindView::SubmoduleGitDir | KindView::PossiblyBare => Some(PlaceView::Repository(path)),
        KindView::WorkTreeGitDir(work_dir) => Some(PlaceView::LinkedWorkTree { work_dir, git_dir: path }),
        KindView::WorkTree(Some(git_dir)) => match normal_end(path, cwd) {
            Some(p) => Some(PlaceView::LinkedWorkTree { work_dir: without_dot_git(p), git_dir }),
            None => None,
        },
        KindView::WorkTree(None) => match normal_end(path, cwd) {
            Some(p) => {
                let dir = match parent_of(p) {
                    Some(d) => d,
                    None => p,
                };
                Some(
                    PlaceView::WorkTree(
                        if dir.len() == 0 {
                            seq!['.' as u8]
                        } else {
                            dir
                        },
                    ),
                )
            },
            None => None,
        },
    }
}

impl RepositoryPath {
    /// Where the repository at `path` of the given kind is.
    pub fn hx_from_dot_git_dir(path: Vec<u8>, kind: GitRepositoryKind, cwd: &[u8]) -> (r: Option<
        RepositoryPath,
    >)
        ensures
            r is Some <==> repository_at(path@, kind@, cwd@) is Some,
            r matches Some(p) ==> repository_at(path@, kind@, cwd@) == Some(p@),
    {
        match kind {
            GitRepositoryKind::Submodule { git_dir } => {
                let git_dir = normalize(git_dir.as_slice(), cwd)?;
                let work = normalize_on_trailing_dot_dot(path, cwd)?;
                Some(RepositoryPath::LinkedWorkTree { git_dir, work_dir: without_dot_git_dir(work) })
            },
            GitRepositoryKind::SubmoduleGitDir => Some(RepositoryPath::Repository(path)),
            GitRepositoryKind::PossiblyBare => Some(RepositoryPath::Repository(path)),
            GitRepositoryKind::WorkTreeGitDir { work_dir } => Some(
                RepositoryPath::LinkedWorkTree { git_dir: path, work_dir },
            ),
            GitRepositoryKind::WorkTree { linked_git_dir } => match linked_git_dir {
                Some(git_dir) => {
                    let work = normalize_on_trailing_dot_dot(path, cwd)?;
                    Some(RepositoryPath::LinkedWorkTree { git_dir, work_dir: without_dot_git_dir(work) })
                },
                None => {
                    let p = normalize_on_trailing_dot_dot(path, cwd)?;
                    let dir = match parent(p.as_slice()) {
                        Some(d) => to_vec(d),
                        None => p,
                    };
                    if dir.len() == 0 {
                        let mut dot: Vec<u8> = Vec::new();
                        dot.push('.' as u8);
                        assert(dot@ =~= seq!['.' as u8]);
                        Some(RepositoryPath::WorkTree(dot))
                    } else {
                        Some(RepositoryPath::WorkTree(dir))
                    }
                },
            },
        }
    }
}

/// `s` without white space at its end.
pub uninterp spec fn trimmed_end(s: Seq<u8>) -> Seq<u8>;

/// `bstr::ByteSlice::trim_end` leaves out white space at the end, as Unicode defines it. Which characters those are
/// is not said here, only that the rest is what `s` begins with.
#[verifier::external_body]
fn trim_end(s: &[u8]) -> (r: &[u8])
    ensures
        r@ == trimmed_end(s@),
        r@.len() <= s@.len(),
        r@ == s@.take(r@.len() as int),
{
    bstr::ByteSlice::trim_end(s)
}

/// What came of reading a file.
#[derive(Debug)]
pub enum ReadOutcome {
    NotFound,
    Failed,
    Content(Vec<u8>),
}

/// What a file that holds a path says.
#[derive(Debug)]
pub enum PlainFile {
    Missing,
    Failed,
    Path(Vec<u8>),
}

/// How large a file that holds a path may be.
pub const MAX_PLAIN_FILE_SIZE: u64 = 65536;

/// The path that a file holds. One that holds nothing counts as one that cannot be read.
pub fn plain_file(read: ReadOutcome) -> (r: PlainFile)
    ensures
        match read {
            ReadOutcome::NotFound => r is Missing,
            ReadOutcome::Failed => r is Failed,
            ReadOutcome::Content(s) => if trimmed_end(s@).len() == 0 {
                r is Failed
            } else {
                r matches PlainFile::Path(p) && p@ == trimmed_end(s@)
            },
        },
{
    match read {
        ReadOutcome::NotFound => PlainFile::Missing,
        ReadOutcome::Failed => PlainFile::Failed,
        ReadOutcome::Content(s) => {
            let t = trim_end(s.as_slice());
            if t.len() == 0 {
                PlainFile::Failed
            } else {
                PlainFile::Path(to_vec(t))
            }
        },
    }
}

/// The path that a file with the contents `input` names behind `gitdir: `.
pub fn gitdir(input: &[u8]) -> (r: Result<Vec<u8>, GitError>)
    ensures
        r is Ok <==> begins(input@, lit("gitdir: ")) && trimmed_end(
            from(input@, lit("gitdir: ").len() as int),
        ).len() > 0,
        r matches Ok(p) ==> p@ == trimmed_end(from(input@, lit("gitdir: ").len() as int)),
        r matches Err(e) ==> e is Gen,
{
    match strip_prefix(input, "gitdir: ".as_bytes()) {
        None => Err(GitError::Gen),
        Some(rest) => {
            let t = trim_end(rest);
            if t.len() == 0 {
                Err(GitError::Gen)
            } else {
                Ok(to_vec(t))
            }
        },
    }
}

/// The path `p`, from the directory of `file`.
pub open spec fn beside(file: Seq<u8>, p: Seq<u8>) -> Seq<u8> {
    match parent_of(file) {
        Some(d) => joined(d, p),
        None => p,
    }
}

/// The repository that the file `path` with the contents `contents` names.
pub fn hx_from_gitdir_file(path: &[u8], contents: &[u8]) -> (r: Result<Vec<u8>, GitError>)
    ensures
        r is Ok <==> begins(contents@, lit("gitdir: ")) && trimmed_end(
            from(contents@, lit("gitdir: ").len() as int),
        ).len() > 0,
        r matches Ok(p) ==> p@ == beside(
            path@,
            trimmed_end(from(contents@, lit("gitdir: ").len() as int)),
        ),
        r matches Err(e) ==> e is Gen,
{
    let named = match gitdir(contents) {
        Err(e) => {
            return Err(e);
        },
        Ok(p) => p,
    };
    match parent(path) {
        Some(d) => Ok(join(d, named.as_slice())),
        None => Ok(named),
    }
}

/// The path `p` that the file `file` names, from the directory of the file where it is relative.
pub open spec fn named_by(file: Seq<u8>, p: Seq<u8>) -> Option<Seq<u8>> {
    if absolute(p) {
        Some(p)
    } else {
        match parent_of(file) {
            Some(d) => Some(joined(d, p)),
            None => None,
        }
    }
}

/// What a directory looks like before its parts are looked at.
#[derive(Debug)]
pub enum DirKind {
    MaybeRepo,
    Submodule,
    LinkedWorkTreeDir,
    WorkTreeGitDir(Vec<u8>),
}

/// What a `DirKind` stands for.
pub enum DirKindView {
    MaybeRepo,
    Submodule,
    LinkedWorkTreeDir,
    WorkTreeGitDir(Seq<u8>),
}

impl View for DirKind {
    type V = DirKindView;

    open spec fn view(&self) -> DirKindView {
        match *self {
            DirKind::MaybeRepo => DirKindView::MaybeRepo,
            DirKind::Submodule => DirKindView::Submodule,
            DirKind::LinkedWorkTreeDir => DirKindView::LinkedWorkTreeDir,
            DirKind::WorkTreeGitDir(w) => DirKindView::WorkTreeGitDir(w@),
        }
    }
}

/// The worktree that the file `gitdir` of the repository `dot_git` names.
pub open spec fn named_worktree(dot_git: Seq<u8>, gitdir: PlainFile) -> Option<Seq<u8>> {
    match gitdir {
        PlainFile::Path(p) => match named_by(joined(dot_git, lit("gitdir")), p@) {
            Some(w) => Some(without_dot_git(w)),
            None => None,
        },
        _ => None,
    }
}

/// What worktrees share, and what the directory looks like: `from_file` where a file named it, with what its files
/// `commondir` and `gitdir` say.
pub open spec fn dir_kind(dot_git: Seq<u8>, from_file: bool, commondir: PlainFile, gitdir: PlainFile) -> Option<
    (Seq<u8>, DirKindView),
> {
    if from_file {
        match commondir {
            PlainFile::Failed => None,
            PlainFile::Path(c) => Some((joined(dot_git, c@), DirKindView::LinkedWorkTreeDir)),
            PlainFile::Missing => Some((dot_git, DirKindView::Submodule)),
        }
    } else {
        match (commondir, named_worktree(dot_git, gitdir)) {
            (PlainFile::Path(c), Some(w)) => Some((joined(dot_git, c@), DirKindView::WorkTreeGitDir(w))),
            _ => Some((dot_git, DirKindView::MaybeRepo)),
        }
    }
}

/// What worktrees share, and what the directory looks like.
pub fn classify(dot_git: &[u8], from_file: bool, commondir: &PlainFile, gitdir: &PlainFile) -> (r: Result<
    (Vec<u8>, DirKind),
    GitError,
>)
    ensures
        r is Ok <==> dir_kind(dot_git@, from_file, *commondir, *gitdir) is Some,
        r matches Ok(x) ==> dir_kind(dot_git@, from_file, *commondir, *gitdir) == Some((x.0@, x.1@)),
        r matches Err(e) ==> e is Gen,
{
    if from_file {
        return match commondir {
            PlainFile::Failed => Err(GitError::Gen),
            PlainFile::Path(c) => Ok((join(dot_git, c.as_slice()), DirKind::LinkedWorkTreeDir)),
            PlainFile::Missing => Ok((to_vec(dot_git), DirKind::Submodule)),
        };
    }
    let work_dir = match gitdir {
        PlainFile::Path(p) => if is_absolute(p.as_slice()) {
            Some(without_dot_git_dir(to_vec(p.as_slice())))
        } else {
            let file = join(dot_git, "gitdir".as_bytes());
            match parent(file.as_slice()) {
                Some(d) => Some(without_dot_git_dir(join(d, p.as_slice()))),
                None => None,
            }
        },
        _ => None,
    };
    match (commondir, work_dir) {
        (PlainFile::Path(c), Some(w)) => Ok((join(dot_git, c.as_slice()), DirKind::WorkTreeGitDir(w))),
        _ => Ok((to_vec(dot_git), DirKind::MaybeRepo)),
    }
}

/// What a directory is, by its path.
#[derive(Debug, Clone, Copy, PartialEq, Eq, Structural)]
pub enum GitRepositoryPathKind {
    Submodule,
    LinkedWorktree,
    Common,
}

/// The component behind the last `.git` among the first `k`, or the first of them; the last is left out.
pub open spec fn below_dot_git(v: Seq<PartView>, k: int, last: Option<Seq<u8>>) -> Option<Seq<u8>>
    decreases k,
{
    if k <= 0 || part_path(v[k - 1]) == lit(".git") {
        last
    } else {
        below_dot_git(v, k - 1, Some(part_path(v[k - 1])))
    }
}

/// What the directory is, by its path.
pub open spec fn path_kind(p: Seq<u8>) -> Option<GitRepositoryPathKind> {
    let v = parts(p);
    if name_of(p) == Some(lit(".git")) {
        Some(GitRepositoryPathKind::Common)
    } else {
        match below_dot_git(v, v.len() - 1, None) {
            None => None,
            Some(c) => if c == lit("modules") {
                Some(GitRepositoryPathKind::Submodule)
            } else if c == lit("worktrees") {
                Some(GitRepositoryPathKind::LinkedWorktree)
            } else {
                None
            },
        }
    }
}

/// Whether the last component of the path is `name`.
fn has_name(p: &[u8], name: &[u8]) -> (r: bool)
    ensures
        r == (name_of(p@) == Some(name@)),
{
    match file_name(p) {
        Some(n) => eq_bytes(n, name),
        None => false,
    }
}

/// What the directory is, by its path.
pub fn repository_kind(git_dir: &[u8]) -> (r: Option<GitRepositoryPathKind>)
    ensures
        r == path_kind(git_dir@),
{
    if has_name(git_dir, ".git".as_bytes()) {
        return Some(GitRepositoryPathKind::Common);
    }
    let v = parts_of(git_dir);
    let ghost x = parts_view(v@);
    let mut last: Option<Vec<u8>> = None;
    let mut k: usize = if v.len() > 0 {
        v.len() - 1
    } else {
        0
    };
    let mut stop = false;
    while k > 0 && !stop
        invariant
            k <= v@.len(),
            x == parts_view(v@),
            x == parts(git_dir@),
            below_dot_git(x, x.len() - 1, None) == (if stop {
                crate::git::config::source::maybe(last)
            } else {
                below_dot_git(x, k as int, crate::git::config::source::maybe(last))
            }),
        decreases k + (if stop { 0int } else { 1 }),
    {
        assert(x[k - 1] == v@[k - 1]@);
        let c = v[k - 1].to_path();
        if eq_bytes(c.as_slice(), ".git".as_bytes()) {
            stop = true;
        } else {
            last = Some(c);
            k -= 1;
        }
    }
    match &last {
        None => None,
        Some(c) => if eq_bytes(c.as_slice(), "modules".as_bytes()) {
            Some(GitRepositoryPathKind::Submodule)
        } else if eq_bytes(c.as_slice(), "worktrees".as_bytes()) {
            Some(GitRepositoryPathKind::LinkedWorktree)
        } else {
            None
        },
    }
}

/// The path by which a repository is told from others: `.` with its links resolved, others with every `..` carried
/// out, where that can be done.
pub fn conformed_git_dir(git_dir: &[u8], cwd: &[u8], resolved: Option<Vec<u8>>) -> (r: Vec<u8>)
    ensures
        r@ == (if is_here(git_dir@) {
            match resolved {
                Some(p) => p@,
                None => git_dir@,
            }
        } else {
            match normalized(git_dir@, cwd@) {
                Some(p) => p,
                None => git_dir@,
            }
        }),
{
    let conformed = if is_current_dir(git_dir) {
        resolved
    } else {
        normalize(git_dir, cwd)
    };
    match conformed {
        Some(p) => p,
        None => to_vec(git_dir),
    }
}

/// What kind of repository the directory `conformed` is, where nothing else tells; `index_exists` says whether it has
/// an index.
pub open spec fn kind_by_path(conformed: Seq<u8>, index_exists: bool) -> KindView {
    let dot_git = name_of(conformed) == Some(lit(".git"));
    if !(index_exists || dot_git) || extension_of(conformed) == Some(lit("git")) {
        KindView::PossiblyBare
    } else if path_kind(conformed) == Some(GitRepositoryPathKind::Submodule) {
        KindView::SubmoduleGitDir
    } else if dot_git {
        KindView::WorkTree(None)
    } else {
        KindView::PossiblyBare
    }
}

/// What kind of repository the directory `dot_git` is that looks like `kind`.
pub open spec fn repository_kind_of(kind: DirKindView, dot_git: Seq<u8>, conformed: Seq<u8>, index_exists: bool) -> KindView {
    match kind {
        DirKindView::LinkedWorkTreeDir => KindView::WorkTree(Some(dot_git)),
        DirKindView::WorkTreeGitDir(w) => KindView::WorkTreeGitDir(w),
        DirKindView::Submodule => KindView::Submodule(dot_git),
        DirKindView::MaybeRepo => kind_by_path(conformed, index_exists),
    }
}

/// What kind of repository the directory `dot_git` is that looks like `kind`. It is none, which is an error, where
/// what worktrees share has no directories `objects` and `refs`.
pub fn hx_is_git_with_metadata(
    kind: DirKind,
    dot_git: Vec<u8>,
    conformed: &[u8],
    index_exists: bool,
    objects_is_dir: bool,
    refs_is_dir: bool,
) -> (r: Result<GitRepositoryKind, GitError>)
    ensures
        r is Ok <==> objects_is_dir && refs_is_dir,
        r matches Ok(k) ==> k@ == repository_kind_of(kind@, dot_git@, conformed@, index_exists),
        r matches Err(e) ==> e is Gen,
{
    if !objects_is_dir || !refs_is_dir {
        return Err(GitError::Gen);
    }
    Ok(match kind {
        DirKind::LinkedWorkTreeDir => GitRepositoryKind::WorkTree { linked_git_dir: Some(dot_git) },
        DirKind::WorkTreeGitDir(work_dir) => GitRepositoryKind::WorkTreeGitDir { work_dir },
        DirKind::Submodule => GitRepositoryKind::Submodule { git_dir: dot_git },
        DirKind::MaybeRepo => {
            let named = has_name(conformed, ".git".as_bytes());
            let git_extension = match extension(conformed) {
                Some(x) => eq_bytes(x, "git".as_bytes()),
                None => false,
            };
            let submodule = match repository_kind(conformed) {
                Some(GitRepositoryPathKind::Submodule) => true,
                _ => false,
            };
            if !(index_exists || named) || git_extension {
                GitRepositoryKind::PossiblyBare
            } else if submodule {
                GitRepositoryKind::SubmoduleGitDir
            } else if named {
                GitRepositoryKind::WorkTree { linked_git_dir: None }
            } else {
                GitRepositoryKind::PossiblyBare
            }
        },
    })
}

/// A repository that a file names is a submodule or a linked worktree, and one that is a directory itself is
/// neither.
pub proof fn law_kind_shows_what_was_found(
    dot_git: Seq<u8>,
    from_file: bool,
    commondir: PlainFile,
    gitdir: PlainFile,
    conformed: Seq<u8>,
    index_exists: bool,
)
    requires
        dir_kind(dot_git, from_file, commondir, gitdir) is Some,
    ensures
        ({
            let looks = (dir_kind(dot_git, from_file, commondir, gitdir)->0).1;
            let kind = repository_kind_of(looks, dot_git, conformed, index_exists);
            from_file <==> kind is Submodule || (kind matches KindView::WorkTree(link) && link is Some)
        }),
{
}

/// The path that is looked at in the directory `cursor`: its `.git`, or itself where that is its name.
pub open spec fn candidate(cursor: Seq<u8>) -> Seq<u8> {
    if name_of(cursor) == Some(lit(".git")) {
        cursor
    } else {
        joined(cursor, lit(".git"))
    }
}

/// The path that is looked at in the directory `cursor`.
pub fn git_candidate(cursor: &[u8]) -> (r: Vec<u8>)
    ensures
        r@ == candidate(cursor@),
{
    if has_name(cursor, ".git".as_bytes()) {
        to_vec(cursor)
    } else {
        join(cursor, ".git".as_bytes())
    }
}

/// The directory that is looked at next when `path` is no repository: that above, from `cwd` where the path ends;
/// `None` at the root.
pub open spec fn upwards(path: Seq<u8>, cwd: Seq<u8>) -> Option<Seq<u8>> {
    let dir = match parent_of(path) {
        Some(d) => d,
        None => path,
    };
    parent_of(
        if dir.len() == 0 || dir == seq!['.' as u8] {
            cwd
        } else {
            dir
        },
    )
}

/// The directory that is looked at next when `path` is no repository.
pub fn go_up(path: &[u8], cwd: &[u8]) -> (r: Option<Vec<u8>>)
    ensures
        r is Some <==> upwards(path@, cwd@) is Some,
        r matches Some(d) ==> upwards(path@, cwd@) == Some(d@),
{
    let one: [u8; 1] = ['.' as u8];
    assert(one@ =~= seq!['.' as u8]);
    let dir = match parent(path) {
        Some(d) => d,
        None => path,
    };
    let from_dir = if dir.len() == 0 || eq_bytes(dir, &one) {
        cwd
    } else {
        dir
    };
    match parent(from_dir) {
        Some(d) => Some(to_vec(d)),
        None => None,
    }
}

/// What is looked at is always named `.git`.
pub proof fn law_candidate_is_dot_git(cursor: Seq<u8>)
    ensures
        name_of(candidate(cursor)) == Some(lit(".git")),
{
    reveal_strlit(".git");
    vstd::utf8::is_ascii_chars_encode_utf8(".git"@);
    let g = lit(".git");
    assert(g =~= seq!['.' as u8, 'g' as u8, 'i' as u8, 't' as u8]);
    if name_of(cursor) != Some(g) {
        let p = joined(cursor, g);
        let n = p.len() as int;
        assert(p[n - 1] == 't' as u8 && p[n - 2] == 'i' as u8 && p[n - 3] == 'g' as u8 && p[n - 4]
            == '.' as u8);
        assert(n > 4 ==> p[n - 5] == '/' as u8);
        reveal_with_fuel(crate::path::component_start, 6);
        assert(crate::path::component_start(p, n) == n - 4);
        assert(crate::path::trimmed(p, n) == n);
        let c = crate::path::last_component(p);
        assert(c =~= g);
        assert(c != seq!['.' as u8]) by {
            assert(c.len() == 4);
        }
        assert(c != seq!['.' as u8, '.' as u8]) by {
            assert(c.len() == 4);
        }
    }
}

proof fn lemma_same_beginning(p: Seq<u8>, q: Seq<u8>, end: int)
    requires
        0 <= end <= p.len(),
        end <= q.len(),
        forall|i: int| 0 <= i < end ==> p[i] == q[i],
    ensures
        crate::path::component_start(p, end) == crate::path::component_start(q, end),
        crate::path::trimmed(p, end) == crate::path::trimmed(q, end),
    decreases end,
{
    if end > 0 {
        lemma_same_beginning(p, q, end - 1);
        crate::path::lemma_component_start(p, end);
        let st = crate::path::component_start(p, end);
        if st < end {
            lemma_same_beginning(p, q, st);
        }
    }
}

proof fn lemma_trimmed_again(p: Seq<u8>, end: int)
    requires
        0 <= end <= p.len(),
    ensures
        0 <= crate::path::trimmed(p, end) <= end,
        end > 0 ==> crate::path::trimmed(p, end) > 0,
        crate::path::trimmed(p, crate::path::trimmed(p, end)) == crate::path::trimmed(p, end),
    decreases end,
{
    crate::path::lemma_component_start(p, end);
    let st = crate::path::component_start(p, end);
    if end <= 0 || (end == 1 && p[0] == '/' as u8) {
    } else if p[end - 1] == '/' as u8 {
        lemma_trimmed_again(p, end - 1);
    } else if 0 < st && st == end - 1 && p[st] == '.' as u8 {
        lemma_trimmed_again(p, st);
    }
}

/// Where a directory is no repository, the one above it is looked at next.
pub proof fn law_search_goes_up(cursor: Seq<u8>, cwd: Seq<u8>)
    requires
        absolute(cursor),
        name_of(cursor) != Some(lit(".git")),
    ensures
        upwards(candidate(cursor), cwd) == parent_of(cursor),
{
    reveal_strlit(".git");
    vstd::utf8::is_ascii_chars_encode_utf8(".git"@);
    let g = lit(".git");
    assert(g =~= seq!['.' as u8, 'g' as u8, 'i' as u8, 't' as u8]);
    let p = joined(cursor, g);
    let n = p.len() as int;
    let m = cursor.len() as int;
    assert(p[n - 1] == 't' as u8 && p[n - 2] == 'i' as u8 && p[n - 3] == 'g' as u8 && p[n - 4] == '.' as u8);
    assert(p[n - 5] == '/' as u8);
    reveal_with_fuel(crate::path::component_start, 6);
    assert(crate::path::component_start(p, n) == n - 4);
    assert(crate::path::trimmed(p, n) == n);
    let e = crate::path::trimmed(cursor, m);
    lemma_trimmed_again(cursor, m);
    lemma_same_beginning(p, cursor, m);
    assert(crate::path::trimmed(p, n - 4) == e);
    let dir = cursor.take(e);
    assert(p.subrange(0, e) =~= dir);
    assert(parent_of(p) == Some(dir));
    assert(dir[0] == '/' as u8);
    lemma_same_beginning(dir, cursor, e);
    assert(crate::path::trimmed(dir, e) == e);
    if crate::path::has_last(cursor) {
        let st = crate::path::component_start(cursor, e);
        crate::path::lemma_component_start(cursor, e);
        lemma_same_beginning(dir, cursor, st);
        lemma_trimmed_again(cursor, st);
        let t = crate::path::trimmed(cursor, st);
        assert(dir.subrange(0, t) =~= cursor.subrange(0, t));
    }
}

/// A part of a repository that differs from another.
#[derive(Debug)]
pub struct Platform;

/// An entry of a directory.
#[derive(Debug)]
pub struct GixDirEntry {
    pub rela_path: Vec<u8>,
}

/// Where a file that was renamed or copied comes from.
#[derive(Debug)]
pub enum RewriteSource {
    RewriteFromIndex { source_rela_path: Vec<u8> },
    CopyFromDirectoryEntry { source_dirwalk_entry: GixDirEntry },
}

impl RewriteSource {
    /// The path that the file comes from.
    pub open spec fn path_of(self) -> Seq<u8> {
        match self {
            RewriteSource::RewriteFromIndex { source_rela_path } => source_rela_path@,
            RewriteSource::CopyFromDirectoryEntry { source_dirwalk_entry } => source_dirwalk_entry.rela_path@,
        }
    }

    /// The path that the file comes from.
    pub fn helix_rela_path(&self) -> (r: &[u8])
        ensures
            r@ == self.path_of(),
    {
        match self {
            RewriteSource::RewriteFromIndex { source_rela_path } => source_rela_path.as_slice(),
            RewriteSource::CopyFromDirectoryEntry { source_dirwalk_entry } => source_dirwalk_entry.rela_path.as_slice(),
        }
    }
}

} // verus!
