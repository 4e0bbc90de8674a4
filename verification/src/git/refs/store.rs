//! Where the files of references are, and which of them a short name may mean.
use crate::bytes::{lit, to_vec};
use crate::git::error::GitError;
use crate::git::refs::loose::{parse, target_of, Target, TargetView};
use crate::git::refs::name::{category_of, expanded, pseudo_ref, valid_partial, is_pseudo_ref, Category, CategoryView, FullName, FullNameRef, PartialName};
use crate::path::{join, joined};
use vstd::prelude::*;

verus! {

/// From how many bytes on the file of packed references is better mapped than read.
pub const PACKED_BUFFER_MMAP_THRESHOLD: u64 = 32768;

/// Where the references of a repository are.
#[derive(Debug)]
pub struct RefFileStore {
    pub git_dir: Vec<u8>,
    pub packed_buffer_mmap_threshold: u64,
    /// What all worktrees share, where it is not in `git_dir`.
    pub common_dir: Option<Vec<u8>>,
}

/// The directory of the linked worktree `name`.
pub open spec fn linked_git_dir(common: Seq<u8>, name: Seq<u8>) -> Seq<u8> {
    joined(joined(common, lit("worktrees")), name)
}

/// The directory of the reference `name` and its name within.
pub open spec fn base_dir(git_dir: Seq<u8>, common: Seq<u8>, name: Seq<u8>, is_reflog: bool) -> (Seq<u8>, Seq<u8>) {
    match category_of(name) {
        None => (common, name),
        Some((c, short)) => match c {
            CategoryView::LinkedPseudoRef(worktree) => if is_reflog {
                (linked_git_dir(common, worktree), short)
            } else {
                (common, name)
            },
            CategoryView::Tag
            | CategoryView::LocalBranch
            | CategoryView::RemoteBranch
            | CategoryView::Note => (common, name),
            CategoryView::MainRef | CategoryView::MainPseudoRef => (common, short),
            CategoryView::LinkedRef(worktree) => if category_of(short) matches Some((inner, _))
                && inner.worktree_private() {
                if is_reflog {
                    (linked_git_dir(common, worktree), short)
                } else {
                    (common, name)
                }
            } else {
                (common, short)
            },
            CategoryView::PseudoRef
            | CategoryView::Bisect
            | CategoryView::Rewritten
            | CategoryView::WorktreePrivate => (git_dir, name),
        },
    }
}

impl RefFileStore {
    /// The directory that all worktrees share.
    pub open spec fn common(self) -> Seq<u8> {
        match self.common_dir {
            Some(dir) => dir@,
            None => self.git_dir@,
        }
    }

    /// The references of the repository at `git_dir`.
    pub fn at(git_dir: Vec<u8>) -> (r: RefFileStore)
        ensures
            r.git_dir@ == git_dir@,
            r.common_dir is None,
            r.packed_buffer_mmap_threshold == 32 * 1024,
    {
        RefFileStore {
            git_dir,
            packed_buffer_mmap_threshold: PACKED_BUFFER_MMAP_THRESHOLD,
            common_dir: None,
        }
    }

    /// The directory that all worktrees share.
    pub fn common_dir_resolved(&self) -> (r: &[u8])
        ensures
            r@ == self.common(),
    {
        match &self.common_dir {
            Some(dir) => dir.as_slice(),
            None => self.git_dir.as_slice(),
        }
    }

    /// The file of packed references.
    pub fn packed_refs_path(&self) -> (r: Vec<u8>)
        ensures
            r@ == joined(self.common(), lit("packed-refs")),
    {
        join(self.common_dir_resolved(), "packed-refs".as_bytes())
    }

    /// The directory of the reference `name` and its name within.
    pub fn to_base_dir_and_relative_name(&self, name: FullNameRef<'_>, is_reflog: bool) -> (r: (
        Vec<u8>,
        Vec<u8>,
    ))
        ensures
            (r.0@, r.1@) == base_dir(self.git_dir@, self.common(), name@, is_reflog),
    {
        let common = self.common_dir_resolved();
        match name.category_and_short_name() {
            None => (to_vec(common), to_vec(name.0)),
            Some((c, short)) => match c {
                Category::LinkedPseudoRef(worktree) => if is_reflog {
                    let dir = join(common, "worktrees".as_bytes());
                    (join(dir.as_slice(), worktree.as_slice()), to_vec(short))
                } else {
                    (to_vec(common), to_vec(name.0))
                },
                Category::Tag | Category::LocalBranch | Category::RemoteBranch | Category::Note => (
                    to_vec(common),
                    to_vec(name.0),
                ),
                Category::MainRef | Category::MainPseudoRef => (to_vec(common), to_vec(short)),
                Category::LinkedRef(worktree) => {
                    let private = match FullNameRef(short).category_and_short_name() {
                        Some((inner, _)) => inner.is_worktree_private(),
                        None => false,
                    };
                    if !private {
                        (to_vec(common), to_vec(short))
                    } else if is_reflog {
                        let dir = join(common, "worktrees".as_bytes());
                        (join(dir.as_slice(), worktree.as_slice()), to_vec(short))
                    } else {
                        (to_vec(common), to_vec(name.0))
                    }
                },
                Category::PseudoRef
                | Category::Bisect
                | Category::Rewritten
                | Category::WorktreePrivate => (to_vec(self.git_dir.as_slice()), to_vec(name.0)),
            },
        }
    }

    /// The file of the reference `name`.
    pub fn reference_path(&self, name: FullNameRef<'_>) -> (r: Vec<u8>)
        ensures
            r@ == ({
                let (base, relative) = base_dir(self.git_dir@, self.common(), name@, false);
                joined(base, relative)
            }),
    {
        let (base, relative) = self.to_base_dir_and_relative_name(name, false);
        join(base.as_slice(), relative.as_slice())
    }
}

/// The complete names in the four directories that are searched in order.
pub open spec fn in_directories(name: Seq<u8>, consider_pseudo: bool) -> Seq<Seq<u8>> {
    seq![
        expanded(name, lit(""), consider_pseudo),
        expanded(name, lit("tags"), consider_pseudo),
        expanded(name, lit("heads"), consider_pseudo),
        expanded(name, lit("remotes"), consider_pseudo),
    ]
}

/// The complete names that `name` may mean, in the order in which they are looked up.
pub open spec fn candidates(name: Seq<u8>) -> Seq<Seq<u8>> {
    (if pseudo_ref(name) {
        seq![expanded(name, lit(""), true)] + in_directories(name, false)
    } else {
        in_directories(name, true)
    }) + (if name == lit("HEAD") {
        Seq::<Seq<u8>>::empty()
    } else {
        seq![expanded(name + lit("/HEAD"), lit("remotes"), true)]
    })
}

/// The names that stand for those of `v`.
pub open spec fn names_view(v: Seq<FullName>) -> Seq<Seq<u8>> {
    Seq::new(v.len(), |i: int| v[i]@)
}

/// A valid name stays valid with `/HEAD` behind it.
pub proof fn lemma_head_is_valid(name: Seq<u8>)
    requires
        valid_partial(name),
    ensures
        valid_partial(name + lit("/HEAD")),
        name + lit("/HEAD") == name + seq!['/' as u8] + lit("HEAD"),
{
    reveal_strlit("/HEAD");
    reveal_strlit("HEAD");
    vstd::utf8::is_ascii_chars_encode_utf8("/HEAD"@);
    vstd::utf8::is_ascii_chars_encode_utf8("HEAD"@);
    let s = name + lit("/HEAD");
    assert(lit("/HEAD") =~= seq!['/' as u8, 'H' as u8, 'E' as u8, 'A' as u8, 'D' as u8]);
    assert(lit("HEAD") =~= seq!['H' as u8, 'E' as u8, 'A' as u8, 'D' as u8]);
    assert(s =~= name + seq!['/' as u8] + lit("HEAD"));
    assert(s[0] == name[0]);
    assert forall|i: int| 0 <= i < s.len() implies !crate::git::refs::name::forbidden(#[trigger] s[i]) by {
        if i < name.len() {
            assert(s[i] == name[i]);
        }
    }
    assert forall|i: int| 0 < i < s.len() implies !crate::git::refs::name::forbidden_pair(
        s[i - 1],
        #[trigger] s[i],
    ) by {
        if i < name.len() {
            assert(s[i] == name[i] && s[i - 1] == name[i - 1]);
        } else if i == name.len() {
            assert(s[i - 1] == name[name.len() - 1]);
        }
    }
    assert forall|i: int| 0 <= i < s.len() && #[trigger] s[i] == '/' as u8 implies !crate::git::refs::name::lock_before(
        s,
        i,
    ) by {
        if i < name.len() {
            assert(s[i] == name[i]);
            assert(crate::git::refs::name::lock_before(s, i) ==> crate::git::refs::name::lock_before(name, i));
        } else {
            assert(i == name.len());
            assert(crate::git::refs::name::lock_before(s, i) ==> crate::git::refs::name::lock_before(name, i));
        }
    }
}

/// The branch that a remote named `name` points to.
fn head_of_remote(name: &PartialName) -> (r: FullName)
    requires
        valid_partial(name@),
    ensures
        r@ == expanded(name@ + lit("/HEAD"), lit("remotes"), true),
{
    proof {
        lemma_head_is_valid(name@);
    }
    match name.join("HEAD".as_bytes()) {
        Ok(head) => head.construct_full_name_ref("remotes".as_bytes(), true),
        Err(_) => FullName(Vec::new()),
    }
}

/// The complete names in the four directories that are searched in order.
fn names_in_directories(name: &PartialName, consider_pseudo: bool, out: &mut Vec<FullName>)
    ensures
        names_view(final(out)@) == names_view(old(out)@) + in_directories(name@, consider_pseudo),
{
    let first = name.construct_full_name_ref("".as_bytes(), consider_pseudo);
    let second = name.construct_full_name_ref("tags".as_bytes(), consider_pseudo);
    let third = name.construct_full_name_ref("heads".as_bytes(), consider_pseudo);
    let fourth = name.construct_full_name_ref("remotes".as_bytes(), consider_pseudo);
    out.push(first);
    out.push(second);
    out.push(third);
    out.push(fourth);
    assert(names_view(out@) =~= names_view(old(out)@) + in_directories(name@, consider_pseudo));
}

/// The complete names that `name` may mean, in the order in which they are looked up.
pub fn candidate_names(name: &PartialName) -> (r: Vec<FullName>)
    requires
        valid_partial(name@),
    ensures
        names_view(r@) == candidates(name@),
{
    let mut out: Vec<FullName> = Vec::new();
    let pseudo = is_pseudo_ref(name.0.as_slice());
    if pseudo {
        let first = name.construct_full_name_ref("".as_bytes(), true);
        out.push(first);
    }
    let ghost start = names_view(out@);
    names_in_directories(name, !pseudo, &mut out);
    let ghost middle = names_view(out@);
    assert(pseudo ==> start =~= seq![expanded(name@, lit(""), true)]);
    assert(!pseudo ==> middle =~= in_directories(name@, true));
    if !name.is("HEAD".as_bytes()) {
        let last = head_of_remote(name);
        out.push(last);
        assert(names_view(out@) =~= middle + seq![expanded(
            name@ + lit("/HEAD"),
            lit("remotes"),
            true,
        )]);
    } else {
        assert(names_view(out@) =~= middle + Seq::<Seq<u8>>::empty());
    }
    out
}

/// A name that looks complete, as `refs/heads/main` and `HEAD` do, is looked up as it is before
/// anything else.
pub proof fn law_full_name_is_tried_first(name: Seq<u8>)
    requires
        crate::git::refs::name::looks_full(name, true),
    ensures
        candidates(name).len() > 0,
        candidates(name)[0] == name,
{
    reveal_strlit("");
    vstd::utf8::is_ascii_chars_encode_utf8(""@);
    assert(expanded(name, lit(""), true) =~= name);
}

/// A short name means a tag before a branch, and a branch before a branch of a remote.
pub proof fn law_tags_come_before_branches(name: Seq<u8>)
    requires
        !pseudo_ref(name),
        !crate::git::refs::name::looks_full(name, true),
    ensures
        candidates(name).len() >= 4,
        candidates(name)[0] == lit("refs/") + name,
        candidates(name)[1] == lit("refs/tags/") + name,
        candidates(name)[2] == lit("refs/heads/") + name,
        candidates(name)[3] == lit("refs/remotes/") + name,
{
    reveal_strlit("");
    reveal_strlit("refs/");
    reveal_strlit("tags");
    reveal_strlit("heads");
    reveal_strlit("remotes");
    reveal_strlit("refs/tags/");
    reveal_strlit("refs/heads/");
    reveal_strlit("refs/remotes/");
    vstd::utf8::is_ascii_chars_encode_utf8(""@);
    vstd::utf8::is_ascii_chars_encode_utf8("refs/"@);
    vstd::utf8::is_ascii_chars_encode_utf8("tags"@);
    vstd::utf8::is_ascii_chars_encode_utf8("heads"@);
    vstd::utf8::is_ascii_chars_encode_utf8("remotes"@);
    vstd::utf8::is_ascii_chars_encode_utf8("refs/tags/"@);
    vstd::utf8::is_ascii_chars_encode_utf8("refs/heads/"@);
    vstd::utf8::is_ascii_chars_encode_utf8("refs/remotes/"@);
    assert(candidates(name)[0] =~= lit("refs/") + name);
    assert(candidates(name)[1] =~= lit("refs/tags/") + name);
    assert(candidates(name)[2] =~= lit("refs/heads/") + name);
    assert(candidates(name)[3] =~= lit("refs/remotes/") + name);
}

/// A reference that was found.
#[derive(Debug)]
pub struct RawReference {
    pub name: FullName,
    pub target: Target,
    pub peeled: Option<crate::git::oid::ObjectId>,
}

/// What came of reading the file of a reference.
#[derive(Debug)]
pub enum RefFile {
    Missing,
    /// A part of the path is no directory.
    NotADirectory,
    Failed,
    Contents(Vec<u8>),
}

/// What the lookup of a name comes to, once the files of the first names that it may mean were
/// read.
#[derive(Debug)]
pub enum Lookup {
    /// The file of this reference is to be read next.
    Read(FullName),
    Found(RawReference),
    NotFound,
    Failed(GitError),
}

pub enum LookupView {
    Read(Seq<u8>),
    Found(Seq<u8>, TargetView),
    NotFound,
    Failed,
}

impl Lookup {
    /// The lookup comes to what `v` says. A reference that was found is not followed yet.
    pub open spec fn is(self, v: LookupView) -> bool {
        match v {
            LookupView::Read(name) => self matches Lookup::Read(n) && n@ == name,
            LookupView::Found(name, target) => self matches Lookup::Found(x) && x.name@ == name && x.target@
                == target && x.peeled is None,
            LookupView::NotFound => self is NotFound,
            LookupView::Failed => self matches Lookup::Failed(e) && e is Gen,
        }
    }
}

/// What the lookup of the names from `i` on comes to: the first file that is there decides.
pub open spec fn lookup(names: Seq<Seq<u8>>, files: Seq<RefFile>, i: int) -> LookupView
    decreases names.len() - i,
{
    if i >= names.len() {
        LookupView::NotFound
    } else if i >= files.len() {
        LookupView::Read(names[i])
    } else {
        match files[i] {
            RefFile::Missing | RefFile::NotADirectory => lookup(names, files, i + 1),
            RefFile::Failed => LookupView::Failed,
            RefFile::Contents(s) => match target_of(s@) {
                None => LookupView::Failed,
                Some(t) => LookupView::Found(names[i], t),
            },
        }
    }
}

/// Looks up a name that may be short. `files` is what came of reading the files of the first
/// names that it may mean.
pub fn find_one_with_verified_input(name: &PartialName, files: &Vec<RefFile>) -> (r: Lookup)
    requires
        valid_partial(name@),
    ensures
        r.is(lookup(candidates(name@), files@, 0)),
{
    let mut names = candidate_names(name);
    let ghost all = names_view(names@);
    let mut i: usize = 0;
    while i < names.len()
        invariant
            i <= names@.len(),
            all == names_view(names@),
            all == candidates(name@),
            lookup(all, files@, 0) == lookup(all, files@, i as int),
        decreases names.len() - i,
    {
        assert(all[i as int] == names@[i as int]@);
        if i >= files.len() {
            return Lookup::Read(names.swap_remove(i));
        }
        match &files[i] {
            RefFile::Missing => {},
            RefFile::NotADirectory => {},
            RefFile::Failed => {
                return Lookup::Failed(GitError::Gen);
            },
            RefFile::Contents(s) => match parse(s.as_slice()) {
                Err(_) => {
                    return Lookup::Failed(GitError::Gen);
                },
                Ok(target) => {
                    return Lookup::Found(RawReference { name: names.swap_remove(i), target, peeled: None });
                },
            },
        }
        i += 1;
    }
    Lookup::NotFound
}

/// Files that are read later do not change what was found before.
pub proof fn law_first_file_decides(names: Seq<Seq<u8>>, files: Seq<RefFile>, more: Seq<RefFile>, i: int)
    requires
        0 <= i,
        !(lookup(names, files, i) is Read),
    ensures
        lookup(names, files + more, i) == lookup(names, files, i),
    decreases names.len() - i,
{
    if i < names.len() && i < files.len() {
        assert((files + more)[i] == files[i]);
        if files[i] is Missing || files[i] is NotADirectory {
            law_first_file_decides(names, files, more, i + 1);
        }
    }
}

/// What reading the packed references comes to, in view of what is kept of them.
#[derive(Debug, Clone, Copy, PartialEq, Eq, Structural)]
pub enum SnapshotAction {
    /// What is kept is recent.
    Keep,
    /// The file is gone.
    Forget,
    /// The file is to be read.
    Open,
}

/// What to do when what is kept was modified at `kept` and the file at `current`, in nanoseconds.
pub fn recent_snapshot(kept: Option<i128>, current: Option<i128>) -> (r: SnapshotAction)
    ensures
        r is Forget <==> kept is Some && current is None,
        r is Open <==> (current matches Some(c) && (kept matches Some(k) ==> k < c)),
        r is Keep <==> (kept is None && current is None) || (kept matches Some(k) && current matches Some(
            c,
        ) && k >= c),
{
    match (kept, current) {
        (None, None) => SnapshotAction::Keep,
        (Some(_), None) => SnapshotAction::Forget,
        (Some(k), Some(c)) => if k < c {
            SnapshotAction::Open
        } else {
            SnapshotAction::Keep
        },
        (None, Some(_)) => SnapshotAction::Open,
    }
}

} // verus!
