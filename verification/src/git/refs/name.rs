//! The names of references.
use crate::ascii::upper;
use crate::bytes::{begins, eq_bytes, find_byte, from, lit, pos_of, push_all, starts_with, strip_prefix, to_vec};
use crate::git::error::GitError;
use vstd::prelude::*;

verus! {

/// No name of a reference holds `b`.
pub open spec fn forbidden(b: u8) -> bool {
    b <= 0x20 || b == 0x7f || b == '\\' as u8 || b == '^' as u8 || b == ':' as u8 || b == '[' as u8
        || b == '?' as u8 || b == '~' as u8 || b == '*' as u8
}

/// The two bytes `a` and `b` do not follow each other in the name of a reference.
pub open spec fn forbidden_pair(a: u8, b: u8) -> bool {
    (b == '.' as u8 && (a == '.' as u8 || a == '/' as u8)) || (b == '{' as u8 && a == '@' as u8) || (b
        == '/' as u8 && a == '/' as u8)
}

/// `.lock` stands right before position `i` of `s`.
pub open spec fn lock_before(s: Seq<u8>, i: int) -> bool {
    5 <= i <= s.len() && s[i - 5] == '.' as u8 && s[i - 4] == 'l' as u8 && s[i - 3] == 'o' as u8 && s[i
        - 2] == 'c' as u8 && s[i - 1] == 'k' as u8
}

/// What every name of a reference keeps to, be it complete or in part.
pub open spec fn valid_partial(s: Seq<u8>) -> bool {
    &&& s.len() > 0
    &&& s[0] != '/' as u8
    &&& s[s.len() - 1] != '/' as u8
    &&& forall|i: int| 0 <= i < s.len() ==> !forbidden(#[trigger] s[i])
    &&& forall|i: int| 0 < i < s.len() ==> !forbidden_pair(s[i - 1], #[trigger] s[i])
    &&& forall|i: int| 0 <= i < s.len() && #[trigger] s[i] == '/' as u8 ==> !lock_before(s, i)
    &&& !lock_before(s, s.len() as int)
}

/// `s` is made of `A` to `Z` and `_` alone.
pub open spec fn pseudo_ref(s: Seq<u8>) -> bool {
    forall|i: int| 0 <= i < s.len() ==> upper(#[trigger] s[i]) || s[i] == '_' as u8
}

/// `s` can be the complete name of a reference: it has a slash, or looks like `HEAD`.
pub open spec fn valid_complete(s: Seq<u8>) -> bool {
    valid_partial(s) && (s.contains('/' as u8) || pseudo_ref(s))
}

/// `.lock` stands right before position `i`.
fn is_lock_before(s: &[u8], i: usize) -> (r: bool)
    requires
        i <= s@.len(),
    ensures
        r == lock_before(s@, i as int),
{
    i >= 5 && s[i - 5] == '.' as u8 && s[i - 4] == 'l' as u8 && s[i - 3] == 'o' as u8 && s[i - 2]
        == 'c' as u8 && s[i - 1] == 'k' as u8
}

/// No name of a reference holds `b`.
fn is_forbidden(b: u8) -> (r: bool)
    ensures
        r == forbidden(b),
{
    b <= 0x20 || b == 0x7f || b == '\\' as u8 || b == '^' as u8 || b == ':' as u8 || b == '[' as u8
        || b == '?' as u8 || b == '~' as u8 || b == '*' as u8
}

/// Whether `input` keeps to what holds of every name.
pub fn validate_tag_name_inner(input: &[u8]) -> (r: Result<(), GitError>)
    ensures
        r is Ok <==> valid_partial(input@),
        r matches Err(e) ==> e is Gen,
{
    if input.len() == 0 {
        return Err(GitError::Gen);
    }
    if input[0] == '/' as u8 || input[input.len() - 1] == '/' as u8 {
        return Err(GitError::Gen);
    }
    let mut i: usize = 0;
    while i < input.len()
        invariant
            i <= input@.len(),
            forall|j: int| 0 <= j < i ==> !forbidden(#[trigger] input@[j]),
            forall|j: int| 0 < j < i ==> !forbidden_pair(input@[j - 1], #[trigger] input@[j]),
            forall|j: int|
                0 <= j < i && #[trigger] input@[j] == '/' as u8 ==> !lock_before(input@, j),
        decreases input.len() - i,
    {
        let b = input[i];
        if is_forbidden(b) {
            return Err(GitError::Gen);
        }
        if i > 0 {
            let a = input[i - 1];
            if (b == '.' as u8 && (a == '.' as u8 || a == '/' as u8)) || (b == '{' as u8 && a
                == '@' as u8) || (b == '/' as u8 && a == '/' as u8) {
                assert(forbidden_pair(input@[i - 1], input@[i as int]));
                return Err(GitError::Gen);
            }
        }
        if b == '/' as u8 && is_lock_before(input, i) {
            return Err(GitError::Gen);
        }
        i += 1;
    }
    if is_lock_before(input, input.len()) {
        return Err(GitError::Gen);
    }
    Ok(())
}

/// Whether `name` is made of `A` to `Z` and `_` alone.
pub fn is_pseudo_ref(name: &[u8]) -> (r: bool)
    ensures
        r == pseudo_ref(name@),
{
    let mut i: usize = 0;
    while i < name.len()
        invariant
            i <= name@.len(),
            forall|j: int| 0 <= j < i ==> upper(#[trigger] name@[j]) || name@[j] == '_' as u8,
        decreases name.len() - i,
    {
        let b = name[i];
        if !((0x41 <= b && b <= 0x5a) || b == '_' as u8) {
            return false;
        }
        i += 1;
    }
    true
}

/// Whether `name` can be the complete name of a reference.
pub fn validate_reference_name(name: &[u8]) -> (r: Result<(), GitError>)
    ensures
        r is Ok <==> valid_complete(name@),
        r matches Err(e) ==> e is Gen,
{
    match validate_tag_name_inner(name) {
        Err(e) => Err(e),
        Ok(()) => {
            let slash = crate::bytes::contains_byte(name, '/' as u8);
            if slash || is_pseudo_ref(name) {
                Ok(())
            } else {
                Err(GitError::Gen)
            }
        },
    }
}

/// Whether `name` can be a part of the name of a reference.
pub fn validate_reference_name_partial(name: &[u8]) -> (r: Result<(), GitError>)
    ensures
        r is Ok <==> valid_partial(name@),
        r matches Err(e) ==> e is Gen,
{
    validate_tag_name_inner(name)
}

/// What a reference is for, by its name.
#[derive(Debug)]
pub enum Category {
    Tag,
    LocalBranch,
    RemoteBranch,
    Note,
    PseudoRef,
    MainPseudoRef,
    MainRef,
    /// The name of the worktree comes with it.
    LinkedPseudoRef(Vec<u8>),
    /// The name of the worktree comes with it.
    LinkedRef(Vec<u8>),
    Bisect,
    Rewritten,
    WorktreePrivate,
}

/// What a `Category` stands for.
pub enum CategoryView {
    Tag,
    LocalBranch,
    RemoteBranch,
    Note,
    PseudoRef,
    MainPseudoRef,
    MainRef,
    LinkedPseudoRef(Seq<u8>),
    LinkedRef(Seq<u8>),
    Bisect,
    Rewritten,
    WorktreePrivate,
}

impl View for Category {
    type V = CategoryView;

    open spec fn view(&self) -> CategoryView {
        match *self {
            Category::Tag => CategoryView::Tag,
            Category::LocalBranch => CategoryView::LocalBranch,
            Category::RemoteBranch => CategoryView::RemoteBranch,
            Category::Note => CategoryView::Note,
            Category::PseudoRef => CategoryView::PseudoRef,
            Category::MainPseudoRef => CategoryView::MainPseudoRef,
            Category::MainRef => CategoryView::MainRef,
            Category::LinkedPseudoRef(name) => CategoryView::LinkedPseudoRef(name@),
            Category::LinkedRef(name) => CategoryView::LinkedRef(name@),
            Category::Bisect => CategoryView::Bisect,
            Category::Rewritten => CategoryView::Rewritten,
            Category::WorktreePrivate => CategoryView::WorktreePrivate,
        }
    }
}

impl CategoryView {
    /// References of this category belong to one worktree.
    pub open spec fn worktree_private(self) -> bool {
        self is MainPseudoRef || self is PseudoRef || self is LinkedPseudoRef || self is WorktreePrivate
            || self is Rewritten || self is Bisect
    }

    /// What the names of this category begin with.
    pub open spec fn prefix_of(self) -> Seq<u8> {
        match self {
            CategoryView::Tag => lit("refs/tags/"),
            CategoryView::LocalBranch => lit("refs/heads/"),
            CategoryView::RemoteBranch => lit("refs/remotes/"),
            CategoryView::Note => lit("refs/notes/"),
            CategoryView::MainPseudoRef => lit("main-worktree/"),
            CategoryView::MainRef => lit("main-worktree/refs/"),
            CategoryView::PseudoRef => lit(""),
            CategoryView::LinkedPseudoRef(_) => lit("worktrees/"),
            CategoryView::LinkedRef(_) => lit("worktrees/"),
            CategoryView::Bisect => lit("refs/bisect/"),
            CategoryView::Rewritten => lit("refs/rewritten/"),
            CategoryView::WorktreePrivate => lit("refs/worktree/"),
        }
    }
}

impl Category {
    /// What the names of this category begin with.
    pub fn prefix(&self) -> (r: &'static [u8])
        ensures
            r@ == self@.prefix_of(),
    {
        match self {
            Category::Tag => "refs/tags/".as_bytes(),
            Category::LocalBranch => "refs/heads/".as_bytes(),
            Category::RemoteBranch => "refs/remotes/".as_bytes(),
            Category::Note => "refs/notes/".as_bytes(),
            Category::MainPseudoRef => "main-worktree/".as_bytes(),
            Category::MainRef => "main-worktree/refs/".as_bytes(),
            Category::PseudoRef => "".as_bytes(),
            Category::LinkedPseudoRef(_) => "worktrees/".as_bytes(),
            Category::LinkedRef(_) => "worktrees/".as_bytes(),
            Category::Bisect => "refs/bisect/".as_bytes(),
            Category::Rewritten => "refs/rewritten/".as_bytes(),
            Category::WorktreePrivate => "refs/worktree/".as_bytes(),
        }
    }

    /// Whether references of this category belong to one worktree.
    pub fn is_worktree_private(&self) -> (r: bool)
        ensures
            r == self@.worktree_private(),
    {
        match self {
            Category::MainPseudoRef
            | Category::PseudoRef
            | Category::LinkedPseudoRef(_)
            | Category::WorktreePrivate
            | Category::Rewritten
            | Category::Bisect => true,
            _ => false,
        }
    }
}

/// The category and the short name within the worktree `worktree`, of what follows its name.
pub open spec fn linked(worktree: Seq<u8>, rest: Seq<u8>) -> Option<(CategoryView, Seq<u8>)> {
    if begins(rest, lit("refs/")) {
        Some((CategoryView::LinkedRef(worktree), rest))
    } else if pseudo_ref(rest) {
        Some((CategoryView::LinkedPseudoRef(worktree), rest))
    } else {
        None
    }
}

/// The category and the short name of the reference `name`.
pub open spec fn category_of(name: Seq<u8>) -> Option<(CategoryView, Seq<u8>)> {
    if begins(name, lit("refs/tags/")) {
        Some((CategoryView::Tag, from(name, lit("refs/tags/").len() as int)))
    } else if begins(name, lit("refs/heads/")) {
        Some((CategoryView::LocalBranch, from(name, lit("refs/heads/").len() as int)))
    } else if begins(name, lit("refs/remotes/")) {
        Some((CategoryView::RemoteBranch, from(name, lit("refs/remotes/").len() as int)))
    } else if begins(name, lit("refs/notes/")) {
        Some((CategoryView::Note, from(name, lit("refs/").len() as int)))
    } else if begins(name, lit("refs/bisect/")) {
        Some((CategoryView::Bisect, from(name, lit("refs/").len() as int)))
    } else if begins(name, lit("refs/worktree/")) {
        Some((CategoryView::WorktreePrivate, from(name, lit("refs/").len() as int)))
    } else if begins(name, lit("refs/rewritten/")) {
        Some((CategoryView::Rewritten, from(name, lit("refs/").len() as int)))
    } else if pseudo_ref(name) {
        Some((CategoryView::PseudoRef, name))
    } else if begins(name, lit("main-worktree/")) {
        let rest = from(name, lit("main-worktree/").len() as int);
        if begins(rest, lit("refs/")) {
            Some((CategoryView::MainRef, rest))
        } else if pseudo_ref(rest) {
            Some((CategoryView::MainPseudoRef, rest))
        } else {
            None
        }
    } else if begins(name, lit("worktrees/")) {
        let rest = from(name, lit("worktrees/").len() as int);
        let slash = pos_of(rest, '/' as u8, 0);
        if slash < rest.len() {
            linked(rest.subrange(0, slash), from(rest, slash + 1))
        } else {
            None
        }
    } else {
        None
    }
}

/// The short name of the reference `name`.
pub open spec fn short_name(name: Seq<u8>) -> Seq<u8> {
    match category_of(name) {
        Some((_, short)) => short,
        None => name,
    }
}

/// The reference in the worktree `worktree`, of what follows its name.
fn linked_category<'a>(worktree: &[u8], rest: &'a [u8]) -> (r: Option<(Category, &'a [u8])>)
    ensures
        r is Some <==> linked(worktree@, rest@) is Some,
        r matches Some(c) ==> linked(worktree@, rest@) == Some((c.0@, c.1@)),
{
    if starts_with(rest, "refs/".as_bytes()) {
        Some((Category::LinkedRef(to_vec(worktree)), rest))
    } else if is_pseudo_ref(rest) {
        Some((Category::LinkedPseudoRef(to_vec(worktree)), rest))
    } else {
        None
    }
}

/// A name that begins with `prefix`, cut after its first `refs/`.
fn after_refs<'a>(name: &'a [u8], prefix: &[u8]) -> (r: Option<&'a [u8]>)
    requires
        prefix@.len() >= lit("refs/").len(),
    ensures
        r is Some <==> begins(name@, prefix@),
        r matches Some(s) ==> s@ == from(name@, lit("refs/").len() as int),
{
    if starts_with(name, prefix) {
        let refs = "refs/".as_bytes();
        Some(&name[refs.len()..name.len()])
    } else {
        None
    }
}

/// The prefixes of all categories under `refs/` are longer than `refs/`.
proof fn lemma_prefix_lengths()
    ensures
        lit("refs/").len() == 5,
        lit("refs/notes/").len() == 11,
        lit("refs/bisect/").len() == 12,
        lit("refs/worktree/").len() == 14,
        lit("refs/rewritten/").len() == 15,
{
    reveal_strlit("refs/");
    reveal_strlit("refs/notes/");
    reveal_strlit("refs/bisect/");
    reveal_strlit("refs/worktree/");
    reveal_strlit("refs/rewritten/");
    vstd::utf8::is_ascii_chars_encode_utf8("refs/"@);
    vstd::utf8::is_ascii_chars_encode_utf8("refs/notes/"@);
    vstd::utf8::is_ascii_chars_encode_utf8("refs/bisect/"@);
    vstd::utf8::is_ascii_chars_encode_utf8("refs/worktree/"@);
    vstd::utf8::is_ascii_chars_encode_utf8("refs/rewritten/"@);
}

/// The complete name of a reference.
#[derive(Debug)]
pub struct FullName(pub Vec<u8>);

/// The complete name of a reference, borrowed.
#[derive(Debug, Clone, Copy)]
pub struct FullNameRef<'a>(pub &'a [u8]);

impl View for FullName {
    type V = Seq<u8>;

    open spec fn view(&self) -> Seq<u8> {
        self.0@
    }
}

impl<'a> View for FullNameRef<'a> {
    type V = Seq<u8>;

    open spec fn view(&self) -> Seq<u8> {
        self.0@
    }
}

impl FullName {
    /// The name itself, where it is valid.
    pub fn hx_try_from(name: Vec<u8>) -> (r: Result<FullName, GitError>)
        ensures
            r is Ok <==> valid_complete(name@),
            r matches Ok(n) ==> n@ == name@,
            r matches Err(e) ==> e is Gen,
    {
        match validate_reference_name(name.as_slice()) {
            Ok(()) => Ok(FullName(name)),
            Err(e) => Err(e),
        }
    }

    /// The name, borrowed.
    pub fn hx_as_ref(&self) -> (r: FullNameRef<'_>)
        ensures
            r@ == self@,
    {
        FullNameRef(self.0.as_slice())
    }
}

impl<'a> FullNameRef<'a> {
    /// The category of the reference with its short name, where it has one.
    pub fn category_and_short_name(self) -> (r: Option<(Category, &'a [u8])>)
        ensures
            r is Some <==> category_of(self@) is Some,
            r matches Some(c) ==> category_of(self@) == Some((c.0@, c.1@)),
    {
        proof {
            lemma_prefix_lengths();
        }
        let name = self.0;
        if let Some(s) = strip_prefix(name, "refs/tags/".as_bytes()) {
            return Some((Category::Tag, s));
        }
        if let Some(s) = strip_prefix(name, "refs/heads/".as_bytes()) {
            return Some((Category::LocalBranch, s));
        }
        if let Some(s) = strip_prefix(name, "refs/remotes/".as_bytes()) {
            return Some((Category::RemoteBranch, s));
        }
        if let Some(s) = after_refs(name, "refs/notes/".as_bytes()) {
            return Some((Category::Note, s));
        }
        if let Some(s) = after_refs(name, "refs/bisect/".as_bytes()) {
            return Some((Category::Bisect, s));
        }
        if let Some(s) = after_refs(name, "refs/worktree/".as_bytes()) {
            return Some((Category::WorktreePrivate, s));
        }
        if let Some(s) = after_refs(name, "refs/rewritten/".as_bytes()) {
            return Some((Category::Rewritten, s));
        }
        if is_pseudo_ref(name) {
            return Some((Category::PseudoRef, name));
        }
        if let Some(rest) = strip_prefix(name, "main-worktree/".as_bytes()) {
            return if starts_with(rest, "refs/".as_bytes()) {
                Some((Category::MainRef, rest))
            } else if is_pseudo_ref(rest) {
                Some((Category::MainPseudoRef, rest))
            } else {
                None
            };
        }
        match strip_prefix(name, "worktrees/".as_bytes()) {
            None => None,
            Some(rest) => match find_byte(rest, '/' as u8) {
                None => None,
                Some(p) => {
                    let n = rest.len();
                    proof {
                        crate::bytes::lemma_pos_of(rest@, '/' as u8, 0);
                    }
                    linked_category(&rest[0..p], &rest[p + 1..n])
                },
            },
        }
    }

    /// The short name as bytes.
    pub fn short_bytes(self) -> (r: &'a [u8])
        ensures
            r@ == short_name(self@),
    {
        match self.category_and_short_name() {
            Some((_, short)) => short,
            None => self.0,
        }
    }

    /// The short name as text.
    pub fn shorten(self) -> (r: String)
        ensures
            r@ == crate::text::lossy_text(short_name(self@)),
    {
        crate::text::lossy(self.short_bytes())
    }
}

/// A name of a reference that may be short.
#[derive(Debug)]
pub struct PartialName(pub Vec<u8>);

impl View for PartialName {
    type V = Seq<u8>;

    open spec fn view(&self) -> Seq<u8> {
        self.0@
    }
}

/// `name` looks like a complete name.
pub open spec fn looks_full(name: Seq<u8>, consider_pseudo: bool) -> bool {
    begins(name, lit("refs/")) || begins(name, lit("main-worktree/")) || begins(name, lit("worktrees/"))
        || (consider_pseudo && pseudo_ref(name))
}

/// The complete name that `name` stands for in the directory `between`.
pub open spec fn expanded(name: Seq<u8>, between: Seq<u8>, consider_pseudo: bool) -> Seq<u8> {
    (if looks_full(name, consider_pseudo) {
        Seq::<u8>::empty()
    } else {
        lit("refs/")
    }) + (if between.len() == 0 {
        Seq::<u8>::empty()
    } else {
        between + seq!['/' as u8]
    }) + name
}

impl PartialName {
    /// The name itself, where it is valid.
    pub fn hx_try_from(name: Vec<u8>) -> (r: Result<PartialName, GitError>)
        ensures
            r is Ok <==> valid_partial(name@),
            r matches Ok(n) ==> n@ == name@,
            r matches Err(e) ==> e is Gen,
    {
        match validate_reference_name_partial(name.as_slice()) {
            Ok(()) => Ok(PartialName(name)),
            Err(e) => Err(e),
        }
    }

    /// Whether the name looks like a complete one.
    pub fn looks_like_full_name(&self, consider_pseudo_ref: bool) -> (r: bool)
        ensures
            r == looks_full(self@, consider_pseudo_ref),
    {
        let name = self.0.as_slice();
        starts_with(name, "refs/".as_bytes()) || starts_with(name, "main-worktree/".as_bytes())
            || starts_with(name, "worktrees/".as_bytes()) || (consider_pseudo_ref && is_pseudo_ref(name))
    }

    /// The complete name that this one stands for in the directory `inbetween`.
    pub fn construct_full_name_ref(&self, inbetween: &[u8], consider_pseudo_ref: bool) -> (r: FullName)
        ensures
            r@ == expanded(self@, inbetween@, consider_pseudo_ref),
    {
        let mut buf: Vec<u8> = Vec::new();
        if !self.looks_like_full_name(consider_pseudo_ref) {
            push_all(&mut buf, "refs/".as_bytes());
        }
        if inbetween.len() > 0 {
            push_all(&mut buf, inbetween);
            buf.push('/' as u8);
        }
        push_all(&mut buf, self.0.as_slice());
        assert(buf@ =~= expanded(self@, inbetween@, consider_pseudo_ref));
        FullName(buf)
    }

    /// This name, a slash and `component`, where that is valid.
    pub fn join(&self, component: &[u8]) -> (r: Result<PartialName, GitError>)
        ensures
            r is Ok <==> valid_partial(self@ + seq!['/' as u8] + component@),
            r matches Ok(n) ==> n@ == self@ + seq!['/' as u8] + component@,
            r matches Err(e) ==> e is Gen,
    {
        let mut buf = to_vec(self.0.as_slice());
        buf.push('/' as u8);
        push_all(&mut buf, component);
        assert(buf@ =~= self@ + seq!['/' as u8] + component@);
        PartialName::hx_try_from(buf)
    }

    /// Whether this is the name `other`.
    pub fn is(&self, other: &[u8]) -> (r: bool)
        ensures
            r == (self@ == other@),
    {
        eq_bytes(self.0.as_slice(), other)
    }
}

/// A complete name that begins with the prefix of branches, tags or remote branches is shortened to
/// what follows, and the prefix of its category with its short name gives it back.
pub proof fn law_short_name_completes(name: Seq<u8>)
    requires
        category_of(name) matches Some((c, _)) && (c is Tag || c is LocalBranch || c is RemoteBranch
            || c is PseudoRef),
    ensures
        (category_of(name)->0).0.prefix_of() + short_name(name) == name,
{
    let c = (category_of(name)->0).0;
    let p = c.prefix_of();
    if c is PseudoRef {
        reveal_strlit("");
        vstd::utf8::is_ascii_chars_encode_utf8(""@);
        assert(p.len() == 0);
        assert(short_name(name) == name);
    } else {
        assert(begins(name, p));
        assert(name.subrange(0, p.len() as int) == p);
    }
    assert(p + short_name(name) =~= name);
}

} // verus!
