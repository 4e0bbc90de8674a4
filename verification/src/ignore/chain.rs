//! The rules for a directory: those of its own ignore files, and those of the directories
//! that it is below.
use crate::bytes::{begins, eq_bytes, from, lit, to_vec};
use crate::globset::set::buildable;
use crate::ignore::entry::{DirEntry, FileType};
use crate::ignore::error::{as_one, only_io, pushed, Error, Match, PartialErrorBuilder};
use crate::ignore::gitignore::{flaws_from, followed_by, is_collected, law_rules_behind_decide, lemma_lines_come_behind, lemma_pattern_for_each_rule, relative_to, with_lines};
use crate::ignore::gitignore::{Flaw, Gitignore, GitignoreBuilder, Rules};
use crate::ignore::paths::{hidden_path, is_hidden, strip_if_is_prefix, stripped};
use crate::ignore::types::Types;
use crate::path::{ancestors, is_current_dir, is_here, join, joined, parents_of, paths_view};
use std::sync::Arc;
use vstd::prelude::*;

verus! {

/// Which rules are taken into account.
#[derive(Clone, Copy, Debug, PartialEq, Eq, Structural)]
pub struct IgnoreOptions {
    /// Hidden files are ignored.
    pub hidden: bool,
    /// `.ignore` files are read.
    pub ignore: bool,
    /// The ignore files of the directories above the root are read.
    pub parents: bool,
    /// Git's global ignore file is read.
    pub git_global: bool,
    /// `.gitignore` files are read.
    pub git_ignore: bool,
    /// `.git/info/exclude` is read.
    pub git_exclude: bool,
    /// Letters of either case match each other.
    pub ignore_case_insensitive: bool,
    /// Git's rules are taken into account only within a repository.
    pub require_git: bool,
}

/// By what a path is ignored or kept.
#[derive(Clone, Copy, Debug, PartialEq, Eq, Structural)]
pub enum IgnoreMatch {
    /// A rule of an ignore file.
    Gitignore,
    /// A file type.
    Types,
    /// The path's being hidden.
    Hidden,
}

/// The rules of a file, and the directory that they are relative to.
pub struct RuleSet {
    pub rules: Rules,
    pub directory: Seq<u8>,
}

impl RuleSet {
    /// What the rules say of a path.
    pub open spec fn says(self, path: Seq<u8>, is_dir: bool) -> Match<IgnoreMatch> {
        match self.rules.verdict(relative_to(path, self.directory), is_dir) {
            Match::Nothing => Match::Nothing,
            Match::Ignore(_) => Match::Ignore(IgnoreMatch::Gitignore),
            Match::Whitelist(_) => Match::Whitelist(IgnoreMatch::Gitignore),
        }
    }
}

/// The rules of `g`.
pub open spec fn rule_set(g: Gitignore) -> RuleSet {
    RuleSet { rules: g.rules(), directory: g.directory() }
}

/// What the rules say of a path.
fn ask(g: &Gitignore, path: &[u8], is_dir: bool) -> (r: Match<IgnoreMatch>)
    requires
        g.wf(),
    ensures
        r == rule_set(*g).says(path@, is_dir),
{
    match g.matched(path, is_dir) {
        Match::Nothing => Match::Nothing,
        Match::Ignore(_) => Match::Ignore(IgnoreMatch::Gitignore),
        Match::Whitelist(_) => Match::Whitelist(IgnoreMatch::Gitignore),
    }
}

/// The rules of a directory, and of those that it is below.
pub struct IgnoreInner {
    dir: Vec<u8>,
    parent: Option<Arc<IgnoreInner>>,
    is_absolute_parent: bool,
    custom_ignore_matcher: Gitignore,
    ignore_matcher: Gitignore,
    git_ignore_matcher: Gitignore,
    git_exclude_matcher: Gitignore,
    has_git: bool,
}

/// The rules of one directory.
pub struct Node {
    pub dir: Seq<u8>,
    /// The directory is above the root of the walk, by its absolute path.
    pub absolute: bool,
    pub custom: RuleSet,
    pub ignore: RuleSet,
    pub git_ignore: RuleSet,
    pub git_exclude: RuleSet,
    /// The directory is the root of a repository.
    pub has_git: bool,
}

impl IgnoreInner {
    pub closed spec fn node(self) -> Node {
        Node {
            dir: self.dir@,
            absolute: self.is_absolute_parent,
            custom: rule_set(self.custom_ignore_matcher),
            ignore: rule_set(self.ignore_matcher),
            git_ignore: rule_set(self.git_ignore_matcher),
            git_exclude: rule_set(self.git_exclude_matcher),
            has_git: self.has_git,
        }
    }

    /// The rules of the directory and of those that it is below, from the inside out.
    pub closed spec fn nodes(self) -> Seq<Node>
        decreases self,
    {
        match self.parent {
            None => seq![self.node()],
            Some(p) => seq![self.node()] + p.nodes(),
        }
    }

    pub closed spec fn wf(self) -> bool
        decreases self,
    {
        &&& self.custom_ignore_matcher.wf()
        &&& self.ignore_matcher.wf()
        &&& self.git_ignore_matcher.wf()
        &&& self.git_exclude_matcher.wf()
        &&& match self.parent {
            None => true,
            Some(p) => p.wf(),
        }
    }

    /// The directory above.
    fn up(&self) -> (r: Option<&IgnoreInner>)
        requires
            self.wf(),
        ensures
            match r {
                None => self.nodes() == seq![self.node()],
                Some(p) => p.wf() && self.nodes() == seq![self.node()] + p.nodes() && decreases_to!(
                    self => p
                ),
            },
    {
        match &self.parent {
            None => None,
            Some(p) => Some(&**p),
        }
    }
}

/// What was found so far. Git's rules stop at the root of a repository.
pub struct Findings {
    pub custom: Match<IgnoreMatch>,
    pub ignore: Match<IgnoreMatch>,
    pub git_ignore: Match<IgnoreMatch>,
    pub git_exclude: Match<IgnoreMatch>,
    pub saw_git: bool,
}

/// The first finding stays.
pub open spec fn kept(m: Match<IgnoreMatch>, next: Match<IgnoreMatch>) -> Match<IgnoreMatch> {
    if m is Nothing {
        next
    } else {
        m
    }
}

/// The findings after one more directory.
pub open spec fn with_node(
    f: Findings,
    node: Node,
    path: Seq<u8>,
    is_dir: bool,
    any_git: bool,
) -> Findings {
    let git = any_git && !f.saw_git;
    Findings {
        custom: kept(f.custom, node.custom.says(path, is_dir)),
        ignore: kept(f.ignore, node.ignore.says(path, is_dir)),
        git_ignore: if git {
            kept(f.git_ignore, node.git_ignore.says(path, is_dir))
        } else {
            f.git_ignore
        },
        git_exclude: if git {
            kept(f.git_exclude, node.git_exclude.says(path, is_dir))
        } else {
            f.git_exclude
        },
        saw_git: f.saw_git || node.has_git,
    }
}

/// The findings after the directories up to the first absolute one.
pub open spec fn below_root(
    f: Findings,
    nodes: Seq<Node>,
    path: Seq<u8>,
    is_dir: bool,
    any_git: bool,
) -> Findings
    decreases nodes.len(),
{
    if nodes.len() == 0 || nodes[0].absolute {
        f
    } else {
        below_root(
            with_node(f, nodes[0], path, is_dir, any_git),
            nodes.skip(1),
            path,
            is_dir,
            any_git,
        )
    }
}

/// The findings after all the directories.
pub open spec fn all_of(
    f: Findings,
    nodes: Seq<Node>,
    path: Seq<u8>,
    is_dir: bool,
    any_git: bool,
) -> Findings
    decreases nodes.len(),
{
    if nodes.len() == 0 {
        f
    } else {
        all_of(
            with_node(f, nodes[0], path, is_dir, any_git),
            nodes.skip(1),
            path,
            is_dir,
            any_git,
        )
    }
}

/// The directories from the first absolute one on.
pub open spec fn above_root(nodes: Seq<Node>) -> Seq<Node>
    decreases nodes.len(),
{
    if nodes.len() == 0 || nodes[0].absolute {
        nodes
    } else {
        above_root(nodes.skip(1))
    }
}

/// The outermost directory before the first absolute one.
pub open spec fn root_dir(nodes: Seq<Node>, inner: Option<Seq<u8>>) -> Option<Seq<u8>>
    decreases nodes.len(),
{
    if nodes.len() == 0 || nodes[0].absolute {
        inner
    } else {
        root_dir(nodes.skip(1), Some(nodes[0].dir))
    }
}

/// The directories before the first absolute one.
pub open spec fn dirs_below_root(nodes: Seq<Node>) -> Seq<Seq<u8>>
    decreases nodes.len(),
{
    if nodes.len() == 0 || nodes[0].absolute {
        seq![]
    } else {
        seq![nodes[0].dir] + dirs_below_root(nodes.skip(1))
    }
}

/// One of the directories is the root of a repository.
pub open spec fn some_git(nodes: Seq<Node>) -> bool
    decreases nodes.len(),
{
    nodes.len() > 0 && (nodes[0].has_git || some_git(nodes.skip(1)))
}

/// The path by which the directories above the root know what the walk knows as `path`.
pub open spec fn absolute_path(base: Seq<u8>, root: Option<Seq<u8>>, path: Seq<u8>) -> Seq<u8> {
    match root {
        None => joined(base, path),
        Some(dir) => if is_here(dir) {
            joined(base, path)
        } else {
            joined(base, stripped(stripped(path, stripped(dir, lit("./"))), lit("/")))
        },
    }
}

/// Nothing was found yet.
pub open spec fn no_findings() -> Findings {
    Findings {
        custom: Match::Nothing,
        ignore: Match::Nothing,
        git_ignore: Match::Nothing,
        git_exclude: Match::Nothing,
        saw_git: false,
    }
}

/// The last of the first `n` rule sets that says something of the path.
pub open spec fn last_said(sets: Seq<RuleSet>, path: Seq<u8>, is_dir: bool, n: int) -> Match<
    IgnoreMatch,
>
    decreases n,
{
    if n <= 0 {
        Match::Nothing
    } else {
        kept(sets[n - 1].says(path, is_dir), last_said(sets, path, is_dir, n - 1))
    }
}

/// What the walk has in common for all directories.
pub struct Shared {
    pub opts: IgnoreOptions,
    pub types: Types,
    /// Rules that were given by the caller.
    pub explicit_ignores: Vec<Gitignore>,
    /// The names of ignore files that are read besides `.ignore`.
    pub custom_ignore_filenames: Vec<Vec<u8>>,
    /// The rules of git's global ignore file.
    pub git_global_matcher: Gitignore,
}

impl Shared {
    pub open spec fn wf(self) -> bool {
        self.types.wf() && self.git_global_matcher.wf() && forall|i: int|
            0 <= i < self.explicit_ignores@.len() ==> (#[trigger] self.explicit_ignores@[i]).wf()
    }

    pub open spec fn explicit(self) -> Seq<RuleSet> {
        self.explicit_ignores@.map_values(|g: Gitignore| rule_set(g))
    }

    /// What the files of the directories say of a path.
    pub open spec fn found(self, nodes: Seq<Node>, base: Option<Seq<u8>>, path: Seq<u8>, is_dir: bool) -> Findings {
        let any_git = !self.opts.require_git || some_git(nodes);
        let inner = below_root(no_findings(), nodes, path, is_dir, any_git);
        match base {
            Some(b) if self.opts.parents => all_of(
                inner,
                above_root(nodes),
                absolute_path(b, root_dir(nodes, None), path),
                is_dir,
                any_git,
            ),
            _ => inner,
        }
    }

    /// What git's global ignore file and the rules given by the caller say of a path.
    pub open spec fn said_for_all(self, nodes: Seq<Node>, path: Seq<u8>, is_dir: bool) -> Match<IgnoreMatch> {
        let global = if !self.opts.require_git || some_git(nodes) {
            rule_set(self.git_global_matcher).says(path, is_dir)
        } else {
            Match::Nothing
        };
        kept(global, last_said(self.explicit(), path, is_dir, self.explicit_ignores@.len() as int))
    }

    /// What the rules say of a path, by their precedence: files of given names, `.ignore`,
    /// `.gitignore`, `.git/info/exclude`, the global file, and rules given by the caller.
    pub open spec fn rules_say(
        self,
        nodes: Seq<Node>,
        base: Option<Seq<u8>>,
        path: Seq<u8>,
        is_dir: bool,
    ) -> Match<IgnoreMatch> {
        let f = self.found(nodes, base, path, is_dir);
        kept(
            f.custom,
            kept(
                f.ignore,
                kept(f.git_ignore, kept(f.git_exclude, self.said_for_all(nodes, path, is_dir))),
            ),
        )
    }

    /// Some rule could say something.
    pub open spec fn has_rules(self) -> bool {
        self.opts.ignore || self.opts.git_global || self.opts.git_ignore || self.opts.git_exclude
            || self.custom_ignore_filenames@.len() > 0 || self.explicit_ignores@.len() > 0
    }

    /// What the rules and the file types say of a path. What is ignored by the rules stays
    /// so, and a file type decides about what they do not ignore.
    pub open spec fn say(
        self,
        nodes: Seq<Node>,
        base: Option<Seq<u8>>,
        path: Seq<u8>,
        is_dir: bool,
    ) -> Match<IgnoreMatch> {
        let p = stripped(path, lit("./"));
        let m = if self.has_rules() {
            self.rules_say(nodes, base, p, is_dir)
        } else {
            Match::Nothing
        };
        if m is Ignore {
            m
        } else if self.types.selected() > 0 && self.types.ignores(p, is_dir) {
            Match::Ignore(IgnoreMatch::Types)
        } else {
            m
        }
    }
}

/// The rules for a directory of a walk.
pub struct Ignore {
    inner: Arc<IgnoreInner>,
    shared: Arc<Shared>,
    absolute_base: Option<Arc<Vec<u8>>>,
}

impl Ignore {
    pub closed spec fn nodes(self) -> Seq<Node> {
        self.inner.nodes()
    }

    pub closed spec fn common(self) -> Shared {
        *self.shared
    }

    /// The absolute path of the walk's root.
    pub closed spec fn base(self) -> Option<Seq<u8>> {
        match self.absolute_base {
            None => None,
            Some(b) => Some(b@),
        }
    }

    pub closed spec fn wf(self) -> bool {
        self.inner.wf() && self.shared.wf()
    }

    /// Whether one of the directories is the root of a repository.
    fn sees_git(&self) -> (r: bool)
        requires
            self.wf(),
        ensures
            r == some_git(self.nodes()),
    {
        let mut cur: &IgnoreInner = &*self.inner;
        loop
            invariant
                cur.wf(),
                some_git(self.nodes()) == some_git(cur.nodes()),
            decreases cur,
        {
            if cur.has_git {
                assert(cur.nodes()[0] == cur.node());
                return true;
            }
            match cur.up() {
                None => {
                    assert(cur.nodes().skip(1) =~= Seq::<Node>::empty());
                    assert(!some_git(Seq::<Node>::empty()));
                    assert(cur.nodes()[0] == cur.node());
                    return false;
                },
                Some(p) => {
                    assert(cur.nodes().skip(1) =~= p.nodes());
                    assert(cur.nodes()[0] == cur.node());
                    cur = p;
                },
            }
        }
    }

    /// What the rules say of a path.
    pub fn matched_ignore(&self, path: &[u8], is_dir: bool) -> (r: Match<IgnoreMatch>)
        requires
            self.wf(),
        ensures
            r == self.common().rules_say(self.nodes(), self.base(), path@, is_dir),
    {
        let any_git: bool = !self.shared.opts.require_git || self.sees_git();
        let ghost nodes = self.nodes();
        let mut custom: Match<IgnoreMatch> = Match::Nothing;
        let mut ignore: Match<IgnoreMatch> = Match::Nothing;
        let mut git_ignore: Match<IgnoreMatch> = Match::Nothing;
        let mut git_exclude: Match<IgnoreMatch> = Match::Nothing;
        let mut saw_git = false;
        let mut root: Option<&IgnoreInner> = None;
        let mut cur: Option<&IgnoreInner> = Some(&*self.inner);
        let ghost inner = below_root(no_findings(), nodes, path@, is_dir, any_git);
        loop
            invariant_except_break
                cur matches Some(c) ==> c.wf(),
                inner == below_root(
                    Findings { custom, ignore, git_ignore, git_exclude, saw_git },
                    nodes_of(cur),
                    path@,
                    is_dir,
                    any_git,
                ),
                above_root(nodes) == above_root(nodes_of(cur)),
                root_dir(nodes, None) == root_dir(nodes_of(cur), dir_of(root)),
            ensures
                cur matches Some(c) ==> c.wf(),
                inner == (Findings { custom, ignore, git_ignore, git_exclude, saw_git }),
                above_root(nodes) == nodes_of(cur),
                root_dir(nodes, None) == dir_of(root),
            decreases nodes_of(cur).len(),
        {
            match cur {
                None => {
                    break;
                },
                Some(node) => {
                    assert(node.nodes()[0] == node.node());
                    if node.is_absolute_parent {
                        break;
                    }
                    if custom.is_none() {
                        custom = ask(&node.custom_ignore_matcher, path, is_dir);
                    }
                    if ignore.is_none() {
                        ignore = ask(&node.ignore_matcher, path, is_dir);
                    }
                    if any_git && !saw_git && git_ignore.is_none() {
                        git_ignore = ask(&node.git_ignore_matcher, path, is_dir);
                    }
                    if any_git && !saw_git && git_exclude.is_none() {
                        git_exclude = ask(&node.git_exclude_matcher, path, is_dir);
                    }
                    saw_git = saw_git || node.has_git;
                    root = Some(node);
                    let up = node.up();
                    assert(node.nodes().skip(1) =~= nodes_of(up));
                    cur = up;
                },
            }
        }
        if self.shared.opts.parents {
            if let Some(base) = &self.absolute_base {
                let rel: &[u8] = match root {
                    None => path,
                    Some(node) => {
                        if is_current_dir(node.dir.as_slice()) {
                            path
                        } else {
                            let dir = strip_if_is_prefix("./".as_bytes(), node.dir.as_slice());
                            strip_if_is_prefix("/".as_bytes(), strip_if_is_prefix(dir, path))
                        }
                    },
                };
                let full = join(base.as_slice(), rel);
                assert(full@ == absolute_path(base@, root_dir(nodes, None), path@));
                let ghost outer = all_of(inner, above_root(nodes), full@, is_dir, any_git);
                loop
                    invariant_except_break
                        cur matches Some(c) ==> c.wf(),
                        outer == all_of(
                            Findings { custom, ignore, git_ignore, git_exclude, saw_git },
                            nodes_of(cur),
                            full@,
                            is_dir,
                            any_git,
                        ),
                    ensures
                        outer == (Findings { custom, ignore, git_ignore, git_exclude, saw_git }),
                    decreases nodes_of(cur).len(),
                {
                    match cur {
                        None => {
                            break;
                        },
                        Some(node) => {
                            assert(node.nodes()[0] == node.node());
                            if custom.is_none() {
                                custom = ask(&node.custom_ignore_matcher, full.as_slice(), is_dir);
                            }
                            if ignore.is_none() {
                                ignore = ask(&node.ignore_matcher, full.as_slice(), is_dir);
                            }
                            if any_git && !saw_git && git_ignore.is_none() {
                                git_ignore = ask(
                                    &node.git_ignore_matcher,
                                    full.as_slice(),
                                    is_dir,
                                );
                            }
                            if any_git && !saw_git && git_exclude.is_none() {
                                git_exclude = ask(
                                    &node.git_exclude_matcher,
                                    full.as_slice(),
                                    is_dir,
                                );
                            }
                            saw_git = saw_git || node.has_git;
                            let up = node.up();
                            assert(node.nodes().skip(1) =~= nodes_of(up));
                            cur = up;
                        },
                    }
                }
            }
        }
        let mut given: Match<IgnoreMatch> = Match::Nothing;
        let ghost sets = self.common().explicit();
        let ghost count = self.shared.explicit_ignores@.len() as int;
        let mut i: usize = self.shared.explicit_ignores.len();
        while i > 0 && given.is_none()
            invariant
                i <= self.shared.explicit_ignores@.len() == count,
                self.wf(),
                sets == self.common().explicit(),
                last_said(sets, path@, is_dir, count) == kept(
                    given,
                    last_said(sets, path@, is_dir, i as int),
                ),
            decreases i,
        {
            i -= 1;
            assert(sets[i as int] == rule_set(self.shared.explicit_ignores@[i as int]));
            assert(self.shared.explicit_ignores@[i as int].wf());
            given = ask(&self.shared.explicit_ignores[i], path, is_dir);
        }
        let global: Match<IgnoreMatch> = if any_git {
            ask(&self.shared.git_global_matcher, path, is_dir)
        } else {
            Match::Nothing
        };
        custom.or(ignore.or(git_ignore.or(git_exclude.or(global.or(given)))))
    }

    /// Whether some rule could say something.
    pub fn has_any_ignore_rules(&self) -> (r: bool)
        ensures
            r == self.common().has_rules(),
    {
        let opts = self.shared.opts;
        opts.ignore || opts.git_global || opts.git_ignore || opts.git_exclude
            || self.shared.custom_ignore_filenames.len() > 0 || self.shared.explicit_ignores.len()
            > 0
    }

    /// What the rules and the file types say of a path.
    pub fn matched(&self, path: &[u8], is_dir: bool) -> (r: Match<IgnoreMatch>)
        requires
            self.wf(),
        ensures
            r == self.common().say(self.nodes(), self.base(), path@, is_dir),
    {
        let p = strip_if_is_prefix("./".as_bytes(), path);
        let m: Match<IgnoreMatch> = if self.has_any_ignore_rules() {
            self.matched_ignore(p, is_dir)
        } else {
            Match::Nothing
        };
        if m.is_ignore() {
            return m;
        }
        if !self.shared.types.is_empty() && self.shared.types.matched(p, is_dir).is_ignore() {
            return Match::Ignore(IgnoreMatch::Types);
        }
        m
    }
}

/// The rules from a directory on, or none.
pub open spec fn nodes_of(n: Option<&IgnoreInner>) -> Seq<Node> {
    match n {
        None => seq![],
        Some(n) => n.nodes(),
    }
}

/// The directory of the rules.
pub closed spec fn dir_of(n: Option<&IgnoreInner>) -> Option<Seq<u8>> {
    match n {
        None => None,
        Some(n) => Some(n.dir@),
    }
}

impl Ignore {
    /// What the rules and the file types say of an entry. One that they say nothing of is
    /// ignored where it is hidden and hidden files are.
    pub fn matched_dir_entry(&self, dent: &DirEntry) -> (r: Match<IgnoreMatch>)
        requires
            self.wf(),
        ensures
            r == self.says_of(*dent),
    {
        let m = self.matched(dent.path(), dent.is_dir());
        if m.is_none() && self.shared.opts.hidden && is_hidden(dent.path()) {
            return Match::Ignore(IgnoreMatch::Hidden);
        }
        m
    }

    /// What the rules and the file types say of an entry.
    pub open spec fn says_of(self, dent: DirEntry) -> Match<IgnoreMatch> {
        let m = self.common().say(
            self.nodes(),
            self.base(),
            dent.path_view(),
            dent.type_view() == Some(FileType::Dir),
        );
        if m is Nothing && self.common().opts.hidden && hidden_path(dent.path_view()) {
            Match::Ignore(IgnoreMatch::Hidden)
        } else {
            m
        }
    }

    /// Whether there is no directory above.
    pub fn is_root(&self) -> (r: bool)
        ensures
            r == (self.nodes().len() == 1),
    {
        proof {
            reveal_with_fuel(IgnoreInner::nodes, 2);
        }
        self.inner.parent.is_none()
    }

    /// The rules for the directory above.
    pub fn parent(&self) -> (r: Option<Ignore>)
        requires
            self.wf(),
        ensures
            r is None <==> self.nodes().len() == 1,
            r matches Some(p) ==> p.wf() && p.nodes() == self.nodes().skip(1) && p.common()
                == self.common() && p.base() == self.base(),
    {
        proof {
            reveal_with_fuel(IgnoreInner::nodes, 2);
        }
        match &self.inner.parent {
            None => None,
            Some(p) => {
                assert(self.nodes().skip(1) =~= p.nodes());
                let absolute_base: Option<Arc<Vec<u8>>> = match &self.absolute_base {
                    None => None,
                    Some(b) => Some(Arc::clone(b)),
                };
                Some(Ignore { inner: Arc::clone(p), shared: Arc::clone(&self.shared), absolute_base })
            },
        }
    }

    /// The rules for a walk, before those of any directory are added.
    pub fn new(shared: Shared) -> (r: Ignore)
        requires
            shared.wf(),
        ensures
            r.wf(),
            r.common() == shared,
            r.base() is None,
            r.nodes() == seq![root_node()],
    {
        let inner = IgnoreInner {
            dir: Vec::new(),
            parent: None,
            is_absolute_parent: true,
            custom_ignore_matcher: Gitignore::empty(),
            ignore_matcher: Gitignore::empty(),
            git_ignore_matcher: Gitignore::empty(),
            git_exclude_matcher: Gitignore::empty(),
            has_git: false,
        };
        assert(inner.node().dir =~= Seq::<u8>::empty());
        Ignore { inner: Arc::new(inner), shared: Arc::new(shared), absolute_base: None }
    }

    /// The rules for a directory below: its own, and these.
    pub fn add_child(&self, dir: &[u8], files: ChildRules) -> (r: Ignore)
        requires
            self.wf(),
            files.wf(),
        ensures
            r.wf(),
            r.common() == self.common(),
            r.base() == self.base(),
            r.nodes() == seq![files.node(dir@, false, files.has_git)] + self.nodes(),
    {
        let absolute_base: Option<Arc<Vec<u8>>> = match &self.absolute_base {
            None => None,
            Some(b) => Some(Arc::clone(b)),
        };
        let has_git: bool = files.has_git;
        Ignore {
            inner: Arc::new(
                IgnoreInner {
                    dir: to_vec(dir),
                    parent: Some(Arc::clone(&self.inner)),
                    is_absolute_parent: false,
                    custom_ignore_matcher: files.custom,
                    ignore_matcher: files.ignore,
                    git_ignore_matcher: files.git_ignore,
                    git_exclude_matcher: files.git_exclude,
                    has_git,
                },
            ),
            shared: Arc::clone(&self.shared),
            absolute_base,
        }
    }

    /// The rules with those of a directory above the root of the walk, whose absolute path is
    /// `base`.
    pub fn add_absolute_parent(
        &self,
        dir: &[u8],
        files: ChildRules,
        has_git: bool,
        base: Vec<u8>,
    ) -> (r: Ignore)
        requires
            self.wf(),
            files.wf(),
        ensures
            r.wf(),
            r.common() == self.common(),
            r.base() == Some(base@),
            r.nodes() == seq![
                files.node(
                    dir@,
                    true,
                    self.common().opts.require_git && self.common().opts.git_ignore && has_git,
                ),
            ] + self.nodes(),
    {
        let opts = self.shared.opts;
        Ignore {
            inner: Arc::new(
                IgnoreInner {
                    dir: to_vec(dir),
                    parent: Some(Arc::clone(&self.inner)),
                    is_absolute_parent: true,
                    custom_ignore_matcher: files.custom,
                    ignore_matcher: files.ignore,
                    git_ignore_matcher: files.git_ignore,
                    git_exclude_matcher: files.git_exclude,
                    has_git: opts.require_git && opts.git_ignore && has_git,
                },
            ),
            shared: Arc::clone(&self.shared),
            absolute_base: Some(Arc::new(base)),
        }
    }

    /// The directories of the walk, from the inside out, without those above its root.
    pub fn inner_dirs(&self) -> (r: Vec<Vec<u8>>)
        requires
            self.wf(),
        ensures
            paths_view(r@) == dirs_below_root(self.nodes()),
    {
        let mut out: Vec<Vec<u8>> = Vec::new();
        let mut cur: Option<&IgnoreInner> = Some(&*self.inner);
        let ghost all = dirs_below_root(self.nodes());
        assert(paths_view(out@) + all =~= all);
        loop
            invariant
                cur matches Some(c) ==> c.wf(),
                all == dirs_below_root(self.nodes()),
                all == paths_view(out@) + dirs_below_root(nodes_of(cur)),
            decreases nodes_of(cur).len(),
        {
            match cur {
                None => {
                    assert(paths_view(out@) + Seq::<Seq<u8>>::empty() =~= paths_view(out@));
                    return out;
                },
                Some(node) => {
                    assert(node.nodes()[0] == node.node());
                    if node.is_absolute_parent {
                        assert(paths_view(out@) + Seq::<Seq<u8>>::empty() =~= paths_view(out@));
                        return out;
                    }
                    let ghost before = paths_view(out@);
                    let up = node.up();
                    assert(node.nodes().skip(1) =~= nodes_of(up));
                    out.push(to_vec(node.dir.as_slice()));
                    proof {
                        let rest = dirs_below_root(nodes_of(up));
                        assert(paths_view(out@) =~= before.push(node.dir@));
                        assert(before + (seq![node.dir@] + rest) =~= before.push(node.dir@) + rest);
                    }
                    cur = up;
                },
            }
        }
    }

    /// The same rules once more.
    pub fn copy(&self) -> (r: Ignore)
        requires
            self.wf(),
        ensures
            r.wf(),
            r.nodes() == self.nodes(),
            r.common() == self.common(),
            r.base() == self.base(),
    {
        let absolute_base: Option<Arc<Vec<u8>>> = match &self.absolute_base {
            None => None,
            Some(b) => Some(Arc::clone(b)),
        };
        Ignore { inner: Arc::clone(&self.inner), shared: Arc::clone(&self.shared), absolute_base }
    }

    /// Which rules are read.
    pub fn options(&self) -> (r: IgnoreOptions)
        ensures
            r == self.common().opts,
    {
        self.shared.opts
    }

    /// Whether anything is needed from the directories above the root.
    pub fn needs_parents(&self) -> (r: bool)
        ensures
            r == (self.common().opts.parents || self.common().opts.git_ignore
                || self.common().opts.git_exclude || self.common().opts.git_global),
    {
        let opts = self.shared.opts;
        opts.parents || opts.git_ignore || opts.git_exclude || opts.git_global
    }

    /// Which of the files that the rules may be in are among the entries of a directory.
    pub fn collect_ignore_files(&self, entries: &Vec<Vec<u8>>) -> (r: IgnoreFilesFound)
        ensures
            r.has_ignore == paths_view(entries@).contains(lit(".ignore")),
            r.has_git_ignore == paths_view(entries@).contains(lit(".gitignore")),
            r.has_git_dir == paths_view(entries@).contains(lit(".git")),
            r.has_jj_dir == paths_view(entries@).contains(lit(".jj")),
            r.custom_ignore_files@.len() == self.common().custom_ignore_filenames@.len(),
            forall|i: int|
                0 <= i < r.custom_ignore_files@.len() ==> #[trigger] r.custom_ignore_files@[i]
                    == paths_view(entries@).contains(
                    self.common().custom_ignore_filenames@[i]@,
                ),
    {
        let names = &self.shared.custom_ignore_filenames;
        let mut custom: Vec<bool> = Vec::new();
        let mut i: usize = 0;
        while i < names.len()
            invariant
                i <= names@.len(),
                names@ == self.common().custom_ignore_filenames@,
                custom@.len() == i,
                forall|k: int|
                    0 <= k < i ==> #[trigger] custom@[k] == paths_view(entries@).contains(
                        names@[k]@,
                    ),
            decreases names@.len() - i,
        {
            custom.push(has_entry(entries, names[i].as_slice()));
            i += 1;
        }
        IgnoreFilesFound {
            has_ignore: has_entry(entries, ".ignore".as_bytes()),
            has_git_ignore: has_entry(entries, ".gitignore".as_bytes()),
            has_git_dir: has_entry(entries, ".git".as_bytes()),
            has_jj_dir: has_entry(entries, ".jj".as_bytes()),
            custom_ignore_files: custom,
        }
    }

    /// What has to be looked up in a directory for its rules. Where it is known which files
    /// are there, no other is looked for.
    pub fn child_plan(&self, found: Option<&IgnoreFilesFound>) -> (r: ChildPlan)
        requires
            found matches Some(f) ==> f.custom_ignore_files@.len()
                == self.common().custom_ignore_filenames@.len(),
        ensures
            r.git_type == (self.common().checks_git() && (found matches Some(f) ==> f.has_git_dir)),
            r.jj_dir == (self.common().checks_git() && (found matches Some(f) ==> f.has_jj_dir)),
            r.ignore == (self.common().opts.ignore && (found matches Some(f) ==> f.has_ignore)),
            r.git_ignore == (self.common().opts.git_ignore && (found matches Some(f)
                ==> f.has_git_ignore)),
            r.git_exclude == (self.common().opts.git_exclude && (found matches Some(f)
                ==> f.has_git_dir)),
            paths_view(r.custom@) == custom_names(
                self.common().custom_ignore_filenames@,
                found_files(found),
                self.common().custom_ignore_filenames@.len() as int,
            ),
    {
        let opts = self.shared.opts;
        let checks: bool = opts.require_git && (opts.git_ignore || opts.git_exclude);
        let names = &self.shared.custom_ignore_filenames;
        let mut custom: Vec<Vec<u8>> = Vec::new();
        let mut i: usize = 0;
        assert(paths_view(custom@) =~= seq![]);
        while i < names.len()
            invariant
                i <= names@.len(),
                names@ == self.common().custom_ignore_filenames@,
                found matches Some(f) ==> f.custom_ignore_files@.len() == names@.len(),
                paths_view(custom@) == custom_names(names@, found_files(found), i as int),
            decreases names@.len() - i,
        {
            let there: bool = match found {
                None => true,
                Some(f) => f.custom_ignore_files[i],
            };
            let ghost before = paths_view(custom@);
            if there {
                custom.push(to_vec(names[i].as_slice()));
                assert(paths_view(custom@) =~= before.push(names@[i as int]@));
            }
            i += 1;
        }
        let (has_git_dir, has_jj_dir, has_ignore, has_git_ignore) = match found {
            None => (true, true, true, true),
            Some(f) => (f.has_git_dir, f.has_jj_dir, f.has_ignore, f.has_git_ignore),
        };
        ChildPlan {
            git_type: checks && has_git_dir,
            jj_dir: checks && has_jj_dir,
            custom,
            ignore: opts.ignore && has_ignore,
            git_ignore: opts.git_ignore && has_git_ignore,
            git_exclude: opts.git_exclude && has_git_dir,
        }
    }
}

impl Shared {
    /// It is looked up whether a directory is the root of a repository.
    pub open spec fn checks_git(self) -> bool {
        self.opts.require_git && (self.opts.git_ignore || self.opts.git_exclude)
    }
}

/// Which of the files that rules may be in were found in a directory.
#[derive(Debug)]
pub struct IgnoreFilesFound {
    pub has_ignore: bool,
    pub has_git_ignore: bool,
    pub has_git_dir: bool,
    pub has_jj_dir: bool,
    /// For each of the names of further ignore files, whether it was found.
    pub custom_ignore_files: Vec<bool>,
}

/// Which of the further ignore files were found, where that is known.
pub open spec fn found_files(found: Option<&IgnoreFilesFound>) -> Option<Seq<bool>> {
    match found {
        None => None,
        Some(f) => Some(f.custom_ignore_files@),
    }
}

/// Those of the first `n` names that were found, or all of them.
pub open spec fn custom_names(names: Seq<Vec<u8>>, found: Option<Seq<bool>>, n: int) -> Seq<Seq<u8>>
    decreases n,
{
    if n <= 0 {
        seq![]
    } else if found is None || found->0[n - 1] {
        custom_names(names, found, n - 1).push(names[n - 1]@)
    } else {
        custom_names(names, found, n - 1)
    }
}

/// What has to be looked up in a directory for its rules.
#[derive(Debug)]
pub struct ChildPlan {
    /// Whether `.git` is a file or a directory.
    pub git_type: bool,
    /// Whether there is a directory `.jj`.
    pub jj_dir: bool,
    /// The further ignore files to be read, of which later ones come first.
    pub custom: Vec<Vec<u8>>,
    pub ignore: bool,
    pub git_ignore: bool,
    pub git_exclude: bool,
}

/// The rules of a directory's files.
pub struct ChildRules {
    pub custom: Gitignore,
    pub ignore: Gitignore,
    pub git_ignore: Gitignore,
    pub git_exclude: Gitignore,
    /// The directory is the root of a repository.
    pub has_git: bool,
}

impl ChildRules {
    pub open spec fn wf(self) -> bool {
        self.custom.wf() && self.ignore.wf() && self.git_ignore.wf() && self.git_exclude.wf()
    }

    pub open spec fn node(self, dir: Seq<u8>, absolute: bool, has_git: bool) -> Node {
        Node {
            dir,
            absolute,
            custom: rule_set(self.custom),
            ignore: rule_set(self.ignore),
            git_ignore: rule_set(self.git_ignore),
            git_exclude: rule_set(self.git_exclude),
            has_git,
        }
    }
}

/// A directory without rules.
pub open spec fn root_node() -> Node {
    let none = RuleSet {
        rules: Rules { rules: Seq::empty(), globs: Seq::empty() },
        directory: Seq::empty(),
    };
    Node {
        dir: Seq::empty(),
        absolute: true,
        custom: none,
        ignore: none,
        git_ignore: none,
        git_exclude: none,
        has_git: false,
    }
}

/// Whether one of the entries has the given name.
fn has_entry(entries: &Vec<Vec<u8>>, name: &[u8]) -> (r: bool)
    ensures
        r == paths_view(entries@).contains(name@),
{
    let ghost all = paths_view(entries@);
    let mut i: usize = 0;
    while i < entries.len()
        invariant
            i <= entries@.len(),
            all == paths_view(entries@),
            forall|k: int| 0 <= k < i ==> #[trigger] all[k] != name@,
        decreases entries@.len() - i,
    {
        assert(all[i as int] == entries@[i as int]@);
        if eq_bytes(entries[i].as_slice(), name) {
            return true;
        }
        i += 1;
    }
    false
}

/// The rules with those of the files from `i` on.
pub open spec fn with_files(
    rules: Rules,
    files: Seq<(Vec<u8>, Vec<u8>)>,
    i: int,
    folds: bool,
) -> Rules
    decreases files.len() - i,
{
    if i >= files.len() {
        rules
    } else {
        with_files(with_lines(rules, files[i].1@, 0, folds), files, i + 1, folds)
    }
}

/// An error that tells of the flaws is nothing but a failure to read.
pub open spec fn only_unreadable(flaws: Seq<(int, Flaw)>) -> bool {
    flaws.len() == 1 && flaws[0].1 is Encoding
}

/// The errors tell of the flaws of the first `n` files, file after file. A file of which only
/// a line could not be read is passed over.
pub open spec fn tell_of(errs: Seq<Error>, files: Seq<(Vec<u8>, Vec<u8>)>, n: int, folds: bool) -> bool
    decreases n,
{
    if n <= 0 {
        errs.len() == 0
    } else {
        let flaws = flaws_from(files[n - 1].1@, 0, 1, folds);
        if flaws.len() == 0 || only_unreadable(flaws) {
            tell_of(errs, files, n - 1, folds)
        } else {
            errs.len() > 0 && is_collected(Some(errs.last()), files[n - 1].0@, flaws) && tell_of(
                errs.drop_last(),
                files,
                n - 1,
                folds,
            )
        }
    }
}

/// `set` and `err` are what comes of the files of the directory `dir`, of which each is given
/// by its path and what it holds: the rules of all files, of which later ones decide, and an
/// error that tells of their flaws. Where the rules cannot be used there are none, and the error says so.
pub open spec fn is_created(
    dir: Seq<u8>,
    files: Seq<(Vec<u8>, Vec<u8>)>,
    folds: bool,
    set: RuleSet,
    err: Option<Error>,
) -> bool {
    let all = with_files(no_rules(), files, 0, folds);
    let n = files.len() as int;
    &&& set.directory == stripped(dir, lit("./"))
    &&& {
        ||| set.rules == all && exists|errs: Seq<Error>| #[trigger]
            as_one(errs, err) && tell_of(errs, files, n, folds)
        ||| !buildable(all.globs) && set.rules == no_rules() && exists|errs: Seq<Error>| #[trigger]
            as_one(errs, err) && errs.len() > 0 && (errs.last() matches Error::Glob {
                glob: None,
                ..
            }) && tell_of(
                errs.drop_last(),
                files,
                n,
                folds,
            )
    }
}

proof fn lemma_collected_io(err: Error, path: Seq<u8>, flaws: Seq<(int, Flaw)>)
    requires
        is_collected(Some(err), path, flaws),
    ensures
        only_io(err) == only_unreadable(flaws),
{
    reveal_with_fuel(only_io, 4);
}

/// The rules of files of the directory `dir`, of which each is given by its path and what it
/// holds. Later files decide. Where they cannot be used, there are no rules and an error.
/// When that is so is said only of rules that need no regular expression: for others it depends
/// on the limits of these.
pub fn create_gitignore(dir: &[u8], files: &Vec<(Vec<u8>, Vec<u8>)>, case_insensitive: bool) -> (r: (
    Gitignore,
    Option<Error>,
))
    ensures
        r.0.wf(),
        is_created(dir@, files@, case_insensitive, rule_set(r.0), r.1),
{
    let mut builder = GitignoreBuilder::new(dir);
    let mut errs = PartialErrorBuilder::new();
    builder.case_insensitive(case_insensitive);
    let mut i: usize = 0;
    while i < files.len()
        invariant
            i <= files@.len(),
            builder.wf(),
            builder.directory() == stripped(dir@, lit("./")),
            builder.folds_case() == case_insensitive,
            with_files(no_rules(), files@, 0, case_insensitive) == with_files(
                builder.rules(),
                files@,
                i as int,
                case_insensitive,
            ),
            tell_of(errs.errors(), files@, i as int, case_insensitive),
        decreases files@.len() - i,
    {
        let ghost before = errs.errors();
        let err = builder.add_contents(files[i].0.as_slice(), files[i].1.as_slice());
        proof {
            if err is Some {
                let e = err->0;
                lemma_collected_io(e, files@[i as int].0@, flaws_from(files@[i as int].1@, 0, 1, case_insensitive));
                assert(before.push(e).drop_last() =~= before);
            }
        }
        errs.maybe_push_ignore_io(err);
        i += 1;
    }
    let ghost told = errs.errors();
    match builder.build() {
        Ok(g) => {
            let err = errs.into_error_option();
            assert(as_one(told, err));
            (g, err)
        },
        Err(e) => {
            errs.add_error(e);
            let err = errs.into_error_option();
            assert(as_one(told.push(e), err));
            assert(told.push(e).drop_last() =~= told);
            (Gitignore::empty_in(dir), err)
        },
    }
}

/// What was read for the rules of a directory, as far as it was to be looked up.
pub struct ChildFiles {
    /// There is a file or directory `.git`.
    pub git: bool,
    /// There is a directory `.jj`.
    pub jj: bool,
    /// The files that could be read, each by its path and what it holds.
    pub custom: Vec<(Vec<u8>, Vec<u8>)>,
    pub ignore: Vec<(Vec<u8>, Vec<u8>)>,
    pub git_ignore: Vec<(Vec<u8>, Vec<u8>)>,
    /// Or why the directory with the repository's own file could not be found.
    pub git_exclude: Result<Vec<(Vec<u8>, Vec<u8>)>, Option<Error>>,
}

/// The rules of no file.
pub open spec fn no_rule_set() -> RuleSet {
    RuleSet { rules: no_rules(), directory: Seq::empty() }
}

/// What is told of an error. A failure to read is not told of.
pub open spec fn told_of(err: Option<Error>) -> Option<Error> {
    match err {
        Some(e) if !only_io(e) => Some(e),
        _ => None,
    }
}

/// `set` and `err` are what comes of the files of the directory `dir`, if they are wanted. Of
/// files that could not be read, nothing comes.
pub open spec fn is_loaded(
    wanted: bool,
    dir: Seq<u8>,
    files: Result<Seq<(Vec<u8>, Vec<u8>)>, Option<Error>>,
    folds: bool,
    set: RuleSet,
    err: Option<Error>,
) -> bool {
    if !wanted {
        set == no_rule_set() && err is None
    } else {
        match files {
            Ok(all) => is_created(dir, all, folds, set, err),
            Err(e) => set == no_rule_set() && err == told_of(e),
        }
    }
}

/// The errors of four sets of rules, as far as there are any.
pub open spec fn in_order(a: Option<Error>, b: Option<Error>, c: Option<Error>, d: Option<Error>) -> Seq<Error> {
    pushed(pushed(pushed(pushed(Seq::empty(), a), b), c), d)
}

/// `rules` and `err` are what comes of the files of the directory `dir`. Where it is known
/// which files are there, no other counts.
pub open spec fn is_child(
    shared: Shared,
    dir: Seq<u8>,
    found: Option<&IgnoreFilesFound>,
    files: ChildFiles,
    rules: ChildRules,
    err: Option<Error>,
) -> bool {
    let folds = shared.opts.ignore_case_insensitive;
    let custom = custom_names(
        shared.custom_ignore_filenames@,
        found_files(found),
        shared.custom_ignore_filenames@.len() as int,
    );
    let excludes: Result<Seq<(Vec<u8>, Vec<u8>)>, Option<Error>> = match files.git_exclude {
        Ok(all) => Ok(all@),
        Err(e) => Err(e),
    };
    &&& rules.has_git == (shared.checks_git() && (((found matches Some(f) ==> f.has_git_dir) && files.git) || ((
    found matches Some(f) ==> f.has_jj_dir) && files.jj)))
    &&& exists|a: Option<Error>, b: Option<Error>, c: Option<Error>, d: Option<Error>| #[trigger]
        as_one(in_order(a, b, c, d), err) && is_loaded(
            custom.len() > 0,
            dir,
            Ok(files.custom@),
            folds,
            rule_set(rules.custom),
            a,
        ) && is_loaded(
            shared.opts.ignore && (found matches Some(f) ==> f.has_ignore),
            dir,
            Ok(files.ignore@),
            folds,
            rule_set(rules.ignore),
            b,
        ) && is_loaded(
            shared.opts.git_ignore && (found matches Some(f) ==> f.has_git_ignore),
            dir,
            Ok(files.git_ignore@),
            folds,
            rule_set(rules.git_ignore),
            c,
        ) && is_loaded(
            shared.opts.git_exclude && (found matches Some(f) ==> f.has_git_dir),
            dir,
            excludes,
            folds,
            rule_set(rules.git_exclude),
            d,
        )
}

/// The rules of the files of the directory `dir`, if they are wanted.
fn load_rules(wanted: bool, dir: &[u8], files: &Vec<(Vec<u8>, Vec<u8>)>, folds: bool) -> (r: (
    Gitignore,
    Option<Error>,
))
    ensures
        r.0.wf(),
        is_loaded(wanted, dir@, Ok(files@), folds, rule_set(r.0), r.1),
{
    if wanted {
        create_gitignore(dir, files, folds)
    } else {
        (Gitignore::empty(), None)
    }
}

impl Ignore {
    /// The rules of the files of the directory `dir`, and an error that tells of their flaws. A
    /// failure to read is no flaw.
    /// Where it is known which files are there, no other counts.
    pub fn add_child_path_with_found_ignore_files(
        &self,
        dir: &[u8],
        found: Option<&IgnoreFilesFound>,
        files: ChildFiles,
    ) -> (r: (ChildRules, Option<Error>))
        requires
            self.wf(),
            found matches Some(f) ==> f.custom_ignore_files@.len()
                == self.common().custom_ignore_filenames@.len(),
        ensures
            r.0.wf(),
            is_child(self.common(), dir@, found, files, r.0, r.1),
    {
        let plan = self.child_plan(found);
        let folds: bool = self.shared.opts.ignore_case_insensitive;
        let has_git: bool = (plan.git_type && files.git) || (plan.jj_dir && files.jj);
        let mut errs = PartialErrorBuilder::new();
        assert(paths_view(plan.custom@).len() == plan.custom@.len());
        let (custom, a) = load_rules(plan.custom.len() > 0, dir, &files.custom, folds);
        let (ignore, b) = load_rules(plan.ignore, dir, &files.ignore, folds);
        let (git_ignore, c) = load_rules(plan.git_ignore, dir, &files.git_ignore, folds);
        let ghost all = files.git_exclude;
        let (git_exclude, d): (Gitignore, Option<Error>) = match files.git_exclude {
            Ok(excludes) => load_rules(plan.git_exclude, dir, &excludes, folds),
            Err(Some(e)) => (Gitignore::empty(), if plan.git_exclude && !e.is_io() {
                Some(e)
            } else {
                None
            }),
            Err(None) => (Gitignore::empty(), None),
        };
        let ghost told = in_order(a, b, c, d);
        errs.maybe_push(a);
        errs.maybe_push(b);
        errs.maybe_push(c);
        errs.maybe_push(d);
        let err = errs.into_error_option();
        assert(as_one(told, err));
        (ChildRules { custom, ignore, git_ignore, git_exclude, has_git }, err)
    }
}

/// The errors that there are, in their order.
pub open spec fn all_pushed(errs: Seq<Option<Error>>) -> Seq<Error>
    decreases errs.len(),
{
    if errs.len() == 0 {
        Seq::empty()
    } else {
        pushed(all_pushed(errs.drop_last()), errs.last())
    }
}

/// The directory above `base` that has `i` others above it.
pub open spec fn outer_dir(base: Seq<u8>, i: int) -> Seq<u8> {
    parents_of(base)[parents_of(base).len() - 1 - i]
}

/// The rules and errors are those of the outermost directories above `base`.
pub open spec fn are_children(
    shared: Shared,
    base: Seq<u8>,
    dirs: Seq<(ChildFiles, bool)>,
    rules: Seq<ChildRules>,
    errs: Seq<Option<Error>>,
) -> bool {
    rules.len() == errs.len() && forall|i: int|
        0 <= i < rules.len() ==> is_child(
            shared,
            outer_dir(base, i),
            None,
            dirs[i].0,
            #[trigger] rules[i],
            errs[i],
        )
}

/// The directories with the given rules, the innermost one first.
pub open spec fn parent_nodes(
    shared: Shared,
    base: Seq<u8>,
    dirs: Seq<(ChildFiles, bool)>,
    rules: Seq<ChildRules>,
) -> Seq<Node>
    decreases rules.len(),
{
    if rules.len() == 0 {
        Seq::empty()
    } else {
        let i = rules.len() - 1;
        seq![
            rules.last().node(
                outer_dir(base, i),
                true,
                shared.opts.require_git && shared.opts.git_ignore && dirs[i].1,
            ),
        ] + parent_nodes(shared, base, dirs, rules.drop_last())
    }
}

/// `nodes` and `err` are what comes of adding the rules of the directories above `base` to
/// those of `root`.
pub open spec fn has_parents(
    shared: Shared,
    root: Seq<Node>,
    base: Seq<u8>,
    dirs: Seq<(ChildFiles, bool)>,
    nodes: Seq<Node>,
    err: Option<Error>,
) -> bool {
    exists|rules: Seq<ChildRules>, errs: Seq<Option<Error>>|
        {
            &&& #[trigger] are_children(shared, base, dirs, rules, errs)
            &&& rules.len() == dirs.len()
            &&& nodes == parent_nodes(shared, base, dirs, rules) + root
            &&& as_one(all_pushed(errs), err)
        }
}

impl Ignore {
    /// The rules with those of the directories above the root of the walk, whose absolute path
    /// is `base`. What was read of each directory is given from the outermost on, with whether
    /// it is the root of a repository.
    pub fn add_parents(&self, base: Vec<u8>, dirs: Vec<(ChildFiles, bool)>) -> (r: (Ignore, Option<Error>))
        requires
            self.wf(),
            self.nodes().len() == 1,
            dirs@.len() == parents_of(base@).len(),
        ensures
            r.0.wf(),
            r.0.common() == self.common(),
            r.0.base() == (if dirs@.len() > 0 {
                Some(base@)
            } else {
                self.base()
            }),
            has_parents(self.common(), self.nodes(), base@, dirs@, r.0.nodes(), r.1),
    {
        let paths = ancestors(base.as_slice());
        let count: usize = paths.len();
        assert(paths_view(paths@).len() == count);
        let mut out = self.copy();
        let mut errs = PartialErrorBuilder::new();
        let mut i: usize = 0;
        let ghost all = dirs@;
        let ghost shared = self.common();
        let ghost mut rules_of: Seq<ChildRules> = Seq::empty();
        let ghost mut errs_of: Seq<Option<Error>> = Seq::empty();
        assert(Seq::<Node>::empty() + self.nodes() =~= self.nodes());
        for dir in it: dirs
            invariant
                it.seq() == all,
                all == dirs@,
                shared == self.common(),
                i == it.index(),
                count == paths@.len() == all.len(),
                paths_view(paths@) == parents_of(base@),
                out.wf(),
                out.common() == shared,
                out.base() == (if i > 0 {
                    Some(base@)
                } else {
                    self.base()
                }),
                rules_of.len() == i,
                are_children(shared, base@, all, rules_of, errs_of),
                out.nodes() == parent_nodes(shared, base@, all, rules_of) + self.nodes(),
                errs.errors() == all_pushed(errs_of),
        {
            let (files, has_git) = dir;
            let path: &[u8] = paths[count - 1 - i].as_slice();
            assert(path@ == outer_dir(base@, i as int));
            let ghost nodes = out.nodes();
            let (rules, err) = out.add_child_path_with_found_ignore_files(path, None, files);
            out = out.add_absolute_parent(path, rules, has_git, to_vec(base.as_slice()));
            errs.maybe_push(err);
            proof {
                let more = rules_of.push(rules);
                let said = errs_of.push(err);
                assert(more.drop_last() =~= rules_of);
                assert(said.drop_last() =~= errs_of);
                assert forall|k: int| 0 <= k < more.len() implies is_child(
                    shared,
                    outer_dir(base@, k),
                    None,
                    all[k].0,
                    #[trigger] more[k],
                    said[k],
                ) by {
                    if k < i {
                        assert(more[k] == rules_of[k] && said[k] == errs_of[k]);
                    }
                }
                assert(out.nodes() =~= parent_nodes(shared, base@, all, more) + self.nodes());
                rules_of = more;
                errs_of = said;
            }
            i += 1;
        }
        let err = errs.into_error_option();
        assert(are_children(shared, base@, dirs@, rules_of, errs_of));
        (out, err)
    }
}

/// What came of reading the first line of a file.
pub enum FirstLine {
    /// The file could not be opened; the text says why.
    Unopened(String),
    /// The line could not be read; the text says why.
    Failed(String),
    /// The file is empty.
    Missing,
    Line(Vec<u8>),
}

/// The file that names the directory which several working trees have in common, where the
/// first line of a `.git` file is given.
pub open spec fn commondir_path(line: Seq<u8>) -> Option<Seq<u8>> {
    if begins(line, lit("gitdir: ")) {
        Some(joined(from(line, lit("gitdir: ").len() as int), lit("commondir")))
    } else {
        None
    }
}

/// The error is a failure to read the file at `path`.
pub open spec fn is_io_at(err: Option<Error>, path: Seq<u8>, text: String) -> bool {
    err matches Some(Error::WithPath { path: p, err: e }) && p@ == path && *e == Error::Io(text)
}

/// The file that names the directory which several working trees have in common.
pub fn commondir_file(dot_git: &FirstLine) -> (r: Option<Vec<u8>>)
    ensures
        match *dot_git {
            FirstLine::Line(line) => match commondir_path(line@) {
                Some(p) => r matches Some(x) && x@ == p,
                None => r is None,
            },
            _ => r is None,
        },
{
    match dot_git {
        FirstLine::Line(line) => match gitdir_line(line.as_slice()) {
            Some(d) => Some(join(d, "commondir".as_bytes())),
            None => None,
        },
        _ => None,
    }
}

/// The directory with the repository of the directory `dir`. Where `.git` is a file, its first
/// line names the directory of the working tree, and the first line of the file `commondir`
/// there names the one that is looked for.
pub fn resolve_git_commondir(dir: &[u8], git_is_file: bool, dot_git: FirstLine, commondir: FirstLine) -> (r: Result<
    Vec<u8>,
    Option<Error>,
>)
    ensures
        if !git_is_file {
            r matches Ok(p) && p@ == joined(dir@, lit(".git"))
        } else {
            match dot_git {
                FirstLine::Unopened(text) | FirstLine::Failed(text) => r matches Err(e) && is_io_at(
                    e,
                    joined(dir@, lit(".git")),
                    text,
                ),
                FirstLine::Missing => r matches Err(None),
                FirstLine::Line(line) => match commondir_path(line@) {
                    None => r matches Err(None),
                    Some(file) => match commondir {
                        FirstLine::Unopened(_) | FirstLine::Missing => r matches Err(None),
                        FirstLine::Failed(text) => r matches Err(e) && is_io_at(e, file, text),
                        FirstLine::Line(c) => r matches Ok(p) && p@ == (if begins(c@, lit(".")) {
                            joined(from(line@, lit("gitdir: ").len() as int), c@)
                        } else {
                            c@
                        }),
                    },
                },
            }
        },
{
    let git_dir = join(dir, ".git".as_bytes());
    if !git_is_file {
        return Ok(git_dir);
    }
    let line: Vec<u8> = match dot_git {
        FirstLine::Unopened(text) => {
            return Err(Some(Error::Io(text).with_path(git_dir.as_slice())));
        },
        FirstLine::Failed(text) => {
            return Err(Some(Error::Io(text).with_path(git_dir.as_slice())));
        },
        FirstLine::Missing => {
            return Err(None);
        },
        FirstLine::Line(line) => line,
    };
    let private: &[u8] = match gitdir_line(line.as_slice()) {
        Some(d) => d,
        None => {
            return Err(None);
        },
    };
    match commondir {
        FirstLine::Unopened(_) => Err(None),
        FirstLine::Missing => Err(None),
        FirstLine::Failed(text) => {
            let file = join(private, "commondir".as_bytes());
            Err(Some(Error::Io(text).with_path(file.as_slice())))
        },
        FirstLine::Line(c) => Ok(common_dir(private, c.as_slice())),
    }
}

/// No rules.
pub open spec fn no_rules() -> Rules {
    Rules { rules: Seq::empty(), globs: Seq::empty() }
}

/// The directory that a `.git` file names, in a line that begins with `gitdir: `.
pub fn gitdir_line(line: &[u8]) -> (r: Option<&[u8]>)
    ensures
        r is Some <==> begins(line@, lit("gitdir: ")),
        r matches Some(d) ==> d@ == from(line@, lit("gitdir: ").len() as int),
{
    crate::bytes::strip_prefix(line, "gitdir: ".as_bytes())
}

/// The directory that several working trees have in common: a path that begins with a dot is
/// relative to the directory of the working tree's own.
pub fn common_dir(git_dir: &[u8], line: &[u8]) -> (r: Vec<u8>)
    ensures
        r@ == (if begins(line@, lit(".")) {
            joined(git_dir@, line@)
        } else {
            line@
        }),
{
    if crate::bytes::starts_with(line, ".".as_bytes()) {
        join(git_dir, line)
    } else {
        to_vec(line)
    }
}

/// Files of given names come before `.ignore` files, these before `.gitignore` files, these before
/// `.git/info/exclude`, and that before git's global file and rules given by the caller, however
/// far out they are.
pub proof fn law_order_of_files(shared: Shared, nodes: Seq<Node>, base: Option<Seq<u8>>, path: Seq<u8>, is_dir: bool)
    ensures
        ({
            let f = shared.found(nodes, base, path, is_dir);
            let m = shared.rules_say(nodes, base, path, is_dir);
            &&& !(f.custom is Nothing) ==> m == f.custom
            &&& f.custom is Nothing && !(f.ignore is Nothing) ==> m == f.ignore
            &&& f.custom is Nothing && f.ignore is Nothing && !(f.git_ignore is Nothing) ==> m == f.git_ignore
            &&& f.custom is Nothing && f.ignore is Nothing && f.git_ignore is Nothing && !(
            f.git_exclude is Nothing) ==> m == f.git_exclude
        }),
{
}

/// Before the rules of any directory are added, only git's global file and rules given by the
/// caller say something of a path.
pub proof fn law_no_directory_says_nothing(shared: Shared, path: Seq<u8>, is_dir: bool)
    ensures
        shared.rules_say(seq![root_node()], None, path, is_dir) == shared.said_for_all(
            seq![root_node()],
            path,
            is_dir,
        ),
{
    assert(shared.found(seq![root_node()], None, path, is_dir) == no_findings());
}

/// The rules of an inner directory come before those of an outer one.
pub proof fn law_inner_rules_come_first(
    shared: Shared,
    nodes: Seq<Node>,
    base: Option<Seq<u8>>,
    path: Seq<u8>,
    is_dir: bool,
)
    requires
        nodes.len() > 0,
        !nodes[0].absolute,
        !(nodes[0].custom.says(path, is_dir) is Nothing),
    ensures
        shared.rules_say(nodes, base, path, is_dir) == nodes[0].custom.says(path, is_dir),
{
    let any_git = !shared.opts.require_git || some_git(nodes);
    let f = with_node(no_findings(), nodes[0], path, is_dir, any_git);
    lemma_custom_kept(f, nodes.skip(1), path, is_dir, any_git);
    let inner = below_root(no_findings(), nodes, path, is_dir, any_git);
    if base is Some && shared.opts.parents {
        lemma_custom_kept_all(
            inner,
            above_root(nodes),
            absolute_path(base->0, root_dir(nodes, None), path),
            is_dir,
            any_git,
        );
    }
}

proof fn lemma_custom_kept(
    f: Findings,
    nodes: Seq<Node>,
    path: Seq<u8>,
    is_dir: bool,
    any_git: bool,
)
    requires
        !(f.custom is Nothing),
    ensures
        below_root(f, nodes, path, is_dir, any_git).custom == f.custom,
    decreases nodes.len(),
{
    if nodes.len() > 0 && !nodes[0].absolute {
        lemma_custom_kept(
            with_node(f, nodes[0], path, is_dir, any_git),
            nodes.skip(1),
            path,
            is_dir,
            any_git,
        );
    }
}

proof fn lemma_custom_kept_all(
    f: Findings,
    nodes: Seq<Node>,
    path: Seq<u8>,
    is_dir: bool,
    any_git: bool,
)
    requires
        !(f.custom is Nothing),
    ensures
        all_of(f, nodes, path, is_dir, any_git).custom == f.custom,
    decreases nodes.len(),
{
    if nodes.len() > 0 {
        lemma_custom_kept_all(
            with_node(f, nodes[0], path, is_dir, any_git),
            nodes.skip(1),
            path,
            is_dir,
            any_git,
        );
    }
}

/// Git's rules from outside of a repository say nothing of what is in it: beyond the root of
/// a repository, what git's rules said does not change.
pub proof fn law_git_rules_stop_at_repository(
    f: Findings,
    nodes: Seq<Node>,
    path: Seq<u8>,
    is_dir: bool,
    any_git: bool,
)
    requires
        f.saw_git,
    ensures
        below_root(f, nodes, path, is_dir, any_git).git_ignore == f.git_ignore,
        below_root(f, nodes, path, is_dir, any_git).git_exclude == f.git_exclude,
        all_of(f, nodes, path, is_dir, any_git).git_ignore == f.git_ignore,
        all_of(f, nodes, path, is_dir, any_git).git_exclude == f.git_exclude,
    decreases nodes.len(),
{
    if nodes.len() > 0 {
        law_git_rules_stop_at_repository(
            with_node(f, nodes[0], path, is_dir, any_git),
            nodes.skip(1),
            path,
            is_dir,
            any_git,
        );
    }
}

/// Of files with rules in one directory, such as those with names that were added, the last one
/// decides about every path that its rules say something of, and those before it about the rest.
pub proof fn law_later_file_decides(
    files: Seq<(Vec<u8>, Vec<u8>)>,
    last: (Vec<u8>, Vec<u8>),
    folds: bool,
    path: Seq<u8>,
    is_dir: bool,
)
    ensures
        ({
            let before = with_files(no_rules(), files, 0, folds);
            let own = with_lines(no_rules(), last.1@, 0, folds);
            with_files(no_rules(), files.push(last), 0, folds).verdict(path, is_dir) == (match own.verdict(
                path,
                is_dir,
            ) {
                Match::Nothing => before.verdict(path, is_dir),
                Match::Ignore(i) => Match::Ignore(before.rules.len() + i),
                Match::Whitelist(i) => Match::Whitelist(before.rules.len() + i),
            })
        }),
{
    let before = with_files(no_rules(), files, 0, folds);
    let own = with_lines(no_rules(), last.1@, 0, folds);
    lemma_last_file(no_rules(), files, last, 0, folds);
    lemma_pattern_for_each(no_rules(), files, 0, folds);
    lemma_pattern_for_each_rule(no_rules(), last.1@, 0, folds);
    assert(followed_by(before, no_rules()).rules =~= before.rules);
    assert(followed_by(before, no_rules()).globs =~= before.globs);
    lemma_lines_come_behind(before, no_rules(), last.1@, 0, folds);
    law_rules_behind_decide(before, own, path, is_dir);
}

proof fn lemma_last_file(
    rules: Rules,
    files: Seq<(Vec<u8>, Vec<u8>)>,
    last: (Vec<u8>, Vec<u8>),
    i: int,
    folds: bool,
)
    requires
        0 <= i <= files.len(),
    ensures
        with_files(rules, files.push(last), i, folds) == with_lines(
            with_files(rules, files, i, folds),
            last.1@,
            0,
            folds,
        ),
    decreases files.len() - i,
{
    if i < files.len() {
        assert(files.push(last)[i] == files[i]);
        lemma_last_file(with_lines(rules, files[i].1@, 0, folds), files, last, i + 1, folds);
    } else {
        assert(files.push(last)[i] == last);
        assert(with_files(with_lines(rules, last.1@, 0, folds), files.push(last), i + 1, folds) == with_lines(
            rules,
            last.1@,
            0,
            folds,
        ));
    }
}

proof fn lemma_pattern_for_each(rules: Rules, files: Seq<(Vec<u8>, Vec<u8>)>, i: int, folds: bool)
    requires
        rules.rules.len() == rules.globs.len(),
    ensures
        with_files(rules, files, i, folds).rules.len() == with_files(rules, files, i, folds).globs.len(),
    decreases files.len() - i,
{
    if i < files.len() {
        lemma_pattern_for_each_rule(rules, files[i].1@, 0, folds);
        lemma_pattern_for_each(with_lines(rules, files[i].1@, 0, folds), files, i + 1, folds);
    }
}

} // verus!
