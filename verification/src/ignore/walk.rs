//! Walking directory trees: which entries are visited, and in what order things are done.
use crate::bytes::{eq_bytes, lit, to_vec};
use crate::ignore::chain::{Ignore, IgnoreOptions, Shared};
use crate::ignore::entry::{DirEntry, DirEntryInner, FileType};
use crate::ignore::gitignore::Gitignore;
use crate::ignore::types::Types;
use crate::path::paths_view;
use vstd::prelude::*;

verus! {

/// How a walk goes on after an entry.
#[derive(Clone, Copy, Debug, PartialEq, Eq, Structural)]
pub enum WalkState {
    /// The walk goes on.
    Continue,
    /// The walk does not go into the directory that the entry is.
    Skip,
    /// The walk ends as soon as possible.
    Quit,
}

impl WalkState {
    pub fn is_continue(&self) -> (r: bool)
        ensures
            r == (*self == WalkState::Continue),
    {
        *self == WalkState::Continue
    }

    pub fn is_quit(&self) -> (r: bool)
        ensures
            r == (*self == WalkState::Quit),
    {
        *self == WalkState::Quit
    }
}

/// What a walk is made with.
pub struct WalkOptions {
    /// Where the walk begins.
    pub root: Vec<u8>,
    /// Hidden files are left out.
    pub hidden: bool,
    /// The ignore files of the directories above the root are read.
    pub parents: bool,
    /// `.ignore` files are read.
    pub ignore: bool,
    /// `.gitignore` files are read.
    pub git_ignore: bool,
    /// Git's global ignore file is read.
    pub git_global: bool,
    /// `.git/info/exclude` is read.
    pub git_exclude: bool,
    /// Symbolic links are followed.
    pub follow_links: bool,
    /// The entries of each directory come in the order of their names.
    pub sort_by_file_name: bool,
    /// How deep the walk goes. It goes to any depth where nothing is said.
    pub max_depth: Option<usize>,
    /// The names of ignore files that are read besides `.ignore`. Later ones come first.
    pub custom_ignore_filenames: Vec<Vec<u8>>,
    /// The file types that are ignored.
    pub types: Types,
}

impl Default for WalkOptions {
    fn default() -> (r: WalkOptions)
        ensures
            r.root@ == Seq::<u8>::empty(),
            r.hidden && r.parents && r.ignore && r.git_ignore && r.git_global && r.git_exclude,
            !r.follow_links && !r.sort_by_file_name,
            r.max_depth is None,
            r.custom_ignore_filenames@.len() == 0,
            r.types.wf(),
            r.types.selected() == 0,
            r.types.patterns().len() == 0,
    {
        WalkOptions {
            root: Vec::new(),
            hidden: true,
            parents: true,
            ignore: true,
            git_ignore: true,
            git_global: true,
            git_exclude: true,
            follow_links: false,
            sort_by_file_name: false,
            max_depth: None,
            custom_ignore_filenames: Vec::new(),
            types: Types::empty(),
        }
    }
}

/// The settings of a walk.
pub struct WalkSettings {
    pub opts: IgnoreOptions,
    pub max_depth: Option<usize>,
    pub min_depth: Option<usize>,
    pub max_filesize: Option<u64>,
    pub follow_links: bool,
    pub same_file_system: bool,
    pub sorted: bool,
    pub threads: usize,
    pub paths: Seq<Seq<u8>>,
    pub custom_ignore_filenames: Seq<Seq<u8>>,
}

/// The settings of a walk that have to do with the directories.
#[derive(Debug)]
pub struct WalkPlan {
    pub paths: Vec<Vec<u8>>,
    pub max_depth: Option<usize>,
    pub min_depth: Option<usize>,
    pub max_filesize: Option<u64>,
    pub follow_links: bool,
    pub same_file_system: bool,
    pub sorted: bool,
    pub threads: usize,
}

/// A builder for a walk.
pub struct WalkBuilder {
    paths: Vec<Vec<u8>>,
    opts: IgnoreOptions,
    types: Types,
    custom_ignore_filenames: Vec<Vec<u8>>,
    max_depth: Option<usize>,
    min_depth: Option<usize>,
    max_filesize: Option<u64>,
    follow_links: bool,
    same_file_system: bool,
    sorted: bool,
    threads: usize,
}

/// The settings of a walk where nothing is said.
pub open spec fn default_settings() -> WalkSettings {
    WalkSettings {
        opts: IgnoreOptions {
            hidden: true,
            ignore: true,
            parents: true,
            git_global: true,
            git_ignore: true,
            git_exclude: true,
            ignore_case_insensitive: false,
            require_git: true,
        },
        max_depth: None,
        min_depth: None,
        max_filesize: None,
        follow_links: false,
        same_file_system: false,
        sorted: false,
        threads: 0,
        paths: Seq::empty(),
        custom_ignore_filenames: Seq::empty(),
    }
}

impl WalkBuilder {
    pub closed spec fn settings(self) -> WalkSettings {
        WalkSettings {
            opts: self.opts,
            max_depth: self.max_depth,
            min_depth: self.min_depth,
            max_filesize: self.max_filesize,
            follow_links: self.follow_links,
            same_file_system: self.same_file_system,
            sorted: self.sorted,
            threads: self.threads,
            paths: paths_view(self.paths@),
            custom_ignore_filenames: paths_view(self.custom_ignore_filenames@),
        }
    }

    pub closed spec fn file_types(self) -> Types {
        self.types
    }

    /// A builder for a walk from `path`.
    pub fn new(path: &[u8]) -> (r: WalkBuilder)
        ensures
            r.settings() == (WalkSettings { paths: seq![path@], ..default_settings() }),
            r.file_types().wf(),
            r.file_types().selected() == 0,
            r.file_types().patterns().len() == 0,
    {
        let mut b = WalkBuilder::empty();
        b.add_path(path);
        assert(b.settings().paths =~= seq![path@]);
        b
    }

    /// A builder for a walk from nowhere yet.
    pub fn empty() -> (r: WalkBuilder)
        ensures
            r.settings() == default_settings(),
            r.file_types().wf(),
            r.file_types().selected() == 0,
            r.file_types().patterns().len() == 0,
    {
        let r = WalkBuilder {
            paths: Vec::new(),
            opts: IgnoreOptions {
                hidden: true,
                ignore: true,
                parents: true,
                git_global: true,
                git_ignore: true,
                git_exclude: true,
                ignore_case_insensitive: false,
                require_git: true,
            },
            types: Types::empty(),
            custom_ignore_filenames: Vec::new(),
            max_depth: None,
            min_depth: None,
            max_filesize: None,
            follow_links: false,
            same_file_system: false,
            sorted: false,
            threads: 0,
        };
        assert(r.settings().paths =~= Seq::empty());
        assert(r.settings().custom_ignore_filenames =~= Seq::empty());
        r
    }

    /// Adds a path from which to walk.
    pub fn add_path(&mut self, path: &[u8])
        ensures
            final(self).settings() == (WalkSettings {
                paths: old(self).settings().paths.push(path@),
                ..old(self).settings()
            }),
            final(self).file_types() == old(self).file_types(),
    {
        let ghost before = self.settings();
        self.paths.push(to_vec(path));
        assert(self.settings().paths =~= before.paths.push(path@));
    }

    /// How deep the walk goes, which is at least as deep as the entries that it gives.
    pub fn max_depth(&mut self, depth: Option<usize>) -> (r: &mut WalkBuilder)
        ensures
            r.settings() == (WalkSettings {
                max_depth: match (depth, old(self).settings().min_depth) {
                    (Some(max), Some(min)) => if max < min {
                        Some(min)
                    } else {
                        Some(max)
                    },
                    _ => depth,
                },
                ..old(self).settings()
            }),
            r.file_types() == old(self).file_types(),
            *final(self) == *final(r),
    {
        self.max_depth = match (depth, self.min_depth) {
            (Some(max), Some(min)) => if max < min {
                Some(min)
            } else {
                Some(max)
            },
            _ => depth,
        };
        self
    }

    /// Whether symbolic links are followed.
    pub fn follow_links(&mut self, yes: bool) -> (r: &mut WalkBuilder)
        ensures
            r.settings() == (WalkSettings { follow_links: yes, ..old(self).settings() }),
            r.file_types() == old(self).file_types(),
            *final(self) == *final(r),
    {
        self.follow_links = yes;
        self
    }

    /// Adds the name of an ignore file that is read besides `.ignore`. Later ones come first,
    /// and all of them before other ignore files.
    pub fn add_custom_ignore_filename(&mut self, name: &[u8]) -> (r: &mut WalkBuilder)
        ensures
            r.settings() == (WalkSettings {
                custom_ignore_filenames: old(self).settings().custom_ignore_filenames.push(name@),
                ..old(self).settings()
            }),
            r.file_types() == old(self).file_types(),
            *final(self) == *final(r),
    {
        let ghost before = self.settings();
        self.custom_ignore_filenames.push(to_vec(name));
        assert(self.settings().custom_ignore_filenames =~= before.custom_ignore_filenames.push(
            name@,
        ));
        self
    }

    /// Sets the file types that are ignored.
    pub fn types(&mut self, types: Types) -> (r: &mut WalkBuilder)
        ensures
            r.settings() == old(self).settings(),
            r.file_types() == types,
            *final(self) == *final(r),
    {
        self.types = types;
        self
    }

    /// Whether hidden files are ignored. They are where nothing is said.
    pub fn hidden(&mut self, yes: bool) -> (r: &mut WalkBuilder)
        ensures
            r.settings() == (WalkSettings {
                opts: IgnoreOptions { hidden: yes, ..old(self).settings().opts },
                ..old(self).settings()
            }),
            r.file_types() == old(self).file_types(),
            *final(self) == *final(r),
    {
        self.opts.hidden = yes;
        self
    }

    /// Whether the ignore files of the directories above the root are read. They are where
    /// nothing is said.
    pub fn parents(&mut self, yes: bool) -> (r: &mut WalkBuilder)
        ensures
            r.settings() == (WalkSettings {
                opts: IgnoreOptions { parents: yes, ..old(self).settings().opts },
                ..old(self).settings()
            }),
            r.file_types() == old(self).file_types(),
            *final(self) == *final(r),
    {
        self.opts.parents = yes;
        self
    }

    /// Whether `.ignore` files are read. They are where nothing is said.
    pub fn ignore(&mut self, yes: bool) -> (r: &mut WalkBuilder)
        ensures
            r.settings() == (WalkSettings {
                opts: IgnoreOptions { ignore: yes, ..old(self).settings().opts },
                ..old(self).settings()
            }),
            r.file_types() == old(self).file_types(),
            *final(self) == *final(r),
    {
        self.opts.ignore = yes;
        self
    }

    /// Whether git's global ignore file is read. It is where nothing is said.
    pub fn git_global(&mut self, yes: bool) -> (r: &mut WalkBuilder)
        ensures
            r.settings() == (WalkSettings {
                opts: IgnoreOptions { git_global: yes, ..old(self).settings().opts },
                ..old(self).settings()
            }),
            r.file_types() == old(self).file_types(),
            *final(self) == *final(r),
    {
        self.opts.git_global = yes;
        self
    }

    /// Whether `.gitignore` files are read. They are where nothing is said.
    pub fn git_ignore(&mut self, yes: bool) -> (r: &mut WalkBuilder)
        ensures
            r.settings() == (WalkSettings {
                opts: IgnoreOptions { git_ignore: yes, ..old(self).settings().opts },
                ..old(self).settings()
            }),
            r.file_types() == old(self).file_types(),
            *final(self) == *final(r),
    {
        self.opts.git_ignore = yes;
        self
    }

    /// Whether `.git/info/exclude` is read. It is where nothing is said.
    pub fn git_exclude(&mut self, yes: bool) -> (r: &mut WalkBuilder)
        ensures
            r.settings() == (WalkSettings {
                opts: IgnoreOptions { git_exclude: yes, ..old(self).settings().opts },
                ..old(self).settings()
            }),
            r.file_types() == old(self).file_types(),
            *final(self) == *final(r),
    {
        self.opts.git_exclude = yes;
        self
    }

    /// Whether the entries of each directory come in the order of their names.
    pub fn sort_by_file_name(&mut self, yes: bool) -> (r: &mut WalkBuilder)
        ensures
            r.settings() == (WalkSettings { sorted: yes, ..old(self).settings() }),
            r.file_types() == old(self).file_types(),
            *final(self) == *final(r),
    {
        self.sorted = yes;
        self
    }

    /// A walk with the given options.
    pub fn from_options(opts: WalkOptions) -> (r: WalkBuilder)
        ensures
            r.settings() == (WalkSettings {
                opts: IgnoreOptions {
                    hidden: opts.hidden,
                    ignore: opts.ignore,
                    parents: opts.parents,
                    git_global: opts.git_global,
                    git_ignore: opts.git_ignore,
                    git_exclude: opts.git_exclude,
                    ..default_settings().opts
                },
                follow_links: opts.follow_links,
                max_depth: opts.max_depth,
                sorted: opts.sort_by_file_name,
                paths: seq![opts.root@],
                custom_ignore_filenames: paths_view(opts.custom_ignore_filenames@),
                ..default_settings()
            }),
            r.file_types() == opts.types,
    {
        let mut b = WalkBuilder::new(opts.root.as_slice());
        b.opts.hidden = opts.hidden;
        b.opts.parents = opts.parents;
        b.opts.ignore = opts.ignore;
        b.opts.git_ignore = opts.git_ignore;
        b.opts.git_global = opts.git_global;
        b.opts.git_exclude = opts.git_exclude;
        b.follow_links = opts.follow_links;
        b.max_depth = opts.max_depth;
        b.types = opts.types;
        b.sorted = opts.sort_by_file_name;
        b.custom_ignore_filenames = opts.custom_ignore_filenames;
        b
    }

    /// The settings of the walk that have to do with the directories.
    pub fn plan(&self) -> (r: WalkPlan)
        ensures
            paths_view(r.paths@) == self.settings().paths,
            r.max_depth == self.settings().max_depth,
            r.min_depth == self.settings().min_depth,
            r.max_filesize == self.settings().max_filesize,
            r.follow_links == self.settings().follow_links,
            r.same_file_system == self.settings().same_file_system,
            r.sorted == self.settings().sorted,
            r.threads == self.settings().threads,
    {
        let mut paths: Vec<Vec<u8>> = Vec::new();
        let mut i: usize = 0;
        assert(paths_view(paths@) =~= paths_view(self.paths@).take(0));
        while i < self.paths.len()
            invariant
                i <= self.paths@.len(),
                paths_view(paths@) == paths_view(self.paths@).take(i as int),
            decreases self.paths@.len() - i,
        {
            let ghost before = paths_view(paths@);
            paths.push(to_vec(self.paths[i].as_slice()));
            assert(paths_view(paths@) =~= before.push(self.paths@[i as int]@));
            assert(paths_view(paths@) =~= paths_view(self.paths@).take(i + 1));
            i += 1;
        }
        assert(paths_view(paths@) =~= paths_view(self.paths@));
        WalkPlan {
            paths,
            max_depth: self.max_depth,
            min_depth: self.min_depth,
            max_filesize: self.max_filesize,
            follow_links: self.follow_links,
            same_file_system: self.same_file_system,
            sorted: self.sorted,
            threads: self.threads,
        }
    }

    /// The rules for the walk, before those of any directory are added. `git_global` holds
    /// the rules of git's global ignore file, which are left out where they are not wanted.
    pub fn build_ignore(self, git_global: Gitignore) -> (r: Ignore)
        requires
            self.file_types().wf(),
            git_global.wf(),
        ensures
            r.wf(),
            r.base() is None,
            r.nodes() == seq![crate::ignore::chain::root_node()],
            r.common().opts == self.settings().opts,
            r.common().types == self.file_types(),
            r.common().explicit_ignores@.len() == 0,
            paths_view(r.common().custom_ignore_filenames@)
                == self.settings().custom_ignore_filenames,
            self.settings().opts.git_global ==> r.common().git_global_matcher == git_global,
            !self.settings().opts.git_global ==> r.common().git_global_matcher.rules()
                == crate::ignore::chain::no_rules() && r.common().git_global_matcher.directory().len() == 0,
    {
        let git_global_matcher: Gitignore = if self.opts.git_global {
            git_global
        } else {
            Gitignore::empty()
        };
        Ignore::new(
            Shared {
                opts: self.opts,
                types: self.types,
                explicit_ignores: Vec::new(),
                custom_ignore_filenames: self.custom_ignore_filenames,
                git_global_matcher,
            },
        )
    }
}

/// The number of threads for a walk: the one that is wanted, or as many as there are, but no
/// more than twelve.
pub fn thread_count(wanted: usize, available: usize) -> (r: usize)
    ensures
        wanted != 0 ==> r == wanted,
        wanted == 0 ==> r == (if available < 12 {
            available
        } else {
            12
        }),
{
    if wanted != 0 {
        wanted
    } else if available < 12 {
        available
    } else {
        12
    }
}

/// Whether the rules leave the entry out.
pub fn should_skip_entry(ig: &Ignore, dent: &DirEntry) -> (r: bool)
    requires
        ig.wf(),
    ensures
        r == (ig.says_of(*dent) is Ignore),
{
    ig.matched_dir_entry(dent).is_ignore()
}

/// Whether a file is too large, where its size is known.
pub fn skip_filesize(max_filesize: u64, size: Option<u64>) -> (r: bool)
    ensures
        r == (size matches Some(s) && s > max_filesize),
{
    match size {
        Some(s) => s > max_filesize,
        None => false,
    }
}

/// What has to be found out about an entry before it is known whether it is left out.
#[derive(Clone, Copy, Debug, PartialEq, Eq, Structural)]
pub enum SkipStep {
    /// The entry is left out or not.
    Decided(bool),
    /// Whether the entry is the file that the output goes to.
    IsOutput,
    /// The size of the file, if it can be had. The file is left out where it is above this.
    Size(u64),
    /// Whether the caller's predicate holds of the entry.
    Filter,
}

/// How far it is known whether an entry is left out.
#[derive(Clone, Copy, Debug, PartialEq, Eq, Structural)]
pub enum SkipPhase {
    /// Nothing is known.
    Rules,
    /// The rules do not leave it out, and it is not the output.
    Output,
    /// It is not too large either.
    Size,
}

/// The next thing to be found out about an entry of a walk in one thread. Of a root, only the
/// predicate is asked.
pub fn skip_step(
    phase: SkipPhase,
    ig: &Ignore,
    dent: &DirEntry,
    skips_output: bool,
    max_filesize: Option<u64>,
    has_filter: bool,
) -> (r: SkipStep)
    requires
        ig.wf(),
    ensures
        r == next_skip(phase, *ig, *dent, skips_output, max_filesize, has_filter),
{
    let last = if has_filter {
        SkipStep::Filter
    } else {
        SkipStep::Decided(false)
    };
    if dent.depth() == 0 || phase == SkipPhase::Size {
        return last;
    }
    if phase == SkipPhase::Rules {
        if should_skip_entry(ig, dent) {
            return SkipStep::Decided(true);
        }
        if skips_output {
            return SkipStep::IsOutput;
        }
    }
    match max_filesize {
        Some(max) => {
            if !dent.is_dir() {
                return SkipStep::Size(max);
            }
        },
        None => {},
    }
    last
}

/// What is asked about an entry that nothing but the predicate can leave out.
pub open spec fn last_skip(has_filter: bool) -> SkipStep {
    if has_filter {
        SkipStep::Filter
    } else {
        SkipStep::Decided(false)
    }
}

/// The next thing to be found out about an entry.
pub open spec fn next_skip(
    phase: SkipPhase,
    ig: Ignore,
    dent: DirEntry,
    skips_output: bool,
    max_filesize: Option<u64>,
    has_filter: bool,
) -> SkipStep {
    if dent.depth_view() == 0 || phase == SkipPhase::Size {
        last_skip(has_filter)
    } else if phase == SkipPhase::Rules && ig.says_of(dent) is Ignore {
        SkipStep::Decided(true)
    } else if phase == SkipPhase::Rules && skips_output {
        SkipStep::IsOutput
    } else if max_filesize is Some && dent.type_view() != Some(FileType::Dir) {
        SkipStep::Size(max_filesize->0)
    } else {
        last_skip(has_filter)
    }
}

/// What is found out about an entry.
pub struct SkipAnswers {
    /// Whether the entry is the output. `None` after an error.
    pub is_output: Option<bool>,
    pub size: Option<u64>,
    /// Whether the predicate holds.
    pub holds: bool,
}

/// Whether an entry is left out, from `phase` on, with these answers. `None` after an error.
pub open spec fn left_out(
    phase: SkipPhase,
    ig: Ignore,
    dent: DirEntry,
    skips_output: bool,
    max_filesize: Option<u64>,
    has_filter: bool,
    a: SkipAnswers,
) -> Option<bool>
    decreases
            (match phase {
                SkipPhase::Rules => 2int,
                SkipPhase::Output => 1int,
                SkipPhase::Size => 0int,
            }),
{
    match next_skip(phase, ig, dent, skips_output, max_filesize, has_filter) {
        SkipStep::Decided(b) => Some(b),
        SkipStep::IsOutput => match a.is_output {
            Some(false) => left_out(SkipPhase::Output, ig, dent, skips_output, max_filesize, has_filter, a),
            x => x,
        },
        SkipStep::Size(max) => if a.size matches Some(n) && n > max {
            Some(true)
        } else {
            left_out(SkipPhase::Size, ig, dent, skips_output, max_filesize, has_filter, a)
        },
        SkipStep::Filter => Some(!a.holds),
    }
}

/// An entry for which the predicate does not hold is not given, and a root for which it holds
/// is.
pub proof fn law_predicate_leaves_out(
    ig: Ignore,
    dent: DirEntry,
    skips_output: bool,
    max_filesize: Option<u64>,
    a: SkipAnswers,
)
    ensures
        !a.holds ==> left_out(SkipPhase::Rules, ig, dent, skips_output, max_filesize, true, a) != Some(false),
        dent.depth_view() == 0 ==> left_out(SkipPhase::Rules, ig, dent, skips_output, max_filesize, true, a)
            == Some(!a.holds),
{
    reveal_with_fuel(left_out, 3);
}

/// Whether the entry could be the file with the given inode.
pub fn could_be_file(dent: &DirEntry, ino: u64) -> (r: bool)
    ensures
        r == (dent.dent matches DirEntryInner::Raw(x) && x.ino == ino),
{
    match dent.ino() {
        Some(n) => n == ino,
        None => false,
    }
}

/// What comes next in a walk: a directory, a file, or the end of the directory that it is in.
#[derive(Clone, Copy, Debug, PartialEq, Eq, Structural)]
pub enum WalkEvent {
    Dir,
    File,
    Exit,
    /// An error at the entry.
    Failed,
    /// Nothing comes any more.
    End,
}

/// The event for an entry that comes next, and the depth after it. An entry is given by its
/// depth and by whether it is a directory, which is not known after an error. The event is
/// `Exit` as long as the entry is outside of the current directory; the entry then comes
/// again.
pub open spec fn event_for(depth: int, next: Option<(usize, Option<bool>)>) -> (WalkEvent, int) {
    let d = match next {
        None => 0,
        Some(e) => e.0 as int,
    };
    if d < depth {
        (WalkEvent::Exit, depth - 1)
    } else {
        match next {
            None => (WalkEvent::End, d),
            Some((_, None)) => (WalkEvent::Failed, d),
            Some((_, Some(true))) => (WalkEvent::Dir, d + 1),
            Some((_, Some(false))) => (WalkEvent::File, d),
        }
    }
}

/// The depth of a walk.
pub struct WalkEventIter {
    depth: usize,
}

impl WalkEventIter {
    pub closed spec fn level(self) -> int {
        self.depth as int
    }

    /// A walk that has not begun.
    pub fn new() -> (r: WalkEventIter)
        ensures
            r.level() == 0,
    {
        WalkEventIter { depth: 0 }
    }

    /// The event for the entry that comes next.
    pub fn next(&mut self, next: Option<(usize, Option<bool>)>) -> (r: WalkEvent)
        requires
            next matches Some((d, Some(true))) ==> d < usize::MAX,
        ensures
            (r, final(self).level()) == event_for(old(self).level(), next),
    {
        let depth: usize = match next {
            None => 0,
            Some((d, _)) => d,
        };
        if depth < self.depth {
            self.depth = self.depth - 1;
            return WalkEvent::Exit;
        }
        self.depth = depth;
        match next {
            None => WalkEvent::End,
            Some((_, None)) => WalkEvent::Failed,
            Some((_, Some(is_dir))) => {
                if is_dir {
                    self.depth = self.depth + 1;
                    WalkEvent::Dir
                } else {
                    WalkEvent::File
                }
            },
        }
    }
}

/// Each directory that is entered is left: between an entry and the next one, as many
/// directories end as the walk goes up.
pub proof fn law_exits_match_depth(depth: int, next: Option<(usize, Option<bool>)>)
    requires
        depth >= 0,
    ensures
        ({
            let d = match next {
                None => 0,
                Some(e) => e.0 as int,
            };
            exits_before(depth, next) == (if d < depth {
                depth - d
            } else {
                0
            })
        }),
    decreases depth,
{
    if event_for(depth, next).0 is Exit {
        law_exits_match_depth(depth - 1, next);
    }
}

/// How many directories end before the entry that comes next.
pub open spec fn exits_before(depth: int, next: Option<(usize, Option<bool>)>) -> int
    decreases depth,
{
    if depth > 0 && event_for(depth, next).0 is Exit {
        1 + exits_before(depth - 1, next)
    } else {
        0
    }
}

/// Whether an entry is a directory that the walk goes into: a directory, or a root that is a
/// symbolic link to one.
pub fn walkdir_is_dir(ty: FileType, depth: usize, target_is_dir: bool) -> (r: bool)
    ensures
        r == (ty == FileType::Dir || (ty == FileType::Symlink && depth == 0 && target_is_dir)),
{
    if ty.is_dir() {
        return true;
    }
    if !ty.is_symlink() || depth > 0 {
        return false;
    }
    target_is_dir
}

/// Where a walk begins with one of its paths.
#[derive(Clone, Copy, Debug, PartialEq, Eq, Structural)]
pub enum RootAction {
    /// The path stands for the standard input, which is an entry.
    GiveStdin,
    /// The rules of the directories above are added.
    AddParents,
    /// The rules are those of the walk.
    Plain,
}

/// Where a walk begins with `path`.
pub fn root_action(path: &[u8], is_dir: bool) -> (r: RootAction)
    ensures
        r is GiveStdin <==> path@ == lit("-"),
        r is AddParents <==> path@ != lit("-") && is_dir,
{
    if eq_bytes(path, "-".as_bytes()) {
        RootAction::GiveStdin
    } else if is_dir {
        RootAction::AddParents
    } else {
        RootAction::Plain
    }
}

/// What is done with an entry of a walk.
#[derive(Clone, Copy, Debug, PartialEq, Eq, Structural)]
pub enum EntryAction {
    /// It is given.
    Give,
    /// It is left out.
    LeaveOut,
    /// Its rules are added, and it is given.
    Enter,
    /// Its rules are added, and what is in it is left out.
    PassBy,
    /// The error is given.
    Fail,
}

impl EntryAction {
    /// The rules of a directory are added, which is left again later.
    pub open spec fn enters(self) -> bool {
        self is Enter || self is PassBy
    }
}

/// What is done with an entry that is a directory or not, where it is known whether it is left
/// out. A directory that is left out is left again like any other.
pub fn entry_action(is_dir: bool, skip: Option<bool>) -> (r: EntryAction)
    ensures
        r is Fail <==> skip is None,
        r.enters() <==> is_dir && skip is Some,
        r is Give || r is Enter <==> skip == Some(false),
        r is LeaveOut || r is PassBy <==> skip == Some(true),
{
    match skip {
        None => EntryAction::Fail,
        Some(true) => {
            if is_dir {
                EntryAction::PassBy
            } else {
                EntryAction::LeaveOut
            }
        },
        Some(false) => {
            if is_dir {
                EntryAction::Enter
            } else {
                EntryAction::Give
            }
        },
    }
}

} // verus!
