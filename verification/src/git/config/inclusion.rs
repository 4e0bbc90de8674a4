//! Taking in the files that a configuration file names.
use crate::bytes::{begins, eq_bytes, lit, to_vec};
use crate::git::config::body::body_values;
use crate::git::config::file::{appended, empty_file, files_view, ids_of, lemma_ids_all_taken, lemma_pairs_from_no_file, lemma_section_pos, merge, merged_files, parsed_file, section_pos, with_pairs, FileView, GitConfigurationFile};
use crate::git::config::follow::{condition_of, dir_pattern, gather_paths, gitdir_matches, path_value, section_condition, Condition, ConditionView, FileIncludesOptions};
use crate::git::config::parse::{opt_view, SectionHeaderView};
use crate::git::config::value::{interpolated, opt_slice, ConfigPath, Interpolation, InterpolationContext, InterpolationView};
use crate::git::wildmatch::{wild_matches, WildmatchMode};
use crate::path::{absolute, join, joined, parent, parent_of};
use vstd::prelude::*;

verus! {

/// What came of reading a file that another one names.
#[derive(Debug)]
pub enum NamedFile {
    /// There is no regular file.
    NotAFile,
    Failed,
    Contents(Vec<u8>),
}

/// What is known of the file system and of users.
#[derive(Debug)]
pub struct Answers {
    /// The homes of users, or that a user has none.
    pub homes: Vec<(Vec<u8>, Option<Vec<u8>>)>,
    /// The directory of the repository without symbolic links, or that it could not be found.
    pub real_dir: Option<Option<Vec<u8>>>,
    pub files: Vec<(Vec<u8>, NamedFile)>,
}

/// What has to be known before the files can be taken in.
#[derive(Debug)]
pub enum Question {
    /// The home of this user.
    HomeOf(Vec<u8>),
    /// The directory of the repository without symbolic links.
    RealDir,
    /// What is in this file.
    File(Vec<u8>),
}

/// Why the files were not taken in.
#[derive(Debug)]
pub enum Stop {
    Ask(Question),
    Failed,
}

pub enum StopView {
    HomeOf(Seq<u8>),
    RealDir,
    File(Seq<u8>),
    Failed,
}

impl View for Stop {
    type V = StopView;

    open spec fn view(&self) -> StopView {
        match self {
            Stop::Ask(Question::HomeOf(name)) => StopView::HomeOf(name@),
            Stop::Ask(Question::RealDir) => StopView::RealDir,
            Stop::Ask(Question::File(path)) => StopView::File(path@),
            Stop::Failed => StopView::Failed,
        }
    }
}

/// The last of the first `n` answers for `key`.
pub open spec fn answer<T>(list: Seq<(Vec<u8>, T)>, key: Seq<u8>, n: int) -> Option<T>
    decreases n,
{
    if n <= 0 {
        None
    } else if list[n - 1].0@ == key {
        Some(list[n - 1].1)
    } else {
        answer(list, key, n - 1)
    }
}

/// The answer for `key`.
fn find_answer<'a, T>(list: &'a Vec<(Vec<u8>, T)>, key: &[u8]) -> (r: Option<&'a T>)
    ensures
        match answer(list@, key@, list@.len() as int) {
            Some(x) => r matches Some(y) && *y == x,
            None => r is None,
        },
{
    let mut i: usize = list.len();
    while i > 0
        invariant
            i <= list@.len(),
            answer(list@, key@, list@.len() as int) == answer(list@, key@, i as int),
        decreases i,
    {
        i -= 1;
        if eq_bytes(list[i].0.as_slice(), key) {
            return Some(&list[i].1);
        }
    }
    None
}

impl Answers {
    /// A file that is there lies in a directory.
    pub open spec fn wf(self) -> bool {
        forall|i: int|
            0 <= i < self.files@.len() && (#[trigger] self.files@[i]).1 is Contents ==> parent_of(
                self.files@[i].0@,
            ) is Some
    }

    /// Nothing is known.
    pub fn new() -> (r: Answers)
        ensures
            r.wf(),
            r.homes@.len() == 0,
            r.real_dir is None,
            r.files@.len() == 0,
    {
        Answers { homes: Vec::new(), real_dir: None, files: Vec::new() }
    }

    /// Takes note of a file. What does not lie in a directory is no file.
    pub fn add_file(&mut self, path: Vec<u8>, file: NamedFile)
        requires
            old(self).wf(),
        ensures
            final(self).wf(),
            final(self).homes == old(self).homes,
            final(self).real_dir == old(self).real_dir,
            final(self).files@ == old(self).files@.push(
                (
                    path,
                    if file is Contents && parent_of(path@) is None {
                        NamedFile::NotAFile
                    } else {
                        file
                    },
                ),
            ),
    {
        let lies = parent(path.as_slice()).is_some();
        let kept = match file {
            NamedFile::Contents(c) => {
                if lies {
                    NamedFile::Contents(c)
                } else {
                    NamedFile::NotAFile
                }
            },
            other => other,
        };
        self.files.push((path, kept));
    }
}

/// How the files that a configuration file names are taken in.
pub struct Inclusion<'a> {
    pub options: &'a FileIncludesOptions,
    pub git_install_dir: Option<&'a [u8]>,
    pub home_dir: Option<&'a [u8]>,
    pub git_dir: &'a [u8],
    pub answers: &'a Answers,
}

impl<'a> Inclusion<'a> {
    /// The completed path, or `None` where it cannot be completed.
    pub open spec fn completed(self, p: Seq<u8>) -> Result<Option<Seq<u8>>, StopView> {
        match interpolated(p, opt_slice(self.git_install_dir), opt_slice(self.home_dir), true) {
            None => Ok(None),
            Some(InterpolationView::Path(x)) => Ok(Some(x)),
            Some(InterpolationView::InHomeOf { name, rest }) => match answer(
                self.answers.homes@,
                name,
                self.answers.homes@.len() as int,
            ) {
                None => Err(StopView::HomeOf(name)),
                Some(None) => Ok(None),
                Some(Some(home)) => Ok(Some(joined(home@, rest))),
            },
        }
    }

    /// Whether the pattern, completed and in the file `file`, matches the repository.
    pub open spec fn dir_matches(self, path: Seq<u8>, file: Option<Seq<u8>>, ignore_case: bool) -> Result<
        bool,
        StopView,
    > {
        let mode = WildmatchMode { no_match_slash_literal: true, ignore_case };
        if begins(path, lit("./")) && file is None {
            if self.options.err_on_missing_config_path {
                Err(StopView::Failed)
            } else {
                Ok(false)
            }
        } else if wild_matches(dir_pattern(path, file), self.git_dir@, mode) {
            Ok(true)
        } else {
            match self.answers.real_dir {
                None => Err(StopView::RealDir),
                Some(None) => Err(StopView::Failed),
                Some(Some(d)) => Ok(wild_matches(dir_pattern(path, file), d@, mode)),
            }
        }
    }

    /// Whether the files that a section with the header `h` in the file `file` names are taken in.
    pub open spec fn holds(self, h: SectionHeaderView, file: Option<Seq<u8>>) -> Result<bool, StopView> {
        match condition_of(h) {
            ConditionView::Never => Ok(false),
            ConditionView::Always => Ok(true),
            ConditionView::GitDir { pattern, ignore_case } => match self.completed(path_value(pattern).0) {
                Err(s) => Err(s),
                Ok(None) => Ok(false),
                Ok(Some(path)) => self.dir_matches(path, file, ignore_case),
            },
        }
    }

    /// The place of the file that the value `v` in the file `file` names, where there is one.
    pub open spec fn place(self, v: Seq<u8>, file: Option<Seq<u8>>) -> Result<Option<Seq<u8>>, StopView> {
        match self.completed(path_value(v).0) {
            Err(s) => Err(s),
            Ok(None) => Ok(None),
            Ok(Some(path)) => if absolute(path) {
                Ok(Some(path))
            } else {
                match file {
                    Some(c) => Ok(Some(joined(parent_of(c)->0, path))),
                    None => if self.options.err_on_missing_config_path {
                        Err(StopView::Failed)
                    } else {
                        Ok(None)
                    },
                }
            },
        }
    }

    /// What is known of the file at `path`.
    pub open spec fn file_at(self, path: Seq<u8>) -> Option<NamedFile> {
        answer(self.answers.files@, path, self.answers.files@.len() as int)
    }
}

/// The file with those that it names, `depth` levels below the first one. Files that are named
/// too deep are an error or left out.
#[verifier::opaque]
pub open spec fn with_named(inc: Inclusion, f: FileView, depth: int) -> Result<FileView, StopView>
    decreases inc.options.max_depth - depth, 2int, 0int,
{
    if depth >= inc.options.max_depth {
        if inc.options.err_on_max_depth_exceeded {
            Err(StopView::Failed)
        } else {
            Ok(f)
        }
    } else {
        with_sections(inc, f, ids_of(f.sections), 0, depth)
    }
}

/// The file with those that the sections `ids` from `i` on name.
#[verifier::opaque]
pub open spec fn with_sections(inc: Inclusion, f: FileView, ids: Seq<usize>, i: int, depth: int) -> Result<
    FileView,
    StopView,
>
    decreases inc.options.max_depth - depth, 1int, ids.len() - i,
{
    if depth >= inc.options.max_depth || i >= ids.len() {
        Ok(f)
    } else {
        let s = f.sections[section_pos(f.sections, ids[i])];
        match inc.holds(s.header, s.path) {
            Err(stop) => Err(stop),
            Ok(false) => with_sections(inc, f, ids, i + 1, depth),
            Ok(true) => match with_paths(inc, f, ids[i], s.path, body_values(s.events, lit("path")), 0, depth) {
                Err(stop) => Err(stop),
                Ok(g) => with_sections(inc, g, ids, i + 1, depth),
            },
        }
    }
}

/// The file with those that the values from `j` on name, after the section `id` of the file
/// `file`.
#[verifier::opaque]
pub open spec fn with_paths(
    inc: Inclusion,
    f: FileView,
    id: usize,
    file: Option<Seq<u8>>,
    values: Seq<Seq<u8>>,
    j: int,
    depth: int,
) -> Result<FileView, StopView>
    decreases inc.options.max_depth - depth, 0int, values.len() - j,
{
    if depth >= inc.options.max_depth || j >= values.len() {
        Ok(f)
    } else {
        match inc.place(values[j], file) {
            Err(stop) => Err(stop),
            Ok(None) => with_paths(inc, f, id, file, values, j + 1, depth),
            Ok(Some(path)) => match inc.file_at(path) {
                None => Err(StopView::File(path)),
                Some(NamedFile::NotAFile) => with_paths(inc, f, id, file, values, j + 1, depth),
                Some(NamedFile::Failed) => Err(StopView::Failed),
                Some(NamedFile::Contents(c)) => match parsed_file(c@, Some(path)) {
                    None => Err(StopView::Failed),
                    Some(g) => match with_named(inc, g, depth + 1) {
                        Err(stop) => Err(stop),
                        Ok(h) => if f.next_id + h.sections.len() <= usize::MAX {
                            with_paths(inc, appended(f, h, Some(id)), id, file, values, j + 1, depth)
                        } else {
                            Err(StopView::Failed)
                        },
                    },
                },
            },
        }
    }
}

proof fn lemma_named_step(inc: Inclusion, f: FileView, depth: int)
    ensures
        with_named(inc, f, depth) == ({
            if depth >= inc.options.max_depth {
                if inc.options.err_on_max_depth_exceeded {
                    Err(StopView::Failed)
                } else {
                    Ok(f)
                }
            } else {
                with_sections(inc, f, ids_of(f.sections), 0, depth)
            }
        }),
{
    reveal_with_fuel(with_named, 2);
    reveal_with_fuel(with_sections, 2);
    reveal_with_fuel(with_paths, 2);
}

proof fn lemma_sections_step(inc: Inclusion, f: FileView, ids: Seq<usize>, i: int, depth: int)
    ensures
        with_sections(inc, f, ids, i, depth) == ({
            if depth >= inc.options.max_depth || i >= ids.len() {
                Ok(f)
            } else {
                let s = f.sections[section_pos(f.sections, ids[i])];
                match inc.holds(s.header, s.path) {
                    Err(stop) => Err(stop),
                    Ok(false) => with_sections(inc, f, ids, i + 1, depth),
                    Ok(true) => match with_paths(inc, f, ids[i], s.path, body_values(s.events, lit("path")), 0, depth) {
                        Err(stop) => Err(stop),
                        Ok(g) => with_sections(inc, g, ids, i + 1, depth),
                    },
                }
            }
        }),
{
    reveal_with_fuel(with_named, 2);
    reveal_with_fuel(with_sections, 2);
    reveal_with_fuel(with_paths, 2);
}

proof fn lemma_paths_step(
    inc: Inclusion,
    f: FileView,
    id: usize,
    file: Option<Seq<u8>>,
    values: Seq<Seq<u8>>,
    j: int,
    depth: int,
)
    ensures
        with_paths(inc, f, id, file, values, j, depth) == ({
            if depth >= inc.options.max_depth || j >= values.len() {
                Ok(f)
            } else {
                match inc.place(values[j], file) {
                    Err(stop) => Err(stop),
                    Ok(None) => with_paths(inc, f, id, file, values, j + 1, depth),
                    Ok(Some(path)) => match inc.file_at(path) {
                        None => Err(StopView::File(path)),
                        Some(NamedFile::NotAFile) => with_paths(inc, f, id, file, values, j + 1, depth),
                        Some(NamedFile::Failed) => Err(StopView::Failed),
                        Some(NamedFile::Contents(c)) => match parsed_file(c@, Some(path)) {
                            None => Err(StopView::Failed),
                            Some(g) => match with_named(inc, g, depth + 1) {
                                Err(stop) => Err(stop),
                                Ok(h) => if f.next_id + h.sections.len() <= usize::MAX {
                                    with_paths(inc, appended(f, h, Some(id)), id, file, values, j + 1, depth)
                                } else {
                                    Err(StopView::Failed)
                                },
                            },
                        },
                    },
                }
            }
        }),
{
    reveal_with_fuel(with_named, 2);
    reveal_with_fuel(with_sections, 2);
    reveal_with_fuel(with_paths, 2);
}

/// The sections are from files that lie in a directory.
pub open spec fn in_directories(f: FileView) -> bool {
    forall|i: int|
        0 <= i < f.sections.len() ==> ((#[trigger] f.sections[i]).path matches Some(p) ==> parent_of(p) is Some)
}

proof fn lemma_appended_in_directories(f: FileView, other: FileView, id: usize)
    requires
        f.wf(),
        in_directories(f),
        in_directories(other),
        section_pos(f.sections, id) < f.sections.len(),
    ensures
        in_directories(appended(f, other, Some(id))),
{
    let k = section_pos(f.sections, id);
    lemma_section_pos(f.sections, id);
    let all = f.with_sections_of(other, Some(k));
    let out = appended(f, other, Some(id));
    let more = crate::git::config::file::renumbered(other.sections, f.next_id as int);
    assert forall|i: int| 0 <= i < all.len() implies ((#[trigger] all[i]).path matches Some(p) ==> parent_of(p)
        is Some) by {
        if i <= k {
            assert(all[i] == f.sections[i]);
        } else if i <= k + more.len() {
            assert(all[i] == more[i - k - 1]);
            assert(more[i - k - 1].path == other.sections[i - k - 1].path);
        } else {
            assert(all[i] == f.sections[i - more.len()]);
        }
    }
    lemma_section_pos(all, id);
    assert(all[k] == f.sections[k]);
    assert(section_pos(all, id) <= k);
    assert forall|i: int| 0 <= i < out.sections.len() implies ((#[trigger] out.sections[i]).path matches Some(p)
        ==> parent_of(p) is Some) by {
        assert(out.sections[i].path == all[i].path);
    }
}

impl<'a> Inclusion<'a> {
    /// The completed path, or `None` where it cannot be completed.
    fn complete(&self, path: &ConfigPath) -> (r: Result<Option<Vec<u8>>, Stop>)
        ensures
            match r {
                Ok(p) => self.completed(path.value@) == Ok::<Option<Seq<u8>>, StopView>(opt_view(p)),
                Err(s) => self.completed(path.value@) == Err::<Option<Seq<u8>>, StopView>(s@),
            },
    {
        let context = InterpolationContext {
            git_install_dir: self.git_install_dir,
            home_dir: self.home_dir,
            finds_home_for_user: true,
        };
        match path.hx_interpolate(context) {
            Err(_) => Ok(None),
            Ok(Interpolation::Path(p)) => Ok(Some(p)),
            Ok(Interpolation::InHomeOf { name, rest }) => match find_answer(&self.answers.homes, name.as_slice()) {
                None => Err(Stop::Ask(Question::HomeOf(name))),
                Some(None) => Ok(None),
                Some(Some(home)) => Ok(Some(join(home.as_slice(), rest.as_slice()))),
            },
        }
    }

    /// Whether the pattern, completed and in the file `file`, matches the repository.
    fn matches_dir(&self, path: &[u8], file: Option<&[u8]>, ignore_case: bool) -> (r: Result<bool, Stop>)
        requires
            file matches Some(p) ==> parent_of(p@) is Some,
        ensures
            match r {
                Ok(b) => self.dir_matches(path@, opt_slice(file), ignore_case) == Ok::<bool, StopView>(b),
                Err(s) => self.dir_matches(path@, opt_slice(file), ignore_case) == Err::<bool, StopView>(s@),
            },
    {
        let pattern = match self.options.gitdir_pattern(path, file) {
            Err(_) => {
                return Err(Stop::Failed);
            },
            Ok(None) => {
                return Ok(false);
            },
            Ok(Some(p)) => p,
        };
        if gitdir_matches(pattern.as_slice(), self.git_dir, None, ignore_case) {
            return Ok(true);
        }
        match &self.answers.real_dir {
            None => Err(Stop::Ask(Question::RealDir)),
            Some(None) => Err(Stop::Failed),
            Some(Some(d)) => Ok(
                gitdir_matches(pattern.as_slice(), self.git_dir, Some(d.as_slice()), ignore_case),
            ),
        }
    }

    /// Whether the files that a section names are taken in.
    fn applies(&self, condition: Condition, file: Option<&[u8]>) -> (r: Result<bool, Stop>)
        requires
            file matches Some(p) ==> parent_of(p@) is Some,
        ensures
            forall|h: SectionHeaderView|
                condition_of(h) == condition@ ==> match r {
                    Ok(b) => #[trigger] self.holds(h, opt_slice(file)) == Ok::<bool, StopView>(b),
                    Err(s) => self.holds(h, opt_slice(file)) == Err::<bool, StopView>(s@),
                },
    {
        match condition {
            Condition::Never => Ok(false),
            Condition::Always => Ok(true),
            Condition::GitDir { pattern, ignore_case } => {
                let path = ConfigPath::from_bytes(pattern);
                match self.complete(&path) {
                    Err(s) => Err(s),
                    Ok(None) => Ok(false),
                    Ok(Some(p)) => self.matches_dir(p.as_slice(), file, ignore_case),
                }
            },
        }
    }

    /// The place of the file that `path` in the file `file` names, where there is one.
    fn place_of(&self, path: &ConfigPath, file: Option<&[u8]>) -> (r: Result<Option<Vec<u8>>, Stop>)
        requires
            file matches Some(p) ==> parent_of(p@) is Some,
        ensures
            forall|v: Seq<u8>|
                path_value(v).0 == path.value@ ==> match r {
                    Ok(p) => #[trigger] self.place(v, opt_slice(file)) == Ok::<Option<Seq<u8>>, StopView>(
                        opt_view(p),
                    ),
                    Err(s) => self.place(v, opt_slice(file)) == Err::<Option<Seq<u8>>, StopView>(s@),
                },
    {
        match self.complete(path) {
            Err(s) => Err(s),
            Ok(None) => Ok(None),
            Ok(Some(p)) => match self.options.resolve_path(p.as_slice(), file) {
                Err(_) => Err(Stop::Failed),
                Ok(place) => Ok(place),
            },
        }
    }

    /// The file with those that it names, `depth` levels below the first one.
    fn resolve_includes_recursive(&self, config: GitConfigurationFile, depth: u8) -> (r: Result<
        GitConfigurationFile,
        Stop,
    >)
        requires
            self.answers.wf(),
            config@.wf(),
            in_directories(config@),
            depth <= self.options.max_depth,
        ensures
            match r {
                Ok(g) => g@.wf() && in_directories(g@) && with_named(*self, config@, depth as int) == Ok::<
                    FileView,
                    StopView,
                >(g@),
                Err(s) => with_named(*self, config@, depth as int) == Err::<FileView, StopView>(s@),
            },
        decreases self.options.max_depth - depth, 1int,
    {
        proof {
            lemma_named_step(*self, config@, depth as int);
        }
        match self.options.follows_at(depth) {
            Err(_) => {
                return Err(Stop::Failed);
            },
            Ok(false) => {
                return Ok(config);
            },
            Ok(true) => {},
        }
        let ids = config.section_order();
        let ghost goal = with_named(*self, config@, depth as int);
        let ghost first = config@;
        let mut out = config;
        let mut i: usize = 0;
        while i < ids.len()
            invariant
                i <= ids@.len(),
                ids@ == ids_of(first.sections),
                first == config@,
                first.wf(),
                depth < self.options.max_depth,
                self.answers.wf(),
                out@.wf(),
                in_directories(out@),
                first.next_id <= out@.next_id,
                goal == with_named(*self, first, depth as int),
                goal == with_sections(*self, out@, ids@, i as int, depth as int),
            decreases ids@.len() - i,
        {
            proof {
                lemma_sections_step(*self, out@, ids@, i as int, depth as int);
            }
            let id: usize = ids[i];
            proof {
                assert(first.sections[i as int].id == id);
                lemma_ids_all_taken(out@, id);
                lemma_section_pos(out@.sections, id);
            }
            let section = out.section_by_id(id);
            let ghost s = section@;
            assert(s == out@.sections[section_pos(out@.sections, id)]);
            let condition = section_condition(section);
            let file: Option<Vec<u8>> = match &section.path {
                Some(p) => Some(to_vec(p.as_slice())),
                None => None,
            };
            let place: Option<&[u8]> = match &file {
                Some(p) => Some(p.as_slice()),
                None => None,
            };
            assert(opt_slice(place) == s.path);
            match self.applies(condition, place) {
                Err(stop) => {
                    assert(self.holds(s.header, s.path) == Err::<bool, StopView>(stop@));
                    return Err(stop);
                },
                Ok(false) => {
                    assert(self.holds(s.header, s.path) == Ok::<bool, StopView>(false));
                },
                Ok(true) => {
                    assert(self.holds(s.header, s.path) == Ok::<bool, StopView>(true));
                    let paths = gather_paths(section);
                    let ghost values = body_values(s.events, lit("path"));
                    match self.insert_includes_recursively(out, id, place, &paths, Ghost(values), depth) {
                        Err(stop) => {
                            return Err(stop);
                        },
                        Ok(g) => {
                            out = g;
                        },
                    }
                },
            }
            i += 1;
        }
        proof {
            lemma_sections_step(*self, out@, ids@, i as int, depth as int);
        }
        Ok(out)
    }

    /// The file with those that `paths` name, after the section `id` of the file `file`.
    fn insert_includes_recursively(
        &self,
        config: GitConfigurationFile,
        id: usize,
        file: Option<&[u8]>,
        paths: &Vec<ConfigPath>,
        Ghost(values): Ghost<Seq<Seq<u8>>>,
        depth: u8,
    ) -> (r: Result<GitConfigurationFile, Stop>)
        requires
            self.answers.wf(),
            config@.wf(),
            in_directories(config@),
            id < config@.next_id,
            file matches Some(p) ==> parent_of(p@) is Some,
            depth < self.options.max_depth,
            paths@.len() == values.len(),
            forall|k: int| 0 <= k < values.len() ==> path_value(#[trigger] values[k]).0 == paths@[k].value@,
        ensures
            match r {
                Ok(g) => g@.wf() && in_directories(g@) && config@.next_id <= g@.next_id && with_paths(
                    *self,
                    config@,
                    id,
                    opt_slice(file),
                    values,
                    0,
                    depth as int,
                ) == Ok::<FileView, StopView>(g@),
                Err(s) => with_paths(*self, config@, id, opt_slice(file), values, 0, depth as int) == Err::<
                    FileView,
                    StopView,
                >(s@),
            },
        decreases self.options.max_depth - depth, 0int,
    {
        let ghost goal = with_paths(*self, config@, id, opt_slice(file), values, 0, depth as int);
        let ghost first = config@;
        let mut out = config;
        let mut j: usize = 0;
        while j < paths.len()
            invariant
                j <= paths@.len() == values.len(),
                self.answers.wf(),
                out@.wf(),
                in_directories(out@),
                id < first.next_id <= out@.next_id,
                file matches Some(p) ==> parent_of(p@) is Some,
                depth < self.options.max_depth,
                forall|k: int| 0 <= k < values.len() ==> path_value(#[trigger] values[k]).0 == paths@[k].value@,
                first == config@,
                goal == with_paths(*self, first, id, opt_slice(file), values, 0, depth as int),
                goal == with_paths(*self, out@, id, opt_slice(file), values, j as int, depth as int),
            decreases paths@.len() - j,
        {
            proof {
                lemma_paths_step(*self, out@, id, opt_slice(file), values, j as int, depth as int);
            }
            let ghost v = values[j as int];
            assert(path_value(v).0 == paths@[j as int].value@);
            let place = match self.place_of(&paths[j], file) {
                Err(stop) => {
                    assert(self.place(v, opt_slice(file)) == Err::<Option<Seq<u8>>, StopView>(stop@));
                    return Err(stop);
                },
                Ok(p) => p,
            };
            assert(self.place(v, opt_slice(file)) == Ok::<Option<Seq<u8>>, StopView>(opt_view(place)));
            let path: Vec<u8> = match place {
                None => {
                    j += 1;
                    continue;
                },
                Some(p) => p,
            };
            match find_answer(&self.answers.files, path.as_slice()) {
                None => {
                    return Err(Stop::Ask(Question::File(path)));
                },
                Some(NamedFile::NotAFile) => {},
                Some(NamedFile::Failed) => {
                    return Err(Stop::Failed);
                },
                Some(NamedFile::Contents(c)) => {
                    proof {
                        lemma_answer_lies(self.answers.files@, path@, self.answers.files@.len() as int);
                    }
                    let named = match GitConfigurationFile::from_bytes_owned(c.as_slice(), Some(path.as_slice())) {
                        Err(_) => {
                            return Err(Stop::Failed);
                        },
                        Ok(g) => g,
                    };
                    let whole = match self.resolve_includes_recursive(named, depth + 1) {
                        Err(stop) => {
                            return Err(stop);
                        },
                        Ok(h) => h,
                    };
                    if usize::MAX - out.next_id() < whole.len() {
                        return Err(Stop::Failed);
                    }
                    proof {
                        lemma_ids_all_taken(out@, id);
                        lemma_appended_in_directories(out@, whole@, id);
                    }
                    out.append_or_insert(whole, Some(id));
                },
            }
            j += 1;
        }
        proof {
            lemma_paths_step(*self, out@, id, opt_slice(file), values, j as int, depth as int);
        }
        Ok(out)
    }

    /// The file with those that it names and those that they name. Where something has to be
    /// known that is not yet, that is asked for.
    pub fn resolve_includes(&self, config: &GitConfigurationFile) -> (r: Result<GitConfigurationFile, Stop>)
        requires
            self.answers.wf(),
            config@.wf(),
            in_directories(config@),
        ensures
            match r {
                Ok(g) => g@.wf() && in_directories(g@) && with_named(*self, config@, 0) == Ok::<
                    FileView,
                    StopView,
                >(g@),
                Err(s) => with_named(*self, config@, 0) == Err::<FileView, StopView>(s@),
            },
    {
        self.resolve_includes_recursive(config.copy(), 0)
    }
}

proof fn lemma_appended_end(f: FileView, other: FileView)
    requires
        f.wf(),
        other.wf(),
        in_directories(f),
        in_directories(other),
        f.next_id + other.sections.len() <= usize::MAX,
    ensures
        appended(f, other, None).wf(),
        in_directories(appended(f, other, None)),
{
    let all = f.with_sections_of(other, None);
    let out = appended(f, other, None);
    let n = f.sections.len() as int;
    let more = crate::git::config::file::renumbered(other.sections, f.next_id as int);
    assert forall|i: int| 0 <= i < all.len() implies ((#[trigger] all[i]).path matches Some(p) ==> parent_of(p)
        is Some) && (if i < n {
        all[i].id == f.sections[i].id
    } else {
        all[i].id == f.next_id + (i - n)
    }) by {
        if i < n {
            assert(all[i] == f.sections[i]);
        } else {
            assert(all[i] == more[i - n]);
            assert(more[i - n].path == other.sections[i - n].path);
        }
    }
    if f.next_id > 0 {
        let id = (f.next_id - 1) as usize;
        lemma_ids_all_taken(f, id);
        lemma_section_pos(f.sections, id);
        lemma_section_pos(all, id);
        let k = section_pos(f.sections, id);
        assert(all[k].id == id);
        assert(section_pos(all, id) <= k);
        assert forall|i: int| 0 <= i < out.sections.len() implies (#[trigger] out.sections[i]).path == all[i].path
            && out.sections[i].id == all[i].id by {}
    } else {
        assert(out.sections == all);
    }
    assert forall|i: int, j: int| 0 <= i < j < out.sections.len() implies (#[trigger] out.sections[i]).id != (
    #[trigger] out.sections[j]).id by {
        assert(out.sections[i].id == all[i].id && out.sections[j].id == all[j].id);
    }
    assert forall|i: int| 0 <= i < out.sections.len() implies (#[trigger] out.sections[i]).id < out.next_id by {
        assert(out.sections[i].id == all[i].id);
    }
    assert forall|i: int| 0 <= i < out.sections.len() implies ((#[trigger] out.sections[i]).path matches Some(p)
        ==> parent_of(p) is Some) by {
        assert(out.sections[i].path == all[i].path);
    }
}

proof fn lemma_merged_in_directories(first: FileView, files: Seq<FileView>, n: int)
    requires
        0 <= n <= files.len(),
        first.wf(),
        in_directories(first),
        forall|i: int| 0 <= i < files.len() ==> in_directories(#[trigger] files[i]) && files[i].wf(),
        merged_files(first, files, n) is Some,
    ensures
        (merged_files(first, files, n)->0).wf(),
        in_directories(merged_files(first, files, n)->0),
    decreases n,
{
    if n > 0 {
        lemma_merged_in_directories(first, files, n - 1);
        assert(in_directories(files[n - 1]) && files[n - 1].wf());
        lemma_appended_end(merged_files(first, files, n - 1)->0, files[n - 1]);
    }
}

/// What the environment assigns: nothing, or the pairs of keys and values.
pub open spec fn assigned_file(env: Option<Seq<(Vec<u8>, Vec<u8>)>>) -> Option<FileView> {
    match env {
        None => Some(empty_file()),
        Some(pairs) => with_pairs(empty_file(), pairs, 0),
    }
}

/// The configuration of a repository: the files that hold for all repositories, in their order,
/// and its own, with all files that they name; and after that what the environment assigns, with
/// the files that it names.
pub open spec fn staged(
    inc: Inclusion,
    globals: Seq<FileView>,
    local: FileView,
    env: Option<Seq<(Vec<u8>, Vec<u8>)>>,
) -> Result<FileView, StopView> {
    let files = globals.push(local);
    match merged_files(
        if globals.len() == 0 {
            empty_file()
        } else {
            files[0]
        },
        if globals.len() == 0 {
            files
        } else {
            files.skip(1)
        },
        if globals.len() == 0 {
            1
        } else {
            globals.len() as int
        },
    ) {
        None => Err(StopView::Failed),
        Some(f) => match with_named(inc, f, 0) {
            Err(stop) => Err(stop),
            Ok(g) => match assigned_file(env) {
                None => Err(StopView::Failed),
                Some(e) => match (if env is None {
                    Ok(e)
                } else {
                    with_named(inc, e, 0)
                }) {
                    Err(stop) => Err(stop),
                    Ok(h) => if g.next_id + h.sections.len() <= usize::MAX {
                        Ok(appended(g, h, None))
                    } else {
                        Err(StopView::Failed)
                    },
                },
            },
        },
    }
}

impl<'a> Inclusion<'a> {
    /// The configuration of a repository, from the files that hold for all repositories, its own,
    /// and what the environment assigns.
    pub fn hx_from_stage_one(
        &self,
        globals: &Vec<GitConfigurationFile>,
        local: &GitConfigurationFile,
        env: Option<&Vec<(Vec<u8>, Vec<u8>)>>,
    ) -> (r: Result<GitConfigurationFile, Stop>)
        requires
            self.answers.wf(),
            local@.wf(),
            in_directories(local@),
            forall|i: int| 0 <= i < globals@.len() ==> (#[trigger] globals@[i])@.wf(),
            forall|i: int| 0 <= i < globals@.len() ==> in_directories((#[trigger] globals@[i])@),
        ensures
            ({
                let goal = staged(
                    *self,
                    files_view(globals@),
                    local@,
                    match env {
                        Some(pairs) => Some(pairs@),
                        None => None,
                    },
                );
                match r {
                    Ok(g) => g@.wf() && goal == Ok::<FileView, StopView>(g@),
                    Err(s) => goal == Err::<FileView, StopView>(s@),
                }
            }),
    {
        let ghost views = files_view(globals@).push(local@);
        let mut files: Vec<GitConfigurationFile> = Vec::new();
        let first: GitConfigurationFile;
        let mut i: usize = 0;
        if globals.len() > 0 {
            first = globals[0].copy();
            assert(first@ == views[0]);
            i = 1;
        } else {
            first = GitConfigurationFile::new(None);
            assert(first@ == empty_file());
        }
        let ghost skipped = i as int;
        assert(files_view(files@) =~= views.subrange(skipped, i as int));
        while i < globals.len()
            invariant
                skipped <= i <= globals@.len(),
                0 <= skipped <= 1,
                views == files_view(globals@).push(local@),
                files_view(files@) == views.subrange(skipped, i as int),
                forall|k: int| 0 <= k < globals@.len() ==> (#[trigger] globals@[k])@.wf(),
                forall|k: int| 0 <= k < globals@.len() ==> in_directories((#[trigger] globals@[k])@),
                forall|k: int| 0 <= k < files@.len() ==> (#[trigger] files@[k])@.wf(),
                forall|k: int| 0 <= k < files@.len() ==> in_directories((#[trigger] files@[k])@),
            decreases globals@.len() - i,
        {
            let ghost before = files_view(files@);
            files.push(globals[i].copy());
            assert(files_view(files@) =~= before.push(globals@[i as int]@));
            assert(views[i as int] == globals@[i as int]@);
            assert(views.subrange(skipped, i + 1) =~= views.subrange(skipped, i as int).push(views[i as int]));
            i += 1;
        }
        let ghost before = files_view(files@);
        files.push(local.copy());
        let ghost rest = files_view(files@);
        assert(rest =~= before.push(local@));
        assert(rest =~= views.skip(skipped));
        assert(skipped == 0 ==> rest =~= views);
        assert forall|k: int| 0 <= k < rest.len() implies in_directories(#[trigger] rest[k]) && rest[k].wf() by {
            assert(rest[k] == files@[k]@);
        }
        let whole = match merge(first, files) {
            Err(_) => {
                return Err(Stop::Failed);
            },
            Ok(f) => f,
        };
        proof {
            lemma_merged_in_directories(first@, rest, rest.len() as int);
        }
        let mut out = match self.resolve_includes(&whole) {
            Err(stop) => {
                return Err(stop);
            },
            Ok(g) => g,
        };
        let assigned = match env {
            None => GitConfigurationFile::new(None),
            Some(pairs) => {
                let e = match GitConfigurationFile::from_pairs(pairs) {
                    Err(_) => {
                        return Err(Stop::Failed);
                    },
                    Ok(e) => e,
                };
                proof {
                    lemma_pairs_from_no_file(empty_file(), pairs@, 0);
                }
                match self.resolve_includes(&e) {
                    Err(stop) => {
                        return Err(stop);
                    },
                    Ok(h) => h,
                }
            },
        };
        assert(env is None ==> assigned@ == empty_file());
        if usize::MAX - out.next_id() < assigned.len() {
            return Err(Stop::Failed);
        }
        out.append_or_insert(assigned, None);
        Ok(out)
    }
}

proof fn lemma_answer_lies(files: Seq<(Vec<u8>, NamedFile)>, path: Seq<u8>, n: int)
    requires
        n <= files.len(),
        forall|i: int|
            0 <= i < files.len() && (#[trigger] files[i]).1 is Contents ==> parent_of(files[i].0@) is Some,
        answer(files, path, n) matches Some(f) && f is Contents,
    ensures
        parent_of(path) is Some,
    decreases n,
{
    if n > 0 && files[n - 1].0@ != path {
        lemma_answer_lies(files, path, n - 1);
    }
}

/// A file that names no others stays as it is.
pub proof fn law_plain_file_stays(inc: Inclusion, f: FileView, depth: int)
    requires
        f.wf(),
        depth < inc.options.max_depth,
        forall|i: int| 0 <= i < f.sections.len() ==> condition_of((#[trigger] f.sections[i]).header) is Never,
    ensures
        with_named(inc, f, depth) == Ok::<FileView, StopView>(f),
{
    lemma_named_step(inc, f, depth);
    lemma_plain_sections(inc, f, 0, depth);
}

proof fn lemma_plain_sections(inc: Inclusion, f: FileView, i: int, depth: int)
    requires
        0 <= i,
        f.wf(),
        depth < inc.options.max_depth,
        forall|k: int| 0 <= k < f.sections.len() ==> condition_of((#[trigger] f.sections[k]).header) is Never,
    ensures
        with_sections(inc, f, ids_of(f.sections), i, depth) == Ok::<FileView, StopView>(f),
    decreases f.sections.len() - i,
{
    let ids = ids_of(f.sections);
    lemma_sections_step(inc, f, ids, i, depth);
    if i < ids.len() {
        assert(f.sections[i].id == ids[i]);
        lemma_ids_all_taken(f, ids[i]);
        lemma_section_pos(f.sections, ids[i]);
        lemma_plain_sections(inc, f, i + 1, depth);
    }
}

/// All that `a` knows, `b` knows too, and nothing else about it.
pub open spec fn knows_more(a: Inclusion, b: Inclusion) -> bool {
    &&& a.options == b.options
    &&& opt_slice(a.git_install_dir) == opt_slice(b.git_install_dir)
    &&& opt_slice(a.home_dir) == opt_slice(b.home_dir)
    &&& a.git_dir@ == b.git_dir@
    &&& a.answers.real_dir is Some ==> a.answers.real_dir == b.answers.real_dir
    &&& forall|name: Seq<u8>|
        #![trigger answer(b.answers.homes@, name, b.answers.homes@.len() as int)]
        answer(a.answers.homes@, name, a.answers.homes@.len() as int) is Some ==> answer(
            b.answers.homes@,
            name,
            b.answers.homes@.len() as int,
        ) == answer(a.answers.homes@, name, a.answers.homes@.len() as int)
    &&& forall|path: Seq<u8>|
        a.file_at(path) is Some ==> #[trigger] b.file_at(path) == a.file_at(path)
}

/// The outcome is no question.
pub open spec fn settled<T>(r: Result<T, StopView>) -> bool {
    r is Ok || r matches Err(StopView::Failed)
}

/// What came out without a question comes out again when more is known.
pub proof fn law_more_answers_change_nothing(a: Inclusion, b: Inclusion, f: FileView, depth: int)
    requires
        knows_more(a, b),
        settled(with_named(a, f, depth)),
    ensures
        with_named(b, f, depth) == with_named(a, f, depth),
    decreases a.options.max_depth - depth, 2int, 0int,
{
    lemma_named_step(a, f, depth);
    lemma_named_step(b, f, depth);
    if depth < a.options.max_depth {
        lemma_same_sections(a, b, f, ids_of(f.sections), 0, depth);
    }
}

proof fn lemma_same_holds(a: Inclusion, b: Inclusion, h: SectionHeaderView, file: Option<Seq<u8>>)
    requires
        knows_more(a, b),
        settled(a.holds(h, file)),
    ensures
        b.holds(h, file) == a.holds(h, file),
{
}

proof fn lemma_same_place(a: Inclusion, b: Inclusion, v: Seq<u8>, file: Option<Seq<u8>>)
    requires
        knows_more(a, b),
        settled(a.place(v, file)),
    ensures
        b.place(v, file) == a.place(v, file),
{
}

proof fn lemma_same_sections(a: Inclusion, b: Inclusion, f: FileView, ids: Seq<usize>, i: int, depth: int)
    requires
        knows_more(a, b),
        settled(with_sections(a, f, ids, i, depth)),
    ensures
        with_sections(b, f, ids, i, depth) == with_sections(a, f, ids, i, depth),
    decreases a.options.max_depth - depth, 1int, ids.len() - i,
{
    lemma_sections_step(a, f, ids, i, depth);
    lemma_sections_step(b, f, ids, i, depth);
    if depth < a.options.max_depth && i < ids.len() {
        let s = f.sections[section_pos(f.sections, ids[i])];
        lemma_same_holds(a, b, s.header, s.path);
        match a.holds(s.header, s.path) {
            Err(_) => {},
            Ok(false) => lemma_same_sections(a, b, f, ids, i + 1, depth),
            Ok(true) => {
                let values = body_values(s.events, lit("path"));
                lemma_same_paths(a, b, f, ids[i], s.path, values, 0, depth);
                if let Ok(g) = with_paths(a, f, ids[i], s.path, values, 0, depth) {
                    lemma_same_sections(a, b, g, ids, i + 1, depth);
                }
            },
        }
    }
}

proof fn lemma_same_paths(
    a: Inclusion,
    b: Inclusion,
    f: FileView,
    id: usize,
    file: Option<Seq<u8>>,
    values: Seq<Seq<u8>>,
    j: int,
    depth: int,
)
    requires
        knows_more(a, b),
        settled(with_paths(a, f, id, file, values, j, depth)),
    ensures
        with_paths(b, f, id, file, values, j, depth) == with_paths(a, f, id, file, values, j, depth),
    decreases a.options.max_depth - depth, 0int, values.len() - j,
{
    lemma_paths_step(a, f, id, file, values, j, depth);
    lemma_paths_step(b, f, id, file, values, j, depth);
    if depth < a.options.max_depth && j < values.len() {
        lemma_same_place(a, b, values[j], file);
        match a.place(values[j], file) {
            Err(_) => {},
            Ok(None) => lemma_same_paths(a, b, f, id, file, values, j + 1, depth),
            Ok(Some(path)) => {
                assert(b.file_at(path) == a.file_at(path));
                match a.file_at(path) {
                    None => {},
                    Some(NamedFile::NotAFile) => lemma_same_paths(a, b, f, id, file, values, j + 1, depth),
                    Some(NamedFile::Failed) => {},
                    Some(NamedFile::Contents(c)) => {
                        if let Some(g) = parsed_file(c@, Some(path)) {
                            law_more_answers_change_nothing(a, b, g, depth + 1);
                            if let Ok(h) = with_named(a, g, depth + 1) {
                                if f.next_id + h.sections.len() <= usize::MAX {
                                    lemma_same_paths(
                                        a,
                                        b,
                                        appended(f, h, Some(id)),
                                        id,
                                        file,
                                        values,
                                        j + 1,
                                        depth,
                                    );
                                }
                            }
                        }
                    },
                }
            },
        }
    }
}

} // verus!
