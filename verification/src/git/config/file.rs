//! A configuration file: its sections and their order.
use crate::ascii::{eq_ignore_case, lowered};
use crate::bytes::{begins, eq_bytes, from, lit, push_all, starts_with, to_vec};
use crate::git::config::body::{assign, assignment, body_value, ends_with_line_end, ends_with_newline, event_text, extract_newline, first_key, law_assigned_value_is_found, line_end_from, value, whitespace_of};
use crate::git::config::parse::{copy_events, events_view, file_events, front_of, lemma_parts, parts_of, opt_view, ConfigSection, Event, EventView, Events, SectionHeader, SectionHeaderView};
use crate::git::config::value::{is_valid_value_name, key_of, name_chars, normalize, normalized, opt_slice, valid_subsection, valid_value_name, ConfigPath, KeyRef};
use crate::git::error::GitError;
use vstd::prelude::*;

verus! {

/// A section of a configuration file.
#[derive(Debug)]
pub struct ConfigFileSection {
    pub id: usize,
    pub header: SectionHeader,
    pub events: Vec<Event>,
    /// What stood before the first section of a file that was appended after this section.
    pub post: Vec<Event>,
    /// The file that the section is from.
    pub path: Option<Vec<u8>>,
}

pub struct SectionView {
    pub id: usize,
    pub header: SectionHeaderView,
    pub events: Seq<EventView>,
    pub post: Seq<EventView>,
    pub path: Option<Seq<u8>>,
}

impl View for ConfigFileSection {
    type V = SectionView;

    open spec fn view(&self) -> SectionView {
        SectionView {
            id: self.id,
            header: self.header@,
            events: events_view(self.events@),
            post: events_view(self.post@),
            path: opt_view(self.path),
        }
    }
}

/// The sections of `v`.
pub open spec fn sections_view(v: Seq<ConfigFileSection>) -> Seq<SectionView> {
    v.map_values(|s: ConfigFileSection| s@)
}

/// The header is that of a section with the given name, in letters of either case, and
/// subsection.
pub open spec fn header_is(h: SectionHeaderView, name: Seq<u8>, sub: Option<Seq<u8>>) -> bool {
    lowered(h.name) == lowered(name) && h.subsection_name == sub
}

/// The ids of the first `n` sections with the given name and subsection, in their order.
pub open spec fn ids_with(sections: Seq<SectionView>, name: Seq<u8>, sub: Option<Seq<u8>>, n: int) -> Seq<
    usize,
>
    decreases n,
{
    if n <= 0 {
        seq![]
    } else {
        let rest = ids_with(sections, name, sub, n - 1);
        if header_is(sections[n - 1].header, name, sub) {
            rest.push(sections[n - 1].id)
        } else {
            rest
        }
    }
}

/// The ids of the first `n` sections with the given name, in their order.
pub open spec fn ids_named(sections: Seq<SectionView>, name: Seq<u8>, n: int) -> Seq<usize>
    decreases n,
{
    if n <= 0 {
        seq![]
    } else {
        let rest = ids_named(sections, name, n - 1);
        if lowered(sections[n - 1].header.name) == lowered(name) {
            rest.push(sections[n - 1].id)
        } else {
            rest
        }
    }
}

/// The value of the key in the last of the first `n` sections with the given name and
/// subsection that has one.
pub open spec fn value_before(
    sections: Seq<SectionView>,
    name: Seq<u8>,
    sub: Option<Seq<u8>>,
    key: Seq<u8>,
    n: int,
) -> Option<Seq<u8>>
    decreases n,
{
    if n <= 0 {
        None
    } else {
        let s = sections[n - 1];
        match body_value(s.events, key) {
            Some(v) if header_is(s.header, name, sub) => Some(v),
            _ => value_before(sections, name, sub, key, n - 1),
        }
    }
}

/// One of the sections has the given name and subsection.
pub open spec fn has_section(sections: Seq<SectionView>, name: Seq<u8>, sub: Option<Seq<u8>>) -> bool {
    exists|i: int| 0 <= i < sections.len() && header_is(#[trigger] sections[i].header, name, sub)
}

/// The position of the section `id`.
pub open spec fn section_pos(sections: Seq<SectionView>, id: usize) -> int
    decreases sections.len(),
{
    if sections.len() == 0 {
        0
    } else if sections[0].id == id {
        0
    } else {
        1 + section_pos(sections.skip(1), id)
    }
}

/// A section with another id.
pub open spec fn with_id(s: SectionView, id: usize) -> SectionView {
    SectionView { id, header: s.header, events: s.events, post: s.post, path: s.path }
}

/// The sections with ids from `first` on.
pub open spec fn renumbered(sections: Seq<SectionView>, first: int) -> Seq<SectionView> {
    Seq::new(sections.len(), |i: int| with_id(sections[i], (first + i) as usize))
}

/// The first line end that the file uses, or `\n`.
pub open spec fn file_line_end(front: Seq<EventView>, sections: Seq<SectionView>, i: int) -> Seq<u8>
    decreases sections.len() - i,
{
    match line_end_from(front, 0) {
        Some(nl) => nl,
        None => section_line_end(sections, i),
    }
}

/// The first line end that the sections from `i` on use, or `\n`.
pub open spec fn section_line_end(sections: Seq<SectionView>, i: int) -> Seq<u8>
    decreases sections.len() - i,
{
    if i >= sections.len() {
        seq!['\n' as u8]
    } else {
        match line_end_from(sections[i].events, 0) {
            Some(nl) => nl,
            None => section_line_end(sections, i + 1),
        }
    }
}

/// `right` after `left`, with the line end `nl` between them where neither has one there.
pub open spec fn on_new_line(left: Seq<EventView>, right: Seq<EventView>, nl: Seq<u8>) -> Seq<
    EventView,
> {
    if left.len() > 0 && !ends_with_line_end(left, left.len() as int, nl) && right.len() > 0
        && !begins(event_text(right[0]), nl) {
        left.push(EventView::Newline(nl)) + right
    } else {
        left + right
    }
}

/// A configuration file.
#[derive(Debug)]
pub struct GitConfigurationFile {
    frontmatter: Vec<Event>,
    sections: Vec<ConfigFileSection>,
    next_id: usize,
    path: Option<Vec<u8>>,
}

pub struct FileView {
    pub front: Seq<EventView>,
    pub sections: Seq<SectionView>,
    pub next_id: usize,
    pub path: Option<Seq<u8>>,
}

impl View for GitConfigurationFile {
    type V = FileView;

    closed spec fn view(&self) -> FileView {
        FileView {
            front: events_view(self.frontmatter@),
            sections: sections_view(self.sections@),
            next_id: self.next_id,
            path: opt_view(self.path),
        }
    }
}

impl FileView {
    /// The ids of the sections are below the next one, and no two are the same.
    pub open spec fn wf(self) -> bool {
        &&& self.sections.len() == self.next_id
        &&& forall|i: int| 0 <= i < self.sections.len() ==> (#[trigger] self.sections[i]).id
            < self.next_id
        &&& forall|i: int, j: int|
            0 <= i < j < self.sections.len() ==> (#[trigger] self.sections[i]).id != (
            #[trigger] self.sections[j]).id
    }

    /// The file with a section at its end.
    pub open spec fn with_section(self, s: SectionView) -> FileView {
        FileView {
            front: self.front,
            sections: self.sections.push(with_id(s, self.next_id)),
            next_id: (self.next_id + 1) as usize,
            path: self.path,
        }
    }

    /// The file with a section after the one at `k`.
    pub open spec fn with_section_after(self, s: SectionView, k: int) -> FileView {
        FileView {
            front: self.front,
            sections: self.sections.insert(k + 1, with_id(s, self.next_id)),
            next_id: (self.next_id + 1) as usize,
            path: self.path,
        }
    }

    /// The line end that the file uses.
    pub open spec fn line_end(self) -> Seq<u8> {
        file_line_end(self.front, self.sections, 0)
    }

    /// The sections of `other` come after the section at `at`, or at the end.
    pub open spec fn with_sections_of(self, other: FileView, at: Option<int>) -> Seq<SectionView> {
        let more = renumbered(other.sections, self.next_id as int);
        match at {
            Some(k) => self.sections.take(k + 1) + more + self.sections.skip(k + 1),
            None => self.sections + more,
        }
    }
}

pub proof fn lemma_section_pos(sections: Seq<SectionView>, id: usize)
    ensures
        0 <= section_pos(sections, id) <= sections.len(),
        section_pos(sections, id) < sections.len() ==> sections[section_pos(sections, id)].id == id,
        forall|j: int| 0 <= j < section_pos(sections, id) ==> (#[trigger] sections[j]).id != id,
    decreases sections.len(),
{
    if sections.len() > 0 && sections[0].id != id {
        lemma_section_pos(sections.skip(1), id);
        assert forall|j: int| 0 <= j < section_pos(sections, id) implies (
        #[trigger] sections[j]).id != id by {
            if j > 0 {
                assert(sections.skip(1)[j - 1].id != id);
            }
        }
    }
}

proof fn lemma_section_pos_is(sections: Seq<SectionView>, id: usize, k: int)
    requires
        0 <= k <= sections.len(),
        k < sections.len() ==> sections[k].id == id,
        forall|j: int| 0 <= j < k ==> (#[trigger] sections[j]).id != id,
    ensures
        section_pos(sections, id) == k,
    decreases sections.len(),
{
    if k > 0 {
        assert(sections[0].id != id);
        assert forall|j: int| 0 <= j < k - 1 implies (#[trigger] sections.skip(1)[j]).id != id by {
            assert(sections[j + 1].id != id);
        }
        lemma_section_pos_is(sections.skip(1), id, k - 1);
    }
}

impl GitConfigurationFile {
    /// A file without sections.
    pub fn new(path: Option<Vec<u8>>) -> (r: GitConfigurationFile)
        ensures
            r@.wf(),
            r@.front == Seq::<EventView>::empty(),
            r@.sections == Seq::<SectionView>::empty(),
            r@.path == opt_view(path),
    {
        let r = GitConfigurationFile {
            frontmatter: Vec::new(),
            sections: Vec::new(),
            next_id: 0,
            path,
        };
        assert(r@.front =~= Seq::<EventView>::empty());
        assert(r@.sections =~= Seq::<SectionView>::empty());
        r
    }

    /// Appends a section, and gives its id.
    pub fn push_section_internal(&mut self, section: ConfigFileSection) -> (r: usize)
        requires
            old(self)@.wf(),
            old(self)@.next_id < usize::MAX,
        ensures
            final(self)@.wf(),
            r == old(self)@.next_id,
            final(self)@ == old(self)@.with_section(section@),
    {
        let ghost before = self@;
        let id: usize = self.next_id;
        let s = ConfigFileSection {
            id,
            header: section.header,
            events: section.events,
            post: section.post,
            path: section.path,
        };
        assert(s@ == with_id(section@, id));
        assert(sections_view(self.sections@.push(s)) =~= sections_view(self.sections@).push(s@));
        self.sections.push(s);
        self.next_id = id + 1;
        id
    }

    /// The position of the section `id`, or the number of sections.
    fn position(&self, id: usize) -> (r: usize)
        ensures
            r == section_pos(self@.sections, id),
            r <= self@.sections.len(),
    {
        let ghost views = sections_view(self.sections@);
        let mut k: usize = 0;
        while k < self.sections.len() && self.sections[k].id != id
            invariant
                k <= self.sections@.len(),
                views == sections_view(self.sections@),
                forall|j: int| 0 <= j < k ==> (#[trigger] views[j]).id != id,
            decreases self.sections@.len() - k,
        {
            assert(views[k as int] == self.sections@[k as int]@);
            k += 1;
        }
        proof {
            if k < views.len() {
                assert(views[k as int] == self.sections@[k as int]@);
            }
            lemma_section_pos_is(views, id, k as int);
        }
        k
    }

    /// Inserts a section after the section `before`, and gives its id.
    pub fn insert_section_after(&mut self, section: ConfigFileSection, before: usize) -> (r: usize)
        requires
            old(self)@.wf(),
            old(self)@.next_id < usize::MAX,
            section_pos(old(self)@.sections, before) < old(self)@.sections.len(),
        ensures
            final(self)@.wf(),
            r == old(self)@.next_id,
            final(self)@ == old(self)@.with_section_after(
                section@,
                section_pos(old(self)@.sections, before),
            ),
    {
        let ghost old_view = self@;
        let k: usize = self.position(before);
        let id: usize = self.next_id;
        let s = ConfigFileSection {
            id,
            header: section.header,
            events: section.events,
            post: section.post,
            path: section.path,
        };
        assert(s@ == with_id(section@, id));
        assert(sections_view(self.sections@.insert(k + 1, s)) =~= sections_view(
            self.sections@,
        ).insert(k + 1, s@));
        self.sections.insert(k + 1, s);
        self.next_id = id + 1;
        proof {
            let o = old_view.sections;
            let n = self@.sections;
            assert(n == o.insert(k + 1, s@));
            assert forall|i: int| 0 <= i < n.len() implies (#[trigger] n[i]).id < self.next_id by {
                if i <= k {
                    assert(n[i] == o[i]);
                } else if i > k + 1 {
                    assert(n[i] == o[i - 1]);
                }
            }
            assert forall|i: int, j: int| 0 <= i < j < n.len() implies (#[trigger] n[i]).id != (
            #[trigger] n[j]).id by {
                let a = if i <= k {
                    i
                } else {
                    i - 1
                };
                let b = if j <= k {
                    j
                } else {
                    j - 1
                };
                if i == k + 1 {
                    assert(n[j] == o[b]);
                } else if j == k + 1 {
                    assert(n[i] == o[a]);
                } else {
                    assert(n[i] == o[a] && n[j] == o[b]);
                }
            }
        }
        id
    }

    /// The ids of the sections with the given name and subsection, in their order.
    pub fn hx_section_ids_by_name_and_subname(&self, name: &[u8], sub: Option<&[u8]>) -> (r: Result<
        Vec<usize>,
        GitError,
    >)
        ensures
            r is Ok <==> has_section(self@.sections, name@, opt_slice(sub)),
            r matches Ok(ids) ==> ids@ == ids_with(
                self@.sections,
                name@,
                opt_slice(sub),
                self@.sections.len() as int,
            ),
            r matches Err(e) ==> e is Gen,
    {
        let ghost views = sections_view(self.sections@);
        let mut ids: Vec<usize> = Vec::new();
        let mut found = false;
        let mut i: usize = 0;
        while i < self.sections.len()
            invariant
                i <= self.sections@.len(),
                views == sections_view(self.sections@),
                ids@ == ids_with(views, name@, opt_slice(sub), i as int),
                found <==> exists|j: int|
                    0 <= j < i && header_is(#[trigger] views[j].header, name@, opt_slice(sub)),
            decreases self.sections@.len() - i,
        {
            assert(views[i as int] == self.sections@[i as int]@);
            if header_matches(&self.sections[i].header, name, sub) {
                ids.push(self.sections[i].id);
                found = true;
                assert(header_is(views[i as int].header, name@, opt_slice(sub)));
            }
            i += 1;
        }
        if found {
            Ok(ids)
        } else {
            Err(GitError::Gen)
        }
    }

    /// The ids of the sections with the given name, in their order.
    pub fn section_ids_by_name(&self, name: &[u8]) -> (r: Result<Vec<usize>, GitError>)
        ensures
            r is Ok <==> ids_named(self@.sections, name@, self@.sections.len() as int).len() > 0,
            r matches Ok(ids) ==> ids@ == ids_named(
                self@.sections,
                name@,
                self@.sections.len() as int,
            ),
            r matches Err(e) ==> e is Gen,
    {
        let ghost views = sections_view(self.sections@);
        let mut ids: Vec<usize> = Vec::new();
        let mut i: usize = 0;
        while i < self.sections.len()
            invariant
                i <= self.sections@.len(),
                views == sections_view(self.sections@),
                ids@ == ids_named(views, name@, i as int),
            decreases self.sections@.len() - i,
        {
            assert(views[i as int] == self.sections@[i as int]@);
            if eq_ignore_case(self.sections[i].header.name.as_slice(), name) {
                ids.push(self.sections[i].id);
            }
            i += 1;
        }
        if ids.len() > 0 {
            Ok(ids)
        } else {
            Err(GitError::Gen)
        }
    }

    /// The value of a key in the last section with the given name and subsection that has
    /// one.
    pub fn hx_raw_value_filter_by(&self, name: &[u8], sub: Option<&[u8]>, key: &[u8]) -> (r: Result<
        Vec<u8>,
        GitError,
    >)
        ensures
            match value_before(
                self@.sections,
                name@,
                opt_slice(sub),
                key@,
                self@.sections.len() as int,
            ) {
                Some(v) => r matches Ok(x) && x@ == v,
                None => r matches Err(e) && (if has_section(self@.sections, name@, opt_slice(sub)) {
                    e is KeyMissing
                } else {
                    e is Gen
                }),
            },
    {
        let ghost views = sections_view(self.sections@);
        let ghost n = self.sections@.len() as int;
        let mut found = false;
        let mut i: usize = self.sections.len();
        while i > 0
            invariant
                i <= self.sections@.len(),
                n == self.sections@.len(),
                views == sections_view(self.sections@),
                value_before(views, name@, opt_slice(sub), key@, n) == value_before(
                    views,
                    name@,
                    opt_slice(sub),
                    key@,
                    i as int,
                ),
                found <==> exists|j: int|
                    i <= j < n && header_is(#[trigger] views[j].header, name@, opt_slice(sub)),
            decreases i,
        {
            i -= 1;
            assert(views[i as int] == self.sections@[i as int]@);
            if header_matches(&self.sections[i].header, name, sub) {
                assert(header_is(views[i as int].header, name@, opt_slice(sub)));
                found = true;
                if let Some(v) = value(&self.sections[i].events, key) {
                    return Ok(v);
                }
            }
        }
        if found {
            Err(GitError::KeyMissing)
        } else {
            Err(GitError::Gen)
        }
    }

    /// The line end that the file uses.
    pub fn detect_newline_style(&self) -> (r: Vec<u8>)
        ensures
            r@ == self@.line_end(),
    {
        if let Some(nl) = extract_newline(&self.frontmatter) {
            return nl;
        }
        let ghost views = sections_view(self.sections@);
        let mut i: usize = 0;
        while i < self.sections.len()
            invariant
                i <= self.sections@.len(),
                views == sections_view(self.sections@),
                section_line_end(views, 0) == section_line_end(views, i as int),
                line_end_from(events_view(self.frontmatter@), 0) is None,
            decreases self.sections@.len() - i,
        {
            assert(views[i as int] == self.sections@[i as int]@);
            if let Some(nl) = extract_newline(&self.sections[i].events) {
                return nl;
            }
            i += 1;
        }
        let mut nl: Vec<u8> = Vec::new();
        nl.push('\n' as u8);
        assert(nl@ =~= seq!['\n' as u8]);
        nl
    }
}

/// Whether the header is that of a section with the given name and subsection.
fn header_matches(h: &SectionHeader, name: &[u8], sub: Option<&[u8]>) -> (r: bool)
    ensures
        r == header_is(h@, name@, opt_slice(sub)),
{
    eq_ignore_case(h.name.as_slice(), name) && (match (&h.subsection_name, sub) {
        (Some(a), Some(b)) => eq_bytes(a.as_slice(), b),
        (None, None) => true,
        _ => false,
    })
}

/// A section with other events after it.
pub open spec fn with_post(s: SectionView, post: Seq<EventView>) -> SectionView {
    SectionView { id: s.id, header: s.header, events: s.events, post, path: s.path }
}

/// A section with other events in it.
pub open spec fn with_events(s: SectionView, events: Seq<EventView>) -> SectionView {
    SectionView { id: s.id, header: s.header, events, post: s.post, path: s.path }
}

/// The file with the sections of `other` after the section `at`, or at its end. What stands
/// before the first section of `other` comes after the section `at`, or after the one that
/// was added last.
pub open spec fn appended(f: FileView, other: FileView, at: Option<usize>) -> FileView {
    let nl = f.line_end();
    let last: Option<usize> = match at {
        Some(id) => Some(id),
        None => if f.next_id > 0 {
            Some((f.next_id - 1) as usize)
        } else {
            None
        },
    };
    let sections = f.with_sections_of(
        other,
        match at {
            Some(id) => Some(section_pos(f.sections, id)),
            None => None,
        },
    );
    FileView {
        front: if last is None {
            on_new_line(f.front, other.front, nl)
        } else {
            f.front
        },
        sections: match last {
            Some(id) => {
                let p = section_pos(sections, id);
                sections.update(
                    p,
                    with_post(sections[p], on_new_line(sections[p].post, other.front, nl)),
                )
            },
            None => sections,
        },
        next_id: (f.next_id + other.sections.len()) as usize,
        path: f.path,
    }
}

proof fn lemma_pos_of_section(f: FileView, k: int)
    requires
        f.wf(),
        0 <= k < f.sections.len(),
    ensures
        section_pos(f.sections, f.sections[k].id) == k,
{
    lemma_section_pos_is(f.sections, f.sections[k].id, k);
}

pub proof fn lemma_ids_all_taken(f: FileView, id: usize)
    requires
        f.wf(),
        id < f.next_id,
    ensures
        section_pos(f.sections, id) < f.sections.len(),
    decreases f.sections.len(),
{
    lemma_section_pos(f.sections, id);
    let ids = Seq::new(f.sections.len(), |i: int| f.sections[i].id as int);
    if section_pos(f.sections, id) >= f.sections.len() {
        let all = vstd::set_lib::set_int_range(0, f.next_id as int);
        let taken = ids.to_set();
        vstd::set_lib::lemma_int_range(0, f.next_id as int);
        assert(ids.no_duplicates());
        ids.unique_seq_to_set();
        assert(taken.subset_of(all.remove(id as int))) by {
            assert forall|x: int| taken.contains(x) implies all.remove(id as int).contains(x) by {
                let j = choose|j: int| 0 <= j < ids.len() && ids[j] == x;
                assert(f.sections[j].id == x);
            }
        }
        vstd::set_lib::lemma_len_subset(taken, all.remove(id as int));
    }
}

/// `right` after `left`, on a line of its own.
fn extend_and_assure_newline(left: &mut Vec<Event>, right: Vec<Event>, nl: &[u8])
    ensures
        events_view(final(left)@) == on_new_line(
            events_view(old(left)@),
            events_view(right@),
            nl@,
        ),
{
    let ghost before = events_view(left@);
    let ghost added = events_view(right@);
    if !ends_with_newline(left, nl, true) && right.len() > 0 {
        assert(added[0] == right@[0]@);
        let text = right[0].to_bstr_lossy();
        if !starts_with(text.as_slice(), nl) {
            left.push(Event::Newline(to_vec(nl)));
            assert(events_view(left@) =~= before.push(EventView::Newline(nl@)));
        }
    }
    let ghost mid = events_view(left@);
    for e in it: right
        invariant
            it.seq() == right@,
            events_view(left@) =~= mid + added.take(it.index() as int),
            added == events_view(right@),
    {
        let ghost was = events_view(left@);
        left.push(e);
        assert(events_view(left@) =~= was.push(e@));
        assert(added.take(it.index() + 1) =~= added.take(it.index() as int).push(e@));
    }
    assert(added.take(added.len() as int) =~= added);
    assert(mid + added == on_new_line(before, added, nl@));
}

impl GitConfigurationFile {
    /// The file with the events of `events`.
    pub fn from_parse_events_no_includes(events: Events, path: Option<&[u8]>) -> (r:
        GitConfigurationFile)
        ensures
            r@.wf(),
            r@.front == events_view(events.frontmatter@),
            r@.path == opt_slice(path),
            r@.sections.len() == events.sections@.len(),
            forall|i: int|
                0 <= i < r@.sections.len() ==> #[trigger] r@.sections[i] == parsed_section(
                    events.sections@[i],
                    i,
                    opt_slice(path),
                ),
    {
        let ghost parts = events.sections@;
        let count: usize = events.sections.len();
        let mut f = GitConfigurationFile::new(opt_to_vec(path));
        f.frontmatter = events.frontmatter;
        for section in it: events.sections
            invariant
                it.seq() == parts,
                count == parts.len(),
                f@.wf(),
                f@.front == events_view(events.frontmatter@),
                f@.path == opt_slice(path),
                f@.sections.len() == it.index(),
                forall|i: int|
                    0 <= i < f@.sections.len() ==> #[trigger] f@.sections[i] == parsed_section(
                        parts[i],
                        i,
                        opt_slice(path),
                    ),
        {
            let s = ConfigFileSection {
                id: 0,
                header: section.header,
                events: section.events,
                post: Vec::new(),
                path: opt_to_vec(path),
            };
            assert(s@.post =~= Seq::<EventView>::empty());
            let id: usize = f.push_section_internal(s);
        }
        f
    }

    /// The text of a value.
    pub fn hx_string_filter(&self, key: &[u8]) -> (r: Option<Vec<u8>>)
        ensures
            opt_view(r) == value_of_key(self@, key@),
    {
        match KeyRef::hx_parse_unvalidated(key) {
            Some(k) => match self.hx_raw_value_filter_by(
                k.section_name,
                k.subsection_name,
                k.value_name,
            ) {
                Ok(v) => Some(v),
                Err(_) => None,
            },
            None => None,
        }
    }

    /// The path that a value writes.
    pub fn hx_path_filter(&self, key: &[u8]) -> (r: Option<ConfigPath>)
        ensures
            match value_of_key(self@, key@) {
                Some(v) => r matches Some(p) && p.is_optional == begins(v, lit(":(optional)"))
                    && p.value@ == (if begins(v, lit(":(optional)")) {
                    from(v, lit(":(optional)").len() as int)
                } else {
                    v
                }),
                None => r is None,
            },
    {
        match self.hx_string_filter(key) {
            Some(v) => Some(ConfigPath::from_bytes(v)),
            None => None,
        }
    }

    /// Appends a section without values: its header and a line end.
    pub fn new_section(&mut self, name: Vec<u8>, subsection: Option<Vec<u8>>) -> (r: Result<
        usize,
        GitError,
    >)
        requires
            old(self)@.wf(),
            old(self)@.next_id < usize::MAX,
        ensures
            final(self)@.wf(),
            r is Ok <==> name_chars(name@) && (subsection matches Some(s) ==> valid_subsection(s@)),
            r matches Ok(id) ==> id == old(self)@.next_id && final(self)@
                == old(self)@.with_section(
                empty_section(old(self)@, name@, opt_view(subsection)),
            ),
            r matches Err(e) ==> e is Gen && final(self)@ == old(self)@,
    {
        let ghost before = self@;
        let ghost sub = opt_view(subsection);
        let ghost key = name@;
        let header = match SectionHeader::new(name, subsection) {
            Ok(h) => h,
            Err(e) => {
                return Err(e);
            },
        };
        let path = match &self.path {
            Some(p) => Some(to_vec(p.as_slice())),
            None => None,
        };
        // A section without events has no line end of its own.
        let nl = self.detect_newline_style();
        let mut events: Vec<Event> = Vec::new();
        events.push(Event::Newline(nl));
        let s = ConfigFileSection { id: 0, header, events, post: Vec::new(), path };
        assert(s@.events =~= seq![EventView::Newline(before.line_end())]);
        assert(s@.post =~= Seq::<EventView>::empty());
        let ghost view = s@;
        let id: usize = self.push_section_internal(s);
        assert(with_id(view, id) == with_id(empty_section(before, key, sub), id));
        Ok(id)
    }

    /// Assigns a value to a key of the last section with the given name and subsection, or of
    /// a new one.
    pub fn section_push(
        &mut self,
        name: &[u8],
        subsection: Option<&[u8]>,
        key: Vec<u8>,
        value: Option<&[u8]>,
    ) -> (r: Result<(), GitError>)
        requires
            old(self)@.wf(),
            old(self)@.next_id < usize::MAX,
        ensures
            final(self)@.wf(),
            r is Ok <==> has_section(old(self)@.sections, name@, opt_slice(subsection)) || (
            name_chars(name@) && (subsection matches Some(s) ==> valid_subsection(s@))),
            r is Ok ==> final(self)@ == old(self)@.with_value(
                name@,
                opt_slice(subsection),
                key@,
                opt_slice(value),
            ),
            r matches Err(e) ==> e is Gen && final(self)@ == old(self)@,
    {
        let ghost before = self@;
        let nl = self.detect_newline_style();
        let at: usize = match self.last_section(name, subsection) {
            Some(k) => k,
            None => {
                let sub: Option<Vec<u8>> = match subsection {
                    Some(s) => Some(to_vec(s)),
                    None => None,
                };
                match self.new_section(to_vec(name), sub) {
                    Ok(id) => {},
                    Err(e) => {
                        return Err(e);
                    },
                }
                self.sections.len() - 1
            },
        };
        let ghost mid = self@;
        assert(mid.sections[at as int] == self.sections@[at as int]@);
        let s = &mut self.sections[at];
        assign(&mut s.events, key, value, nl.as_slice());
        proof {
            let k = at as int;
            let out = self@.sections;
            assert(out =~= mid.sections.update(k, out[k]));
            assert(out[k] == with_events(
                mid.sections[k],
                mid.sections[k].events + assignment(
                    whitespace_of(mid.sections[k].events),
                    key@,
                    opt_slice(value),
                    nl@,
                ),
            ));
        }
        Ok(())
    }

    /// The position of the last section with the given name and subsection.
    fn last_section(&self, name: &[u8], subsection: Option<&[u8]>) -> (r: Option<usize>)
        ensures
            r is Some <==> has_section(self@.sections, name@, opt_slice(subsection)),
            r matches Some(k) ==> k < self@.sections.len() && k == last_with(
                self@.sections,
                name@,
                opt_slice(subsection),
                self@.sections.len() as int,
            ),
    {
        let ghost views = sections_view(self.sections@);
        let ghost n = self.sections@.len() as int;
        let mut i: usize = self.sections.len();
        while i > 0
            invariant
                i <= n,
                n == self.sections@.len(),
                views == sections_view(self.sections@),
                last_with(views, name@, opt_slice(subsection), n) == last_with(
                    views,
                    name@,
                    opt_slice(subsection),
                    i as int,
                ),
                forall|j: int|
                    i <= j < n ==> !header_is(
                        #[trigger] views[j].header,
                        name@,
                        opt_slice(subsection),
                    ),
            decreases i,
        {
            i -= 1;
            assert(views[i as int] == self.sections@[i as int]@);
            if header_matches(&self.sections[i].header, name, subsection) {
                assert(header_is(views[i as int].header, name@, opt_slice(subsection)));
                return Some(i);
            }
        }
        None
    }

    /// Puts the sections of `other` after the section `insert_after`, or at the end.
    pub fn append_or_insert(&mut self, other: GitConfigurationFile, insert_after: Option<usize>)
        requires
            old(self)@.wf(),
            other@.wf(),
            old(self)@.next_id + other@.sections.len() <= usize::MAX,
            insert_after matches Some(id) ==> section_pos(old(self)@.sections, id) < old(
                self,
            )@.sections.len(),
        ensures
            final(self)@.wf(),
            final(self)@ == appended(old(self)@, other@, insert_after),
    {
        let ghost f = self@;
        let ghost o = other@;
        let nl = self.detect_newline_style();
        let last: Option<usize> = match insert_after {
            Some(id) => Some(id),
            None => if self.next_id != 0 {
                Some(self.next_id - 1)
            } else {
                None
            },
        };
        let ghost at = match insert_after {
            Some(id) => section_pos(f.sections, id),
            None => f.sections.len() - 1,
        };
        proof {
            if insert_after is Some {
                lemma_section_pos(f.sections, insert_after->0);
            }
        }
        let mut after: Option<usize> = insert_after;
        let ghost more = renumbered(o.sections, f.next_id as int);
        let ghost parts = other.sections@;
        assert(f.sections.take(at + 1) + more.take(0) + f.sections.skip(at + 1) =~= f.sections);
        for section in it: other.sections
            invariant
                it.seq() == parts,
                o.sections == sections_view(parts),
                f.wf(),
                f.next_id + o.sections.len() <= usize::MAX,
                more == renumbered(o.sections, f.next_id as int),
                -1 <= at < f.sections.len(),
                self@.wf(),
                self@.front == f.front,
                self@.path == f.path,
                self@.next_id == f.next_id + it.index(),
                self@.sections == f.sections.take(at + 1) + more.take(it.index() as int)
                    + f.sections.skip(at + 1),
                after is Some <==> insert_after is Some,
                after is None ==> at == f.sections.len() - 1,
                after matches Some(id) ==> at + it.index() >= 0 && id == self@.sections[at
                    + it.index()].id,
        {
            let ghost i = it.index() as int;
            let ghost now = self@;
            let ghost s = section@;
            assert(o.sections[i] == s);
            assert(more.take(i + 1) =~= more.take(i).push(with_id(s, now.next_id)));
            match after {
                Some(id) => {
                    proof {
                        lemma_pos_of_section(now, at + i);
                    }
                    let new_id: usize = self.insert_section_after(section, id);
                    after = Some(new_id);
                    assert(self@.sections =~= f.sections.take(at + 1) + more.take(i + 1)
                        + f.sections.skip(at + 1));
                },
                None => {
                    let new_id: usize = self.push_section_internal(section);
                    assert(self@.sections =~= f.sections.take(at + 1) + more.take(i + 1)
                        + f.sections.skip(at + 1));
                },
            }
        }
        proof {
            assert(more.take(more.len() as int) =~= more);
            assert(f.sections.take(f.sections.len() as int) =~= f.sections);
            assert(f.sections + more + f.sections.skip(f.sections.len() as int) =~= f.sections
                + more);
        }
        let ghost mid = self@;
        assert(mid.sections == f.with_sections_of(
            o,
            match insert_after {
                Some(id) => Some(section_pos(f.sections, id)),
                None => None,
            },
        ));
        match last {
            Some(id) => {
                proof {
                    if insert_after is Some {
                        let k = section_pos(f.sections, id);
                        lemma_section_pos(f.sections, id);
                        assert(mid.sections[k] == f.sections[k]);
                        lemma_pos_of_section(mid, k);
                    } else {
                        lemma_ids_all_taken(f, id);
                        lemma_section_pos(f.sections, id);
                        let k = section_pos(f.sections, id);
                        assert(mid.sections[k] == f.sections[k]);
                        lemma_pos_of_section(mid, k);
                    }
                }
                let k: usize = self.position(id);
                assert(mid.sections[k as int] == self.sections@[k as int]@);
                let s = &mut self.sections[k];
                extend_and_assure_newline(&mut s.post, other.frontmatter, nl.as_slice());
                proof {
                    let out = self@.sections;
                    assert(out =~= mid.sections.update(k as int, out[k as int]));
                    assert(out[k as int] == with_post(
                        mid.sections[k as int],
                        on_new_line(mid.sections[k as int].post, o.front, nl@),
                    ));
                    assert forall|i: int| 0 <= i < out.len() implies (#[trigger] out[i]).id
                        == mid.sections[i].id by {}
                }
            },
            None => {
                extend_and_assure_newline(&mut self.frontmatter, other.frontmatter, nl.as_slice());
            },
        }
    }
}

/// The section `i` of a parsed file.
pub open spec fn parsed_section(s: ConfigSection, i: int, path: Option<Seq<u8>>) -> SectionView {
    SectionView {
        id: i as usize,
        header: s.header@,
        events: events_view(s.events@),
        post: Seq::empty(),
        path,
    }
}

/// The value that the file gives a key.
pub open spec fn value_of_key(f: FileView, key: Seq<u8>) -> Option<Seq<u8>> {
    match key_of(key) {
        Some(k) => value_before(
            f.sections,
            k.section_name,
            k.subsection_name,
            k.value_name,
            f.sections.len() as int,
        ),
        None => None,
    }
}

/// A section with nothing but a line end.
pub open spec fn empty_section(f: FileView, name: Seq<u8>, sub: Option<Seq<u8>>) -> SectionView {
    SectionView {
        id: 0,
        header: SectionHeaderView {
            name,
            separator: match sub {
                None => None,
                Some(_) => Some(seq![' ' as u8]),
            },
            subsection_name: sub,
        },
        events: seq![EventView::Newline(f.line_end())],
        post: Seq::empty(),
        path: f.path,
    }
}

/// The position of the last of the first `n` sections with the given name and subsection.
pub open spec fn last_with(
    sections: Seq<SectionView>,
    name: Seq<u8>,
    sub: Option<Seq<u8>>,
    n: int,
) -> int
    decreases n,
{
    if n <= 0 || header_is(sections[n - 1].header, name, sub) {
        n - 1
    } else {
        last_with(sections, name, sub, n - 1)
    }
}

impl FileView {
    /// The file after an assignment in the section at `k`.
    pub open spec fn with_value_at(
        self,
        k: int,
        key: Seq<u8>,
        value: Option<Seq<u8>>,
        nl: Seq<u8>,
    ) -> FileView {
        let s = self.sections[k];
        FileView {
            front: self.front,
            sections: self.sections.update(
                k,
                with_events(s, s.events + assignment(whitespace_of(s.events), key, value, nl)),
            ),
            next_id: self.next_id,
            path: self.path,
        }
    }

    /// The file after an assignment to a key of the last section with the given name and
    /// subsection, or of a new one.
    pub open spec fn with_value(
        self,
        name: Seq<u8>,
        sub: Option<Seq<u8>>,
        key: Seq<u8>,
        value: Option<Seq<u8>>,
    ) -> FileView {
        if has_section(self.sections, name, sub) {
            self.with_value_at(
                last_with(self.sections, name, sub, self.sections.len() as int),
                key,
                value,
                self.line_end(),
            )
        } else {
            self.with_section(empty_section(self, name, sub)).with_value_at(
                self.sections.len() as int,
                key,
                value,
                self.line_end(),
            )
        }
    }
}

/// A copy of an optional string.
fn opt_to_vec(s: Option<&[u8]>) -> (r: Option<Vec<u8>>)
    ensures
        opt_view(r) == opt_slice(s),
{
    match s {
        Some(s) => Some(to_vec(s)),
        None => None,
    }
}

proof fn lemma_value_before(
    sections: Seq<SectionView>,
    name: Seq<u8>,
    sub: Option<Seq<u8>>,
    key: Seq<u8>,
    n: int,
    k: int,
)
    requires
        0 <= k < n <= sections.len(),
        forall|j: int| k < j < n ==> !header_is(#[trigger] sections[j].header, name, sub),
    ensures
        value_before(sections, name, sub, key, n) == value_before(sections, name, sub, key, k + 1),
    decreases n,
{
    if n > k + 1 {
        assert(!header_is(sections[n - 1].header, name, sub));
        lemma_value_before(sections, name, sub, key, n - 1, k);
    }
}

proof fn lemma_last_with(sections: Seq<SectionView>, name: Seq<u8>, sub: Option<Seq<u8>>, n: int)
    requires
        0 <= n <= sections.len(),
    ensures
        -1 <= last_with(sections, name, sub, n) < n || n == 0,
        last_with(sections, name, sub, n) >= 0 ==> header_is(
            sections[last_with(sections, name, sub, n)].header,
            name,
            sub,
        ),
        forall|j: int|
            last_with(sections, name, sub, n) < j < n ==> !header_is(
                #[trigger] sections[j].header,
                name,
                sub,
            ),
    decreases n,
{
    if n > 0 && !header_is(sections[n - 1].header, name, sub) {
        lemma_last_with(sections, name, sub, n - 1);
    }
}

/// A value that was assigned to a key is the value that the file gives the key.
pub proof fn law_assigned_value_is_given(
    f: FileView,
    name: Seq<u8>,
    sub: Option<Seq<u8>>,
    key: Seq<u8>,
    v: Seq<u8>,
)
    ensures
        value_before(
            f.with_value(name, sub, key, Some(v)).sections,
            name,
            sub,
            key,
            f.with_value(name, sub, key, Some(v)).sections.len() as int,
        ) == Some(v),
{
    let g = f.with_value(name, sub, key, Some(v));
    let n = f.sections.len() as int;
    if has_section(f.sections, name, sub) {
        let k = last_with(f.sections, name, sub, n);
        lemma_last_with(f.sections, name, sub, n);
        let i = choose|i: int|
            0 <= i < f.sections.len() && header_is(#[trigger] f.sections[i].header, name, sub);
        assert(k >= 0);
        let s = f.sections[k];
        law_assigned_value_is_found(s.events, whitespace_of(s.events), key, v, f.line_end());
        assert forall|j: int| k < j < n implies !header_is(
            #[trigger] g.sections[j].header,
            name,
            sub,
        ) by {
            assert(g.sections[j] == f.sections[j]);
        }
        lemma_value_before(g.sections, name, sub, key, n, k);
    } else {
        let s = empty_section(f, name, sub);
        law_assigned_value_is_found(s.events, whitespace_of(s.events), key, v, f.line_end());
    }
}

/// Sections of a given name and subsection that are looked up are all those of that name
/// and subsection, and no others.
pub proof fn law_lookup_is_complete(f: FileView, name: Seq<u8>, sub: Option<Seq<u8>>, i: int)
    requires
        f.wf(),
        0 <= i < f.sections.len(),
    ensures
        ids_with(f.sections, name, sub, f.sections.len() as int).contains(f.sections[i].id)
            <==> header_is(f.sections[i].header, name, sub),
{
    lemma_ids_with(f, name, sub, i, f.sections.len() as int);
}

proof fn lemma_ids_with(f: FileView, name: Seq<u8>, sub: Option<Seq<u8>>, i: int, n: int)
    requires
        f.wf(),
        0 <= i < f.sections.len(),
        0 <= n <= f.sections.len(),
    ensures
        ids_with(f.sections, name, sub, n).contains(f.sections[i].id) <==> i < n && header_is(
            f.sections[i].header,
            name,
            sub,
        ),
    decreases n,
{
    if n > 0 {
        lemma_ids_with(f, name, sub, i, n - 1);
        let rest = ids_with(f.sections, name, sub, n - 1);
        let id = f.sections[i].id;
        if header_is(f.sections[n - 1].header, name, sub) {
            let last = f.sections[n - 1].id;
            assert(rest.push(last).contains(id) <==> rest.contains(id) || last == id) by {
                if rest.contains(id) {
                    let j = choose|j: int| 0 <= j < rest.len() && rest[j] == id;
                    assert(rest.push(last)[j] == id);
                }
                if last == id {
                    assert(rest.push(last)[rest.len() as int] == id);
                }
                if rest.push(last).contains(id) {
                    let j = choose|j: int|
                        0 <= j < rest.push(last).len() && rest.push(last)[j] == id;
                    if j < rest.len() {
                        assert(rest[j] == id);
                    }
                }
            }
            if i != n - 1 {
                assert(f.sections[i].id != f.sections[n - 1].id);
            }
        }
    }
}

/// The value that begins at `i`, and the position after it: up to the end of the value, or
/// past the next key where none comes before it.
pub open spec fn collected(events: Seq<EventView>, i: int, done: Seq<u8>) -> (Seq<u8>, int)
    decreases events.len() - i,
{
    if i >= events.len() {
        (seq![], i)
    } else {
        match events[i] {
            EventView::SectionValueName(_) => (seq![], i + 1),
            EventView::Value(v) => (normalized(v), i + 1),
            EventView::ValueNotDone(v) => collected(events, i + 1, done + v),
            EventView::ValueDone(v) => (normalized(done + v), i + 1),
            _ => collected(events, i + 1, done),
        }
    }
}

pub proof fn lemma_collected(events: Seq<EventView>, i: int, done: Seq<u8>)
    requires
        0 <= i <= events.len(),
    ensures
        i <= collected(events, i, done).1 <= events.len(),
    decreases events.len() - i,
{
    if i < events.len() {
        match events[i] {
            EventView::ValueNotDone(v) => lemma_collected(events, i + 1, done + v),
            EventView::SectionValueName(_) => {},
            EventView::Value(_) => {},
            EventView::ValueDone(_) => {},
            _ => lemma_collected(events, i + 1, done),
        }
    }
}

pub proof fn lemma_first_key(events: Seq<EventView>, i: int)
    requires
        0 <= i <= events.len(),
    ensures
        i <= first_key(events, i) <= events.len(),
        first_key(events, i) < events.len() ==> events[first_key(events, i)] is SectionValueName,
    decreases events.len() - i,
{
    if i < events.len() && !(events[i] is SectionValueName) {
        lemma_first_key(events, i + 1);
    }
}

/// The keys and values of the two sections from `i` and `j` on are the same, as far as both
/// have some.
pub open spec fn same_values(a: Seq<EventView>, i: int, b: Seq<EventView>, j: int) -> bool
    decreases a.len() - i,
    when 0 <= i <= a.len()
{
    let ka = first_key(a, i);
    let kb = first_key(b, j);
    if ka >= a.len() || kb >= b.len() {
        true
    } else {
        proof {
            lemma_first_key(a, i);
            lemma_collected(a, ka + 1, seq![]);
        }
        let va = collected(a, ka + 1, seq![]);
        let vb = collected(b, kb + 1, seq![]);
        lowered(a[ka]->SectionValueName_0) == lowered(b[kb]->SectionValueName_0) && va.0 == vb.0
            && same_values(a, va.1, b, vb.1)
    }
}

/// The two sections have the same name, subsection and values.
pub open spec fn same_section(a: SectionView, b: SectionView) -> bool {
    header_is(a.header, b.header.name, b.header.subsection_name) && same_values(
        a.events,
        0,
        b.events,
        0,
    )
}

/// The two files have the same sections.
pub open spec fn same_file(a: FileView, b: FileView) -> bool {
    a.sections.len() == b.sections.len() && forall|i: int|
        0 <= i < a.sections.len() ==> same_section(#[trigger] a.sections[i], b.sections[i])
}

proof fn lemma_same_values_reflexive(a: Seq<EventView>, i: int)
    requires
        0 <= i <= a.len(),
    ensures
        same_values(a, i, a, i),
    decreases a.len() - i,
{
    lemma_first_key(a, i);
    let k = first_key(a, i);
    if k < a.len() {
        lemma_collected(a, k + 1, seq![]);
        lemma_same_values_reflexive(a, collected(a, k + 1, seq![]).1);
    }
}

/// A file is equal to every file with the same sections.
pub proof fn law_same_file_reflexive(a: FileView, b: FileView)
    requires
        a.sections == b.sections,
    ensures
        same_file(a, b),
{
    assert forall|i: int| 0 <= i < a.sections.len() implies same_section(
        #[trigger] a.sections[i],
        b.sections[i],
    ) by {
        lemma_same_values_reflexive(a.sections[i].events, 0);
    }
}

/// The position of the first key from `i` on.
fn find_key(events: &Vec<Event>, i: usize) -> (r: usize)
    requires
        i <= events@.len(),
    ensures
        r == first_key(events_view(events@), i as int),
        i <= r <= events@.len(),
{
    let ghost views = events_view(events@);
    let mut k: usize = i;
    while k < events.len()
        invariant
            i <= k <= events@.len(),
            views == events_view(events@),
            first_key(views, i as int) == first_key(views, k as int),
        decreases events@.len() - k,
    {
        assert(views[k as int] == events@[k as int]@);
        if let Event::SectionValueName(_) = &events[k] {
            return k;
        }
        k += 1;
    }
    k
}

/// The value that begins at `i`, and the position after it.
fn collect_value(events: &Vec<Event>, i: usize) -> (r: (Vec<u8>, usize))
    requires
        i <= events@.len(),
    ensures
        (r.0@, r.1 as int) == collected(events_view(events@), i as int, seq![]),
        i <= r.1 <= events@.len(),
{
    let ghost views = events_view(events@);
    let mut k: usize = i;
    let mut done: Vec<u8> = Vec::new();
    assert(done@ =~= seq![]);
    while k < events.len()
        invariant
            i <= k <= events@.len(),
            views == events_view(events@),
            collected(views, i as int, seq![]) == collected(views, k as int, done@),
        decreases events@.len() - k,
    {
        assert(views[k as int] == events@[k as int]@);
        match &events[k] {
            Event::SectionValueName(_) => {
                let none: Vec<u8> = Vec::new();
                assert(none@ =~= seq![]);
                return (none, k + 1);
            },
            Event::Value(v) => {
                return (normalize(v.as_slice()), k + 1);
            },
            Event::ValueNotDone(v) => {
                push_all(&mut done, v.as_slice());
            },
            Event::ValueDone(v) => {
                push_all(&mut done, v.as_slice());
                return (normalize(done.as_slice()), k + 1);
            },
            _ => {},
        }
        k += 1;
    }
    let none: Vec<u8> = Vec::new();
    assert(none@ =~= seq![]);
    (none, k)
}

/// Whether the keys and values of the two sections are the same.
fn eq_values(a: &Vec<Event>, b: &Vec<Event>) -> (r: bool)
    ensures
        r == same_values(events_view(a@), 0, events_view(b@), 0),
{
    let ghost va = events_view(a@);
    let ghost vb = events_view(b@);
    let mut i: usize = 0;
    let mut j: usize = 0;
    loop
        invariant
            va == events_view(a@),
            vb == events_view(b@),
            i <= a@.len(),
            j <= b@.len(),
            same_values(va, 0, vb, 0) == same_values(va, i as int, vb, j as int),
        decreases a@.len() - i,
    {
        let ka: usize = find_key(a, i);
        let kb: usize = find_key(b, j);
        if ka >= a.len() || kb >= b.len() {
            return true;
        }
        proof {
            lemma_first_key(va, i as int);
            lemma_first_key(vb, j as int);
        }
        assert(va[ka as int] == a@[ka as int]@);
        assert(vb[kb as int] == b@[kb as int]@);
        if let (Event::SectionValueName(x), Event::SectionValueName(y)) = (&a[ka], &b[kb]) {
            if !eq_ignore_case(x.as_slice(), y.as_slice()) {
                return false;
            }
        }
        let x = collect_value(a, ka + 1);
        let y = collect_value(b, kb + 1);
        if !eq_bytes(x.0.as_slice(), y.0.as_slice()) {
            return false;
        }
        i = x.1;
        j = y.1;
    }
}

impl GitConfigurationFile {
    /// Whether the two files have the same sections, with the same values.
    pub fn eq_file(&self, other: &GitConfigurationFile) -> (r: bool)
        ensures
            r == same_file(self@, other@),
    {
        if self.sections.len() != other.sections.len() {
            return false;
        }
        let ghost va = sections_view(self.sections@);
        let ghost vb = sections_view(other.sections@);
        let mut i: usize = 0;
        while i < self.sections.len()
            invariant
                i <= self.sections@.len() == other.sections@.len(),
                va == sections_view(self.sections@),
                vb == sections_view(other.sections@),
                forall|k: int| 0 <= k < i ==> same_section(#[trigger] va[k], vb[k]),
            decreases self.sections@.len() - i,
        {
            assert(va[i as int] == self.sections@[i as int]@);
            assert(vb[i as int] == other.sections@[i as int]@);
            let h = &other.sections[i].header;
            let sub: Option<&[u8]> = match &h.subsection_name {
                Some(s) => Some(s.as_slice()),
                None => None,
            };
            if !header_matches(&self.sections[i].header, h.name.as_slice(), sub) {
                return false;
            }
            if !eq_values(&self.sections[i].events, &other.sections[i].events) {
                return false;
            }
            i += 1;
        }
        true
    }

    /// The id that the next section gets.
    pub fn next_id(&self) -> (r: usize)
        ensures
            r == self@.next_id,
    {
        self.next_id
    }

    /// The number of sections.
    pub fn len(&self) -> (r: usize)
        ensures
            r == self@.sections.len(),
    {
        self.sections.len()
    }

    /// The section at position `i`.
    pub fn section(&self, i: usize) -> (r: &ConfigFileSection)
        requires
            i < self@.sections.len(),
        ensures
            r@ == self@.sections[i as int],
    {
        &self.sections[i]
    }

    /// Assigns each value to its key, in the order of the list. The first key without a dot,
    /// or with a name that cannot stand in a file, ends it.
    pub fn from_pairs(pairs: &Vec<(Vec<u8>, Vec<u8>)>) -> (r: Result<GitConfigurationFile, GitError>)
        ensures
            match with_pairs(empty_file(), pairs@, 0) {
                Some(f) => r matches Ok(g) && g@ == f && g@.wf(),
                None => r matches Err(e) && e is Gen,
            },
    {
        let mut f = GitConfigurationFile::new(None);
        assert(f@ == empty_file());
        let count: usize = pairs.len();
        let mut i: usize = 0;
        while i < count
            invariant
                i <= count == pairs@.len(),
                f@.wf(),
                f@.next_id <= i,
                with_pairs(empty_file(), pairs@, 0) == with_pairs(f@, pairs@, i as int),
            decreases count - i,
        {
            let k = match KeyRef::hx_parse_unvalidated(pairs[i].0.as_slice()) {
                Some(k) => k,
                None => {
                    return Err(GitError::Gen);
                },
            };
            if !is_valid_value_name(k.value_name) {
                return Err(GitError::Gen);
            }
            let ghost before = f@;
            match f.section_push(
                k.section_name,
                k.subsection_name,
                to_vec(k.value_name),
                Some(pairs[i].1.as_slice()),
            ) {
                Ok(_) => {},
                Err(e) => {
                    return Err(e);
                },
            }
            i += 1;
        }
        Ok(f)
    }
}

/// A file without sections.
pub open spec fn empty_file() -> FileView {
    FileView { front: Seq::empty(), sections: Seq::empty(), next_id: 0, path: None }
}

/// The file after the assignments from `i` on.
pub open spec fn with_pairs(f: FileView, pairs: Seq<(Vec<u8>, Vec<u8>)>, i: int) -> Option<FileView>
    decreases pairs.len() - i,
{
    if i >= pairs.len() {
        Some(f)
    } else {
        match key_of(pairs[i].0@) {
            Some(k) if valid_value_name(k.value_name) && (has_section(
                f.sections,
                k.section_name,
                k.subsection_name,
            ) || (name_chars(k.section_name) && (k.subsection_name matches Some(s)
                ==> valid_subsection(s)))) => with_pairs(
                f.with_value(
                    k.section_name,
                    k.subsection_name,
                    k.value_name,
                    Some(pairs[i].1@),
                ),
                pairs,
                i + 1,
            ),
            _ => None,
        }
    }
}

/// The file at `path` that holds `bytes`.
pub open spec fn parsed_file(bytes: Seq<u8>, path: Option<Seq<u8>>) -> Option<FileView> {
    match file_events(bytes) {
        None => None,
        Some(events) => {
            let parts = parts_of(events);
            Some(
                FileView {
                    front: front_of(events),
                    sections: Seq::new(
                        parts.len(),
                        |i: int|
                            SectionView {
                                id: i as usize,
                                header: parts[i].0,
                                events: parts[i].1,
                                post: Seq::empty(),
                                path,
                            },
                    ),
                    next_id: parts.len() as usize,
                    path,
                },
            )
        },
    }
}

impl ConfigFileSection {
    /// The same section once more.
    pub fn copy(&self) -> (r: ConfigFileSection)
        ensures
            r@ == self@,
    {
        ConfigFileSection {
            id: self.id,
            header: self.header.copy(),
            events: copy_events(&self.events),
            post: copy_events(&self.post),
            path: opt_to_vec(match &self.path {
                Some(p) => Some(p.as_slice()),
                None => None,
            }),
        }
    }
}

impl GitConfigurationFile {
    /// The file at `path` that holds `bytes`.
    pub fn from_bytes_owned(bytes: &[u8], path: Option<&[u8]>) -> (r: Result<GitConfigurationFile, GitError>)
        ensures
            match parsed_file(bytes@, opt_slice(path)) {
                Some(f) => r matches Ok(g) && g@ == f && g@.wf(),
                None => r matches Err(e) && e is Gen,
            },
    {
        match Events::from_bytes(bytes) {
            Err(_) => Err(GitError::Gen),
            Ok(events) => {
                let ghost sections = events.sections@;
                let ghost all = file_events(bytes@)->0;
                proof {
                    lemma_parts(all, events_view(events.frontmatter@), sections);
                }
                let f = GitConfigurationFile::from_parse_events_no_includes(events, path);
                proof {
                    let goal = parsed_file(bytes@, opt_slice(path))->0;
                    assert forall|i: int| 0 <= i < f@.sections.len() implies #[trigger] f@.sections[i]
                        == goal.sections[i] by {
                        assert(parts_of(all)[i] == (sections[i].header@, events_view(sections[i].events@)));
                    }
                    assert(f@.sections =~= goal.sections);
                }
                Ok(f)
            },
        }
    }

    /// The same file once more.
    pub fn copy(&self) -> (r: GitConfigurationFile)
        ensures
            r@ == self@,
    {
        let ghost all = sections_view(self.sections@);
        let mut sections: Vec<ConfigFileSection> = Vec::new();
        let mut i: usize = 0;
        assert(sections_view(sections@) =~= all.take(0));
        while i < self.sections.len()
            invariant
                i <= self.sections@.len(),
                all == sections_view(self.sections@),
                sections_view(sections@) == all.take(i as int),
            decreases self.sections@.len() - i,
        {
            let ghost before = sections_view(sections@);
            sections.push(self.sections[i].copy());
            assert(sections_view(sections@) =~= before.push(self.sections@[i as int]@));
            assert(all.take(i + 1) =~= all.take(i as int).push(all[i as int]));
            i += 1;
        }
        assert(all.take(all.len() as int) =~= all);
        GitConfigurationFile {
            frontmatter: copy_events(&self.frontmatter),
            sections,
            next_id: self.next_id,
            path: opt_to_vec(match &self.path {
                Some(p) => Some(p.as_slice()),
                None => None,
            }),
        }
    }

    /// The section `id`.
    pub fn section_by_id(&self, id: usize) -> (r: &ConfigFileSection)
        requires
            section_pos(self@.sections, id) < self@.sections.len(),
        ensures
            r@ == self@.sections[section_pos(self@.sections, id)],
    {
        let k: usize = self.position(id);
        assert(self@.sections[k as int] == self.sections@[k as int]@);
        &self.sections[k]
    }

    /// The ids of the sections, in their order.
    pub fn section_order(&self) -> (r: Vec<usize>)
        ensures
            r@ == ids_of(self@.sections),
    {
        let mut out: Vec<usize> = Vec::new();
        let mut i: usize = 0;
        while i < self.sections.len()
            invariant
                i <= self.sections@.len(),
                out@ == ids_of(self@.sections).take(i as int),
            decreases self.sections@.len() - i,
        {
            assert(self@.sections[i as int] == self.sections@[i as int]@);
            out.push(self.sections[i].id);
            assert(ids_of(self@.sections).take(i + 1) =~= ids_of(self@.sections).take(i as int).push(
                ids_of(self@.sections)[i as int],
            ));
            i += 1;
        }
        assert(ids_of(self@.sections).take(i as int) =~= ids_of(self@.sections));
        out
    }
}

/// The ids of the sections, in their order.
pub open spec fn ids_of(sections: Seq<SectionView>) -> Seq<usize> {
    sections.map_values(|s: SectionView| s.id)
}

/// The files one after the other, from the first `n`. `None` where they have more sections than
/// can be counted.
pub open spec fn merged_files(first: FileView, files: Seq<FileView>, n: int) -> Option<FileView>
    decreases n,
{
    if n <= 0 {
        Some(first)
    } else {
        match merged_files(first, files, n - 1) {
            None => None,
            Some(f) => if f.next_id + files[n - 1].sections.len() <= usize::MAX {
                Some(appended(f, files[n - 1], None))
            } else {
                None
            },
        }
    }
}

/// What the files stand for.
pub open spec fn files_view(v: Seq<GitConfigurationFile>) -> Seq<FileView> {
    v.map_values(|f: GitConfigurationFile| f@)
}

/// The files one after the other, those that are named last at the end. Later values win.
pub fn merge(first: GitConfigurationFile, files: Vec<GitConfigurationFile>) -> (r: Result<
    GitConfigurationFile,
    GitError,
>)
    requires
        first@.wf(),
        forall|i: int| 0 <= i < files@.len() ==> (#[trigger] files@[i])@.wf(),
    ensures
        match merged_files(first@, files_view(files@), files@.len() as int) {
            Some(f) => r matches Ok(g) && g@ == f && g@.wf(),
            None => r matches Err(e) && e is Gen,
        },
{
    let ghost all = files@;
    let ghost views = files_view(files@);
    let ghost start = first@;
    let mut out = first;
    for file in it: files
        invariant
            it.seq() == all,
            all == files@,
            views == files_view(all),
            start == first@,
            forall|i: int| 0 <= i < all.len() ==> (#[trigger] all[i])@.wf(),
            out@.wf(),
            merged_files(start, views, it.index() as int) == Some(out@),
    {
        assert(all[it.index() as int] == file);
        assert(views[it.index() as int] == file@);
        if usize::MAX - out.next_id() < file.len() {
            proof {
                lemma_merge_stops(start, views, it.index() + 1, all.len() as int);
            }
            return Err(GitError::Gen);
        }
        out.append_or_insert(file, None);
    }
    Ok(out)
}

proof fn lemma_merge_stops(first: FileView, files: Seq<FileView>, k: int, n: int)
    requires
        0 <= k <= n,
        merged_files(first, files, k) is None,
    ensures
        merged_files(first, files, n) is None,
    decreases n - k,
{
    if k < n {
        lemma_merge_stops(first, files, k, n - 1);
    }
}

/// The sections that come from a list of assignments come from no file.
pub proof fn lemma_pairs_from_no_file(f: FileView, pairs: Seq<(Vec<u8>, Vec<u8>)>, i: int)
    requires
        f.path is None,
        forall|k: int| 0 <= k < f.sections.len() ==> (#[trigger] f.sections[k]).path is None,
        with_pairs(f, pairs, i) is Some,
    ensures
        forall|k: int|
            0 <= k < (with_pairs(f, pairs, i)->0).sections.len() ==> (#[trigger] (with_pairs(
                f,
                pairs,
                i,
            )->0).sections[k]).path is None,
    decreases pairs.len() - i,
{
    if i < pairs.len() {
        let k = key_of(pairs[i].0@)->0;
        let g = f.with_value(k.section_name, k.subsection_name, k.value_name, Some(pairs[i].1@));
        if has_section(f.sections, k.section_name, k.subsection_name) {
            lemma_last_with(f.sections, k.section_name, k.subsection_name, f.sections.len() as int);
        }
        lemma_pairs_from_no_file(g, pairs, i + 1);
    }
}

/// The value that sections give a key is that of the later ones where they give one, and that of
/// those before otherwise.
proof fn lemma_value_of_both(
    a: Seq<SectionView>,
    b: Seq<SectionView>,
    name: Seq<u8>,
    sub: Option<Seq<u8>>,
    key: Seq<u8>,
    n: int,
)
    requires
        0 <= n <= b.len(),
    ensures
        value_before(a + b, name, sub, key, a.len() + n) == (match value_before(b, name, sub, key, n) {
            Some(v) => Some(v),
            None => value_before(a, name, sub, key, a.len() as int),
        }),
    decreases n,
{
    if n > 0 {
        lemma_value_of_both(a, b, name, sub, key, n - 1);
        assert((a + b)[a.len() + n - 1] == b[n - 1]);
    } else {
        lemma_value_of_alike(a + b, a, name, sub, key, a.len() as int);
    }
}

/// Sections with the same headers and bodies give the same value.
proof fn lemma_value_of_alike(
    a: Seq<SectionView>,
    b: Seq<SectionView>,
    name: Seq<u8>,
    sub: Option<Seq<u8>>,
    key: Seq<u8>,
    n: int,
)
    requires
        0 <= n <= a.len(),
        n <= b.len(),
        forall|i: int| 0 <= i < n ==> alike(#[trigger] a[i], b[i]),
    ensures
        value_before(a, name, sub, key, n) == value_before(b, name, sub, key, n),
    decreases n,
{
    if n > 0 {
        assert(alike(a[n - 1], b[n - 1]));
        lemma_value_of_alike(a, b, name, sub, key, n - 1);
    }
}

/// Both have the same header and the same body.
pub open spec fn alike(a: SectionView, b: SectionView) -> bool {
    a.header == b.header && a.events == b.events
}

/// Where a file was appended to another, its sections stand behind those of the other with their
/// headers and bodies, and a key has the value that the appended file gives it, or else the one
/// that it had before.
pub proof fn law_appended_file_decides(f: FileView, other: FileView, key: Seq<u8>)
    requires
        f.wf(),
        other.wf(),
        f.next_id + other.sections.len() <= usize::MAX,
    ensures
        ({
            let all = appended(f, other, None);
            &&& all.sections.len() == f.sections.len() + other.sections.len()
            &&& forall|i: int| 0 <= i < f.sections.len() ==> alike(#[trigger] all.sections[i], f.sections[i])
            &&& forall|i: int|
                0 <= i < other.sections.len() ==> alike(
                    #[trigger] all.sections[f.sections.len() + i],
                    other.sections[i],
                )
            &&& value_of_key(all, key) == (match value_of_key(other, key) {
                Some(v) => Some(v),
                None => value_of_key(f, key),
            })
        }),
{
    let all = appended(f, other, None);
    let a = f.sections;
    let b = renumbered(other.sections, f.next_id as int);
    let both = f.with_sections_of(other, None);
    let n = other.sections.len() as int;
    assert(both == a + b);
    if f.next_id > 0 {
        let id = (f.next_id - 1) as usize;
        lemma_ids_all_taken(f, id);
        lemma_section_pos(f.sections, id);
        lemma_section_pos(both, id);
        let p = section_pos(f.sections, id);
        assert(both[p].id == id);
        assert(section_pos(both, id) <= p);
    }
    assert forall|i: int| 0 <= i < both.len() implies alike(#[trigger] all.sections[i], both[i]) by {}
    assert forall|i: int| 0 <= i < a.len() implies alike(#[trigger] all.sections[i], a[i]) by {
        assert(alike(all.sections[i], both[i]));
        assert(both[i] == a[i]);
    }
    assert forall|i: int| 0 <= i < n implies alike(#[trigger] all.sections[a.len() + i], other.sections[i]) by {
        assert(alike(all.sections[a.len() + i], both[a.len() + i]));
        assert(both[a.len() + i] == b[i]);
    }
    if let Some(k) = key_of(key) {
        let name = k.section_name;
        let sub = k.subsection_name;
        lemma_value_of_alike(all.sections, both, name, sub, k.value_name, both.len() as int);
        lemma_value_of_both(a, b, name, sub, k.value_name, n);
        lemma_value_of_alike(b, other.sections, name, sub, k.value_name, n);
    }
}

/// The ids of sections and of others behind them are those of the first and then those of the
/// others.
proof fn lemma_ids_of_both(a: Seq<SectionView>, b: Seq<SectionView>, name: Seq<u8>, sub: Option<Seq<u8>>, n: int)
    requires
        0 <= n <= b.len(),
    ensures
        ids_with(a + b, name, sub, a.len() + n) == ids_with(a, name, sub, a.len() as int) + ids_with(
            b,
            name,
            sub,
            n,
        ),
    decreases n,
{
    if n > 0 {
        lemma_ids_of_both(a, b, name, sub, n - 1);
        assert((a + b)[a.len() + n - 1] == b[n - 1]);
        let head = ids_with(a, name, sub, a.len() as int);
        let rest = ids_with(b, name, sub, n - 1);
        assert(head + rest.push(b[n - 1].id) =~= (head + rest).push(b[n - 1].id));
    } else {
        lemma_ids_of_beginning(a + b, a, name, sub, a.len() as int);
        assert(ids_with(a, name, sub, a.len() as int) + ids_with(b, name, sub, 0) =~= ids_with(
            a,
            name,
            sub,
            a.len() as int,
        ));
    }
}

proof fn lemma_ids_of_beginning(a: Seq<SectionView>, b: Seq<SectionView>, name: Seq<u8>, sub: Option<Seq<u8>>, n: int)
    requires
        0 <= n <= a.len(),
        n <= b.len(),
        forall|i: int| 0 <= i < n ==> #[trigger] a[i] == b[i],
    ensures
        ids_with(a, name, sub, n) == ids_with(b, name, sub, n),
    decreases n,
{
    if n > 0 {
        assert(a[n - 1] == b[n - 1]);
        lemma_ids_of_beginning(a, b, name, sub, n - 1);
    }
}

/// A section that is put after the one at `k` is listed under its name and subsection after the
/// sections up to there and before those that follow; under other names the lists stay.
pub proof fn law_inserted_section_is_listed_in_order(
    f: FileView,
    s: SectionView,
    k: int,
    name: Seq<u8>,
    sub: Option<Seq<u8>>,
)
    requires
        f.wf(),
        f.next_id < usize::MAX,
        0 <= k < f.sections.len(),
    ensures
        ({
            let g = f.with_section_after(s, k);
            let n = f.sections.len() as int;
            let before = ids_with(f.sections.take(k + 1), name, sub, k + 1);
            let behind = ids_with(f.sections.skip(k + 1), name, sub, n - k - 1);
            &&& ids_with(f.sections, name, sub, n) == before + behind
            &&& ids_with(g.sections, name, sub, n + 1) == (if header_is(s.header, name, sub) {
                before.push(f.next_id) + behind
            } else {
                before + behind
            })
        }),
{
    let g = f.with_section_after(s, k);
    let n = f.sections.len() as int;
    let a = f.sections.take(k + 1);
    let b = f.sections.skip(k + 1);
    let t = with_id(s, f.next_id);
    assert(f.sections =~= a + b);
    assert(g.sections =~= a.push(t) + b);
    lemma_ids_of_both(a, b, name, sub, n - k - 1);
    lemma_ids_of_both(a.push(t), b, name, sub, n - k - 1);
    lemma_ids_of_beginning(a.push(t), a, name, sub, k + 1);
}

} // verus!
