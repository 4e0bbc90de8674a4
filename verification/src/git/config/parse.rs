//! Reading configuration files into events.
use crate::ascii::{alphabetic, alphanumeric, is_alphabetic, is_alphanumeric, is_whitespace, whitespace};
use crate::bytes::{from, lemma_pos_of, pos_of, to_vec};
use crate::git::bom::{bom_len, bom_length};
use crate::git::error::GitError;
use vstd::prelude::*;

verus! {

/// The header of a section: `[name]`, `[name.subsection]` or `[name "subsection"]`.
#[derive(Debug)]
pub struct SectionHeader {
    pub name: Vec<u8>,
    /// What stands between the name and the subsection.
    pub separator: Option<Vec<u8>>,
    pub subsection_name: Option<Vec<u8>>,
}

pub struct SectionHeaderView {
    pub name: Seq<u8>,
    pub separator: Option<Seq<u8>>,
    pub subsection_name: Option<Seq<u8>>,
}

/// The bytes of an optional string.
pub open spec fn opt_view(v: Option<Vec<u8>>) -> Option<Seq<u8>> {
    match v {
        None => None,
        Some(s) => Some(s@),
    }
}

impl View for SectionHeader {
    type V = SectionHeaderView;

    open spec fn view(&self) -> SectionHeaderView {
        SectionHeaderView {
            name: self.name@,
            separator: opt_view(self.separator),
            subsection_name: opt_view(self.subsection_name),
        }
    }
}

/// A part of a configuration file.
#[derive(Debug)]
pub enum Event {
    /// A comment: the character that begins it, and its text.
    Comment { tag: u8, text: Vec<u8> },
    SectionHeader(SectionHeader),
    SectionValueName(Vec<u8>),
    Value(Vec<u8>),
    Newline(Vec<u8>),
    /// A part of a value that goes on in the next line.
    ValueNotDone(Vec<u8>),
    /// The last part of a value that began in an earlier line.
    ValueDone(Vec<u8>),
    Whitespace(Vec<u8>),
    KeyValueSeparator,
}

pub enum EventView {
    Comment { tag: u8, text: Seq<u8> },
    SectionHeader(SectionHeaderView),
    SectionValueName(Seq<u8>),
    Value(Seq<u8>),
    Newline(Seq<u8>),
    ValueNotDone(Seq<u8>),
    ValueDone(Seq<u8>),
    Whitespace(Seq<u8>),
    KeyValueSeparator,
}

impl View for Event {
    type V = EventView;

    open spec fn view(&self) -> EventView {
        match self {
            Event::Comment { tag, text } => EventView::Comment { tag: *tag, text: text@ },
            Event::SectionHeader(h) => EventView::SectionHeader(h@),
            Event::SectionValueName(s) => EventView::SectionValueName(s@),
            Event::Value(s) => EventView::Value(s@),
            Event::Newline(s) => EventView::Newline(s@),
            Event::ValueNotDone(s) => EventView::ValueNotDone(s@),
            Event::ValueDone(s) => EventView::ValueDone(s@),
            Event::Whitespace(s) => EventView::Whitespace(s@),
            Event::KeyValueSeparator => EventView::KeyValueSeparator,
        }
    }
}

/// The events of `v`.
pub open spec fn events_view(v: Seq<Event>) -> Seq<EventView> {
    v.map_values(|e: Event| e@)
}

/// What a part of the parser gives: events, and the position after them. `None` where the
/// input is not accepted.
pub type Parsed = Option<(Seq<EventView>, int)>;

/// The position after the spaces and tabs at `i`.
pub open spec fn spaces_end(s: Seq<u8>, i: int) -> int
    decreases s.len() - i,
{
    if i < s.len() && (s[i] == ' ' as u8 || s[i] == '\t' as u8) {
        spaces_end(s, i + 1)
    } else {
        i
    }
}

/// The position after the line ends at `i`.
pub open spec fn newlines_end(s: Seq<u8>, i: int) -> int
    decreases s.len() - i,
{
    if i + 1 < s.len() && s[i] == '\r' as u8 && s[i + 1] == '\n' as u8 {
        newlines_end(s, i + 2)
    } else if i < s.len() && s[i] == '\n' as u8 {
        newlines_end(s, i + 1)
    } else {
        i
    }
}

/// `c` can stand in a section's name.
pub open spec fn section_char(c: u8) -> bool {
    alphanumeric(c) || c == '-' as u8 || c == '.' as u8
}

/// The position after the section's name at `i`.
pub open spec fn section_name_end(s: Seq<u8>, i: int) -> int
    decreases s.len() - i,
{
    if i < s.len() && section_char(s[i]) {
        section_name_end(s, i + 1)
    } else {
        i
    }
}

/// The position after the letters, digits and hyphens at `i`.
pub open spec fn name_end(s: Seq<u8>, i: int) -> int
    decreases s.len() - i,
{
    if i < s.len() && (alphanumeric(s[i]) || s[i] == '-' as u8) {
        name_end(s, i + 1)
    } else {
        i
    }
}

/// The quoted subsection that begins at `i`, up to a quotation mark that no backslash comes
/// before; and the position of that mark. A backslash stands for the byte after it. `None`
/// where a line ends first.
pub open spec fn quoted(s: Seq<u8>, i: int) -> Option<(Seq<u8>, int)>
    decreases s.len() - i,
{
    if i >= s.len() || s[i] == '"' as u8 {
        Some((seq![], i))
    } else if s[i] == '\n' as u8 {
        None
    } else if s[i] == '\\' as u8 {
        if i + 1 >= s.len() || s[i + 1] == '\n' as u8 {
            None
        } else {
            match quoted(s, i + 2) {
                None => None,
                Some((rest, j)) => Some((seq![s[i + 1]] + rest, j)),
            }
        }
    } else {
        match quoted(s, i + 1) {
            None => None,
            Some((rest, j)) => Some((seq![s[i]] + rest, j)),
        }
    }
}

/// A section's name that may hold a subsection after its first dot.
pub open spec fn dotted_header(name: Seq<u8>) -> SectionHeaderView {
    let dot = pos_of(name, '.' as u8, 0);
    if dot < name.len() {
        SectionHeaderView {
            name: name.subrange(0, dot),
            separator: Some(name.subrange(dot, dot + 1)),
            subsection_name: Some(from(name, dot + 1)),
        }
    } else {
        SectionHeaderView { name, separator: None, subsection_name: None }
    }
}

/// The header of a section at `i`, and the position after it.
pub open spec fn header_at(s: Seq<u8>, i: int) -> Option<(SectionHeaderView, int)> {
    if i >= s.len() || s[i] != '[' as u8 {
        None
    } else {
        let e = section_name_end(s, i + 1);
        let name = s.subrange(i + 1, e);
        if e < s.len() && s[e] == ']' as u8 {
            if name.len() == 0 {
                None
            } else {
                Some((dotted_header(name), e + 1))
            }
        } else {
            let q = spaces_end(s, e);
            if q == e || q >= s.len() || s[q] != '"' as u8 {
                None
            } else {
                match quoted(s, q + 1) {
                    None => None,
                    Some((sub, j)) => if j + 1 < s.len() && s[j] == '"' as u8 && s[j + 1]
                        == ']' as u8 {
                        Some(
                            (
                                SectionHeaderView {
                                    name,
                                    separator: Some(s.subrange(e, q)),
                                    subsection_name: Some(sub),
                                },
                                j + 2,
                            ),
                        )
                    } else {
                        None
                    },
                }
            }
        }
    }
}

/// The position after the last byte from `start` to before `end` that is no white space.
pub open spec fn trimmed_end(s: Seq<u8>, start: int, end: int) -> int
    decreases end - start,
{
    if end > start && whitespace(s[end - 1]) {
        trimmed_end(s, start, end - 1)
    } else {
        end
    }
}

/// How a value ends at `end`, whose last line began at `start`.
pub open spec fn value_finish(
    s: Seq<u8>,
    start: int,
    end: int,
    in_quotes: bool,
    partial: bool,
) -> Parsed {
    if in_quotes {
        None
    } else if start == end {
        Some((seq![EventView::Value(seq![])], end))
    } else {
        let e = trimmed_end(s, start, end);
        let text = s.subrange(start, e);
        Some(
            (
                seq![
                    if partial {
                        EventView::ValueDone(text)
                    } else {
                        EventView::Value(text)
                    },
                ],
                e,
            ),
        )
    }
}

/// `c` can stand after a backslash in a value.
pub open spec fn value_escape(c: u8) -> bool {
    c == 'n' as u8 || c == 't' as u8 || c == '\\' as u8 || c == 'b' as u8 || c == '"' as u8
}

/// The value from `i` on, whose current line began at `start`.
pub open spec fn value_from(s: Seq<u8>, i: int, start: int, in_quotes: bool, partial: bool) -> Parsed
    decreases s.len() - i,
{
    if i >= s.len() || s[i] == '\n' as u8 || (!in_quotes && (s[i] == ';' as u8 || s[i]
        == '#' as u8)) {
        value_finish(s, start, i, in_quotes, partial)
    } else if s[i] == '\\' as u8 {
        if i + 1 >= s.len() {
            Some(
                (
                    seq![EventView::ValueNotDone(s.subrange(start, i)), EventView::ValueDone(seq![])],
                    s.len() as int,
                ),
            )
        } else {
            let next = if s[i + 1] == '\r' as u8 {
                i + 2
            } else {
                i + 1
            };
            if next < s.len() && s[next] == '\n' as u8 {
                match value_from(s, next + 1, next + 1, in_quotes, true) {
                    None => None,
                    Some((rest, j)) => Some(
                        (
                            seq![
                                EventView::ValueNotDone(s.subrange(start, i)),
                                EventView::Newline(s.subrange(i + 1, next + 1)),
                            ] + rest,
                            j,
                        ),
                    ),
                }
            } else if s[i + 1] != '\r' as u8 && value_escape(s[i + 1]) {
                value_from(s, i + 2, start, in_quotes, partial)
            } else {
                None
            }
        }
    } else if s[i] == '"' as u8 {
        value_from(s, i + 1, start, !in_quotes, partial)
    } else {
        value_from(s, i + 1, start, in_quotes, partial)
    }
}

/// The spaces and tabs at `i`, where there are any, before what follows.
pub open spec fn with_spaces(s: Seq<u8>, i: int, rest: Parsed) -> Parsed {
    let e = spaces_end(s, i);
    match rest {
        None => None,
        Some((events, j)) => if e > i {
            Some((seq![EventView::Whitespace(s.subrange(i, e))] + events, j))
        } else {
            Some((events, j))
        },
    }
}

/// What follows the name of a key at `i`.
pub open spec fn assigned_at(s: Seq<u8>, i: int) -> Parsed {
    if i < s.len() && s[i] == '=' as u8 {
        let v = spaces_end(s, i + 1);
        match with_spaces(s, i + 1, value_from(s, v, v, false, false)) {
            None => None,
            Some((events, j)) => Some((seq![EventView::KeyValueSeparator] + events, j)),
        }
    } else {
        Some((seq![EventView::Value(seq![])], i))
    }
}

/// The key and its value at `i`; nothing where no letter stands there.
pub open spec fn pair_at(s: Seq<u8>, i: int) -> Parsed {
    if i >= s.len() || !alphabetic(s[i]) {
        Some((seq![], i))
    } else {
        let e = name_end(s, i);
        match with_spaces(s, e, assigned_at(s, spaces_end(s, e))) {
            None => None,
            Some((events, j)) => Some(
                (seq![EventView::SectionValueName(s.subrange(i, e))] + events, j),
            ),
        }
    }
}

/// The comment at `i`, where there is one.
pub open spec fn comment_at(s: Seq<u8>, i: int) -> Option<(EventView, int)> {
    if i < s.len() && (s[i] == ';' as u8 || s[i] == '#' as u8) {
        let e = pos_of(s, '\n' as u8, i + 1);
        Some((EventView::Comment { tag: s[i], text: s.subrange(i + 1, e) }, e))
    } else {
        None
    }
}

/// The line ends at `i`, where there are any.
pub open spec fn newlines_at(s: Seq<u8>, i: int) -> Seq<EventView> {
    let e = newlines_end(s, i);
    if e > i {
        seq![EventView::Newline(s.subrange(i, e))]
    } else {
        seq![]
    }
}

/// The spaces and tabs at `i`, where there are any.
pub open spec fn spaces_at(s: Seq<u8>, i: int) -> Seq<EventView> {
    let e = spaces_end(s, i);
    if e > i {
        seq![EventView::Whitespace(s.subrange(i, e))]
    } else {
        seq![]
    }
}

/// One line of a section at `i`: spaces, line ends, a key with its value, and a comment, as
/// far as they are there.
pub open spec fn line_at(s: Seq<u8>, i: int) -> Parsed {
    let a = spaces_end(s, i);
    let b = newlines_end(s, a);
    match pair_at(s, b) {
        None => None,
        Some((events, c)) => {
            let head = spaces_at(s, i) + newlines_at(s, a) + events;
            match comment_at(s, c) {
                None => Some((head, c)),
                Some((e, d)) => Some((head.push(e), d)),
            }
        },
    }
}

/// The lines of a section from `i` on.
pub open spec fn lines_from(s: Seq<u8>, i: int) -> Parsed
    decreases s.len() - i,
    when 0 <= i <= s.len()
{
    match line_at(s, i) {
        None => None,
        Some((events, j)) => if j <= i || j > s.len() {
            Some((events, j))
        } else {
            match lines_from(s, j) {
                None => None,
                Some((rest, k)) => Some((events + rest, k)),
            }
        },
    }
}

/// The section at `i`.
pub open spec fn section_at(s: Seq<u8>, i: int) -> Parsed {
    match header_at(s, i) {
        None => None,
        Some((h, j)) => match lines_from(s, j) {
            None => None,
            Some((events, k)) => Some((seq![EventView::SectionHeader(h)] + events, k)),
        },
    }
}

/// The sections from `i` to the end.
pub open spec fn sections_from(s: Seq<u8>, i: int) -> Option<Seq<EventView>>
    decreases s.len() - i,
    when 0 <= i <= s.len()
{
    if i >= s.len() {
        Some(seq![])
    } else {
        match section_at(s, i) {
            None => None,
            Some((events, j)) => if j <= i || j > s.len() {
                None
            } else {
                match sections_from(s, j) {
                    None => None,
                    Some(rest) => Some(events + rest),
                }
            },
        }
    }
}

/// What stands before the first section, one part at a time.
pub open spec fn front_part(s: Seq<u8>, i: int) -> Parsed {
    match comment_at(s, i) {
        Some((e, j)) => Some((seq![e], j)),
        None => if spaces_end(s, i) > i {
            Some((spaces_at(s, i), spaces_end(s, i)))
        } else if newlines_end(s, i) > i {
            Some((newlines_at(s, i), newlines_end(s, i)))
        } else if i < s.len() && s[i] == '[' as u8 {
            Some((seq![], i))
        } else {
            pair_at(s, i)
        },
    }
}

/// What stands before the first section, from `i` on.
pub open spec fn front_from(s: Seq<u8>, i: int) -> Parsed
    decreases s.len() - i,
    when 0 <= i <= s.len()
{
    match front_part(s, i) {
        None => None,
        Some((events, j)) => if j <= i || j > s.len() {
            Some((events, j))
        } else {
            match front_from(s, j) {
                None => None,
                Some((rest, k)) => Some((events + rest, k)),
            }
        },
    }
}

/// The events of a configuration file.
pub open spec fn file_events(input: Seq<u8>) -> Option<Seq<EventView>> {
    let b = bom_len(input);
    match front_from(input, b) {
        None => None,
        Some((front, i)) => match sections_from(input, i) {
            None => None,
            Some(rest) => Some(front + rest),
        },
    }
}

/// The name of a section ends where its characters do.
pub proof fn lemma_section_name_end(s: Seq<u8>, i: int, e: int)
    requires
        0 <= i <= e <= s.len(),
        forall|j: int| i <= j < e ==> section_char(#[trigger] s[j]),
        e < s.len() ==> !section_char(s[e]),
    ensures
        section_name_end(s, i) == e,
    decreases e - i,
{
    if i < e {
        lemma_section_name_end(s, i + 1, e);
    }
}

proof fn lemma_events_push(v: Seq<Event>, e: Event)
    ensures
        events_view(v.push(e)) == events_view(v).push(e@),
{
    assert(events_view(v.push(e)) =~= events_view(v).push(e@));
}

/// Appends an event.
fn dispatch(out: &mut Vec<Event>, e: Event)
    ensures
        events_view(final(out)@) == events_view(old(out)@).push(e@),
{
    proof {
        lemma_events_push(out@, e);
    }
    out.push(e);
}

/// The part of `s` from `i` to before `j`.
fn piece(s: &[u8], i: usize, j: usize) -> (r: Vec<u8>)
    requires
        i <= j <= s@.len(),
    ensures
        r@ == s@.subrange(i as int, j as int),
{
    to_vec(&s[i..j])
}

/// The position after the spaces and tabs at `i`.
fn skip_spaces(s: &[u8], i: usize) -> (r: usize)
    requires
        i <= s@.len(),
    ensures
        r == spaces_end(s@, i as int),
        i <= r <= s@.len(),
{
    let mut j: usize = i;
    while j < s.len() && (s[j] == ' ' as u8 || s[j] == '\t' as u8)
        invariant
            i <= j <= s@.len(),
            spaces_end(s@, i as int) == spaces_end(s@, j as int),
        decreases s@.len() - j,
    {
        j += 1;
    }
    j
}

/// The position after the line ends at `i`.
fn skip_newlines(s: &[u8], i: usize) -> (r: usize)
    requires
        i <= s@.len(),
    ensures
        r == newlines_end(s@, i as int),
        i <= r <= s@.len(),
{
    let mut j: usize = i;
    while j < s.len()
        invariant_except_break
            i <= j <= s@.len(),
            newlines_end(s@, i as int) == newlines_end(s@, j as int),
        ensures
            j == newlines_end(s@, i as int),
            i <= j <= s@.len(),
        decreases s@.len() - j,
    {
        if s[j] == '\r' as u8 && s.len() - j > 1 && s[j + 1] == '\n' as u8 {
            j += 2;
        } else if s[j] == '\n' as u8 {
            j += 1;
        } else {
            break;
        }
    }
    j
}

/// Reads spaces and tabs, where there are any.
fn take_spaces1(s: &[u8], i: usize, out: &mut Vec<Event>) -> (r: usize)
    requires
        i <= s@.len(),
    ensures
        r == spaces_end(s@, i as int),
        i <= r <= s@.len(),
        events_view(final(out)@) == events_view(old(out)@) + spaces_at(s@, i as int),
{
    let e: usize = skip_spaces(s, i);
    if e > i {
        let text = piece(s, i, e);
        dispatch(out, Event::Whitespace(text));
    }
    assert(events_view(out@) =~= events_view(old(out)@) + spaces_at(s@, i as int));
    e
}

/// Reads line ends, where there are any.
fn take_newlines1(s: &[u8], i: usize, out: &mut Vec<Event>) -> (r: usize)
    requires
        i <= s@.len(),
    ensures
        r == newlines_end(s@, i as int),
        i <= r <= s@.len(),
        events_view(final(out)@) == events_view(old(out)@) + newlines_at(s@, i as int),
{
    let e: usize = skip_newlines(s, i);
    if e > i {
        let text = piece(s, i, e);
        dispatch(out, Event::Newline(text));
    }
    assert(events_view(out@) =~= events_view(old(out)@) + newlines_at(s@, i as int));
    e
}

/// Reads a comment, where there is one.
fn comment(s: &[u8], i: usize, out: &mut Vec<Event>) -> (r: Option<usize>)
    requires
        i <= s@.len(),
    ensures
        match comment_at(s@, i as int) {
            None => r is None && events_view(final(out)@) == events_view(old(out)@),
            Some((e, j)) => (r matches Some(n) && n == j) && i < j <= s@.len() && events_view(
                final(out)@,
            ) == events_view(old(out)@).push(e),
        },
{
    if i < s.len() && (s[i] == ';' as u8 || s[i] == '#' as u8) {
        let rest: &[u8] = &s[i + 1..s.len()];
        let mut e: usize = i + 1;
        while e < s.len() && s[e] != '\n' as u8
            invariant
                i + 1 <= e <= s@.len(),
                pos_of(s@, '\n' as u8, i + 1) == pos_of(s@, '\n' as u8, e as int),
            decreases s@.len() - e,
        {
            e += 1;
        }
        let text = piece(s, i + 1, e);
        dispatch(out, Event::Comment { tag: s[i], text });
        Some(e)
    } else {
        None
    }
}

/// Reads a quoted subsection up to its closing mark.
fn quoted_sub_section(s: &[u8], start: usize) -> (r: Option<(Vec<u8>, usize)>)
    requires
        start <= s@.len(),
    ensures
        r is None <==> quoted(s@, start as int) is None,
        r matches Some(x) ==> quoted(s@, start as int) == Some((x.0@, x.1 as int)) && start <= x.1
            <= s@.len(),
{
    let mut out: Vec<u8> = Vec::new();
    let mut i: usize = start;
    let ghost goal = quoted(s@, start as int);
    assert(goal matches Some(g) ==> seq![] + g.0 =~= g.0);
    while i < s.len() && s[i] != '"' as u8
        invariant
            start <= i <= s@.len(),
            goal == quoted(s@, start as int),
            goal is Some <==> quoted(s@, i as int) is Some,
            goal matches Some(g) ==> g.0 == out@ + (quoted(s@, i as int)->0).0 && g.1 == (quoted(
                s@,
                i as int,
            )->0).1,
        decreases s@.len() - i,
    {
        let ghost before = out@;
        if s[i] == '\n' as u8 {
            return None;
        }
        if s[i] == '\\' as u8 {
            if s.len() - i < 2 || s[i + 1] == '\n' as u8 {
                return None;
            }
            out.push(s[i + 1]);
            proof {
                if let Some(g) = quoted(s@, i + 2) {
                    assert(before + (seq![s@[i + 1]] + g.0) =~= out@ + g.0);
                }
            }
            i += 2;
        } else {
            out.push(s[i]);
            proof {
                if let Some(g) = quoted(s@, i + 1) {
                    assert(before + (seq![s@[i as int]] + g.0) =~= out@ + g.0);
                }
            }
            i += 1;
        }
    }
    assert(out@ + seq![] =~= out@);
    Some((out, i))
}

/// Reads the header of a section.
pub fn section_header(s: &[u8], i: usize) -> (r: Option<(SectionHeader, usize)>)
    requires
        i <= s@.len(),
    ensures
        r is None <==> header_at(s@, i as int) is None,
        r matches Some(x) ==> header_at(s@, i as int) == Some((x.0@, x.1 as int)) && i < x.1
            <= s@.len(),
{
    if i >= s.len() || s[i] != '[' as u8 {
        return None;
    }
    let mut e: usize = i + 1;
    while e < s.len() && (is_alphanumeric(s[e]) || s[e] == '-' as u8 || s[e] == '.' as u8)
        invariant
            i + 1 <= e <= s@.len(),
            section_name_end(s@, i + 1) == section_name_end(s@, e as int),
        decreases s@.len() - e,
    {
        e += 1;
    }
    let name: &[u8] = &s[i + 1..e];
    if e < s.len() && s[e] == ']' as u8 {
        if name.len() == 0 {
            return None;
        }
        proof {
            lemma_pos_of(name@, '.' as u8, 0);
        }
        return match crate::bytes::find_byte(name, '.' as u8) {
            Some(dot) => {
                let h = SectionHeader {
                    name: piece(name, 0, dot),
                    separator: Some(piece(name, dot, dot + 1)),
                    subsection_name: Some(piece(name, dot + 1, name.len())),
                };
                Some((h, e + 1))
            },
            None => {
                let h = SectionHeader {
                    name: to_vec(name),
                    separator: None,
                    subsection_name: None,
                };
                Some((h, e + 1))
            },
        };
    }
    let q: usize = skip_spaces(s, e);
    if q == e || q >= s.len() || s[q] != '"' as u8 {
        return None;
    }
    match quoted_sub_section(s, q + 1) {
        None => None,
        Some((sub, j)) => {
            if s.len() - j >= 2 && s[j] == '"' as u8 && s[j + 1] == ']' as u8 {
                let h = SectionHeader {
                    name: to_vec(name),
                    separator: Some(piece(s, e, q)),
                    subsection_name: Some(sub),
                };
                Some((h, j + 2))
            } else {
                None
            }
        },
    }
}

/// The position after the last byte from `start` to before `end` that is no white space.
fn trim_end(s: &[u8], start: usize, end: usize) -> (r: usize)
    requires
        start <= end <= s@.len(),
    ensures
        r == trimmed_end(s@, start as int, end as int),
        start <= r <= end,
{
    let mut e: usize = end;
    while e > start && is_whitespace(s[e - 1])
        invariant
            start <= e <= end <= s@.len(),
            trimmed_end(s@, start as int, end as int) == trimmed_end(s@, start as int, e as int),
        decreases e - start,
    {
        e -= 1;
    }
    e
}

/// `r` and the events appended to `before` to give `after` are what `p` says.
pub open spec fn parsed_is(
    r: Option<usize>,
    before: Seq<EventView>,
    after: Seq<EventView>,
    p: Parsed,
) -> bool {
    match p {
        None => r is None,
        Some((events, j)) => r matches Some(n) && n == j && after == before + events,
    }
}

/// Reads the value at `i`.
pub fn value(s: &[u8], i: usize, out: &mut Vec<Event>) -> (r: Option<usize>)
    requires
        i <= s@.len(),
    ensures
        parsed_is(
            r,
            events_view(old(out)@),
            events_view(final(out)@),
            value_from(s@, i as int, i as int, false, false),
        ),
        r matches Some(j) ==> i <= j <= s@.len(),
{
    let ghost goal = value_from(s@, i as int, i as int, false, false);
    let ghost before = events_view(out@);
    let ghost mut sent: Seq<EventView> = seq![];
    let mut cursor: usize = i;
    let mut start: usize = i;
    let mut in_quotes = false;
    let mut partial = false;
    assert(goal matches Some(g) ==> sent + g.0 =~= g.0);
    assert(events_view(out@) =~= before + sent);
    while cursor < s.len() && s[cursor] != '\n' as u8 && (in_quotes || (s[cursor] != ';' as u8
        && s[cursor] != '#' as u8))
        invariant
            before == events_view(old(out)@),
            goal == value_from(s@, i as int, i as int, false, false),
            i <= start <= cursor <= s@.len(),
            events_view(out@) == before + sent,
            goal is Some <==> value_from(s@, cursor as int, start as int, in_quotes, partial)
                is Some,
            goal matches Some(g) ==> g.0 == sent + (value_from(
                s@,
                cursor as int,
                start as int,
                in_quotes,
                partial,
            )->0).0 && g.1 == (value_from(s@, cursor as int, start as int, in_quotes, partial)->0).1,
        decreases s@.len() - cursor,
    {
        if s[cursor] == '\\' as u8 {
            if s.len() - cursor < 2 {
                let text = piece(s, start, cursor);
                dispatch(out, Event::ValueNotDone(text));
                let empty: Vec<u8> = Vec::new();
                dispatch(out, Event::ValueDone(empty));
                proof {
                    assert(empty@ =~= seq![]);
                    assert(events_view(out@) =~= before + (sent + seq![
                        EventView::ValueNotDone(s@.subrange(start as int, cursor as int)),
                        EventView::ValueDone(seq![]),
                    ]));
                }
                return Some(s.len());
            }
            let next: usize = if s[cursor + 1] == '\r' as u8 {
                cursor + 2
            } else {
                cursor + 1
            };
            if next < s.len() && s[next] == '\n' as u8 {
                let text = piece(s, start, cursor);
                dispatch(out, Event::ValueNotDone(text));
                let nl = piece(s, cursor + 1, next + 1);
                dispatch(out, Event::Newline(nl));
                proof {
                    let two = seq![
                        EventView::ValueNotDone(s@.subrange(start as int, cursor as int)),
                        EventView::Newline(s@.subrange(cursor + 1, next + 1)),
                    ];
                    assert(events_view(out@) =~= before + (sent + two));
                    if let Some(g) = value_from(s@, next + 1, next + 1, in_quotes, true) {
                        assert(sent + (two + g.0) =~= (sent + two) + g.0);
                    }
                    sent = sent + two;
                }
                partial = true;
                cursor = next + 1;
                start = cursor;
            } else {
                let c: u8 = s[cursor + 1];
                if c == 'n' as u8 || c == 't' as u8 || c == '\\' as u8 || c == 'b' as u8 || c
                    == '"' as u8 {
                    cursor += 2;
                } else {
                    return None;
                }
            }
        } else if s[cursor] == '"' as u8 {
            in_quotes = !in_quotes;
            cursor += 1;
        } else {
            cursor += 1;
        }
    }
    if in_quotes {
        return None;
    }
    if cursor == start {
        let empty: Vec<u8> = Vec::new();
        assert(empty@ =~= seq![]);
        dispatch(out, Event::Value(empty));
        assert(events_view(out@) =~= before + (sent + seq![EventView::Value(seq![])]));
        return Some(cursor);
    }
    let e: usize = trim_end(s, start, cursor);
    let text = piece(s, start, e);
    let ghost last = if partial {
        EventView::ValueDone(text@)
    } else {
        EventView::Value(text@)
    };
    if partial {
        dispatch(out, Event::ValueDone(text));
    } else {
        dispatch(out, Event::Value(text));
    }
    assert(events_view(out@) =~= before + (sent + seq![last]));
    Some(e)
}

/// Reads what follows the name of a key.
fn config_value(s: &[u8], i: usize, out: &mut Vec<Event>) -> (r: Option<usize>)
    requires
        i <= s@.len(),
    ensures
        parsed_is(
            r,
            events_view(old(out)@),
            events_view(final(out)@),
            assigned_at(s@, i as int),
        ),
        r matches Some(j) ==> i <= j <= s@.len(),
{
    let ghost before = events_view(out@);
    if i < s.len() && s[i] == '=' as u8 {
        dispatch(out, Event::KeyValueSeparator);
        let v: usize = take_spaces1(s, i + 1, out);
        let ghost mid = events_view(out@);
        let r = value(s, v, out);
        proof {
            if let Some((events, j)) = value_from(s@, v as int, v as int, false, false) {
                let all = (assigned_at(s@, i as int)->0).0;
                assert(before.push(EventView::KeyValueSeparator) + spaces_at(s@, i + 1) + events
                    =~= before + all);
            }
        }
        r
    } else {
        let empty: Vec<u8> = Vec::new();
        assert(empty@ =~= seq![]);
        dispatch(out, Event::Value(empty));
        assert(events_view(out@) =~= before + seq![EventView::Value(seq![])]);
        Some(i)
    }
}

/// Reads a key and its value, where a letter stands at `i`.
fn key_value_pair(s: &[u8], i: usize, out: &mut Vec<Event>) -> (r: Option<usize>)
    requires
        i <= s@.len(),
    ensures
        parsed_is(r, events_view(old(out)@), events_view(final(out)@), pair_at(s@, i as int)),
        r matches Some(j) ==> i <= j <= s@.len(),
{
    let ghost before = events_view(out@);
    if i >= s.len() || !is_alphabetic(s[i]) {
        assert(before + seq![] =~= before);
        return Some(i);
    }
    let mut e: usize = i;
    while e < s.len() && (is_alphanumeric(s[e]) || s[e] == '-' as u8)
        invariant
            i <= e <= s@.len(),
            name_end(s@, i as int) == name_end(s@, e as int),
        decreases s@.len() - e,
    {
        e += 1;
    }
    let name = piece(s, i, e);
    let ghost name_event = EventView::SectionValueName(name@);
    dispatch(out, Event::SectionValueName(name));
    let v: usize = take_spaces1(s, e, out);
    let r = config_value(s, v, out);
    proof {
        if let Some((events, j)) = assigned_at(s@, v as int) {
            let all = (pair_at(s@, i as int)->0).0;
            assert(before.push(name_event) + spaces_at(s@, e as int) + events =~= before + all);
        }
    }
    r
}

/// Reads one line of a section.
fn section_line(s: &[u8], i: usize, out: &mut Vec<Event>) -> (r: Option<usize>)
    requires
        i <= s@.len(),
    ensures
        parsed_is(r, events_view(old(out)@), events_view(final(out)@), line_at(s@, i as int)),
        r matches Some(j) ==> i <= j <= s@.len(),
{
    let ghost before = events_view(out@);
    let a: usize = take_spaces1(s, i, out);
    let b: usize = take_newlines1(s, a, out);
    match key_value_pair(s, b, out) {
        None => None,
        Some(c) => {
            proof {
                let pair = (pair_at(s@, b as int)->0).0;
                assert(events_view(out@) =~= before + (spaces_at(s@, i as int) + newlines_at(
                    s@,
                    a as int,
                ) + pair));
            }
            let ghost head = events_view(out@);
            match comment(s, c, out) {
                None => Some(c),
                Some(d) => {
                    proof {
                        let all = (line_at(s@, i as int)->0).0;
                        assert(events_view(out@) =~= before + all);
                    }
                    Some(d)
                },
            }
        },
    }
}

/// Reads a section.
fn section(s: &[u8], i: usize, out: &mut Vec<Event>) -> (r: Option<usize>)
    requires
        i <= s@.len(),
    ensures
        parsed_is(r, events_view(old(out)@), events_view(final(out)@), section_at(s@, i as int)),
        r matches Some(j) ==> i < j <= s@.len(),
{
    let ghost before = events_view(out@);
    let (header, start) = match section_header(s, i) {
        None => {
            return None;
        },
        Some(x) => x,
    };
    let ghost head = EventView::SectionHeader(header@);
    dispatch(out, Event::SectionHeader(header));
    let ghost goal = lines_from(s@, start as int);
    let ghost mut sent: Seq<EventView> = seq![];
    let mut pos: usize = start;
    assert(events_view(out@) =~= before + (seq![head] + sent));
    assert(goal matches Some(g) ==> sent + g.0 =~= g.0);
    loop
        invariant
            before == events_view(old(out)@),
            header_at(s@, i as int) is Some,
            head == EventView::SectionHeader((header_at(s@, i as int)->0).0),
            start == (header_at(s@, i as int)->0).1,
            i < start <= pos <= s@.len(),
            events_view(out@) == before + (seq![head] + sent),
            goal == lines_from(s@, start as int),
            goal is Some <==> lines_from(s@, pos as int) is Some,
            goal matches Some(g) ==> g.0 == sent + (lines_from(s@, pos as int)->0).0 && g.1 == (
            lines_from(s@, pos as int)->0).1,
        decreases s@.len() - pos,
    {
        let ghost events = (line_at(s@, pos as int)->0).0;
        match section_line(s, pos, out) {
            None => {
                return None;
            },
            Some(j) => {
                proof {
                    assert(events_view(out@) =~= before + (seq![head] + (sent + events)));
                    if j > pos {
                        if let Some(g) = lines_from(s@, j as int) {
                            assert(sent + (events + g.0) =~= (sent + events) + g.0);
                        }
                    }
                    sent = sent + events;
                }
                if j == pos {
                    return Some(j);
                }
                pos = j;
            },
        }
    }
}

/// Reads what stands before the first section, one part.
fn front_matter_part(s: &[u8], i: usize, out: &mut Vec<Event>) -> (r: Option<usize>)
    requires
        i <= s@.len(),
    ensures
        parsed_is(r, events_view(old(out)@), events_view(final(out)@), front_part(s@, i as int)),
        r matches Some(j) ==> i <= j <= s@.len(),
{
    let ghost before = events_view(out@);
    if let Some(j) = comment(s, i, out) {
        proof {
            let e = (comment_at(s@, i as int)->0).0;
            assert(before.push(e) =~= before + seq![e]);
        }
        return Some(j);
    }
    let a: usize = take_spaces1(s, i, out);
    if a > i {
        return Some(a);
    }
    assert(before + seq![] =~= before);
    let b: usize = take_newlines1(s, i, out);
    if b > i {
        return Some(b);
    }
    if i < s.len() && s[i] == '[' as u8 {
        return Some(i);
    }
    key_value_pair(s, i, out)
}

/// Reads a configuration file: appends its events to `out`.
pub fn parse_from_bytes(input: &[u8], out: &mut Vec<Event>) -> (r: Result<(), GitError>)
    ensures
        r is Ok <==> file_events(input@) is Some,
        r is Ok ==> events_view(final(out)@) == events_view(old(out)@) + file_events(input@)->0,
        r matches Err(e) ==> e is Gen,
{
    let start: usize = bom_length(input);
    let ghost before = events_view(out@);
    let ghost front = front_from(input@, start as int);
    let ghost mut sent: Seq<EventView> = seq![];
    let mut pos: usize = start;
    assert(before + sent =~= before);
    assert(front matches Some(g) ==> sent + g.0 =~= g.0);
    loop
        invariant_except_break
            before == events_view(old(out)@),
            start == bom_len(input@),
            start <= pos <= input@.len(),
            events_view(out@) == before + sent,
            front == front_from(input@, start as int),
            front is Some <==> front_from(input@, pos as int) is Some,
            front matches Some(g) ==> g.0 == sent + (front_from(input@, pos as int)->0).0 && g.1
                == (front_from(input@, pos as int)->0).1,
        ensures
            before == events_view(old(out)@),
            start == bom_len(input@),
            start <= pos <= input@.len(),
            front == front_from(input@, start as int),
            front matches Some(g) && events_view(out@) == before + g.0 && g.1 == pos,
        decreases input@.len() - pos,
    {
        let ghost events = (front_part(input@, pos as int)->0).0;
        match front_matter_part(input, pos, out) {
            None => {
                return Err(GitError::Gen);
            },
            Some(j) => {
                proof {
                    assert(events_view(out@) =~= before + (sent + events));
                    if j > pos {
                        if let Some(g) = front_from(input@, j as int) {
                            assert(sent + (events + g.0) =~= (sent + events) + g.0);
                        }
                    }
                    sent = sent + events;
                }
                if j == pos {
                    break;
                }
                pos = j;
            },
        }
    }
    let ghost head = (front->0).0;
    let ghost first = pos as int;
    let ghost goal = sections_from(input@, first);
    let ghost mut read: Seq<EventView> = seq![];
    assert(head + read =~= head);
    assert(goal matches Some(g) ==> read + g =~= g);
    while pos < input.len()
        invariant
            before == events_view(old(out)@),
            start == bom_len(input@),
            front == front_from(input@, start as int),
            front matches Some(g) && g.0 == head && g.1 == first,
            goal == sections_from(input@, first),
            0 <= pos <= input@.len(),
            events_view(out@) == before + (head + read),
            goal is Some <==> sections_from(input@, pos as int) is Some,
            goal matches Some(g) ==> g == read + sections_from(input@, pos as int)->0,
        decreases input@.len() - pos,
    {
        let ghost events = (section_at(input@, pos as int)->0).0;
        match section(input, pos, out) {
            None => {
                return Err(GitError::Gen);
            },
            Some(j) => {
                proof {
                    assert(events_view(out@) =~= before + (head + (read + events)));
                    if let Some(g) = sections_from(input@, j as int) {
                        assert(read + (events + g) =~= (read + events) + g);
                    }
                    read = read + events;
                }
                pos = j;
            },
        }
    }
    assert(read + seq![] =~= read);
    Ok(())
}

/// A section: its header and what follows it.
#[derive(Debug)]
pub struct ConfigSection {
    pub header: SectionHeader,
    pub events: Vec<Event>,
}

/// The events of the sections, each after its header.
pub open spec fn sections_flat(sections: Seq<ConfigSection>) -> Seq<EventView>
    decreases sections.len(),
{
    if sections.len() == 0 {
        seq![]
    } else {
        sections_flat(sections.drop_last()) + (seq![
            EventView::SectionHeader(sections.last().header@),
        ] + events_view(sections.last().events@))
    }
}

/// None of the events is the header of a section.
pub open spec fn no_header(events: Seq<EventView>) -> bool {
    forall|i: int| 0 <= i < events.len() ==> !(#[trigger] events[i] is SectionHeader)
}

/// A configuration file: what stands before the first section, and the sections.
#[derive(Debug)]
pub struct Events {
    pub frontmatter: Vec<Event>,
    pub sections: Vec<ConfigSection>,
}

impl Events {
    /// The events are those of the file, each in its section.
    pub open spec fn are(self, events: Seq<EventView>) -> bool {
        &&& events_view(self.frontmatter@) + sections_flat(self.sections@) == events
        &&& no_header(events_view(self.frontmatter@))
        &&& forall|i: int|
            0 <= i < self.sections@.len() ==> no_header(
                events_view((#[trigger] self.sections@[i]).events@),
            )
    }

    /// Reads a configuration file.
    pub fn from_bytes(input: &[u8]) -> (r: Result<Events, GitError>)
        ensures
            r is Ok <==> file_events(input@) is Some,
            r matches Ok(e) ==> e.are(file_events(input@)->0),
            r matches Err(e) ==> e is Gen,
    {
        let mut all: Vec<Event> = Vec::new();
        assert(events_view(all@) =~= seq![]);
        match parse_from_bytes(input, &mut all) {
            Ok(_) => {},
            Err(e) => {
                return Err(e);
            },
        }
        assert(events_view(all@) =~= file_events(input@)->0);
        Ok(group_by_section(all))
    }
}

/// Puts each event in its section.
fn group_by_section(all: Vec<Event>) -> (r: Events)
    ensures
        r.are(events_view(all@)),
{
    let ghost views = events_view(all@);
    let mut header: Option<SectionHeader> = None;
    let mut events: Vec<Event> = Vec::new();
    let mut frontmatter: Vec<Event> = Vec::new();
    let mut sections: Vec<ConfigSection> = Vec::new();
    let ghost mut done: Seq<EventView> = seq![];
    assert(views.take(0) =~= seq![]);
    assert(events_view(events@) =~= seq![]);
    for e in it: all
        invariant
            it.seq() == all@,
            views == events_view(all@),
            no_header(events_view(events@)),
            no_header(events_view(frontmatter@)),
            forall|i: int|
                0 <= i < sections@.len() ==> no_header(
                    events_view((#[trigger] sections@[i]).events@),
                ),
            header is None ==> frontmatter@.len() == 0 && sections@.len() == 0,
            header matches None ==> views.take(it.index()) == events_view(events@),
            header matches Some(h) ==> views.take(it.index()) == events_view(frontmatter@)
                + sections_flat(sections@) + (seq![EventView::SectionHeader(h@)] + events_view(
                events@,
            )),
    {
        let ghost k = it.index();
        assert(views.take(k + 1) =~= views.take(k).push(views[k]));
        assert(views[k] == e@);
        match e {
            Event::SectionHeader(next) => {
                let mut taken: Vec<Event> = Vec::new();
                std::mem::swap(&mut taken, &mut events);
                assert(events_view(events@) =~= seq![]);
                match header {
                    None => {
                        assert(sections_flat(sections@) =~= seq![]);
                        frontmatter = taken;
                        assert(views.take(k + 1) =~= events_view(frontmatter@) + sections_flat(
                            sections@,
                        ) + (seq![EventView::SectionHeader(next@)] + events_view(events@)));
                    },
                    Some(prev) => {
                        let ghost before = sections@;
                        sections.push(ConfigSection { header: prev, events: taken });
                        proof {
                            assert(sections@.drop_last() =~= before);
                            assert(views.take(k + 1) =~= events_view(frontmatter@)
                                + sections_flat(sections@) + (seq![EventView::SectionHeader(next@)]
                                + events_view(events@)));
                        }
                    },
                }
                header = Some(next);
            },
            other => {
                let ghost before = events@;
                proof {
                    lemma_events_push(before, other);
                }
                events.push(other);
                proof {
                    if header is Some {
                        assert(views.take(k + 1) =~= events_view(frontmatter@) + sections_flat(
                            sections@,
                        ) + (seq![EventView::SectionHeader(header->0@)] + events_view(events@)));
                    }
                }
            },
        }
    }
    assert(views.take(all@.len() as int) =~= views);
    match header {
        None => {
            frontmatter = events;
            assert(sections_flat(sections@) =~= seq![]);
            assert(events_view(frontmatter@) + seq![] =~= events_view(frontmatter@));
        },
        Some(prev) => {
            let ghost before = sections@;
            sections.push(ConfigSection { header: prev, events });
            proof {
                assert(sections@.drop_last() =~= before);
                assert(views =~= events_view(frontmatter@) + sections_flat(sections@));
            }
        },
    }
    Events { frontmatter, sections }
}

/// The same string once more.
fn copy_opt(v: &Option<Vec<u8>>) -> (r: Option<Vec<u8>>)
    ensures
        opt_view(r) == opt_view(*v),
{
    match v {
        Some(s) => Some(to_vec(s.as_slice())),
        None => None,
    }
}

impl SectionHeader {
    /// The same header once more.
    pub fn copy(&self) -> (r: SectionHeader)
        ensures
            r@ == self@,
    {
        SectionHeader {
            name: to_vec(self.name.as_slice()),
            separator: copy_opt(&self.separator),
            subsection_name: copy_opt(&self.subsection_name),
        }
    }
}

impl Event {
    /// The same event once more.
    pub fn copy(&self) -> (r: Event)
        ensures
            r@ == self@,
    {
        match self {
            Event::Comment { tag, text } => Event::Comment { tag: *tag, text: to_vec(text.as_slice()) },
            Event::SectionHeader(h) => Event::SectionHeader(h.copy()),
            Event::SectionValueName(s) => Event::SectionValueName(to_vec(s.as_slice())),
            Event::Value(s) => Event::Value(to_vec(s.as_slice())),
            Event::Newline(s) => Event::Newline(to_vec(s.as_slice())),
            Event::ValueNotDone(s) => Event::ValueNotDone(to_vec(s.as_slice())),
            Event::ValueDone(s) => Event::ValueDone(to_vec(s.as_slice())),
            Event::Whitespace(s) => Event::Whitespace(to_vec(s.as_slice())),
            Event::KeyValueSeparator => Event::KeyValueSeparator,
        }
    }
}

/// The same events once more.
pub fn copy_events(events: &Vec<Event>) -> (r: Vec<Event>)
    ensures
        events_view(r@) == events_view(events@),
{
    let ghost all = events_view(events@);
    let mut out: Vec<Event> = Vec::new();
    let mut i: usize = 0;
    assert(events_view(out@) =~= all.take(0));
    while i < events.len()
        invariant
            i <= events@.len(),
            all == events_view(events@),
            events_view(out@) == all.take(i as int),
        decreases events@.len() - i,
    {
        let ghost before = events_view(out@);
        out.push(events[i].copy());
        assert(events_view(out@) =~= before.push(events@[i as int]@));
        assert(all.take(i + 1) =~= all.take(i as int).push(all[i as int]));
        i += 1;
    }
    assert(all.take(all.len() as int) =~= all);
    out
}

/// Where the last header stands, or -1.
pub open spec fn last_header(events: Seq<EventView>) -> int
    decreases events.len(),
{
    if events.len() == 0 {
        -1
    } else if events.last() is SectionHeader {
        events.len() - 1
    } else {
        last_header(events.drop_last())
    }
}

pub proof fn lemma_last_header(events: Seq<EventView>)
    ensures
        -1 <= last_header(events) < events.len(),
        last_header(events) >= 0 ==> events[last_header(events)] is SectionHeader,
        forall|i: int| last_header(events) < i < events.len() ==> !(#[trigger] events[i] is SectionHeader),
    decreases events.len(),
{
    if events.len() > 0 && !(events.last() is SectionHeader) {
        lemma_last_header(events.drop_last());
        assert forall|i: int| last_header(events) < i < events.len() implies !(
        #[trigger] events[i] is SectionHeader) by {
            if i < events.len() - 1 {
                assert(events.drop_last()[i] == events[i]);
            }
        }
    }
}

/// What stands before the first section.
pub open spec fn front_of(events: Seq<EventView>) -> Seq<EventView>
    decreases events.len(),
{
    let h = last_header(events);
    if h < 0 || h >= events.len() {
        events
    } else {
        front_of(events.take(h))
    }
}

/// The sections, each with its header and what follows it.
pub open spec fn parts_of(events: Seq<EventView>) -> Seq<(SectionHeaderView, Seq<EventView>)>
    decreases events.len(),
{
    let h = last_header(events);
    if h < 0 || h >= events.len() {
        Seq::empty()
    } else {
        parts_of(events.take(h)).push((events[h]->SectionHeader_0, events.skip(h + 1)))
    }
}

/// A file has one way only to be put into sections.
pub proof fn lemma_parts(events: Seq<EventView>, front: Seq<EventView>, sections: Seq<ConfigSection>)
    requires
        events == front + sections_flat(sections),
        no_header(front),
        forall|i: int| 0 <= i < sections.len() ==> no_header(events_view((#[trigger] sections[i]).events@)),
    ensures
        front_of(events) == front,
        parts_of(events).len() == sections.len(),
        forall|i: int|
            0 <= i < sections.len() ==> #[trigger] parts_of(events)[i] == (
                sections[i].header@,
                events_view(sections[i].events@),
            ),
    decreases sections.len(),
{
    lemma_last_header(events);
    let h = last_header(events);
    if sections.len() == 0 {
        assert(events =~= front);
        if h >= 0 {
            assert(front[h] is SectionHeader);
        }
    } else {
        let s = sections.last();
        let body = events_view(s.events@);
        let rest = front + sections_flat(sections.drop_last());
        let k = rest.len() as int;
        assert(events =~= rest + (seq![EventView::SectionHeader(s.header@)] + body));
        assert(events[k] == EventView::SectionHeader(s.header@));
        assert(h >= k);
        if h > k {
            assert(events[h] == body[h - k - 1]);
            assert(no_header(events_view(sections[sections.len() - 1].events@)));
        }
        assert(events.take(k) =~= rest);
        assert(events.skip(k + 1) =~= body);
        assert forall|i: int| 0 <= i < sections.drop_last().len() implies no_header(
            events_view((#[trigger] sections.drop_last()[i]).events@),
        ) by {
            assert(sections[i] == sections.drop_last()[i]);
        }
        lemma_parts(rest, front, sections.drop_last());
        assert forall|i: int| 0 <= i < sections.len() implies #[trigger] parts_of(events)[i] == (
            sections[i].header@,
            events_view(sections[i].events@),
        ) by {
            if i < sections.len() - 1 {
                assert(parts_of(rest)[i] == parts_of(events)[i]);
                assert(sections[i] == sections.drop_last()[i]);
            }
        }
    }
}

} // verus!
