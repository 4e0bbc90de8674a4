//! The events of a section: finding the values of its keys.
use crate::ascii::{eq_ignore_case, is_whitespace, lowered, whitespace};
use crate::bytes::{contains_byte, from, push_all, stands_at, to_vec};
use crate::git::config::parse::{events_view, Event, EventView};
use crate::git::config::value::{escape_value, escaped_value, normalize, normalized};
use vstd::prelude::*;

verus! {

/// What is found of a key: where it stands, and where its value begins and ends.
pub struct KeyRange {
    pub key: int,
    pub start: int,
    pub end: int,
}

/// Looks for the key `name` backwards from before `i`, where the value that was seen begins
/// at `start` and ends at `end`.
pub open spec fn key_range_back(
    events: Seq<EventView>,
    name: Seq<u8>,
    i: int,
    start: int,
    end: int,
) -> Option<KeyRange>
    decreases i,
{
    if i <= 0 {
        None
    } else {
        let k = i - 1;
        match events[k] {
            EventView::SectionValueName(n) => if lowered(n) == lowered(name) {
                Some(KeyRange { key: k, start, end })
            } else {
                key_range_back(events, name, k, 0, 0)
            },
            EventView::Value(_) => key_range_back(events, name, k, k, k),
            EventView::ValueNotDone(_) => if end == 0 {
                key_range_back(events, name, k, start, k)
            } else {
                key_range_back(events, name, k, k, end)
            },
            EventView::ValueDone(_) => if end == 0 {
                key_range_back(events, name, k, start, k)
            } else {
                key_range_back(events, name, k, k, end)
            },
            _ => key_range_back(events, name, k, start, end),
        }
    }
}

/// The value that the events from `i` to before `end` write, after the part `done`.
pub open spec fn value_in(events: Seq<EventView>, i: int, end: int, done: Seq<u8>) -> Option<
    Seq<u8>,
>
    decreases end - i,
{
    if i >= end {
        None
    } else {
        match events[i] {
            EventView::Value(v) => Some(normalized(v)),
            EventView::ValueNotDone(v) => value_in(events, i + 1, end, done + v),
            EventView::ValueDone(v) => Some(normalized(done + v)),
            _ => value_in(events, i + 1, end, done),
        }
    }
}

/// The value of the last key `name`: `None` where there is no such key, `Some(None)` where
/// nothing is assigned to it.
pub open spec fn implicit_value(events: Seq<EventView>, name: Seq<u8>) -> Option<Option<Seq<u8>>> {
    match key_range_back(events, name, events.len() as int, 0, 0) {
        None => None,
        Some(r) => if r.start == r.key + 1 {
            Some(None)
        } else {
            match value_in(events, r.start, r.end + 1, seq![]) {
                None => None,
                Some(v) => Some(Some(v)),
            }
        },
    }
}

/// The value of the last key `name`.
pub open spec fn body_value(events: Seq<EventView>, name: Seq<u8>) -> Option<Seq<u8>> {
    match implicit_value(events, name) {
        Some(Some(v)) => Some(v),
        _ => None,
    }
}

/// The values of all keys `name` from `i` on, where `expect` says that the value of one is to
/// come and `done` is the part of it that was read.
pub open spec fn values_from(
    events: Seq<EventView>,
    name: Seq<u8>,
    i: int,
    expect: bool,
    done: Seq<u8>,
) -> Seq<Seq<u8>>
    decreases events.len() - i,
{
    if i >= events.len() {
        seq![]
    } else {
        match events[i] {
            EventView::SectionValueName(n) => values_from(
                events,
                name,
                i + 1,
                expect || lowered(n) == lowered(name),
                done,
            ),
            EventView::Value(v) => if expect {
                seq![normalized(v)] + values_from(events, name, i + 1, false, done)
            } else {
                values_from(events, name, i + 1, expect, done)
            },
            EventView::ValueNotDone(v) => values_from(
                events,
                name,
                i + 1,
                expect,
                if expect {
                    done + v
                } else {
                    done
                },
            ),
            EventView::ValueDone(v) => if expect {
                seq![normalized(done + v)] + values_from(events, name, i + 1, false, seq![])
            } else {
                values_from(events, name, i + 1, expect, done)
            },
            _ => values_from(events, name, i + 1, expect, done),
        }
    }
}

/// The values of all keys `name`.
pub open spec fn body_values(events: Seq<EventView>, name: Seq<u8>) -> Seq<Seq<u8>> {
    values_from(events, name, 0, false, seq![])
}

/// The bytes of several strings.
pub open spec fn strings(v: Seq<Vec<u8>>) -> Seq<Seq<u8>> {
    v.map_values(|s: Vec<u8>| s@)
}

/// Where the last key `name` stands, and where its value begins and ends.
fn hx_key_and_value_range_by(events: &Vec<Event>, name: &[u8]) -> (r: Option<(usize, usize, usize)>)
    ensures
        match key_range_back(events_view(events@), name@, events@.len() as int, 0, 0) {
            None => r is None,
            Some(k) => r == Some((k.key as usize, k.start as usize, k.end as usize)) && 0 <= k.key
                < events@.len() && 0 <= k.start < events@.len() && 0 <= k.end < events@.len(),
        },
{
    let ghost views = events_view(events@);
    let mut start: usize = 0;
    let mut end: usize = 0;
    let mut i: usize = events.len();
    while i > 0
        invariant
            i <= events@.len(),
            views == events_view(events@),
            events@.len() > 0 ==> start < events@.len() && end < events@.len(),
            start == 0 || start < events@.len(),
            end == 0 || end < events@.len(),
            key_range_back(views, name@, events@.len() as int, 0, 0) == key_range_back(
                views,
                name@,
                i as int,
                start as int,
                end as int,
            ),
        decreases i,
    {
        i -= 1;
        assert(views[i as int] == events@[i as int]@);
        match &events[i] {
            Event::SectionValueName(k) => {
                if eq_ignore_case(k.as_slice(), name) {
                    return Some((i, start, end));
                }
                start = 0;
                end = 0;
            },
            Event::Value(_) => {
                start = i;
                end = i;
            },
            Event::ValueNotDone(_) => {
                if end == 0 {
                    end = i;
                } else {
                    start = i;
                }
            },
            Event::ValueDone(_) => {
                if end == 0 {
                    end = i;
                } else {
                    start = i;
                }
            },
            _ => {},
        }
    }
    None
}

/// The value of an optional string.
pub open spec fn opt_opt_view(v: Option<Option<Vec<u8>>>) -> Option<Option<Seq<u8>>> {
    match v {
        None => None,
        Some(None) => Some(None),
        Some(Some(s)) => Some(Some(s@)),
    }
}

/// The value of the last key `name`: `None` where there is no such key, `Some(None)` where
/// nothing is assigned to it.
pub fn hx_value_implicit(events: &Vec<Event>, name: &[u8]) -> (r: Option<Option<Vec<u8>>>)
    ensures
        opt_opt_view(r) == implicit_value(events_view(events@), name@),
{
    let ghost views = events_view(events@);
    let len: usize = events.len();
    let (key, start, end) = match hx_key_and_value_range_by(events, name) {
        None => {
            return None;
        },
        Some(x) => x,
    };
    if start == key + 1 {
        return Some(None);
    }
    let mut done: Vec<u8> = Vec::new();
    let mut i: usize = start;
    assert(done@ =~= seq![]);
    while i < end + 1
        invariant
            len == events@.len(),
            end < len,
            start <= i,
            views == events_view(events@),
            value_in(views, start as int, end + 1, seq![]) == value_in(
                views,
                i as int,
                end + 1,
                done@,
            ),
            implicit_value(views, name@) == (match value_in(views, start as int, end + 1, seq![]) {
                None => None,
                Some(v) => Some(Some(v)),
            }),
        decreases end + 1 - i,
    {
        assert(views[i as int] == events@[i as int]@);
        match &events[i] {
            Event::Value(v) => {
                return Some(Some(normalize(v.as_slice())));
            },
            Event::ValueNotDone(v) => {
                push_all(&mut done, v.as_slice());
            },
            Event::ValueDone(v) => {
                push_all(&mut done, v.as_slice());
                return Some(Some(normalize(done.as_slice())));
            },
            _ => {},
        }
        i += 1;
    }
    None
}

/// The value of the last key `name`.
pub fn value(events: &Vec<Event>, name: &[u8]) -> (r: Option<Vec<u8>>)
    ensures
        crate::git::config::parse::opt_view(r) == body_value(events_view(events@), name@),
{
    match hx_value_implicit(events, name) {
        Some(Some(v)) => Some(v),
        _ => None,
    }
}

/// The values of all keys `name`, in their order.
pub fn values(events: &Vec<Event>, name: &[u8]) -> (r: Vec<Vec<u8>>)
    ensures
        strings(r@) == body_values(events_view(events@), name@),
{
    let ghost views = events_view(events@);
    let mut out: Vec<Vec<u8>> = Vec::new();
    let mut expect = false;
    let mut done: Vec<u8> = Vec::new();
    let mut i: usize = 0;
    assert(done@ =~= seq![]);
    assert(strings(out@) =~= seq![]);
    assert(seq![] + body_values(views, name@) =~= body_values(views, name@));
    while i < events.len()
        invariant
            i <= events@.len(),
            views == events_view(events@),
            body_values(views, name@) == strings(out@) + values_from(
                views,
                name@,
                i as int,
                expect,
                done@,
            ),
        decreases events@.len() - i,
    {
        assert(views[i as int] == events@[i as int]@);
        let ghost before = strings(out@);
        match &events[i] {
            Event::SectionValueName(k) => {
                if eq_ignore_case(k.as_slice(), name) {
                    expect = true;
                }
            },
            Event::Value(v) => {
                if expect {
                    expect = false;
                    let n = normalize(v.as_slice());
                    let ghost rest = values_from(views, name@, i + 1, false, done@);
                    out.push(n);
                    assert(strings(out@) =~= before.push(n@));
                    assert(before + (seq![n@] + rest) =~= before.push(n@) + rest);
                }
            },
            Event::ValueNotDone(v) => {
                if expect {
                    push_all(&mut done, v.as_slice());
                }
            },
            Event::ValueDone(v) => {
                if expect {
                    expect = false;
                    push_all(&mut done, v.as_slice());
                    let n = normalize(done.as_slice());
                    done = Vec::new();
                    assert(done@ =~= seq![]);
                    let ghost rest = values_from(views, name@, i + 1, false, done@);
                    out.push(n);
                    assert(strings(out@) =~= before.push(n@));
                    assert(before + (seq![n@] + rest) =~= before.push(n@) + rest);
                }
            },
            _ => {},
        }
        i += 1;
    }
    assert(strings(out@) + seq![] =~= strings(out@));
    out
}

/// The text of an event, as far as it is kept: of the header of a section its name, of a
/// comment what follows the character that begins it.
pub open spec fn event_text(e: EventView) -> Seq<u8> {
    match e {
        EventView::ValueNotDone(s) => s,
        EventView::Whitespace(s) => s,
        EventView::Newline(s) => s,
        EventView::Value(s) => s,
        EventView::ValueDone(s) => s,
        EventView::KeyValueSeparator => seq!['=' as u8],
        EventView::SectionValueName(s) => s,
        EventView::SectionHeader(h) => h.name,
        EventView::Comment { tag, text } => text,
    }
}

impl Event {
    /// The text of the event, as far as it is kept.
    pub fn to_bstr_lossy(&self) -> (r: Vec<u8>)
        ensures
            r@ == event_text(self@),
    {
        match self {
            Event::ValueNotDone(s) => to_vec(s.as_slice()),
            Event::Whitespace(s) => to_vec(s.as_slice()),
            Event::Newline(s) => to_vec(s.as_slice()),
            Event::Value(s) => to_vec(s.as_slice()),
            Event::ValueDone(s) => to_vec(s.as_slice()),
            Event::KeyValueSeparator => {
                let mut v: Vec<u8> = Vec::new();
                v.push('=' as u8);
                assert(v@ =~= seq!['=' as u8]);
                v
            },
            Event::SectionValueName(s) => to_vec(s.as_slice()),
            Event::SectionHeader(h) => to_vec(h.name.as_slice()),
            Event::Comment { tag, text } => to_vec(text.as_slice()),
        }
    }
}

/// The line end that the event `e` uses.
pub open spec fn line_end_of(e: EventView) -> Option<Seq<u8>> {
    match e {
        EventView::Newline(s) => Some(
            if s.contains('\r' as u8) {
                seq!['\r' as u8, '\n' as u8]
            } else {
                seq!['\n' as u8]
            },
        ),
        _ => None,
    }
}

/// The line end that the first event with one, from `i` on, uses.
pub open spec fn line_end_from(events: Seq<EventView>, i: int) -> Option<Seq<u8>>
    decreases events.len() - i,
{
    if i >= events.len() {
        None
    } else {
        match line_end_of(events[i]) {
            Some(nl) => Some(nl),
            None => line_end_from(events, i + 1),
        }
    }
}

/// The line end that the first event with one uses.
pub fn extract_newline(events: &Vec<Event>) -> (r: Option<Vec<u8>>)
    ensures
        crate::git::config::parse::opt_view(r) == line_end_from(events_view(events@), 0),
{
    let ghost views = events_view(events@);
    let mut i: usize = 0;
    while i < events.len()
        invariant
            i <= events@.len(),
            views == events_view(events@),
            line_end_from(views, 0) == line_end_from(views, i as int),
        decreases events@.len() - i,
    {
        assert(views[i as int] == events@[i as int]@);
        if let Event::Newline(s) = &events[i] {
            let mut nl: Vec<u8> = Vec::new();
            if contains_byte(s.as_slice(), '\r' as u8) {
                nl.push('\r' as u8);
                nl.push('\n' as u8);
                assert(nl@ =~= seq!['\r' as u8, '\n' as u8]);
            } else {
                nl.push('\n' as u8);
                assert(nl@ =~= seq!['\n' as u8]);
            }
            return Some(nl);
        }
        i += 1;
    }
    None
}

/// `s` holds `needle`.
pub open spec fn holds(s: Seq<u8>, needle: Seq<u8>) -> bool {
    exists|i: int| #[trigger] stands_at(s, needle, i)
}

/// Every byte of `s` is white space.
pub open spec fn all_whitespace(s: Seq<u8>) -> bool {
    forall|i: int| 0 <= i < s.len() ==> whitespace(#[trigger] s[i])
}

/// The events before `i` end with the line end `nl`, with nothing but white space after it.
pub open spec fn ends_with_line_end(events: Seq<EventView>, i: int, nl: Seq<u8>) -> bool
    decreases i,
{
    if i <= 0 {
        false
    } else {
        let text = event_text(events[i - 1]);
        all_whitespace(text) && (holds(text, nl) || ends_with_line_end(events, i - 1, nl))
    }
}

fn is_all_whitespace(s: &[u8]) -> (r: bool)
    ensures
        r == all_whitespace(s@),
{
    let mut i: usize = 0;
    while i < s.len()
        invariant
            i <= s@.len(),
            forall|j: int| 0 <= j < i ==> whitespace(#[trigger] s@[j]),
        decreases s@.len() - i,
    {
        if !is_whitespace(s[i]) {
            return false;
        }
        i += 1;
    }
    true
}

/// Whether `s` holds `needle`.
pub fn contains_str(s: &[u8], needle: &[u8]) -> (r: bool)
    ensures
        r == holds(s@, needle@),
{
    if needle.len() > s.len() {
        return false;
    }
    let mut i: usize = 0;
    while i <= s.len() - needle.len()
        invariant
            needle@.len() <= s@.len(),
            i <= s@.len() - needle@.len() + 1,
            forall|j: int| 0 <= j < i ==> !#[trigger] stands_at(s@, needle@, j),
        decreases s@.len() - i + 1,
    {
        if crate::bytes::eq_bytes(&s[i..i + needle.len()], needle) {
            assert(stands_at(s@, needle@, i as int));
            return true;
        }
        assert(!stands_at(s@, needle@, i as int));
        if i == s.len() - needle.len() {
            assert forall|j: int| !#[trigger] stands_at(s@, needle@, j) by {}
            return false;
        }
        i += 1;
    }
    false
}

/// Whether the events end with the line end `nl`; `default` where there are none.
pub fn ends_with_newline(events: &Vec<Event>, nl: &[u8], default: bool) -> (r: bool)
    ensures
        r == (if events@.len() == 0 {
            default
        } else {
            ends_with_line_end(events_view(events@), events@.len() as int, nl@)
        }),
{
    if events.len() == 0 {
        return default;
    }
    let ghost views = events_view(events@);
    let mut i: usize = events.len();
    while i > 0
        invariant
            i <= events@.len(),
            views == events_view(events@),
            ends_with_line_end(views, events@.len() as int, nl@) == ends_with_line_end(
                views,
                i as int,
                nl@,
            ),
        decreases i,
    {
        assert(views[i - 1] == events@[i - 1]@);
        let text = events[i - 1].to_bstr_lossy();
        if !is_all_whitespace(text.as_slice()) {
            return false;
        }
        if contains_str(text.as_slice(), nl) {
            return true;
        }
        i -= 1;
    }
    false
}

/// The spaces around a key and what separates it from its value.
#[derive(Debug)]
pub struct Whitespace {
    pub pre_key: Option<Vec<u8>>,
    pub pre_sep: Option<Vec<u8>>,
    pub post_sep: Option<Vec<u8>>,
}

pub struct WhitespaceView {
    pub pre_key: Option<Seq<u8>>,
    pub pre_sep: Option<Seq<u8>>,
    pub post_sep: Option<Seq<u8>>,
}

impl View for Whitespace {
    type V = WhitespaceView;

    open spec fn view(&self) -> WhitespaceView {
        WhitespaceView {
            pre_key: crate::git::config::parse::opt_view(self.pre_key),
            pre_sep: crate::git::config::parse::opt_view(self.pre_sep),
            post_sep: crate::git::config::parse::opt_view(self.post_sep),
        }
    }
}

/// A tab before the key, and a space on each side of the separator.
pub open spec fn default_whitespace() -> WhitespaceView {
    WhitespaceView {
        pre_key: Some(seq!['\t' as u8]),
        pre_sep: Some(seq![' ' as u8]),
        post_sep: Some(seq![' ' as u8]),
    }
}

/// The white space that the event at `i` is, where it is one.
pub open spec fn whitespace_at(events: Seq<EventView>, i: int) -> Option<Seq<u8>> {
    if 0 <= i < events.len() {
        match events[i] {
            EventView::Whitespace(s) => Some(s),
            _ => None,
        }
    } else {
        None
    }
}

/// The position of the first key from `i` on, or the number of events.
pub open spec fn first_key(events: Seq<EventView>, i: int) -> int
    decreases events.len() - i,
{
    if i >= events.len() {
        events.len() as int
    } else if events[i] is SectionValueName {
        i
    } else {
        first_key(events, i + 1)
    }
}

/// The position of the first separator from `i` on, or the number of events.
pub open spec fn first_separator(events: Seq<EventView>, i: int) -> int
    decreases events.len() - i,
{
    if i >= events.len() {
        events.len() as int
    } else if events[i] is KeyValueSeparator {
        i
    } else {
        first_separator(events, i + 1)
    }
}

/// The spaces that the first key of a section uses.
pub open spec fn whitespace_of(events: Seq<EventView>) -> WhitespaceView {
    let k = first_key(events, 0);
    if k >= events.len() {
        default_whitespace()
    } else {
        let s = first_separator(events, k);
        if s >= events.len() {
            WhitespaceView { pre_key: whitespace_at(events, k - 1), pre_sep: None, post_sep: None }
        } else {
            WhitespaceView {
                pre_key: whitespace_at(events, k - 1),
                pre_sep: whitespace_at(events, s - 1),
                post_sep: whitespace_at(events, s + 1),
            }
        }
    }
}

fn whitespace_event(events: &Vec<Event>, i: usize) -> (r: Option<Vec<u8>>)
    ensures
        crate::git::config::parse::opt_view(r) == whitespace_at(events_view(events@), i as int),
{
    if i < events.len() {
        assert(events_view(events@)[i as int] == events@[i as int]@);
        match &events[i] {
            Event::Whitespace(s) => Some(to_vec(s.as_slice())),
            _ => None,
        }
    } else {
        None
    }
}

fn one_byte(b: u8) -> (r: Vec<u8>)
    ensures
        r@ == seq![b],
{
    let mut v: Vec<u8> = Vec::new();
    v.push(b);
    assert(v@ =~= seq![b]);
    v
}

impl Whitespace {
    /// The spaces that the first key of a section uses.
    pub fn from_body(events: &Vec<Event>) -> (r: Whitespace)
        ensures
            r@ == whitespace_of(events_view(events@)),
    {
        let ghost views = events_view(events@);
        let len: usize = events.len();
        let mut k: usize = 0;
        while k < len && !matches!(events[k], Event::SectionValueName(_))
            invariant
                k <= len,
                len == events@.len(),
                views == events_view(events@),
                first_key(views, 0) == first_key(views, k as int),
            decreases len - k,
        {
            assert(views[k as int] == events@[k as int]@);
            k += 1;
        }
        if k >= len {
            return Whitespace {
                pre_key: Some(one_byte('\t' as u8)),
                pre_sep: Some(one_byte(' ' as u8)),
                post_sep: Some(one_byte(' ' as u8)),
            };
        }
        assert(views[k as int] == events@[k as int]@);
        let pre_key = if k > 0 {
            whitespace_event(events, k - 1)
        } else {
            None
        };
        let mut s: usize = k;
        while s < len && !matches!(events[s], Event::KeyValueSeparator)
            invariant
                k <= s <= len,
                len == events@.len(),
                views == events_view(events@),
                first_separator(views, k as int) == first_separator(views, s as int),
            decreases len - s,
        {
            assert(views[s as int] == events@[s as int]@);
            s += 1;
        }
        if s >= len {
            return Whitespace { pre_key, pre_sep: None, post_sep: None };
        }
        assert(views[s as int] == events@[s as int]@);
        let pre_sep = if s > 0 {
            whitespace_event(events, s - 1)
        } else {
            None
        };
        let post_sep = whitespace_event(events, s + 1);
        Whitespace { pre_key, pre_sep, post_sep }
    }

    /// Appends what separates a key from its value.
    fn key_value_separators(&self, out: &mut Vec<Event>)
        ensures
            events_view(final(out)@) == events_view(old(out)@) + separators(self@),
    {
        let ghost before = events_view(out@);
        if let Some(ws) = &self.pre_sep {
            let e = Event::Whitespace(to_vec(ws.as_slice()));
            assert(events_view(out@.push(e)) =~= events_view(out@).push(e@));
            out.push(e);
        }
        let e = Event::KeyValueSeparator;
        assert(events_view(out@.push(e)) =~= events_view(out@).push(e@));
        out.push(e);
        if let Some(ws) = &self.post_sep {
            let e = Event::Whitespace(to_vec(ws.as_slice()));
            assert(events_view(out@.push(e)) =~= events_view(out@).push(e@));
            out.push(e);
        }
        assert(events_view(out@) =~= before + separators(self@));
    }
}

/// White space as an event, where there is any.
pub open spec fn opt_whitespace(s: Option<Seq<u8>>) -> Seq<EventView> {
    match s {
        None => seq![],
        Some(s) => seq![EventView::Whitespace(s)],
    }
}

/// What separates a key from its value.
pub open spec fn separators(w: WhitespaceView) -> Seq<EventView> {
    opt_whitespace(w.pre_sep) + seq![EventView::KeyValueSeparator] + opt_whitespace(w.post_sep)
}

/// The events that assign a value to a key.
pub open spec fn assignment(
    w: WhitespaceView,
    name: Seq<u8>,
    value: Option<Seq<u8>>,
    nl: Seq<u8>,
) -> Seq<EventView> {
    opt_whitespace(w.pre_key) + seq![EventView::SectionValueName(name)] + (match value {
        Some(v) => separators(w) + seq![EventView::Value(escaped_value(v))],
        None => seq![EventView::Value(seq![])],
    }) + seq![EventView::Newline(nl)]
}

fn push_event(out: &mut Vec<Event>, e: Event)
    ensures
        events_view(final(out)@) == events_view(old(out)@) + seq![e@],
{
    assert(events_view(out@.push(e)) =~= events_view(out@) + seq![e@]);
    out.push(e);
}

/// Appends the assignment of a value to a key, with the spaces that the section uses.
pub fn assign(events: &mut Vec<Event>, name: Vec<u8>, value: Option<&[u8]>, newline: &[u8])
    ensures
        events_view(final(events)@) == events_view(old(events)@) + assignment(
            whitespace_of(events_view(old(events)@)),
            name@,
            crate::git::config::value::opt_slice(value),
            newline@,
        ),
{
    let ghost before = events_view(events@);
    let w = Whitespace::from_body(events);
    let ghost key = name@;
    if let Some(ws) = &w.pre_key {
        push_event(events, Event::Whitespace(to_vec(ws.as_slice())));
    }
    assert(events_view(events@) =~= before + opt_whitespace(w@.pre_key));
    push_event(events, Event::SectionValueName(name));
    match value {
        Some(v) => {
            w.key_value_separators(events);
            push_event(events, Event::Value(escape_value(v)));
        },
        None => {
            let empty: Vec<u8> = Vec::new();
            assert(empty@ =~= seq![]);
            push_event(events, Event::Value(empty));
        },
    }
    push_event(events, Event::Newline(to_vec(newline)));
    assert(events_view(events@) =~= before + assignment(
        w@,
        key,
        crate::git::config::value::opt_slice(value),
        newline@,
    ));
}

/// A value that was assigned to a key is found under the key.
pub proof fn law_assigned_value_is_found(
    events: Seq<EventView>,
    w: WhitespaceView,
    name: Seq<u8>,
    v: Seq<u8>,
    nl: Seq<u8>,
)
    ensures
        body_value(events + assignment(w, name, Some(v), nl), name) == Some(v),
{
    let all = events + assignment(w, name, Some(v), nl);
    let a = assignment(w, name, Some(v), nl);
    let n = all.len() as int;
    let pre = opt_whitespace(w.pre_key).len() as int;
    let key = events.len() + pre;
    let val = n - 2;
    assert(all[n - 1] == EventView::Newline(nl)) by {
        assert(a[a.len() - 1] == EventView::Newline(nl));
    }
    assert(all[val] == EventView::Value(escaped_value(v))) by {
        assert(a[a.len() - 2] == EventView::Value(escaped_value(v)));
    }
    assert(all[key] == EventView::SectionValueName(name)) by {
        assert(a[pre] == EventView::SectionValueName(name));
    }
    let before = opt_whitespace(w.pre_sep).len() as int;
    let after = opt_whitespace(w.post_sep).len() as int;
    assert(val == key + 1 + before + 1 + after);
    assert(all[key + 1 + before] == EventView::KeyValueSeparator) by {
        assert(separators(w)[before] == EventView::KeyValueSeparator);
        assert(a[pre + 1 + before] == separators(w)[before]);
    }
    if before == 1 {
        assert(all[key + 1] is Whitespace) by {
            assert(separators(w)[0] is Whitespace);
            assert(a[pre + 1] == separators(w)[0]);
        }
    }
    if after == 1 {
        assert(all[key + 2 + before] is Whitespace) by {
            assert(separators(w)[before + 1] is Whitespace);
            assert(a[pre + 2 + before] == separators(w)[before + 1]);
        }
    }
    assert(key_range_back(all, name, n, 0, 0) == key_range_back(all, name, val + 1, 0, 0));
    assert(key_range_back(all, name, val + 1, 0, 0) == key_range_back(all, name, val, val, val));
    if after == 1 {
        assert(key_range_back(all, name, val, val, val) == key_range_back(
            all,
            name,
            val - 1,
            val,
            val,
        ));
    }
    let sep = key + 1 + before;
    assert(key_range_back(all, name, sep + 1, val, val) == key_range_back(all, name, sep, val, val));
    if before == 1 {
        assert(key_range_back(all, name, sep, val, val) == key_range_back(
            all,
            name,
            sep - 1,
            val,
            val,
        ));
    }
    assert(key_range_back(all, name, key + 1, val, val) == Some(
        KeyRange { key, start: val, end: val },
    ));
    crate::git::config::value::law_value_read_back(v);
}

} // verus!
