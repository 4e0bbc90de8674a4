//! What the text of a configuration file means.
use crate::ascii::{alphabetic, alphanumeric, lowered};
use crate::bytes::{begins, from, lemma_lit, lemma_pos_of_is};
use crate::git::bom::bom_len;
use crate::git::config::body::{body_value, key_range_back, value_in};
use crate::git::config::file::{parsed_file, value_before, value_of_key, SectionView};
use crate::git::config::parse::{file_events, front_from, header_at, last_header, lemma_last_header, lemma_section_name_end, line_at, lines_from, name_end, newlines_end, no_header, parts_of, quoted, sections_from, spaces_end, trimmed_end, value_from, EventView, SectionHeaderView};
use crate::git::config::value::{boolean_value, key_of, last_pos, means_false, means_true, normalized, unescaped_from, without_quotes};
use crate::git::number::{decimal, law_decimal_read_back, signed_number};
use vstd::prelude::*;

verus! {

/// A section of a configuration file, and what it assigns to which key.
pub struct Written {
    pub name: Seq<u8>,
    pub subsection: Option<Seq<u8>>,
    pub pairs: Seq<(Seq<u8>, Seq<u8>)>,
}

/// `b` is a letter, a digit or a hyphen.
pub open spec fn word_byte(b: u8) -> bool {
    0x30 <= b <= 0x39 || 0x41 <= b <= 0x5a || 0x61 <= b <= 0x7a || b == 0x2d
}

/// `s` is made of letters, digits and hyphens, and is not empty.
pub open spec fn word(s: Seq<u8>) -> bool {
    s.len() > 0 && forall|i: int| 0 <= i < s.len() ==> word_byte(#[trigger] s[i])
}

/// `s` is a word that begins with a letter.
pub open spec fn key_word(s: Seq<u8>) -> bool {
    word(s) && s[0] != 0x2d && !(0x30 <= s[0] <= 0x39)
}

/// None of the bytes of `s` is special in a value: a line feed, a quotation mark, a backslash,
/// or what begins a comment.
pub open spec fn no_special(s: Seq<u8>) -> bool {
    forall|i: int|
        0 <= i < s.len() ==> (#[trigger] s[i]) != 0x0a && s[i] != 0x22 && s[i] != 0x5c && s[i] != 0x23
            && s[i] != 0x3b
}

/// `b` is no white space.
pub open spec fn visible(b: u8) -> bool {
    b != 0x20 && b != 0x09 && b != 0x0a && b != 0x0c && b != 0x0d
}

/// `s` can be written as a value as it is.
pub open spec fn plain_value(s: Seq<u8>) -> bool {
    no_special(s) && (s.len() > 0 ==> visible(s[0]) && visible(s.last()))
}

/// `s` can be written as a subsection as it is.
pub open spec fn plain_subsection(s: Seq<u8>) -> bool {
    forall|i: int| 0 <= i < s.len() ==> (#[trigger] s[i]) != 0x0a && s[i] != 0x22 && s[i] != 0x5c
}

impl Written {
    pub open spec fn plain(self) -> bool {
        &&& word(self.name)
        &&& self.subsection matches Some(s) ==> plain_subsection(s)
        &&& forall|j: int|
            0 <= j < self.pairs.len() ==> key_word((#[trigger] self.pairs[j]).0) && plain_value(
                self.pairs[j].1,
            )
    }

    /// `[name]`, or `[name "subsection"]`.
    pub open spec fn header_text(self) -> Seq<u8> {
        match self.subsection {
            None => seq![0x5bu8] + self.name + seq![0x5du8],
            Some(s) => seq![0x5bu8] + self.name + seq![0x20u8, 0x22u8] + s + seq![0x22u8, 0x5du8],
        }
    }

    /// The header, and the lines `key = value`.
    pub open spec fn text(self) -> Seq<u8> {
        self.header_text() + seq![0x0au8] + pairs_text(self.pairs)
    }

    pub open spec fn header(self) -> SectionHeaderView {
        SectionHeaderView {
            name: self.name,
            separator: match self.subsection {
                None => None,
                Some(_) => Some(seq![0x20u8]),
            },
            subsection_name: self.subsection,
        }
    }

    pub open spec fn body(self) -> Seq<EventView> {
        seq![EventView::Newline(seq![0x0au8])] + pairs_events(self.pairs)
    }

    pub open spec fn events(self) -> Seq<EventView> {
        seq![EventView::SectionHeader(self.header())] + self.body()
    }
}

/// The line that assigns a value to a key.
pub open spec fn pair_text(p: (Seq<u8>, Seq<u8>)) -> Seq<u8> {
    seq![0x09u8] + p.0 + seq![0x20u8, 0x3du8, 0x20u8] + p.1 + seq![0x0au8]
}

pub open spec fn pairs_text(pairs: Seq<(Seq<u8>, Seq<u8>)>) -> Seq<u8>
    decreases pairs.len(),
{
    if pairs.len() == 0 {
        seq![]
    } else {
        pair_text(pairs[0]) + pairs_text(pairs.drop_first())
    }
}

pub open spec fn pair_events(p: (Seq<u8>, Seq<u8>)) -> Seq<EventView> {
    seq![
        EventView::Whitespace(seq![0x09u8]),
        EventView::SectionValueName(p.0),
        EventView::Whitespace(seq![0x20u8]),
        EventView::KeyValueSeparator,
        EventView::Whitespace(seq![0x20u8]),
        EventView::Value(p.1),
    ]
}

pub open spec fn pairs_events(pairs: Seq<(Seq<u8>, Seq<u8>)>) -> Seq<EventView>
    decreases pairs.len(),
{
    if pairs.len() == 0 {
        seq![]
    } else {
        pair_events(pairs[0]) + seq![EventView::Newline(seq![0x0au8])] + pairs_events(
            pairs.drop_first(),
        )
    }
}

pub open spec fn sections_text(ws: Seq<Written>) -> Seq<u8>
    decreases ws.len(),
{
    if ws.len() == 0 {
        seq![]
    } else {
        ws[0].text() + sections_text(ws.drop_first())
    }
}

pub open spec fn sections_events(ws: Seq<Written>) -> Seq<EventView>
    decreases ws.len(),
{
    if ws.len() == 0 {
        seq![]
    } else {
        ws[0].events() + sections_events(ws.drop_first())
    }
}

/// `t` stands in `s` at `i`, byte by byte.
spec fn at(s: Seq<u8>, i: int, t: Seq<u8>) -> bool {
    &&& 0 <= i
    &&& i + t.len() <= s.len()
    &&& forall|k: int| i <= k < i + t.len() ==> (#[trigger] s[k]) == t[k - i]
}

proof fn lemma_at_both(s: Seq<u8>, i: int, a: Seq<u8>, b: Seq<u8>)
    requires
        at(s, i, a + b),
    ensures
        at(s, i, a),
        at(s, i + a.len(), b),
{
    assert forall|k: int| i <= k < i + a.len() implies (#[trigger] s[k]) == a[k - i] by {
        assert((a + b)[k - i] == a[k - i]);
    }
    assert forall|k: int| i + a.len() <= k < i + a.len() + b.len() implies (#[trigger] s[k]) == b[k
        - i - a.len()] by {
        assert((a + b)[k - i] == b[k - i - a.len()]);
    }
}

proof fn lemma_word_byte(b: u8)
    ensures
        word_byte(b) <==> alphanumeric(b) || b == '-' as u8,
{
}

proof fn lemma_name_end(s: Seq<u8>, i: int, e: int)
    requires
        0 <= i <= e < s.len(),
        forall|k: int| i <= k < e ==> word_byte(#[trigger] s[k]),
        !word_byte(s[e]),
    ensures
        name_end(s, i) == e,
    decreases e - i,
{
    lemma_word_byte(s[i]);
    if i < e {
        lemma_name_end(s, i + 1, e);
    }
}

proof fn lemma_value_scan(s: Seq<u8>, i: int, start: int, e: int)
    requires
        0 <= start <= i <= e < s.len(),
        forall|k: int|
            i <= k < e ==> (#[trigger] s[k]) != 0x0a && s[k] != 0x22 && s[k] != 0x5c && s[k] != 0x23
                && s[k] != 0x3b,
        s[e] == 0x0a,
    ensures
        value_from(s, i, start, false, false) == value_from(s, e, start, false, false),
    decreases e - i,
{
    if i < e {
        lemma_value_scan(s, i + 1, start, e);
    }
}

/// A line that assigns a value is read as the key and the value.
proof fn lemma_pair(s: Seq<u8>, i: int, p: (Seq<u8>, Seq<u8>))
    requires
        at(s, i, pair_text(p)),
        key_word(p.0),
        plain_value(p.1),
    ensures
        line_at(s, i) == Some((pair_events(p), i + pair_text(p).len() - 1)),
{
    let (key, value) = p;
    let b = i + 1;
    let e = b + key.len();
    let v = e + 3;
    let w = v + value.len();
    lemma_at_both(s, i, seq![0x09u8] + key + seq![0x20u8, 0x3du8, 0x20u8] + value, seq![0x0au8]);
    lemma_at_both(s, i, seq![0x09u8] + key + seq![0x20u8, 0x3du8, 0x20u8], value);
    lemma_at_both(s, i, seq![0x09u8] + key, seq![0x20u8, 0x3du8, 0x20u8]);
    lemma_at_both(s, i, seq![0x09u8], key);
    assert(s[i] == 0x09);
    assert(s[b] == key[0]);
    assert(word_byte(key[0]));
    assert(spaces_end(s, b) == b);
    assert(spaces_end(s, i) == b);
    assert(newlines_end(s, b) == b);
    assert(alphabetic(s[b]));
    assert(s[e] == 0x20);
    assert(s[e + 1] == 0x3d);
    assert(s[e + 2] == 0x20);
    assert(s[w] == 0x0a);
    assert forall|k: int| b <= k < e implies word_byte(#[trigger] s[k]) by {
        assert(s[k] == key[k - b]);
    }
    lemma_name_end(s, b, e);
    assert(spaces_end(s, e + 1) == e + 1);
    assert(spaces_end(s, e) == e + 1);
    assert(spaces_end(s, v) == v) by {
        if value.len() > 0 {
            assert(s[v] == value[0]);
        }
    }
    assert(spaces_end(s, e + 2) == v);
    assert forall|k: int| v <= k < w implies (#[trigger] s[k]) != 0x0a && s[k] != 0x22 && s[k] != 0x5c
        && s[k] != 0x23 && s[k] != 0x3b by {
        assert(s[k] == value[k - v]);
    }
    lemma_value_scan(s, v, v, w);
    assert(value_from(s, v, v, false, false) == Some((seq![EventView::Value(value)], w))) by {
        if value.len() > 0 {
            assert(s[w - 1] == value.last());
            assert(trimmed_end(s, v, w) == w);
            assert(s.subrange(v, w) =~= value);
        } else {
            assert(value =~= seq![]);
        }
    }
    assert(s.subrange(b, e) =~= key);
    assert(s.subrange(i, b) =~= seq![0x09u8]);
    assert(s.subrange(e, e + 1) =~= seq![0x20u8]);
    assert(s.subrange(e + 2, v) =~= seq![0x20u8]);
    let r = line_at(s, i);
    assert(r is Some);
    assert((r->0).0 =~= pair_events(p));
}

proof fn lemma_line_end(s: Seq<u8>, i: int)
    requires
        0 <= i < s.len(),
        s[i] == 0x0a,
        i + 1 < s.len() ==> s[i + 1] == 0x09 || s[i + 1] == 0x5b,
    ensures
        line_at(s, i) == Some((seq![EventView::Newline(seq![0x0au8])], i + 1)),
{
    assert(spaces_end(s, i) == i);
    assert(newlines_end(s, i + 1) == i + 1);
    assert(newlines_end(s, i) == i + 1);
    assert(s.subrange(i, i + 1) =~= seq![0x0au8]);
    assert((line_at(s, i)->0).0 =~= seq![EventView::Newline(seq![0x0au8])]);
}

proof fn lemma_no_line(s: Seq<u8>, i: int)
    requires
        0 <= i <= s.len(),
        i < s.len() ==> s[i] == 0x5b,
    ensures
        line_at(s, i) == Some((Seq::<EventView>::empty(), i)),
{
    assert(spaces_end(s, i) == i);
    assert(newlines_end(s, i) == i);
    assert((line_at(s, i)->0).0 =~= Seq::<EventView>::empty());
}

/// The lines of a section are read up to the next one.
proof fn lemma_lines(s: Seq<u8>, i: int, pairs: Seq<(Seq<u8>, Seq<u8>)>)
    requires
        at(s, i, seq![0x0au8] + pairs_text(pairs)),
        i + 1 + pairs_text(pairs).len() < s.len() ==> s[i + 1 + pairs_text(pairs).len()] == 0x5b,
        forall|j: int|
            0 <= j < pairs.len() ==> key_word((#[trigger] pairs[j]).0) && plain_value(pairs[j].1),
    ensures
        lines_from(s, i) == Some(
            (
                seq![EventView::Newline(seq![0x0au8])] + pairs_events(pairs),
                i + 1 + pairs_text(pairs).len(),
            ),
        ),
    decreases pairs.len(),
{
    let nl = seq![EventView::Newline(seq![0x0au8])];
    lemma_at_both(s, i, seq![0x0au8], pairs_text(pairs));
    assert(s[i] == 0x0a);
    if pairs.len() == 0 {
        lemma_line_end(s, i);
        lemma_no_line(s, i + 1);
        assert(lines_from(s, i + 1) == Some((Seq::<EventView>::empty(), i + 1)));
        assert(nl + Seq::<EventView>::empty() =~= nl + pairs_events(pairs));
    } else {
        let t = pair_text(pairs[0]);
        let rest = pairs_text(pairs.drop_first());
        let n = t.len() as int;
        lemma_at_both(s, i + 1, t, rest);
        assert(t[0] == 0x09);
        assert(s[i + 1] == 0x09);
        lemma_line_end(s, i);
        lemma_pair(s, i + 1, pairs[0]);
        assert(t[n - 1] == 0x0a);
        assert(s[i + n] == 0x0a);
        assert(at(s, i + n, seq![0x0au8] + rest)) by {
            assert forall|k: int| i + n <= k < i + n + 1 + rest.len() implies (#[trigger] s[k]) == (
            seq![0x0au8] + rest)[k - i - n] by {
                if k > i + n {
                    assert(s[k] == rest[k - i - n - 1]);
                }
            }
        }
        assert forall|j: int| 0 <= j < pairs.drop_first().len() implies key_word(
            (#[trigger] pairs.drop_first()[j]).0,
        ) && plain_value(pairs.drop_first()[j].1) by {
            assert(pairs.drop_first()[j] == pairs[j + 1]);
        }
        lemma_lines(s, i + n, pairs.drop_first());
        let last = nl + pairs_events(pairs.drop_first());
        let end = i + 1 + pairs_text(pairs).len();
        assert(lines_from(s, i + n) == Some((last, end)));
        assert(lines_from(s, i + 1) == Some((pair_events(pairs[0]) + last, end)));
        assert(lines_from(s, i) == Some((nl + (pair_events(pairs[0]) + last), end)));
        assert(nl + (pair_events(pairs[0]) + last) =~= nl + pairs_events(pairs));
    }
}

proof fn lemma_plain_quoted(s: Seq<u8>, i: int, e: int)
    requires
        0 <= i <= e < s.len(),
        forall|k: int| i <= k < e ==> (#[trigger] s[k]) != 0x0a && s[k] != 0x22 && s[k] != 0x5c,
        s[e] == 0x22,
    ensures
        quoted(s, i) == Some((s.subrange(i, e), e)),
    decreases e - i,
{
    if i < e {
        lemma_plain_quoted(s, i + 1, e);
        assert(seq![s[i]] + s.subrange(i + 1, e) =~= s.subrange(i, e));
    } else {
        assert(s.subrange(i, e) =~= seq![]);
    }
}

/// The header of a section is read as its name and its subsection.
proof fn lemma_header(s: Seq<u8>, i: int, w: Written)
    requires
        w.plain(),
        at(s, i, w.header_text()),
    ensures
        header_at(s, i) == Some((w.header(), i + w.header_text().len())),
{
    let b = i + 1;
    let e = b + w.name.len();
    match w.subsection {
        None => {
            lemma_at_both(s, i, seq![0x5bu8] + w.name, seq![0x5du8]);
            lemma_at_both(s, i, seq![0x5bu8], w.name);
            assert(s[e] == 0x5d);
        },
        Some(sub) => {
            let q = e + 2;
            lemma_at_both(
                s,
                i,
                seq![0x5bu8] + w.name + seq![0x20u8, 0x22u8] + sub,
                seq![0x22u8, 0x5du8],
            );
            lemma_at_both(s, i, seq![0x5bu8] + w.name + seq![0x20u8, 0x22u8], sub);
            lemma_at_both(s, i, seq![0x5bu8] + w.name, seq![0x20u8, 0x22u8]);
            lemma_at_both(s, i, seq![0x5bu8], w.name);
            assert(s[e] == 0x20);
            assert(s[e + 1] == 0x22);
            assert(spaces_end(s, e + 1) == e + 1);
            assert(spaces_end(s, e) == e + 1);
            assert(s.subrange(e, e + 1) =~= seq![0x20u8]);
            assert(s[q + sub.len()] == 0x22);
            assert(s[q + sub.len() + 1] == 0x5d);
            assert forall|k: int| q <= k < q + sub.len() implies (#[trigger] s[k]) != 0x0a && s[k] != 0x22
                && s[k] != 0x5c by {
                assert(s[k] == sub[k - q]);
            }
            lemma_plain_quoted(s, q, q + sub.len());
            assert(s.subrange(q, q + sub.len()) =~= sub);
        },
    }
    assert(s[i] == 0x5b);
    assert forall|k: int| b <= k < e implies crate::git::config::parse::section_char(#[trigger] s[k]) by {
        assert(s[k] == w.name[k - b]);
        lemma_word_byte(s[k]);
    }
    lemma_section_name_end(s, b, e);
    assert(s.subrange(b, e) =~= w.name);
    assert forall|k: int| 0 <= k < w.name.len() implies w.name[k] != 0x2e by {
        assert(word_byte(w.name[k]));
    }
    lemma_pos_of_is(w.name, '.' as u8, 0, w.name.len() as int);
}

proof fn lemma_sections(s: Seq<u8>, i: int, ws: Seq<Written>)
    requires
        at(s, i, sections_text(ws)),
        i + sections_text(ws).len() == s.len(),
        forall|k: int| 0 <= k < ws.len() ==> (#[trigger] ws[k]).plain(),
    ensures
        sections_from(s, i) == Some(sections_events(ws)),
    decreases ws.len(),
{
    if ws.len() > 0 {
        let w = ws[0];
        let rest = ws.drop_first();
        let h = w.header_text();
        let t = w.text();
        assert(w.plain());
        lemma_at_both(s, i, t, sections_text(rest));
        let lines = seq![0x0au8] + pairs_text(w.pairs);
        assert(t =~= h + lines);
        lemma_at_both(s, i, h, lines);
        lemma_header(s, i, w);
        let e = i + t.len();
        if e < s.len() {
            assert(rest.len() > 0);
            assert(rest[0].text()[0] == 0x5b);
            assert(sections_text(rest)[0] == 0x5b);
            assert(s[e] == sections_text(rest)[0]);
        }
        lemma_lines(s, i + h.len(), w.pairs);
        assert forall|k: int| 0 <= k < rest.len() implies (#[trigger] rest[k]).plain() by {
            assert(rest[k] == ws[k + 1]);
        }
        lemma_sections(s, e, rest);
    }
}

/// The text of sections is read as these sections.
proof fn lemma_file_events(ws: Seq<Written>)
    requires
        forall|k: int| 0 <= k < ws.len() ==> (#[trigger] ws[k]).plain(),
    ensures
        file_events(sections_text(ws)) == Some(sections_events(ws)),
{
    let s = sections_text(ws);
    if ws.len() > 0 {
        assert(ws[0].text()[0] == 0x5b);
        assert(s[0] == 0x5b);
        lemma_no_bom(s);
    } else {
        lemma_no_bom(s);
    }
    assert(spaces_end(s, 0) == 0);
    assert(newlines_end(s, 0) == 0);
    assert(front_from(s, 0) == Some((Seq::<EventView>::empty(), 0int)));
    lemma_sections(s, 0, ws);
    assert(Seq::<EventView>::empty() + sections_events(ws) =~= sections_events(ws));
}

proof fn lemma_no_bom(s: Seq<u8>)
    requires
        s.len() > 0 ==> s[0] == 0x5b,
    ensures
        bom_len(s) == 0,
{
    assert forall|p: Seq<u8>| p.len() > 0 && p[0] != 0x5b implies !(#[trigger] begins(s, p)) by {
        if begins(s, p) {
            assert(s.subrange(0, p.len() as int)[0] == p[0]);
        }
    }
}

proof fn lemma_last_section(ws: Seq<Written>)
    requires
        ws.len() > 0,
    ensures
        sections_events(ws) == sections_events(ws.drop_last()) + ws.last().events(),
    decreases ws.len(),
{
    if ws.len() == 1 {
        assert(ws.drop_first() =~= seq![]);
        assert(ws.drop_last() =~= seq![]);
        assert(sections_events(ws.drop_first()) =~= seq![]);
        assert(sections_events(ws) =~= sections_events(ws.drop_last()) + ws.last().events());
    } else {
        lemma_last_section(ws.drop_first());
        assert(ws.drop_first().drop_last() =~= ws.drop_last().drop_first());
        assert(sections_events(ws) =~= sections_events(ws.drop_last()) + ws.last().events());
    }
}

proof fn lemma_pairs_events(pairs: Seq<(Seq<u8>, Seq<u8>)>)
    ensures
        pairs_events(pairs).len() == 7 * pairs.len(),
        no_header(pairs_events(pairs)),
        forall|j: int|
            0 <= j < pairs.len() ==> holds_pair(pairs_events(pairs), 7 * j, #[trigger] pairs[j]),
    decreases pairs.len(),
{
    if pairs.len() > 0 {
        let rest = pairs.drop_first();
        let e = pairs_events(pairs);
        lemma_pairs_events(rest);
        assert forall|i: int| 7 <= i < e.len() implies e[i] == pairs_events(rest)[i - 7] by {}
        assert(e[0] == pair_events(pairs[0])[0]);
        assert forall|i: int| 0 <= i < e.len() implies !(#[trigger] e[i] is SectionHeader) by {
            if i >= 7 {
                assert(!(pairs_events(rest)[i - 7] is SectionHeader));
            } else if i < 6 {
                assert(e[i] == pair_events(pairs[0])[i]);
            }
        }
        assert forall|j: int| 0 <= j < pairs.len() implies holds_pair(e, 7 * j, #[trigger] pairs[j]) by {
            if j > 0 {
                assert(rest[j - 1] == pairs[j]);
            }
        }
    }
}

/// The events of the line that assigns `p` stand at `i`.
spec fn holds_pair(events: Seq<EventView>, i: int, p: (Seq<u8>, Seq<u8>)) -> bool {
    &&& 0 <= i
    &&& i + 7 <= events.len()
    &&& events[i] == EventView::Whitespace(seq![0x09u8])
    &&& events[i + 1] == EventView::SectionValueName(p.0)
    &&& events[i + 2] == EventView::Whitespace(seq![0x20u8])
    &&& events[i + 3] == EventView::KeyValueSeparator
    &&& events[i + 4] == EventView::Whitespace(seq![0x20u8])
    &&& events[i + 5] == EventView::Value(p.1)
    &&& events[i + 6] == EventView::Newline(seq![0x0au8])
}

/// The sections of the text are those that were written, in their order.
proof fn lemma_parts_of_sections(ws: Seq<Written>)
    ensures
        parts_of(sections_events(ws)).len() == ws.len(),
        forall|k: int|
            0 <= k < ws.len() ==> #[trigger] parts_of(sections_events(ws))[k] == (
                ws[k].header(),
                ws[k].body(),
            ),
    decreases ws.len(),
{
    let all = sections_events(ws);
    lemma_last_header(all);
    let h = last_header(all);
    if ws.len() > 0 {
        let w = ws.last();
        let front = sections_events(ws.drop_last());
        let k = front.len() as int;
        lemma_last_section(ws);
        lemma_parts_of_sections(ws.drop_last());
        lemma_pairs_events(w.pairs);
        assert(all[k] == w.events()[0]);
        if h > k {
            assert(all[h] == w.events()[h - k]);
            assert(w.events()[h - k] == w.body()[h - k - 1]);
            if h - k - 1 > 0 {
                assert(w.body()[h - k - 1] == pairs_events(w.pairs)[h - k - 2]);
            }
        }
        assert(all[k] is SectionHeader);
        assert(h == k);
        assert(all.take(h) =~= front);
        assert(all.skip(h + 1) =~= w.body());
        assert forall|j: int| 0 <= j < ws.len() implies #[trigger] parts_of(all)[j] == (
            ws[j].header(),
            ws[j].body(),
        ) by {
            if j < ws.len() - 1 {
                assert(parts_of(front)[j] == (ws.drop_last()[j].header(), ws.drop_last()[j].body()));
            }
        }
    }
}

/// `a` and `b` are the same but for the case of letters.
pub open spec fn same_letters(a: Seq<u8>, b: Seq<u8>) -> bool {
    a.len() == b.len() && forall|i: int|
        0 <= i < a.len() ==> (#[trigger] a[i]) == b[i] || (0x41 <= a[i] <= 0x5a && b[i] == a[i] + 32) || (
        0x41 <= b[i] <= 0x5a && a[i] == b[i] + 32)
}

proof fn lemma_same_letters(a: Seq<u8>, b: Seq<u8>)
    ensures
        lowered(a) == lowered(b) <==> same_letters(a, b),
{
    let x = lowered(a);
    let y = lowered(b);
    if x == y {
        assert(a.len() == x.len() && b.len() == y.len());
        assert forall|i: int| 0 <= i < a.len() implies (#[trigger] a[i]) == b[i] || (0x41 <= a[i] <= 0x5a
            && b[i] == a[i] + 32) || (0x41 <= b[i] <= 0x5a && a[i] == b[i] + 32) by {
            assert(x[i] == y[i]);
        }
    }
    if same_letters(a, b) {
        assert forall|i: int| 0 <= i < a.len() implies x[i] == y[i] by {
            assert(a[i] == a[i]);
        }
        assert(x =~= y);
    }
}

/// Going back over the line that assigns `p`.
proof fn lemma_back_over(
    events: Seq<EventView>,
    key: Seq<u8>,
    i: int,
    p: (Seq<u8>, Seq<u8>),
    start: int,
    end: int,
)
    requires
        holds_pair(events, i, p),
    ensures
        key_range_back(events, key, i + 7, start, end) == if lowered(p.0) == lowered(key) {
            Some(
                crate::git::config::body::KeyRange { key: i + 1, start: i + 5, end: i + 5 },
            )
        } else {
            key_range_back(events, key, i, 0, 0)
        },
{
    reveal_with_fuel(key_range_back, 8);
}

proof fn lemma_plain_text(s: Seq<u8>, i: int, out: Seq<u8>)
    requires
        no_special(s),
        0 <= i <= s.len(),
    ensures
        unescaped_from(s, i, out) == out + from(s, i),
    decreases s.len() - i,
{
    if i < s.len() {
        assert(s[i] != 0x5c && s[i] != 0x22);
        lemma_plain_text(s, i + 1, out.push(s[i]));
        assert(out.push(s[i]) + from(s, i + 1) =~= out + from(s, i));
    } else {
        assert(out + from(s, i) =~= out);
    }
}

proof fn lemma_plain_value(s: Seq<u8>)
    requires
        no_special(s),
    ensures
        normalized(s) == s,
{
    if s.len() > 0 {
        assert(s[0] != 0x22);
    }
    assert(without_quotes(s) == s);
    lemma_plain_text(s, 0, seq![]);
    assert(Seq::<u8>::empty() + from(s, 0) =~= s);
}

/// The last of the first `n` lines of a section that assigns something to `key`, or -1.
spec fn last_line(pairs: Seq<(Seq<u8>, Seq<u8>)>, key: Seq<u8>, n: int) -> int
    decreases n,
{
    if n <= 0 {
        -1
    } else if same_letters(pairs[n - 1].0, key) {
        n - 1
    } else {
        last_line(pairs, key, n - 1)
    }
}

proof fn lemma_last_line(pairs: Seq<(Seq<u8>, Seq<u8>)>, key: Seq<u8>, n: int)
    requires
        0 <= n <= pairs.len(),
    ensures
        -1 <= last_line(pairs, key, n) < n,
        last_line(pairs, key, n) >= 0 ==> same_letters(pairs[last_line(pairs, key, n)].0, key),
        forall|j: int| last_line(pairs, key, n) < j < n ==> !same_letters((#[trigger] pairs[j]).0, key),
    decreases n,
{
    if n > 0 {
        lemma_last_line(pairs, key, n - 1);
    }
}

proof fn lemma_back(w: Written, key: Seq<u8>, n: int, start: int, end: int)
    requires
        0 <= n <= w.pairs.len(),
    ensures
        key_range_back(w.body(), key, 1 + 7 * n, start, end) == ({
            let j = last_line(w.pairs, key, n);
            if j < 0 {
                None
            } else {
                Some(
                    crate::git::config::body::KeyRange {
                        key: 7 * j + 2,
                        start: 7 * j + 6,
                        end: 7 * j + 6,
                    },
                )
            }
        }),
    decreases n,
{
    let events = w.body();
    lemma_pairs_events(w.pairs);
    lemma_last_line(w.pairs, key, n);
    if n == 0 {
        assert(events[0] == EventView::Newline(seq![0x0au8]));
        reveal_with_fuel(key_range_back, 2);
    } else {
        let p = w.pairs[n - 1];
        assert(holds_pair(pairs_events(w.pairs), 7 * (n - 1), p));
        assert(holds_pair(events, 1 + 7 * (n - 1), p));
        lemma_back_over(events, key, 1 + 7 * (n - 1), p, start, end);
        lemma_same_letters(p.0, key);
        lemma_back(w, key, n - 1, 0, 0);
    }
}

/// What the section assigns to a key is what its last line for it says.
proof fn lemma_body_value(w: Written, key: Seq<u8>)
    requires
        w.plain(),
    ensures
        body_value(w.body(), key) == ({
            let j = last_line(w.pairs, key, w.pairs.len() as int);
            if j < 0 {
                None
            } else {
                Some(w.pairs[j].1)
            }
        }),
{
    let n = w.pairs.len() as int;
    let events = w.body();
    lemma_pairs_events(w.pairs);
    lemma_back(w, key, n, 0, 0);
    lemma_last_line(w.pairs, key, n);
    let j = last_line(w.pairs, key, n);
    if j >= 0 {
        let p = w.pairs[j];
        assert(holds_pair(pairs_events(w.pairs), 7 * j, p));
        assert(events[7 * j + 6] == EventView::Value(p.1));
        lemma_plain_value(p.1);
        assert(value_in(events, 7 * j + 6, 7 * j + 7, seq![]) == Some(p.1));
    }
}

/// The section has the given name, in letters of either case, and subsection.
pub open spec fn section_is(w: Written, name: Seq<u8>, sub: Option<Seq<u8>>) -> bool {
    same_letters(w.name, name) && w.subsection == sub
}

/// Line `j` of section `i` is the last that assigns something to the key.
pub open spec fn decides(
    ws: Seq<Written>,
    i: int,
    j: int,
    name: Seq<u8>,
    sub: Option<Seq<u8>>,
    key: Seq<u8>,
) -> bool {
    &&& 0 <= i < ws.len()
    &&& 0 <= j < ws[i].pairs.len()
    &&& section_is(ws[i], name, sub)
    &&& same_letters(ws[i].pairs[j].0, key)
    &&& forall|b: int| j < b < ws[i].pairs.len() ==> !same_letters((#[trigger] ws[i].pairs[b]).0, key)
    &&& forall|a: int, b: int|
        i < a < ws.len() && section_is(ws[a], name, sub) && 0 <= b < ws[a].pairs.len()
            ==> !same_letters((#[trigger] ws[a].pairs[b]).0, key)
}

/// None of the lines assigns something to the key.
pub open spec fn unassigned(ws: Seq<Written>, name: Seq<u8>, sub: Option<Seq<u8>>, key: Seq<u8>) -> bool {
    forall|a: int, b: int|
        0 <= a < ws.len() && section_is(ws[a], name, sub) && 0 <= b < ws[a].pairs.len()
            ==> !same_letters((#[trigger] ws[a].pairs[b]).0, key)
}

proof fn lemma_value_in_sections(
    ws: Seq<Written>,
    sections: Seq<SectionView>,
    name: Seq<u8>,
    sub: Option<Seq<u8>>,
    key: Seq<u8>,
    n: int,
)
    requires
        0 <= n <= ws.len(),
        sections.len() == ws.len(),
        forall|k: int| 0 <= k < ws.len() ==> (#[trigger] ws[k]).plain(),
        forall|k: int|
            0 <= k < ws.len() ==> (#[trigger] sections[k]).header == ws[k].header() && sections[k].events
                == ws[k].body(),
    ensures
        forall|i: int, j: int|
            0 <= i < n && #[trigger] decides(ws.take(n), i, j, name, sub, key) ==> value_before(
                sections,
                name,
                sub,
                key,
                n,
            ) == Some(ws[i].pairs[j].1),
        unassigned(ws.take(n), name, sub, key) ==> value_before(sections, name, sub, key, n) is None,
    decreases n,
{
    if n > 0 {
        let w = ws[n - 1];
        let t = ws.take(n);
        let u = ws.take(n - 1);
        lemma_value_in_sections(ws, sections, name, sub, key, n - 1);
        assert(w.plain());
        assert(sections[n - 1].header == w.header());
        assert(t[n - 1] == w);
        assert forall|k: int| 0 <= k < n - 1 implies t[k] == u[k] by {}
        lemma_body_value(w, key);
        lemma_same_letters(w.name, name);
        let m = w.pairs.len() as int;
        let l = last_line(w.pairs, key, m);
        lemma_last_line(w.pairs, key, m);
        let v = value_before(sections, name, sub, key, n);
        let hit = section_is(w, name, sub) && l >= 0;
        assert(hit ==> v == Some(w.pairs[l].1));
        assert(!hit ==> v == value_before(sections, name, sub, key, n - 1));
        assert forall|i: int, j: int| 0 <= i < n && #[trigger] decides(t, i, j, name, sub, key) implies v
            == Some(ws[i].pairs[j].1) by {
            assert(t[i] == ws[i]);
            if i == n - 1 {
                if l < j {
                    assert(!same_letters(w.pairs[j].0, key));
                } else if l > j {
                    assert(!same_letters(t[i].pairs[l].0, key));
                }
                assert(l == j);
            } else {
                if hit {
                    assert(!same_letters(t[n - 1].pairs[l].0, key));
                }
                assert(decides(u, i, j, name, sub, key)) by {
                    assert forall|a: int, b: int| i < a < u.len() && section_is(u[a], name, sub) && 0 <= b
                        < u[a].pairs.len() implies !same_letters((#[trigger] u[a].pairs[b]).0, key) by {
                        assert(t[a].pairs[b] == u[a].pairs[b]);
                    }
                    assert forall|b: int| j < b < u[i].pairs.len() implies !same_letters(
                        (#[trigger] u[i].pairs[b]).0,
                        key,
                    ) by {
                        assert(t[i].pairs[b] == u[i].pairs[b]);
                    }
                }
            }
        }
        if unassigned(t, name, sub, key) {
            if hit {
                assert(!same_letters(t[n - 1].pairs[l].0, key));
            }
            assert forall|a: int, b: int| 0 <= a < u.len() && section_is(u[a], name, sub) && 0 <= b
                < u[a].pairs.len() implies !same_letters((#[trigger] u[a].pairs[b]).0, key) by {
                assert(t[a].pairs[b] == u[a].pairs[b]);
            }
        }
    }
}

/// The key as it is asked for: `section.key`, or `section.subsection.key`.
pub open spec fn full_key(name: Seq<u8>, sub: Option<Seq<u8>>, key: Seq<u8>) -> Seq<u8> {
    match sub {
        None => name + seq![0x2eu8] + key,
        Some(s) => name + seq![0x2eu8] + s + seq![0x2eu8] + key,
    }
}

proof fn lemma_word_is_utf8(s: Seq<u8>)
    requires
        forall|i: int| 0 <= i < s.len() ==> word_byte(#[trigger] s[i]),
    ensures
        vstd::utf8::valid_utf8(s),
    decreases s.len(),
{
    if s.len() > 0 {
        assert(word_byte(s[0]));
        lemma_word_is_utf8(s.drop_first());
        assert(vstd::utf8::pop_first_scalar(s) =~= s.drop_first());
    }
}

proof fn lemma_last_pos(s: Seq<u8>, b: u8, p: int)
    requires
        -1 <= p < s.len(),
        p >= 0 ==> s[p] == b,
        forall|k: int| p < k < s.len() ==> s[k] != b,
    ensures
        last_pos(s, b) == p,
    decreases s.len(),
{
    if s.len() > 0 && s.last() != b {
        lemma_last_pos(s.drop_last(), b, p);
    }
}

/// A key is asked for by its section, its subsection and its name.
pub proof fn law_key_names_its_parts(name: Seq<u8>, sub: Option<Seq<u8>>, key: Seq<u8>)
    requires
        word(name),
        word(key),
    ensures
        key_of(full_key(name, sub, key)) matches Some(k) && k.section_name == name && k.subsection_name
            == sub && k.value_name == key,
{
    let s = full_key(name, sub, key);
    let dot = name.len() as int;
    assert forall|k: int| 0 <= k < name.len() implies name[k] != 0x2e by {
        assert(word_byte(name[k]));
    }
    assert forall|k: int| 0 <= k < key.len() implies key[k] != 0x2e by {
        assert(word_byte(key[k]));
    }
    assert(s[dot] == 0x2e);
    assert forall|k: int| 0 <= k < dot implies s[k] != 0x2e by {
        assert(s[k] == name[k]);
    }
    lemma_pos_of_is(s, '.' as u8, 0, dot);
    let rest = from(s, dot + 1);
    assert(s.subrange(0, dot) =~= name);
    lemma_word_is_utf8(name);
    lemma_word_is_utf8(key);
    match sub {
        None => {
            assert(rest =~= key);
            lemma_last_pos(rest, '.' as u8, -1);
            assert(from(rest, 0) =~= key);
        },
        Some(x) => {
            assert(rest =~= x + seq![0x2eu8] + key);
            assert(rest[x.len() as int] == 0x2e);
            assert forall|k: int| x.len() < k < rest.len() implies rest[k] != 0x2e by {
                assert(rest[k] == key[k - x.len() - 1]);
            }
            lemma_last_pos(rest, '.' as u8, x.len() as int);
            assert(rest.subrange(0, x.len() as int) =~= x);
            assert(from(rest, x.len() as int + 1) =~= key);
        },
    }
}

/// A key has the value that the last line of the file for it gives it: the one in the last
/// section of that name and subsection that has such a line. The names of sections and keys
/// are the same in letters of either case; subsections are not.
pub proof fn law_last_line_gives_the_value(
    ws: Seq<Written>,
    path: Option<Seq<u8>>,
    i: int,
    j: int,
    name: Seq<u8>,
    sub: Option<Seq<u8>>,
    key: Seq<u8>,
)
    requires
        forall|k: int| 0 <= k < ws.len() ==> (#[trigger] ws[k]).plain(),
        word(name),
        word(key),
        decides(ws, i, j, name, sub, key),
    ensures
        parsed_file(sections_text(ws), path) matches Some(f) && value_of_key(f, full_key(name, sub, key))
            == Some(ws[i].pairs[j].1),
{
    lemma_file_events(ws);
    lemma_parts_of_sections(ws);
    law_key_names_its_parts(name, sub, key);
    let f = parsed_file(sections_text(ws), path)->0;
    lemma_value_in_sections(ws, f.sections, name, sub, key, ws.len() as int);
    assert(ws.take(ws.len() as int) =~= ws);
}

/// A key that no line of the file is for has no value.
pub proof fn law_other_keys_have_no_value(
    ws: Seq<Written>,
    path: Option<Seq<u8>>,
    name: Seq<u8>,
    sub: Option<Seq<u8>>,
    key: Seq<u8>,
)
    requires
        forall|k: int| 0 <= k < ws.len() ==> (#[trigger] ws[k]).plain(),
        word(name),
        word(key),
        unassigned(ws, name, sub, key),
    ensures
        parsed_file(sections_text(ws), path) matches Some(f) && value_of_key(f, full_key(name, sub, key))
            is None,
{
    lemma_file_events(ws);
    lemma_parts_of_sections(ws);
    law_key_names_its_parts(name, sub, key);
    let f = parsed_file(sections_text(ws), path)->0;
    lemma_value_in_sections(ws, f.sections, name, sub, key, ws.len() as int);
    assert(ws.take(ws.len() as int) =~= ws);
}

/// What the byte after a backslash stands for.
pub open spec fn escape_meaning(c: u8) -> u8 {
    if c == 0x6e {
        0x0a
    } else if c == 0x74 {
        0x09
    } else {
        c
    }
}

proof fn lemma_plain_prefix(s: Seq<u8>, n: int, i: int, out: Seq<u8>)
    requires
        0 <= i <= n <= s.len(),
        forall|k: int| i <= k < n ==> (#[trigger] s[k]) != 0x22 && s[k] != 0x5c,
    ensures
        unescaped_from(s, i, out) == unescaped_from(s, n, out + s.subrange(i, n)),
    decreases n - i,
{
    if i < n {
        lemma_plain_prefix(s, n, i + 1, out.push(s[i]));
        assert(out.push(s[i]) + s.subrange(i + 1, n) =~= out + s.subrange(i, n));
    } else {
        assert(out + s.subrange(i, n) =~= out);
    }
}

/// In a value a backslash before `n` stands for a line end, before `t` for a tab, and before
/// a backslash or a quotation mark for that byte.
pub proof fn law_escapes_stand_for_bytes(before: Seq<u8>, c: u8, after: Seq<u8>)
    requires
        no_special(before),
        no_special(after),
        c == 0x6e || c == 0x74 || c == 0x5c || c == 0x22,
    ensures
        normalized(before + seq![0x5cu8, c] + after) == before + seq![escape_meaning(c)] + after,
{
    let s = before + seq![0x5cu8, c] + after;
    let n = before.len() as int;
    assert(s[n] == 0x5c && s[n + 1] == c);
    assert(s[0] == if n > 0 {
        before[0]
    } else {
        0x5cu8
    });
    assert(without_quotes(s) == s);
    assert forall|k: int| 0 <= k < n implies (#[trigger] s[k]) != 0x22 && s[k] != 0x5c by {
        assert(s[k] == before[k]);
    }
    lemma_plain_prefix(s, n, 0, seq![]);
    let out = Seq::<u8>::empty() + s.subrange(0, n);
    assert(out =~= before);
    let next = out.push(escape_meaning(c));
    assert(unescaped_from(s, n, out) == unescaped_from(s, n + 2, next));
    let e = s.len() as int;
    assert forall|k: int| n + 2 <= k < e implies (#[trigger] s[k]) != 0x22 && s[k] != 0x5c by {
        assert(s[k] == after[k - n - 2]);
    }
    lemma_plain_prefix(s, e, n + 2, next);
    assert(next + s.subrange(n + 2, e) =~= before + seq![escape_meaning(c)] + after);
}

/// `s` can stand between quotation marks as it is.
pub open spec fn plain_quoted(s: Seq<u8>) -> bool {
    forall|i: int| 0 <= i < s.len() ==> (#[trigger] s[i]) != 0x0a && s[i] != 0x22 && s[i] != 0x5c
}

proof fn lemma_quoted_scan(s: Seq<u8>, i: int, start: int, e: int)
    requires
        0 <= start <= i <= e < s.len(),
        forall|k: int| i <= k < e ==> (#[trigger] s[k]) != 0x0a && s[k] != 0x22 && s[k] != 0x5c,
    ensures
        value_from(s, i, start, true, false) == value_from(s, e, start, true, false),
    decreases e - i,
{
    if i < e {
        lemma_quoted_scan(s, i + 1, start, e);
    }
}

/// `c` ends a value: a line feed, or what begins a comment.
pub open spec fn ends_value(c: u8) -> bool {
    c == 0x0a || c == 0x23 || c == 0x3b
}

/// `s` is made of spaces and tabs.
pub open spec fn blank(s: Seq<u8>) -> bool {
    forall|i: int| 0 <= i < s.len() ==> (#[trigger] s[i]) == 0x20 || s[i] == 0x09
}

proof fn lemma_trimmed(s: Seq<u8>, start: int, n: int, e: int)
    requires
        0 <= start < n <= e <= s.len(),
        visible(s[n - 1]),
        forall|k: int| n <= k < e ==> (#[trigger] s[k]) == 0x20 || s[k] == 0x09,
    ensures
        trimmed_end(s, start, e) == n,
    decreases e - n,
{
    if n < e {
        assert(s[e - 1] == 0x20 || s[e - 1] == 0x09);
        lemma_trimmed(s, start, n, e - 1);
    }
}

/// What stands between quotation marks is the value, with its spaces and with what would
/// begin a comment elsewhere.
pub proof fn law_quoted_value_is_kept(v: Seq<u8>, spaces: Seq<u8>, c: u8, rest: Seq<u8>)
    requires
        plain_quoted(v),
        blank(spaces),
        ends_value(c),
    ensures
        ({
            let text = seq![0x22u8] + v + seq![0x22u8];
            &&& value_from(text + spaces + seq![c] + rest, 0, 0, false, false) == Some(
                (seq![EventView::Value(text)], text.len() as int),
            )
            &&& normalized(text) == v
        }),
{
    let text = seq![0x22u8] + v + seq![0x22u8];
    let s = text + spaces + seq![c] + rest;
    let n = text.len() as int;
    let e = n + spaces.len();
    assert(s[0] == 0x22);
    assert forall|k: int| 1 <= k < n - 1 implies (#[trigger] s[k]) != 0x0a && s[k] != 0x22 && s[k] != 0x5c by {
        assert(s[k] == v[k - 1]);
    }
    lemma_quoted_scan(s, 1, 0, n - 1);
    assert(s[n - 1] == 0x22);
    assert forall|k: int| n <= k < e implies (#[trigger] s[k]) == 0x20 || s[k] == 0x09 by {
        assert(s[k] == spaces[k - n]);
    }
    assert(s[e] == c);
    lemma_scan_to_end(s, n, 0, e);
    lemma_trimmed(s, 0, n, e);
    assert(s.subrange(0, n) =~= text);
    assert(value_from(s, n, 0, false, false) == Some((seq![EventView::Value(text)], n)));
    assert(value_from(s, n - 1, 0, true, false) == value_from(s, n, 0, false, false));
    assert(value_from(s, 0, 0, false, false) == value_from(s, 1, 0, true, false));
    if v.len() == 0 {
        assert(text[1] == 0x22);
        assert(without_quotes(text) == Seq::<u8>::empty());
        assert(unescaped_from(Seq::<u8>::empty(), 0, seq![]) == Seq::<u8>::empty());
        assert(v =~= seq![]);
    } else {
        assert(text[n - 2] == v[n - 3]);
        assert(text.subrange(1, n - 1) =~= v);
        assert(v[0] != 0x22);
        assert(without_quotes(v) == v);
        assert(without_quotes(text) == v);
        lemma_plain_prefix(v, v.len() as int, 0, seq![]);
        assert(Seq::<u8>::empty() + v.subrange(0, v.len() as int) =~= v);
    }
}

proof fn lemma_scan_to_end(s: Seq<u8>, i: int, start: int, e: int)
    requires
        0 <= start <= i <= e < s.len(),
        forall|k: int|
            i <= k < e ==> (#[trigger] s[k]) != 0x0a && s[k] != 0x22 && s[k] != 0x5c && s[k] != 0x23
                && s[k] != 0x3b,
        ends_value(s[e]),
    ensures
        forall|partial: bool| #[trigger]
            value_from(s, i, start, false, partial) == crate::git::config::parse::value_finish(
                s,
                start,
                e,
                false,
                partial,
            ),
    decreases e - i,
{
    if i < e {
        lemma_scan_to_end(s, i + 1, start, e);
        assert forall|partial: bool| #[trigger]
            value_from(s, i, start, false, partial) == crate::git::config::parse::value_finish(
                s,
                start,
                e,
                false,
                partial,
            ) by {
            assert(value_from(s, i, start, false, partial) == value_from(
                s,
                i + 1,
                start,
                false,
                partial,
            ));
        }
    }
}

/// A value ends where its line does, or before a comment; the spaces before that are not part
/// of it.
pub proof fn law_value_ends_before_a_comment(v: Seq<u8>, spaces: Seq<u8>, c: u8, rest: Seq<u8>)
    requires
        plain_value(v),
        v.len() > 0,
        blank(spaces),
        ends_value(c),
    ensures
        value_from(v + spaces + seq![c] + rest, 0, 0, false, false) == Some(
            (seq![EventView::Value(v)], v.len() as int),
        ),
        normalized(v) == v,
{
    let s = v + spaces + seq![c] + rest;
    let n = v.len() as int;
    let e = n + spaces.len();
    assert forall|k: int| 0 <= k < e implies (#[trigger] s[k]) != 0x0a && s[k] != 0x22 && s[k] != 0x5c
        && s[k] != 0x23 && s[k] != 0x3b by {
        if k < n {
            assert(s[k] == v[k]);
        } else {
            assert(s[k] == spaces[k - n]);
        }
    }
    assert(s[e] == c);
    lemma_scan_to_end(s, 0, 0, e);
    assert(s[n - 1] == v.last());
    assert forall|k: int| n <= k < e implies (#[trigger] s[k]) == 0x20 || s[k] == 0x09 by {
        assert(s[k] == spaces[k - n]);
    }
    lemma_trimmed(s, 0, n, e);
    assert(s.subrange(0, n) =~= v);
    lemma_plain_value(v);
}

/// A backslash at the end of a line joins the next line to the value.
pub proof fn law_value_goes_on_in_the_next_line(a: Seq<u8>, b: Seq<u8>, c: u8, rest: Seq<u8>)
    requires
        no_special(a),
        no_special(b),
        b.len() > 0,
        visible(b.last()),
        ends_value(c),
    ensures
        value_from(a + seq![0x5cu8, 0x0au8] + b + seq![c] + rest, 0, 0, false, false) matches Some(
            (events, end),
        ) && value_in(events, 0, events.len() as int, seq![]) == Some(a + b) && end == a.len() + 2
            + b.len(),
{
    let s = a + seq![0x5cu8, 0x0au8] + b + seq![c] + rest;
    let n = a.len() as int;
    let m = n + 2;
    let e = m + b.len();
    assert forall|k: int| 0 <= k < n implies (#[trigger] s[k]) != 0x0a && s[k] != 0x22 && s[k] != 0x5c
        && s[k] != 0x23 && s[k] != 0x3b by {
        assert(s[k] == a[k]);
    }
    assert forall|k: int| m <= k < e implies (#[trigger] s[k]) != 0x0a && s[k] != 0x22 && s[k] != 0x5c
        && s[k] != 0x23 && s[k] != 0x3b by {
        assert(s[k] == b[k - m]);
    }
    assert(s[n] == 0x5c && s[n + 1] == 0x0a && s[e] == c);
    lemma_scan_to_break(s, 0, 0, n);
    lemma_scan_to_end(s, m, m, e);
    assert(s[e - 1] == b.last());
    lemma_trimmed(s, m, e, e);
    assert(s.subrange(m, e) =~= b);
    assert(s.subrange(0, n) =~= a);
    assert(value_from(s, m, m, false, true) == Some((seq![EventView::ValueDone(b)], e)));
    let nl = EventView::Newline(s.subrange(n + 1, m));
    let events = seq![EventView::ValueNotDone(a), nl, EventView::ValueDone(b)];
    assert(seq![EventView::ValueNotDone(a), nl] + seq![EventView::ValueDone(b)] =~= events);
    assert(value_from(s, n, 0, false, false) == Some((events, e)));
    reveal_with_fuel(value_in, 4);
    assert(Seq::<u8>::empty() + a =~= a);
    assert(no_special(a + b)) by {
        assert forall|i: int| 0 <= i < (a + b).len() implies (#[trigger] (a + b)[i]) != 0x0a && (a + b)[i]
            != 0x22 && (a + b)[i] != 0x5c && (a + b)[i] != 0x23 && (a + b)[i] != 0x3b by {
            if i < n {
                assert((a + b)[i] == a[i]);
            } else {
                assert((a + b)[i] == b[i - n]);
            }
        }
    }
    lemma_plain_value(a + b);
}

proof fn lemma_scan_to_break(s: Seq<u8>, i: int, start: int, e: int)
    requires
        0 <= start <= i <= e < s.len(),
        forall|k: int|
            i <= k < e ==> (#[trigger] s[k]) != 0x0a && s[k] != 0x22 && s[k] != 0x5c && s[k] != 0x23
                && s[k] != 0x3b,
    ensures
        value_from(s, i, start, false, false) == value_from(s, e, start, false, false),
    decreases e - i,
{
    if i < e {
        lemma_scan_to_break(s, i + 1, start, e);
    }
}

/// The words for yes and no, in letters of either case; nothing means no.
pub proof fn law_words_for_yes_and_no(v: Seq<u8>)
    ensures
        same_letters(v, seq![0x79u8, 0x65u8, 0x73u8]) ==> boolean_value(v) == Some(true),
        same_letters(v, seq![0x6fu8, 0x6eu8]) ==> boolean_value(v) == Some(true),
        same_letters(v, seq![0x74u8, 0x72u8, 0x75u8, 0x65u8]) ==> boolean_value(v) == Some(true),
        same_letters(v, seq![0x6eu8, 0x6fu8]) ==> boolean_value(v) == Some(false),
        same_letters(v, seq![0x6fu8, 0x66u8, 0x66u8]) ==> boolean_value(v) == Some(false),
        same_letters(v, seq![0x66u8, 0x61u8, 0x6cu8, 0x73u8, 0x65u8]) ==> boolean_value(v) == Some(false),
        v.len() == 0 ==> boolean_value(v) == Some(false),
{
    reveal_strlit("yes");
    reveal_strlit("on");
    reveal_strlit("true");
    reveal_strlit("no");
    reveal_strlit("off");
    reveal_strlit("false");
    let yes = seq![0x79u8, 0x65u8, 0x73u8];
    let on = seq![0x6fu8, 0x6eu8];
    let yea = seq![0x74u8, 0x72u8, 0x75u8, 0x65u8];
    let no = seq![0x6eu8, 0x6fu8];
    let off = seq![0x6fu8, 0x66u8, 0x66u8];
    let nay = seq![0x66u8, 0x61u8, 0x6cu8, 0x73u8, 0x65u8];
    lemma_lit("yes", yes);
    lemma_lit("on", on);
    lemma_lit("true", yea);
    lemma_lit("no", no);
    lemma_lit("off", off);
    lemma_lit("false", nay);
    lemma_same_letters(v, yes);
    lemma_same_letters(v, on);
    lemma_same_letters(v, yea);
    lemma_same_letters(v, no);
    lemma_same_letters(v, off);
    lemma_same_letters(v, nay);
    if same_letters(v, no) {
        assert(!same_letters(v, on)) by {
            assert(v[0] == v[0]);
        }
    }
    if same_letters(v, off) {
        assert(!same_letters(v, yes)) by {
            assert(v[0] == v[0]);
        }
    }
}

/// A number means yes unless it is zero.
pub proof fn law_numbers_for_yes_and_no(n: nat)
    requires
        n <= i64::MAX,
    ensures
        boolean_value(decimal(n)) == Some(n != 0),
{
    let v = decimal(n);
    law_decimal_read_back(n);
    assert(0x30 <= v[0] <= 0x39);
    let yes = seq![0x79u8, 0x65u8, 0x73u8];
    reveal_strlit("yes");
    reveal_strlit("on");
    reveal_strlit("true");
    reveal_strlit("no");
    reveal_strlit("off");
    reveal_strlit("false");
    lemma_lit("yes", yes);
    lemma_lit("on", seq![0x6fu8, 0x6eu8]);
    lemma_lit("true", seq![0x74u8, 0x72u8, 0x75u8, 0x65u8]);
    lemma_lit("no", seq![0x6eu8, 0x6fu8]);
    lemma_lit("off", seq![0x6fu8, 0x66u8, 0x66u8]);
    lemma_lit("false", seq![0x66u8, 0x61u8, 0x6cu8, 0x73u8, 0x65u8]);
    lemma_same_letters(v, yes);
    lemma_same_letters(v, seq![0x6fu8, 0x6eu8]);
    lemma_same_letters(v, seq![0x74u8, 0x72u8, 0x75u8, 0x65u8]);
    lemma_same_letters(v, seq![0x6eu8, 0x6fu8]);
    lemma_same_letters(v, seq![0x6fu8, 0x66u8, 0x66u8]);
    lemma_same_letters(v, seq![0x66u8, 0x61u8, 0x6cu8, 0x73u8, 0x65u8]);
    assert(!means_true(v) && !means_false(v));
    assert(signed_number(v, 10, i64::MIN as int, i64::MAX as int) == Some(n as int));
}

} // verus!
