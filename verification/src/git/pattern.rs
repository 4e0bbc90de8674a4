//! Patterns of attribute files: how a line of one is read, and what paths it matches.
use crate::ascii::{eq_ignore_case, is_whitespace, lowered, whitespace};
use crate::bytes::{begins, contains_byte, ends, ends_with, eq_bytes, find_byteset, from, lemma_pos_of_any, pos_of_any, starts_with, strip_prefix, to_vec};
use crate::git::wildmatch::{after_star, final_star, folded, glob_character, matched_from, seek, star, star_tail, wild_matches, wildmatch, WildmatchMode, WildmatchResult, RECURSION_LIMIT, SLASH, STAR};
use vstd::prelude::*;

verus! {

/// What is known of a pattern from its text.
#[derive(Clone, Copy, Debug, Default, PartialEq, Eq, Hash, Structural)]
pub struct PatternMode {
    /// The pattern holds no slash: it matches the last component of a path.
    pub no_sub_dir: bool,
    /// The pattern is a `*` before a text without wildcards.
    pub ends_with: bool,
    /// The pattern matches directories only.
    pub must_be_dir: bool,
    /// The pattern began with `!`.
    pub negative: bool,
    /// The pattern began with a slash.
    pub absolute: bool,
}

/// A pattern.
#[derive(Debug)]
pub struct Pattern {
    pub text: Vec<u8>,
    pub mode: PatternMode,
    pub first_wildcard_pos: Option<usize>,
}

impl Clone for Pattern {
    fn clone(&self) -> (r: Self)
        ensures
            r.text@ == self.text@,
            r.mode == self.mode,
            r.first_wildcard_pos == self.first_wildcard_pos,
    {
        Pattern {
            text: to_vec(self.text.as_slice()),
            mode: self.mode,
            first_wildcard_pos: self.first_wildcard_pos,
        }
    }
}

/// Whether letters of either case are the same.
#[derive(Clone, Copy, Debug, Default, PartialEq, Eq, Structural)]
pub enum Case {
    #[default]
    Sensitive,
}

/// The bytes that make a pattern more than a text.
pub open spec fn glob_characters() -> Seq<u8> {
    seq![0x2au8, 0x3fu8, 0x5bu8, 0x5cu8]
}

/// The first position in `s` of a wildcard.
pub open spec fn wildcard_pos(s: Seq<u8>) -> Option<usize> {
    let p = pos_of_any(s, glob_characters(), 0);
    if p < s.len() {
        Some(p as usize)
    } else {
        None
    }
}

/// `pat` without the `!`, or the backslash before a `!` or `#`, that it begins with, and
/// whether it began with `!`.
pub open spec fn without_sign(pat: Seq<u8>, may_alter: bool) -> (Seq<u8>, bool) {
    if may_alter && pat.len() > 0 && pat[0] == '!' as u8 {
        (from(pat, 1), true)
    } else if may_alter && pat.len() > 1 && pat[0] == '\\' as u8 && (pat[1] == '!' as u8 || pat[1]
        == '#' as u8) {
        (from(pat, 1), false)
    } else {
        (pat, false)
    }
}

/// `s` without the slash that it begins with.
pub open spec fn without_leading_slash(s: Seq<u8>) -> Seq<u8> {
    if s.len() > 0 && s[0] == SLASH {
        from(s, 1)
    } else {
        s
    }
}

/// `s` without the slash that it ends with.
pub open spec fn without_trailing_slash(s: Seq<u8>) -> Seq<u8> {
    if s.len() > 0 && s.last() == SLASH {
        s.drop_last()
    } else {
        s
    }
}

/// Every byte of `s` is white space.
pub open spec fn blank(s: Seq<u8>) -> bool {
    forall|i: int| 0 <= i < s.len() ==> whitespace(#[trigger] s[i])
}

/// The text of the pattern that the line `pat` gives.
pub open spec fn pattern_text(pat: Seq<u8>, may_alter: bool) -> Seq<u8> {
    without_trailing_slash(without_leading_slash(without_sign(pat, may_alter).0))
}

/// `text` is a `*` before a text without wildcards.
pub open spec fn star_and_literal(text: Seq<u8>) -> bool {
    text.len() > 0 && text[0] == STAR && wildcard_pos(from(text, 1)) is None
}

/// The mode of the pattern that the line `pat` gives.
pub open spec fn pattern_mode(pat: Seq<u8>, may_alter: bool) -> PatternMode {
    let unsigned = without_sign(pat, may_alter).0;
    let rooted = without_leading_slash(unsigned);
    let text = pattern_text(pat, may_alter);
    PatternMode {
        no_sub_dir: !text.contains(SLASH),
        ends_with: star_and_literal(text),
        must_be_dir: rooted.len() > 0 && rooted.last() == SLASH,
        negative: without_sign(pat, may_alter).1,
        absolute: unsigned.len() > 0 && unsigned[0] == SLASH,
    }
}

/// The line `pat` gives a pattern.
pub open spec fn is_pattern(pat: Seq<u8>, may_alter: bool) -> bool {
    pat.len() > 0 && !blank(without_sign(pat, may_alter).0)
}

/// The first position in `pat` of a wildcard.
pub fn first_wildcard_pos(pat: &[u8]) -> (r: Option<usize>)
    ensures
        r == wildcard_pos(pat@),
{
    let set: [u8; 4] = [0x2a, 0x3f, 0x5b, 0x5c];
    assert(set@ =~= glob_characters());
    find_byteset(pat, &set)
}

fn is_blank(s: &[u8]) -> (r: bool)
    ensures
        r == blank(s@),
{
    let mut i: usize = 0;
    while i < s.len()
        invariant
            i <= s@.len(),
            forall|j: int| 0 <= j < i ==> whitespace(#[trigger] s@[j]),
        decreases s@.len() - i,
    {
        if !is_whitespace(s[i]) {
            return false;
        }
        i += 1;
    }
    true
}

/// Reads a pattern: its text, its mode and the position of its first wildcard. `None` where
/// the line is blank.
pub fn parse_pattern(pat: &[u8], may_alter: bool) -> (r: Option<
    (&[u8], PatternMode, Option<usize>),
>)
    ensures
        r is Some <==> is_pattern(pat@, may_alter),
        r matches Some(p) ==> p.0@ == pattern_text(pat@, may_alter) && p.1 == pattern_mode(
            pat@,
            may_alter,
        ) && p.2 == wildcard_pos(p.0@),
{
    let mut mode = PatternMode {
        no_sub_dir: false,
        ends_with: false,
        must_be_dir: false,
        negative: false,
        absolute: false,
    };
    if pat.len() == 0 {
        return None;
    }
    let mut cur: &[u8] = pat;
    if may_alter {
        if cur[0] == '!' as u8 {
            mode.negative = true;
            cur = &cur[1..cur.len()];
        } else if cur[0] == '\\' as u8 && cur.len() > 1 && (cur[1] == '!' as u8 || cur[1]
            == '#' as u8) {
            cur = &cur[1..cur.len()];
        }
    }
    if is_blank(cur) {
        return None;
    }
    if cur[0] == SLASH {
        mode.absolute = true;
        cur = &cur[1..cur.len()];
    }
    if cur.len() > 0 && cur[cur.len() - 1] == SLASH {
        mode.must_be_dir = true;
        let ghost whole = cur@;
        cur = &cur[0..cur.len() - 1];
        assert(cur@ =~= whole.drop_last());
    }
    if !contains_byte(cur, SLASH) {
        mode.no_sub_dir = true;
    }
    if cur.len() > 0 && cur[0] == STAR && first_wildcard_pos(&cur[1..cur.len()]).is_none() {
        mode.ends_with = true;
    }
    Some((cur, mode, first_wildcard_pos(cur)))
}

/// What `p` matches, where paths are compared under `m`.
pub open spec fn pattern_matches(
    text: Seq<u8>,
    mode: PatternMode,
    wildcard: Option<usize>,
    value: Seq<u8>,
    m: WildmatchMode,
) -> bool {
    match wildcard {
        Some(pos) => if mode.ends_with && (!m.no_match_slash_literal || !value.contains(SLASH)) {
            let suffix = from(text, pos + 1);
            if m.ignore_case {
                ends(lowered(value), lowered(suffix))
            } else {
                ends(value, suffix)
            }
        } else {
            &&& if m.ignore_case {
                begins(lowered(value), lowered(text.subrange(0, pos as int)))
            } else {
                begins(value, text.subrange(0, pos as int))
            }
            &&& wild_matches(text, value, m)
        },
        None => if m.ignore_case {
            lowered(text) == lowered(value)
        } else {
            text == value
        },
    }
}

impl Pattern {
    /// The position of the wildcard is one of the text.
    pub open spec fn wf(self) -> bool {
        self.first_wildcard_pos == wildcard_pos(self.text@) && self.mode.ends_with
            == star_and_literal(self.text@)
    }

    /// Reads a pattern, `None` where the line is blank.
    pub fn from_bytes(text: &[u8]) -> (r: Option<Pattern>)
        ensures
            r is Some <==> is_pattern(text@, true),
            r matches Some(p) ==> p.wf() && p.text@ == pattern_text(text@, true) && p.mode
                == pattern_mode(text@, true),
    {
        match parse_pattern(text, true) {
            None => None,
            Some((text, mode, first_wildcard_pos)) => Some(
                Pattern { text: to_vec(text), mode, first_wildcard_pos },
            ),
        }
    }

    /// Whether the pattern began with `!`.
    pub fn is_negative(&self) -> (r: bool)
        ensures
            r == self.mode.negative,
    {
        self.mode.negative
    }

    /// Whether the pattern matches the whole of `value`.
    pub fn matches(&self, value: &[u8], mode: WildmatchMode) -> (r: bool)
        requires
            self.wf(),
        ensures
            r == pattern_matches(self.text@, self.mode, self.first_wildcard_pos, value@, mode),
    {
        proof {
            lemma_pos_of_any(self.text@, glob_characters(), 0);
        }
        let text: &[u8] = self.text.as_slice();
        match self.first_wildcard_pos {
            Some(pos) => {
                if self.mode.ends_with && (!mode.no_match_slash_literal || !contains_byte(
                    value,
                    SLASH,
                )) {
                    let suffix: &[u8] = &text[pos + 1..text.len()];
                    if mode.ignore_case {
                        if value.len() < suffix.len() {
                            return false;
                        }
                        let tail: &[u8] = &value[value.len() - suffix.len()..value.len()];
                        assert(lowered(tail@) =~= lowered(value@).subrange(
                            value@.len() - suffix@.len(),
                            value@.len() as int,
                        ));
                        eq_ignore_case(suffix, tail)
                    } else {
                        ends_with(value, suffix)
                    }
                } else {
                    let prefix: &[u8] = &text[0..pos];
                    if mode.ignore_case {
                        if value.len() < pos {
                            return false;
                        }
                        let head: &[u8] = &value[0..pos];
                        assert(lowered(head@) =~= lowered(value@).subrange(0, pos as int));
                        if !eq_ignore_case(head, prefix) {
                            return false;
                        }
                    } else if !starts_with(value, prefix) {
                        return false;
                    }
                    wildmatch(text, value, mode)
                }
            },
            None => {
                if mode.ignore_case {
                    eq_ignore_case(text, value)
                } else {
                    eq_bytes(text, value)
                }
            },
        }
    }

    /// Whether the pattern matches the path `path`, whose last component begins at
    /// `basename_start_pos`.
    pub fn matches_repo_relative_path(
        &self,
        path: &[u8],
        basename_start_pos: Option<usize>,
        is_dir: Option<bool>,
        case: Case,
        mode: WildmatchMode,
    ) -> (r: bool)
        requires
            self.wf(),
            basename_start_pos matches Some(pos) ==> pos <= path@.len(),
        ensures
            r == path_matches(self.text@, self.mode, self.first_wildcard_pos, path@, basename_start_pos, is_dir, mode),
    {
        let is_dir = match is_dir {
            Some(d) => d,
            None => false,
        };
        if !is_dir && self.mode.must_be_dir {
            return false;
        }
        if self.mode.no_sub_dir && !self.mode.absolute {
            assert(from(path@, 0) =~= path@);
            let start: usize = match basename_start_pos {
                Some(pos) => pos,
                None => 0,
            };
            self.matches(&path[start..path.len()], mode)
        } else {
            self.matches(path, mode)
        }
    }
}

/// What part of a path a pattern of the mode `mode` is held against.
pub open spec fn compared_part(mode: PatternMode, path: Seq<u8>, basename: Option<usize>) -> Seq<
    u8,
> {
    if mode.no_sub_dir && !mode.absolute && basename is Some {
        from(path, basename->0 as int)
    } else {
        path
    }
}

/// A pattern matches the path `path`, whose last component begins at `basename`.
pub open spec fn path_matches(
    text: Seq<u8>,
    mode: PatternMode,
    wildcard: Option<usize>,
    path: Seq<u8>,
    basename: Option<usize>,
    is_dir: Option<bool>,
    m: WildmatchMode,
) -> bool {
    &&& mode.must_be_dir ==> is_dir == Some(true)
    &&& pattern_matches(text, mode, wildcard, compared_part(mode, path, basename), m)
}

/// The path below `base`, and where its last component begins there, `None` where that is
/// its beginning or was not given. `None` where `relative_path` is not below `base`.
pub fn strip_base_handle_recompute_basename_pos<'a>(
    base: &[u8],
    relative_path: &'a [u8],
    basename_pos: Option<usize>,
    case: Case,
) -> (r: Option<(&'a [u8], Option<usize>)>)
    requires
        begins(relative_path@, base@) ==> (basename_pos matches Some(pos) ==> pos >= base@.len()),
    ensures
        r is Some <==> begins(relative_path@, base@),
        r matches Some(p) ==> p.0@ == from(relative_path@, base@.len() as int) && p.1 == (
        match basename_pos {
            Some(pos) if pos != base@.len() => Some((pos - base@.len()) as usize),
            _ => None,
        }),
{
    match strip_prefix(relative_path, base) {
        None => None,
        Some(rest) => {
            let pos = match basename_pos {
                Some(pos) => {
                    if pos - base.len() != 0 {
                        Some(pos - base.len())
                    } else {
                        None
                    }
                },
                None => None,
            };
            Some((rest, pos))
        },
    }
}

/// Every byte of `s` under `m`.
pub open spec fn folded_seq(m: WildmatchMode, s: Seq<u8>) -> Seq<u8> {
    s.map_values(|b: u8| folded(m, b))
}

/// `s` holds no wildcard.
pub open spec fn literal(s: Seq<u8>) -> bool {
    forall|i: int| 0 <= i < s.len() ==> !glob_character(#[trigger] s[i])
}

/// What the matcher makes of a text without wildcards.
pub proof fn lemma_literal_from(pat: Seq<u8>, text: Seq<u8>, m: WildmatchMode, depth: int, k: int, t: int)
    requires
        literal(pat),
        0 <= depth < RECURSION_LIMIT,
        0 <= k <= pat.len(),
        0 <= t <= text.len(),
    ensures
        ({
            let r = matched_from(pat, text, m, depth, 0, k, t);
            &&& r == WildmatchResult::Match <==> folded_seq(m, from(pat, k)) == folded_seq(
                m,
                from(text, t),
            )
            &&& r == WildmatchResult::Match || r == WildmatchResult::NoMatch || r
                == WildmatchResult::AbortAll
            &&& r == WildmatchResult::AbortAll ==> text.len() - t < pat.len() - k
        }),
    decreases pat.len() - k,
{
    let a = folded_seq(m, from(pat, k));
    let b = folded_seq(m, from(text, t));
    if k == pat.len() {
        assert(a.len() == 0);
        if t == text.len() {
            assert(a =~= b);
        }
    } else if t == text.len() {
        assert(!glob_character(pat[k]));
        assert(a.len() != b.len());
    } else {
        assert(!glob_character(pat[k]));
        lemma_literal_from(pat, text, m, depth, k + 1, t + 1);
        let a1 = folded_seq(m, from(pat, k + 1));
        let b1 = folded_seq(m, from(text, t + 1));
        assert(a =~= seq![folded(m, pat[k])] + a1);
        assert(b =~= seq![folded(m, text[t])] + b1);
        assert(a[0] == folded(m, pat[k]));
        assert(b[0] == folded(m, text[t]));
        if a == b {
            assert(a1 =~= a.subrange(1, a.len() as int));
            assert(b1 =~= b.subrange(1, b.len() as int));
        }
    }
}

/// A pattern without wildcards matches the text that it is, and no other.
pub proof fn law_literal_matches_itself_only(pat: Seq<u8>, text: Seq<u8>, m: WildmatchMode)
    requires
        literal(pat),
    ensures
        wild_matches(pat, text, m) <==> folded_seq(m, pat) == folded_seq(m, text),
{
    lemma_literal_from(pat, text, m, 0, 0, 0);
    assert(from(pat, 0) =~= pat);
    assert(from(text, 0) =~= text);
}

/// `text` ends with `suf` under `m`.
pub open spec fn ends_folded(m: WildmatchMode, text: Seq<u8>, suf: Seq<u8>) -> bool {
    text.len() >= suf.len() && folded_seq(m, from(text, text.len() - suf.len())) == folded_seq(
        m,
        suf,
    )
}

/// Where `seek` stops: no byte that it passed is `c`, and it stops before the end at `c`
/// alone where there is no slash.
pub proof fn lemma_seek_stops(
    text: Seq<u8>,
    m: WildmatchMode,
    c: u8,
    match_slash: bool,
    t_idx: int,
    t_ch: u8,
    t_next: int,
)
    requires
        0 <= t_idx < text.len(),
        t_next == t_idx + 1,
        t_ch == folded(m, text[t_idx]),
        match_slash || !text.contains(SLASH),
    ensures
        ({
            let r = seek(text, m, c, match_slash, t_idx, t_ch, t_next);
            &&& t_idx <= r.0 < text.len()
            &&& r.2 == r.0 + 1
            &&& r.1 == folded(m, text[r.0])
            &&& forall|j: int| t_idx <= j < r.0 ==> folded(m, #[trigger] text[j]) != c
            &&& r.1 != c ==> r.2 == text.len()
        }),
    decreases text.len() - t_next,
{
    assert(text.contains(text[t_idx]));
    if !match_slash {
        assert(t_ch != SLASH);
    }
    if t_ch != c && t_next < text.len() {
        lemma_seek_stops(text, m, c, match_slash, t_next, folded(m, text[t_next]), t_next + 1);
    }
}

/// What a star before a text without wildcards finds from `t_idx` on.
proof fn lemma_star_tail(
    pat: Seq<u8>,
    text: Seq<u8>,
    m: WildmatchMode,
    match_slash: bool,
    t_idx: int,
)
    requires
        pat.len() >= 2,
        literal(from(pat, 1)),
        0 <= t_idx < text.len(),
        match_slash || !text.contains(SLASH),
    ensures
        star_tail(
            pat,
            text,
            m,
            0,
            1,
            folded(m, pat[1]),
            match_slash,
            t_idx,
            folded(m, text[t_idx]),
            t_idx + 1,
        ) == WildmatchResult::Match <==> text.len() - t_idx >= pat.len() - 1 && ends_folded(
            m,
            text,
            from(pat, 1),
        ),
    decreases text.len() - t_idx,
{
    let suf = from(pat, 1);
    let c = folded(m, pat[1]);
    let t_ch = folded(m, text[t_idx]);
    assert(suf[0] == pat[1]);
    assert(!glob_character(suf[0]));
    assert(!glob_character(c));
    lemma_seek_stops(text, m, c, match_slash, t_idx, t_ch, t_idx + 1);
    let (i, ch, n) = seek(text, m, c, match_slash, t_idx, t_ch, t_idx + 1);
    let s = text.len() - suf.len();
    if ends_folded(m, text, suf) && s >= t_idx {
        assert(folded_seq(m, from(text, s))[0] == folded(m, text[s]));
        assert(folded_seq(m, suf)[0] == c);
        assert(i <= s);
    }
    if ch == c {
        lemma_literal_from(suf, from(text, i), m, 1, 0, 0);
        assert(from(suf, 0) =~= suf);
        assert(from(from(text, i), 0) =~= from(text, i));
        let res = matched_from(suf, from(text, i), m, 1, 0, 0, 0);
        if res == WildmatchResult::Match {
            assert(folded_seq(m, suf).len() == folded_seq(m, from(text, i)).len());
            assert(i == s);
        } else {
            if ends_folded(m, text, suf) {
                assert(i != s);
            }
            assert(text.contains(text[i]));
            if n < text.len() && res == WildmatchResult::NoMatch {
                lemma_star_tail(pat, text, m, match_slash, n);
            }
        }
    }
}

/// A star before a text without wildcards matches what ends with that text.
proof fn lemma_star_and_literal(pat: Seq<u8>, text: Seq<u8>, m: WildmatchMode)
    requires
        pat.len() >= 1,
        pat[0] == STAR,
        literal(from(pat, 1)),
        !m.no_match_slash_literal || !text.contains(SLASH),
    ensures
        wild_matches(pat, text, m) <==> ends_folded(m, text, from(pat, 1)),
{
    let suf = from(pat, 1);
    let match_slash = !m.no_match_slash_literal;
    assert(from(text, 0) =~= text);
    if pat.len() == 1 {
        assert(folded_seq(m, from(text, text.len() as int)) =~= folded_seq(m, suf));
        let t_ch = if text.len() == 0 {
            0u8
        } else {
            folded(m, text[0])
        };
        let t_next: int = if text.len() == 0 {
            0
        } else {
            1
        };
        assert(matched_from(pat, text, m, 0, 0, 0, 0) == star(pat, text, m, 0, 0, 0, 0, t_ch, t_next));
        assert(star(pat, text, m, 0, 0, 0, 0, t_ch, t_next) == final_star(match_slash, text));
    } else {
        assert(suf[0] == pat[1]);
        assert(!glob_character(suf[0]));
        let c = folded(m, pat[1]);
        let t_ch = if text.len() == 0 {
            0u8
        } else {
            folded(m, text[0])
        };
        let t_next: int = if text.len() == 0 {
            0
        } else {
            1
        };
        assert(matched_from(pat, text, m, 0, 0, 0, 0) == star(pat, text, m, 0, 0, 0, 0, t_ch, t_next));
        assert(star(pat, text, m, 0, 0, 0, 0, t_ch, t_next) == after_star(
            pat,
            text,
            m,
            0,
            0,
            1,
            match_slash,
            0,
            t_ch,
            t_next,
        ));
        if text.len() > 0 {
            if !match_slash && c == SLASH {
                lemma_no_slash(text);
                assert(after_star(pat, text, m, 0, 0, 1, match_slash, 0, t_ch, t_next)
                    == WildmatchResult::AbortAll);
                if ends_folded(m, text, suf) {
                    let s = text.len() - suf.len();
                    assert(folded_seq(m, from(text, s))[0] == folded(m, text[s]));
                    assert(folded_seq(m, suf)[0] == SLASH);
                    assert(text.contains(text[s]));
                }
            } else {
                lemma_star_tail(pat, text, m, match_slash, 0);
            }
        } else {
            if !(!match_slash && c == SLASH) {
                lemma_literal_from(suf, from(text, 0), m, 1, 0, 0);
                assert(from(suf, 0) =~= suf);
                assert(folded_seq(m, suf).len() != folded_seq(m, from(from(text, 0), 0)).len());
            } else {
                lemma_no_slash(text);
            }
        }
    }
}

proof fn lemma_no_slash(text: Seq<u8>)
    requires
        !text.contains(SLASH),
    ensures
        crate::bytes::pos_of(text, SLASH, 0) == text.len(),
{
    crate::bytes::lemma_pos_of(text, SLASH, 0);
    let p = crate::bytes::pos_of(text, SLASH, 0);
    if p < text.len() {
        assert(text.contains(text[p]));
    }
}

proof fn lemma_no_wildcard_is_literal(s: Seq<u8>)
    ensures
        wildcard_pos(s) is None <==> literal(s),
{
    lemma_pos_of_any(s, glob_characters(), 0);
    assert forall|c: u8| glob_characters().contains(c) <==> glob_character(c) by {
        let g = glob_characters();
        assert(g[0] == 0x2a && g[1] == 0x3f && g[2] == 0x5b && g[3] == 0x5c);
    }
    let p = pos_of_any(s, glob_characters(), 0);
    if p < s.len() {
        assert(glob_character(s[p]));
    }
}

/// What is before the first wildcard of a pattern begins every text that it matches.
pub proof fn lemma_prefix_from(pat: Seq<u8>, text: Seq<u8>, m: WildmatchMode, pos: int, k: int)
    requires
        0 <= k <= pos <= pat.len(),
        literal(pat.subrange(0, pos)),
        k <= text.len(),
        matched_from(pat, text, m, 0, 0, k, k) == WildmatchResult::Match,
    ensures
        pos <= text.len(),
        forall|j: int| k <= j < pos ==> folded(m, #[trigger] pat[j]) == folded(m, text[j]),
    decreases pos - k,
{
    if k < pos {
        assert(pat.subrange(0, pos)[k] == pat[k]);
        assert(!glob_character(pat[k]));
        lemma_prefix_from(pat, text, m, pos, k + 1);
    }
}

/// The short cuts that a pattern takes change nothing: it matches what its text, read as a
/// wildcard pattern, matches.
pub proof fn law_pattern_matches_as_its_text(
    text: Seq<u8>,
    mode: PatternMode,
    value: Seq<u8>,
    m: WildmatchMode,
)
    requires
        text.len() <= usize::MAX,
        mode.ends_with == star_and_literal(text),
    ensures
        pattern_matches(text, mode, wildcard_pos(text), value, m) <==> wild_matches(text, value, m),
{
    lemma_pos_of_any(text, glob_characters(), 0);
    lemma_no_wildcard_is_literal(text);
    if m.ignore_case {
        assert(folded_seq(m, text) =~= lowered(text));
        assert(folded_seq(m, value) =~= lowered(value));
    } else {
        assert(folded_seq(m, text) =~= text);
        assert(folded_seq(m, value) =~= value);
    }
    match wildcard_pos(text) {
        None => {
            law_literal_matches_itself_only(text, value, m);
        },
        Some(pos) => {
            let p = pos as int;
            if mode.ends_with && (!m.no_match_slash_literal || !value.contains(SLASH)) {
                assert(glob_characters()[0] == STAR);
                assert(glob_characters().contains(text[0]));
                assert(p == 0);
                lemma_no_wildcard_is_literal(from(text, 1));
                lemma_star_and_literal(text, value, m);
                let suf = from(text, 1);
                if value.len() >= suf.len() {
                    let tail = from(value, value.len() - suf.len());
                    if m.ignore_case {
                        assert(folded_seq(m, suf) =~= lowered(suf));
                        assert(folded_seq(m, tail) =~= lowered(value).subrange(
                            value.len() - suf.len(),
                            value.len() as int,
                        ));
                    } else {
                        assert(folded_seq(m, suf) =~= suf);
                        assert(folded_seq(m, tail) =~= tail);
                    }
                }
            } else if wild_matches(text, value, m) {
                let head = text.subrange(0, p);
                assert forall|i: int| 0 <= i < head.len() implies !glob_character(
                    #[trigger] head[i],
                ) by {
                    assert(!glob_characters().contains(text[i]));
                    let g = glob_characters();
                    assert(g[0] == 0x2a && g[1] == 0x3f && g[2] == 0x5b && g[3] == 0x5c);
                    assert(g.contains(g[0]) && g.contains(g[1]) && g.contains(g[2]) && g.contains(
                        g[3],
                    ));
                }
                lemma_prefix_from(text, value, m, p, 0);
                assert forall|j: int| 0 <= j < p implies folded(m, #[trigger] head[j]) == folded(
                    m,
                    value[j],
                ) by {
                    assert(head[j] == text[j]);
                }
                if m.ignore_case {
                    assert(lowered(value).subrange(0, p) =~= lowered(head));
                } else {
                    assert(value.subrange(0, p) =~= head);
                }
            }
        },
    }
}

} // verus!
