//! Shell wildcard matching as git does it: `?`, `*`, `**` and bracket expressions.
use crate::ascii::{alphabetic, alphanumeric, control, digit, graphic, hex_digit, lower, punctuation, to_lower, to_upper, upper, whitespace};
use crate::ascii::{is_alphabetic, is_alphanumeric, is_control, is_digit, is_graphic, is_hex_digit, is_lower, is_punctuation, is_upper, is_whitespace, lower_byte, upper_byte};
use crate::bytes::{contains_byte, eq_bytes, from, lemma_pos_of, lit, pos_of};
use vstd::prelude::*;

verus! {

pub const STAR: u8 = 0x2a;

pub const BACKSLASH: u8 = 0x5c;

pub const SLASH: u8 = 0x2f;

pub const BRACKET_OPEN: u8 = 0x5b;

pub const BRACKET_CLOSE: u8 = 0x5d;

pub const COLON: u8 = 0x3a;

pub const NEGATE_CLASS: u8 = 0x21;

/// How deep the matcher follows `*` before it gives up.
pub const RECURSION_LIMIT: usize = 64;

/// How a pattern is matched.
#[derive(Clone, Copy, Debug, Default, PartialEq, Eq, Structural)]
pub struct WildmatchMode {
    /// `*` and `?` do not match a slash.
    pub no_match_slash_literal: bool,
    /// Letters of either case are the same.
    pub ignore_case: bool,
}

/// What the matcher found.
#[derive(Clone, Copy, Debug, PartialEq, Eq, Structural)]
pub enum WildmatchResult {
    Match,
    NoMatch,
    /// No later start of the text can match either.
    AbortAll,
    /// Only a `**` further out can still match.
    AbortToStarStar,
    RecursionLimitReached,
}

/// The byte that `c` stands for under `m`.
pub open spec fn folded(m: WildmatchMode, c: u8) -> u8 {
    if m.ignore_case {
        to_lower(c)
    } else {
        c
    }
}

/// One of `*`, `?`, `[` and the backslash.
pub open spec fn glob_character(c: u8) -> bool {
    c == STAR || c == '?' as u8 || c == BRACKET_OPEN || c == BACKSLASH
}

/// What a bracket expression comes to.
pub enum ClassEnd {
    /// The expression is not closed, or names an unknown class.
    Abort,
    /// The expression ended: reading goes on at `base + k`.
    End { base: int, k: int, matched: bool },
}

/// Whether the range from `lo` to `hi` holds `t`.
pub open spec fn in_class_range(m: WildmatchMode, lo: u8, hi: u8, t: u8) -> bool {
    let u = to_upper(t);
    ||| lo <= t <= hi
    ||| m.ignore_case && lower(t) && to_upper(lo) <= u <= to_upper(hi)
    ||| m.ignore_case && lower(t) && to_upper(hi) <= u <= to_upper(lo)
}

/// Whether the named class `class` holds `t`; `None` where there is no such class.
pub open spec fn named_class(m: WildmatchMode, class: Seq<u8>, t: u8) -> Option<bool> {
    if class == lit("alnum") {
        Some(alphanumeric(t))
    } else if class == lit("alpha") {
        Some(alphabetic(t))
    } else if class == lit("blank") {
        Some(whitespace(t))
    } else if class == lit("cntrl") {
        Some(control(t))
    } else if class == lit("digit") {
        Some(digit(t))
    } else if class == lit("graph") {
        Some(graphic(t))
    } else if class == lit("lower") {
        Some(lower(t))
    } else if class == lit("print") {
        Some(0x20 <= t <= 0x7e)
    } else if class == lit("punct") {
        Some(punctuation(t))
    } else if class == lit("space") {
        Some(t == ' ' as u8)
    } else if class == lit("upper") {
        Some(upper(t) || m.ignore_case && lower(t))
    } else if class == lit("xdigit") {
        Some(hex_digit(t))
    } else {
        None
    }
}

/// The members of a bracket expression from the one at `base + k` on, tested against `t`.
///
/// `prev` is the member before, 0 where none can begin a range. A `[:` that names no class
/// is read again from the position `k + ofs` as a plain bracket.
pub open spec fn class_members(
    pat: Seq<u8>,
    m: WildmatchMode,
    t: u8,
    base: int,
    k: int,
    prev: u8,
    matched: bool,
    ofs: int,
) -> ClassEnd
    decreases 2 * pat.len() + 1 - ofs, 2 * (pat.len() - (base + k)),
    when 0 <= ofs <= 2 * pat.len() && 0 <= base && 0 <= k && (k >= 1 || ofs >= 1) && base + k <= pat.len()
{
    let p = base + k;
    if p >= pat.len() {
        ClassEnd::Abort
    } else {
        let p_idx = k + ofs;
        let c = folded(m, pat[p]);
        if c == BACKSLASH {
            if p + 1 >= pat.len() {
                ClassEnd::Abort
            } else {
                let e = folded(m, pat[p + 1]);
                class_next(
                    pat,
                    m,
                    t,
                    base,
                    k + 2,
                    if e == t {
                        prev
                    } else {
                        e
                    },
                    matched || e == t,
                    ofs,
                )
            }
        } else if c == '-' as u8 && prev != 0 && p + 1 < pat.len() && folded(m, pat[p + 1])
            != BRACKET_CLOSE {
            let e = folded(m, pat[p + 1]);
            if e == BACKSLASH {
                if p + 2 >= pat.len() {
                    ClassEnd::Abort
                } else {
                    let e = folded(m, pat[p + 2]);
                    class_next(pat, m, t, base, k + 3, 0, matched || in_class_range(m, prev, e, t), ofs)
                }
            } else {
                class_next(pat, m, t, base, k + 2, 0, matched || in_class_range(m, prev, e, t), ofs)
            }
        } else if c == BRACKET_OPEN && p + 1 < pat.len() && folded(m, pat[p + 1]) == COLON {
            let closing = pos_of(pat, BRACKET_CLOSE, p + 2) - base;
            proof {
                lemma_pos_of(pat, BRACKET_CLOSE, p + 2);
            }
            if base + closing >= pat.len() {
                ClassEnd::Abort
            } else if closing - p_idx < 3 || pat[closing - 1] != COLON {
                if p_idx > pat.len() {
                    ClassEnd::Abort
                } else {
                    class_next(pat, m, t, p_idx, 0, prev, matched || t == BRACKET_OPEN, ofs + p_idx)
                }
            } else {
                match named_class(m, pat.subrange(p_idx + 2, closing - 1), t) {
                    None => ClassEnd::Abort,
                    Some(hit) => class_next(pat, m, t, base, closing + 1, 0, matched || hit, ofs),
                }
            }
        } else {
            class_next(pat, m, t, base, k + 1, c, matched || c == t, ofs)
        }
    }
}

/// Ends the bracket expression at `base + k`, or reads the member that stands there.
pub open spec fn class_next(
    pat: Seq<u8>,
    m: WildmatchMode,
    t: u8,
    base: int,
    k: int,
    prev: u8,
    matched: bool,
    ofs: int,
) -> ClassEnd
    decreases 2 * pat.len() + 1 - ofs, 2 * (pat.len() - (base + k)) + 1,
    when 0 <= ofs <= 2 * pat.len() && 0 <= base && 0 <= k && (k >= 1 || ofs >= 1) && base + k <= pat.len()
{
    if base + k < pat.len() && pat[base + k] == BRACKET_CLOSE {
        ClassEnd::End { base, k: k + 1, matched }
    } else {
        class_members(pat, m, t, base, k, prev, matched, ofs)
    }
}

/// The bracket expression that opens at `base + k`, tested against `t`: where it ends, and
/// whether it holds `t`.
pub open spec fn bracket(pat: Seq<u8>, m: WildmatchMode, t: u8, base: int, k: int) -> ClassEnd {
    if base + k + 1 >= pat.len() {
        ClassEnd::Abort
    } else {
        let c = folded(m, pat[base + k + 1]);
        if c == NEGATE_CLASS || c == '^' as u8 {
            match class_members(pat, m, t, base, k + 2, 0, false, 0) {
                ClassEnd::Abort => ClassEnd::Abort,
                ClassEnd::End { base, k, matched } => ClassEnd::End { base, k, matched: !matched },
            }
        } else {
            class_members(pat, m, t, base, k + 1, 0, false, 0)
        }
    }
}

/// The first position of `pat` at or after `i` that holds no `*`, or its length.
pub open spec fn after_stars(pat: Seq<u8>, i: int) -> int
    decreases pat.len() - i,
{
    if i >= pat.len() {
        pat.len() as int
    } else if pat[i] == STAR {
        after_stars(pat, i + 1)
    } else {
        i
    }
}

/// What a `*` at the end of a pattern comes to on the rest of a text.
pub open spec fn final_star(match_slash: bool, rest: Seq<u8>) -> WildmatchResult {
    if !match_slash && rest.contains(SLASH) {
        WildmatchResult::AbortToStarStar
    } else {
        WildmatchResult::Match
    }
}

/// Goes forward in the text to the next byte `c`, and no further than a slash where
/// `match_slash` is false. The triple is the position of the byte at hand, that byte, and
/// the position of the byte after it.
pub open spec fn seek(
    text: Seq<u8>,
    m: WildmatchMode,
    c: u8,
    match_slash: bool,
    t_idx: int,
    t_ch: u8,
    t_next: int,
) -> (int, u8, int)
    decreases text.len() - t_next,
{
    if (!match_slash && t_ch == SLASH) || t_ch == c || t_next >= text.len() {
        (t_idx, t_ch, t_next)
    } else {
        seek(text, m, c, match_slash, t_next, folded(m, text[t_next]), t_next + 1)
    }
}

/// What `pat` from `base + k` on finds in `text` from `t` on, `depth` stars deep.
///
/// Positions that the pattern is cut at are counted from `base`, which is 0 unless a bracket
/// expression was read again.
pub open spec fn matched_from(
    pat: Seq<u8>,
    text: Seq<u8>,
    m: WildmatchMode,
    depth: int,
    base: int,
    k: int,
    t: int,
) -> WildmatchResult
    decreases RECURSION_LIMIT - depth, 2 * (text.len() - t), 4int,
    when 0 <= t <= text.len()
{
    let p = base + k;
    if depth >= RECURSION_LIMIT {
        WildmatchResult::RecursionLimitReached
    } else if p >= pat.len() {
        if t < text.len() {
            WildmatchResult::NoMatch
        } else {
            WildmatchResult::Match
        }
    } else if t >= text.len() {
        if pat[p] == STAR {
            star(pat, text, m, depth, base, k, text.len() as int, 0, text.len() as int)
        } else {
            WildmatchResult::AbortAll
        }
    } else {
        let c = folded(m, pat[p]);
        let t_ch = folded(m, text[t]);
        if c == BACKSLASH {
            if p + 1 < pat.len() && folded(m, pat[p + 1]) == t_ch {
                matched_from(pat, text, m, depth, base, k + 2, t + 1)
            } else {
                WildmatchResult::NoMatch
            }
        } else if c == '?' as u8 {
            if m.no_match_slash_literal && t_ch == SLASH {
                WildmatchResult::NoMatch
            } else {
                matched_from(pat, text, m, depth, base, k + 1, t + 1)
            }
        } else if c == STAR {
            star(pat, text, m, depth, base, k, t, t_ch, t + 1)
        } else if c == BRACKET_OPEN {
            match bracket(pat, m, t_ch, base, k) {
                ClassEnd::Abort => WildmatchResult::AbortAll,
                ClassEnd::End { base, k, matched } => if matched && !(m.no_match_slash_literal
                    && t_ch == SLASH) {
                    matched_from(pat, text, m, depth, base, k, t + 1)
                } else {
                    WildmatchResult::NoMatch
                },
            }
        } else if c == t_ch {
            matched_from(pat, text, m, depth, base, k + 1, t + 1)
        } else {
            WildmatchResult::NoMatch
        }
    }
}

/// A `**` stands alone between slashes or ends of the pattern: the star is at `k`, and what
/// follows the stars at `base + q`.
pub open spec fn double_star_alone(pat: Seq<u8>, base: int, k: int, q: int) -> bool {
    &&& k == 0 || pat[k - 1] == SLASH
    &&& base + q >= pat.len() || pat[base + q] == SLASH || (pat[base + q] == BACKSLASH && base + q
        + 1 < pat.len() && pat[base + q + 1] == SLASH)
}

/// What a `*` at `base + k` finds, with the text at hand at `t_idx`, holding `t_ch`, and
/// read on from `t_next`.
pub open spec fn star(
    pat: Seq<u8>,
    text: Seq<u8>,
    m: WildmatchMode,
    depth: int,
    base: int,
    k: int,
    t_idx: int,
    t_ch: u8,
    t_next: int,
) -> WildmatchResult
    decreases RECURSION_LIMIT - depth, to_try(text, t_idx, t_next), 3int,
    when 0 <= t_idx <= t_next <= text.len() && t_next <= t_idx + 1
{
    let p = base + k;
    if depth >= RECURSION_LIMIT {
        WildmatchResult::RecursionLimitReached
    } else if p + 1 >= pat.len() {
        final_star(!m.no_match_slash_literal, from(text, t_idx))
    } else if pat[p + 1] == STAR {
        let q = after_stars(pat, p + 2) - base;
        if !m.no_match_slash_literal {
            after_star(pat, text, m, depth, base, q, true, t_idx, t_ch, t_next)
        } else if double_star_alone(pat, base, k, q) {
            if base + q < pat.len() && matched_from(
                from(pat, q + 1),
                from(text, t_idx),
                m,
                depth + 1,
                0,
                0,
                0,
            ) == WildmatchResult::Match {
                WildmatchResult::Match
            } else {
                after_star(pat, text, m, depth, base, q, true, t_idx, t_ch, t_next)
            }
        } else {
            after_star(pat, text, m, depth, base, q, false, t_idx, t_ch, t_next)
        }
    } else {
        after_star(pat, text, m, depth, base, k + 1, !m.no_match_slash_literal, t_idx, t_ch, t_next)
    }
}

/// What is found once the stars are read, where the pattern goes on at `base + q`.
pub open spec fn after_star(
    pat: Seq<u8>,
    text: Seq<u8>,
    m: WildmatchMode,
    depth: int,
    base: int,
    q: int,
    match_slash: bool,
    t_idx: int,
    t_ch: u8,
    t_next: int,
) -> WildmatchResult
    decreases RECURSION_LIMIT - depth, to_try(text, t_idx, t_next), 2int,
    when 0 <= t_idx <= t_next <= text.len() && t_next <= t_idx + 1
{
    if depth >= RECURSION_LIMIT {
        WildmatchResult::RecursionLimitReached
    } else if base + q >= pat.len() {
        final_star(match_slash, from(text, t_idx))
    } else {
        let c = folded(m, pat[base + q]);
        if !match_slash && c == SLASH {
            let slash = pos_of(text, SLASH, t_idx);
            if slash < text.len() {
                proof {
                    lemma_pos_of(text, SLASH, t_idx);
                }
                matched_from(pat, text, m, depth, base, q + 1, t_next + (slash - t_idx))
            } else {
                WildmatchResult::AbortAll
            }
        } else {
            star_tail(pat, text, m, depth, q, c, match_slash, t_idx, t_ch, t_next)
        }
    }
}

/// How much of the text a `*` has still to try.
pub open spec fn to_try(text: Seq<u8>, t_idx: int, t_next: int) -> int {
    if t_idx < text.len() {
        2 * (text.len() - t_next) + 1
    } else {
        0
    }
}

pub proof fn lemma_seek(
    text: Seq<u8>,
    m: WildmatchMode,
    c: u8,
    match_slash: bool,
    t_idx: int,
    t_ch: u8,
    t_next: int,
)
    requires
        0 <= t_idx <= t_next <= text.len(),
        t_next <= t_idx + 1,
    ensures
        ({
            let r = seek(text, m, c, match_slash, t_idx, t_ch, t_next);
            &&& t_idx <= r.0 <= r.2 <= text.len()
            &&& t_next <= r.2 <= r.0 + 1
        }),
    decreases text.len() - t_next,
{
    if !((!match_slash && t_ch == SLASH) || t_ch == c || t_next >= text.len()) {
        lemma_seek(text, m, c, match_slash, t_next, folded(m, text[t_next]), t_next + 1);
    }
}

/// Tries the pattern from `q` on, which begins with `c`, at the text at hand and at each
/// position after it.
pub open spec fn star_tail(
    pat: Seq<u8>,
    text: Seq<u8>,
    m: WildmatchMode,
    depth: int,
    q: int,
    c: u8,
    match_slash: bool,
    t_idx: int,
    t_ch: u8,
    t_next: int,
) -> WildmatchResult
    decreases RECURSION_LIMIT - depth, to_try(text, t_idx, t_next), 0int,
    when 0 <= t_idx <= t_next <= text.len() && t_next <= t_idx + 1 && depth < RECURSION_LIMIT
{
    let (i, ch, n) = if glob_character(c) {
        (t_idx, t_ch, t_next)
    } else {
        seek(text, m, c, match_slash, t_idx, t_ch, t_next)
    };
    if !glob_character(c) && ch != c {
        if match_slash {
            WildmatchResult::AbortAll
        } else {
            WildmatchResult::AbortToStarStar
        }
    } else {
        let res = matched_from(from(pat, q), from(text, i), m, depth + 1, 0, 0, 0);
        if res != WildmatchResult::NoMatch && (!match_slash || res
            != WildmatchResult::AbortToStarStar) {
            res
        } else if res == WildmatchResult::NoMatch && !match_slash && ch == SLASH {
            WildmatchResult::AbortToStarStar
        } else if n >= text.len() {
            WildmatchResult::AbortAll
        } else {
            proof {
                lemma_seek(text, m, c, match_slash, t_idx, t_ch, t_next);
            }
            star_tail(pat, text, m, depth, q, c, match_slash, n, folded(m, text[n]), n + 1)
        }
    }
}

/// The byte that `c` stands for under `mode`.
fn fold(mode: WildmatchMode, c: u8) -> (r: u8)
    ensures
        r == folded(mode, c),
{
    if mode.ignore_case {
        lower_byte(c)
    } else {
        c
    }
}

/// Whether `c` is one of `*`, `?`, `[` and the backslash.
pub fn is_glob_character(c: u8) -> (r: bool)
    ensures
        r == glob_character(c),
{
    c == STAR || c == '?' as u8 || c == BRACKET_OPEN || c == BACKSLASH
}

/// Whether the range from `lo` to `hi` holds `t`.
fn class_range_holds(mode: WildmatchMode, lo: u8, hi: u8, t: u8) -> (r: bool)
    ensures
        r == in_class_range(mode, lo, hi, t),
{
    if t <= hi && t >= lo {
        true
    } else if mode.ignore_case && is_lower(t) {
        let u: u8 = upper_byte(t);
        (u <= upper_byte(hi) && u >= upper_byte(lo)) || (u <= upper_byte(lo) && u >= upper_byte(hi))
    } else {
        false
    }
}

/// Whether the named class `class` holds `t`; `None` where there is no such class.
fn named_class_holds(mode: WildmatchMode, class: &[u8], t: u8) -> (r: Option<bool>)
    ensures
        r == named_class(mode, class@, t),
{
    if eq_bytes(class, "alnum".as_bytes()) {
        Some(is_alphanumeric(t))
    } else if eq_bytes(class, "alpha".as_bytes()) {
        Some(is_alphabetic(t))
    } else if eq_bytes(class, "blank".as_bytes()) {
        Some(is_whitespace(t))
    } else if eq_bytes(class, "cntrl".as_bytes()) {
        Some(is_control(t))
    } else if eq_bytes(class, "digit".as_bytes()) {
        Some(is_digit(t))
    } else if eq_bytes(class, "graph".as_bytes()) {
        Some(is_graphic(t))
    } else if eq_bytes(class, "lower".as_bytes()) {
        Some(is_lower(t))
    } else if eq_bytes(class, "print".as_bytes()) {
        Some(0x20 <= t && t <= 0x7e)
    } else if eq_bytes(class, "punct".as_bytes()) {
        Some(is_punctuation(t))
    } else if eq_bytes(class, "space".as_bytes()) {
        Some(t == ' ' as u8)
    } else if eq_bytes(class, "upper".as_bytes()) {
        Some(is_upper(t) || mode.ignore_case && is_lower(t))
    } else if eq_bytes(class, "xdigit".as_bytes()) {
        Some(is_hex_digit(t))
    } else {
        None
    }
}

/// Where a bracket expression ended, and whether it held the byte.
#[derive(Debug)]
pub struct ClassMatch {
    pub base: usize,
    pub k: usize,
    pub matched: bool,
}

/// `r` is what `end` says.
pub open spec fn class_match_is(r: Option<ClassMatch>, end: ClassEnd) -> bool {
    match end {
        ClassEnd::Abort => r is None,
        ClassEnd::End { base, k, matched } => r matches Some(c) && c.base == base && c.k == k
            && c.matched == matched,
    }
}

/// How far a bracket expression has been read: the next member stands at `base + k`.
struct ClassState {
    base: usize,
    k: usize,
    prev: u8,
    matched: bool,
    ofs: u128,
}

impl ClassState {
    spec fn wf(self, pat: Seq<u8>) -> bool {
        &&& self.base + self.k <= pat.len() <= usize::MAX
        &&& self.ofs <= 2 * pat.len()
        &&& self.k >= 1 || self.ofs >= 1
    }

    spec fn members(self, pat: Seq<u8>, m: WildmatchMode, t: u8) -> ClassEnd {
        class_members(
            pat,
            m,
            t,
            self.base as int,
            self.k as int,
            self.prev,
            self.matched,
            self.ofs as int,
        )
    }

    spec fn next(self, pat: Seq<u8>, m: WildmatchMode, t: u8) -> ClassEnd {
        class_next(
            pat,
            m,
            t,
            self.base as int,
            self.k as int,
            self.prev,
            self.matched,
            self.ofs as int,
        )
    }

    /// This state is later than `o`.
    spec fn after(self, o: ClassState, pat: Seq<u8>) -> bool {
        ||| self.ofs > o.ofs
        ||| self.ofs == o.ofs && self.base + self.k > o.base + o.k
    }
}

/// The first position of `s` at or after `i` that holds `b`, or the length of `s`.
fn position_from(s: &[u8], b: u8, i: usize) -> (r: usize)
    requires
        i <= s@.len(),
    ensures
        r == pos_of(s@, b, i as int),
        i <= r <= s@.len(),
{
    let mut j: usize = i;
    while j < s.len() && s[j] != b
        invariant
            i <= j <= s@.len(),
            pos_of(s@, b, i as int) == pos_of(s@, b, j as int),
        decreases s@.len() - j,
    {
        j = j + 1;
    }
    j
}

/// Reads a `[:` member of a bracket expression.
fn read_named_class(pattern: &[u8], mode: WildmatchMode, t: u8, s: ClassState) -> (r: Option<
    ClassState,
>)
    requires
        s.wf(pattern@),
        s.base + s.k + 1 < pattern@.len(),
        folded(mode, pattern@[s.base + s.k]) == BRACKET_OPEN,
        folded(mode, pattern@[s.base + s.k + 1]) == COLON,
    ensures
        r is None ==> s.members(pattern@, mode, t) is Abort,
        r matches Some(n) ==> n.wf(pattern@) && n.after(s, pattern@) && s.members(
            pattern@,
            mode,
            t,
        ) == n.next(pattern@, mode, t),
{
    let p: usize = s.base + s.k;
    let p_idx: u128 = s.k as u128 + s.ofs;
    let close: usize = position_from(pattern, BRACKET_CLOSE, p + 2);
    if close >= pattern.len() {
        return None;
    }
    let closing: usize = close - s.base;
    if (closing as u128) < p_idx + 3 || pattern[closing - 1] != COLON {
        if p_idx > pattern.len() as u128 {
            return None;
        }
        Some(
            ClassState {
                base: p_idx as usize,
                k: 0,
                prev: s.prev,
                matched: s.matched || t == BRACKET_OPEN,
                ofs: s.ofs + p_idx,
            },
        )
    } else {
        match named_class_holds(mode, &pattern[p_idx as usize + 2..closing - 1], t) {
            None => None,
            Some(hit) => Some(
                ClassState {
                    base: s.base,
                    k: closing + 1,
                    prev: 0,
                    matched: s.matched || hit,
                    ofs: s.ofs,
                },
            ),
        }
    }
}

/// Reads one member of a bracket expression.
fn read_class_member(pattern: &[u8], mode: WildmatchMode, t: u8, s: ClassState) -> (r: Option<
    ClassState,
>)
    requires
        s.wf(pattern@),
    ensures
        r is None ==> s.members(pattern@, mode, t) is Abort,
        r matches Some(n) ==> n.wf(pattern@) && n.after(s, pattern@) && s.members(
            pattern@,
            mode,
            t,
        ) == n.next(pattern@, mode, t),
{
    let len: usize = pattern.len();
    let p: usize = s.base + s.k;
    if p >= len {
        return None;
    }
    let c: u8 = fold(mode, pattern[p]);
    if c == BACKSLASH {
        if p + 1 >= len {
            return None;
        }
        let e: u8 = fold(mode, pattern[p + 1]);
        let prev: u8 = if e == t {
            s.prev
        } else {
            e
        };
        Some(
            ClassState {
                base: s.base,
                k: s.k + 2,
                prev,
                matched: s.matched || e == t,
                ofs: s.ofs,
            },
        )
    } else if c == '-' as u8 && s.prev != 0 && p + 1 < len && fold(mode, pattern[p + 1])
        != BRACKET_CLOSE {
        let mut e: u8 = fold(mode, pattern[p + 1]);
        let mut width: usize = 2;
        if e == BACKSLASH {
            if p + 2 >= len {
                return None;
            }
            e = fold(mode, pattern[p + 2]);
            width = 3;
        }
        let hit = class_range_holds(mode, s.prev, e, t);
        Some(
            ClassState {
                base: s.base,
                k: s.k + width,
                prev: 0,
                matched: s.matched || hit,
                ofs: s.ofs,
            },
        )
    } else if c == BRACKET_OPEN && p + 1 < len && fold(mode, pattern[p + 1]) == COLON {
        read_named_class(pattern, mode, t, s)
    } else {
        Some(
            ClassState {
                base: s.base,
                k: s.k + 1,
                prev: c,
                matched: s.matched || c == t,
                ofs: s.ofs,
            },
        )
    }
}

/// Reads the members of a bracket expression from `base + k` on against the byte `t`; `None`
/// where the expression is not closed or names an unknown class.
fn read_class_members(
    pattern: &[u8],
    mode: WildmatchMode,
    t: u8,
    base: usize,
    k: usize,
) -> (r: Option<ClassMatch>)
    requires
        base + k <= pattern@.len(),
        k >= 1,
    ensures
        class_match_is(r, class_members(pattern@, mode, t, base as int, k as int, 0, false, 0)),
        r matches Some(c) ==> c.base + c.k <= pattern@.len(),
{
    let len: usize = pattern.len();
    let mut s = ClassState { base, k, prev: 0, matched: false, ofs: 0 };
    loop
        invariant
            len == pattern@.len(),
            s.wf(pattern@),
            class_members(pattern@, mode, t, base as int, k as int, 0, false, 0) == s.members(
                pattern@,
                mode,
                t,
            ),
        decreases 2 * pattern@.len() + 1 - s.ofs, pattern@.len() - (s.base + s.k),
    {
        match read_class_member(pattern, mode, t, s) {
            None => {
                return None;
            },
            Some(n) => {
                if n.base + n.k < len && pattern[n.base + n.k] == BRACKET_CLOSE {
                    return Some(ClassMatch { base: n.base, k: n.k + 1, matched: n.matched });
                }
                s = n;
            },
        }
    }
}

/// Reads the bracket expression that opens at `base + k` against the byte `t`.
fn read_bracket(pattern: &[u8], mode: WildmatchMode, t: u8, base: usize, k: usize) -> (r: Option<
    ClassMatch,
>)
    requires
        base + k < pattern@.len(),
    ensures
        class_match_is(r, bracket(pattern@, mode, t, base as int, k as int)),
        r matches Some(c) ==> c.base + c.k <= pattern@.len(),
{
    let len: usize = pattern.len();
    let p: usize = base + k + 1;
    if p >= len {
        return None;
    }
    let c: u8 = fold(mode, pattern[p]);
    if c == NEGATE_CLASS || c == '^' as u8 {
        match read_class_members(pattern, mode, t, base, k + 2) {
            None => None,
            Some(c) => Some(ClassMatch { base: c.base, k: c.k, matched: !c.matched }),
        }
    } else {
        read_class_members(pattern, mode, t, base, k + 1)
    }
}

/// The text at hand: the byte `ch` at `idx`, read on from `next`.
#[derive(Clone, Copy, Debug)]
struct TextAt {
    idx: usize,
    ch: u8,
    next: usize,
}

impl TextAt {
    spec fn wf(self, text: Seq<u8>) -> bool {
        self.idx <= self.next <= text.len() && self.next <= self.idx + 1
    }
}

/// Goes forward to the next byte `c`, and no further than a slash where `match_slash` is
/// false.
fn seek_byte(text: &[u8], mode: WildmatchMode, c: u8, match_slash: bool, at: TextAt) -> (r: TextAt)
    requires
        at.wf(text@),
    ensures
        r.wf(text@),
        r.next >= at.next,
        (r.idx as int, r.ch, r.next as int) == seek(
            text@,
            mode,
            c,
            match_slash,
            at.idx as int,
            at.ch,
            at.next as int,
        ),
{
    let mut r = at;
    while !((!match_slash && r.ch == SLASH) || r.ch == c || r.next >= text.len())
        invariant
            r.wf(text@),
            r.next >= at.next,
            seek(text@, mode, c, match_slash, r.idx as int, r.ch, r.next as int) == seek(
                text@,
                mode,
                c,
                match_slash,
                at.idx as int,
                at.ch,
                at.next as int,
            ),
        decreases text@.len() - r.next,
    {
        r = TextAt { idx: r.next, ch: fold(mode, text[r.next]), next: r.next + 1 };
    }
    r
}

/// Tries the pattern from `q` on, which begins with `c`, at the text at hand and at each
/// position after it.
fn match_star_tail(
    pattern: &[u8],
    text: &[u8],
    mode: WildmatchMode,
    depth: usize,
    q: usize,
    c: u8,
    match_slash: bool,
    at: TextAt,
) -> (r: WildmatchResult)
    requires
        depth < RECURSION_LIMIT,
        q <= pattern@.len(),
        at.wf(text@),
    ensures
        r == star_tail(
            pattern@,
            text@,
            mode,
            depth as int,
            q as int,
            c,
            match_slash,
            at.idx as int,
            at.ch,
            at.next as int,
        ),
    decreases RECURSION_LIMIT - depth, 0int,
{
    let glob = is_glob_character(c);
    let mut cur = at;
    loop
        invariant
            depth < RECURSION_LIMIT,
            q <= pattern@.len(),
            cur.wf(text@),
            glob == glob_character(c),
            star_tail(
                pattern@,
                text@,
                mode,
                depth as int,
                q as int,
                c,
                match_slash,
                cur.idx as int,
                cur.ch,
                cur.next as int,
            ) == star_tail(
                pattern@,
                text@,
                mode,
                depth as int,
                q as int,
                c,
                match_slash,
                at.idx as int,
                at.ch,
                at.next as int,
            ),
        decreases to_try(text@, cur.idx as int, cur.next as int),
    {
        let hit = if glob {
            cur
        } else {
            seek_byte(text, mode, c, match_slash, cur)
        };
        if !glob && hit.ch != c {
            return if match_slash {
                WildmatchResult::AbortAll
            } else {
                WildmatchResult::AbortToStarStar
            };
        }
        let res = match_recursive(
            &pattern[q..pattern.len()],
            &text[hit.idx..text.len()],
            mode,
            depth + 1,
        );
        if res != WildmatchResult::NoMatch {
            if !match_slash || res != WildmatchResult::AbortToStarStar {
                return res;
            }
        } else if !match_slash && hit.ch == SLASH {
            return WildmatchResult::AbortToStarStar;
        }
        if hit.next >= text.len() {
            return WildmatchResult::AbortAll;
        }
        cur = TextAt { idx: hit.next, ch: fold(mode, text[hit.next]), next: hit.next + 1 };
    }
}

/// What to do once the stars are read.
enum AfterStar {
    Done(WildmatchResult),
    /// Go on with the pattern at `base + k` and the text at `t`.
    Continue { k: usize, t: usize },
}

impl AfterStar {
    spec fn result(
        self,
        pat: Seq<u8>,
        text: Seq<u8>,
        m: WildmatchMode,
        depth: int,
        base: int,
    ) -> WildmatchResult {
        match self {
            AfterStar::Done(r) => r,
            AfterStar::Continue { k, t } => matched_from(
                pat,
                text,
                m,
                depth,
                base,
                k as int,
                t as int,
            ),
        }
    }
}

/// Decides what follows stars, where the pattern goes on at `base + q`.
fn match_after_star(
    pattern: &[u8],
    text: &[u8],
    mode: WildmatchMode,
    depth: usize,
    base: usize,
    q: usize,
    match_slash: bool,
    at: TextAt,
) -> (r: AfterStar)
    requires
        depth < RECURSION_LIMIT,
        base + q <= pattern@.len(),
        at.wf(text@),
    ensures
        r.result(pattern@, text@, mode, depth as int, base as int) == after_star(
            pattern@,
            text@,
            mode,
            depth as int,
            base as int,
            q as int,
            match_slash,
            at.idx as int,
            at.ch,
            at.next as int,
        ),
        r matches AfterStar::Continue { k, t } ==> base + k <= pattern@.len() && at.next <= t
            <= text@.len() && at.idx < text@.len(),
    decreases RECURSION_LIMIT - depth, 1int,
{
    let len: usize = pattern.len();
    if base + q >= len {
        if !match_slash && contains_byte(&text[at.idx..text.len()], SLASH) {
            return AfterStar::Done(WildmatchResult::AbortToStarStar);
        }
        return AfterStar::Done(WildmatchResult::Match);
    }
    let c: u8 = fold(mode, pattern[base + q]);
    if !match_slash && c == SLASH {
        let slash: usize = position_from(text, SLASH, at.idx);
        if slash < text.len() {
            AfterStar::Continue { k: q + 1, t: at.next + (slash - at.idx) }
        } else {
            AfterStar::Done(WildmatchResult::AbortAll)
        }
    } else {
        AfterStar::Done(match_star_tail(pattern, text, mode, depth, q, c, match_slash, at))
    }
}

/// The first position of `pattern` at or after `i` that holds no `*`, or its length.
fn skip_stars(pattern: &[u8], i: usize) -> (r: usize)
    requires
        i <= pattern@.len(),
    ensures
        r == after_stars(pattern@, i as int),
        i <= r <= pattern@.len(),
{
    let mut j: usize = i;
    while j < pattern.len() && pattern[j] == STAR
        invariant
            i <= j <= pattern@.len(),
            after_stars(pattern@, j as int) == after_stars(pattern@, i as int),
        decreases pattern@.len() - j,
    {
        j = j + 1;
    }
    j
}

/// Reads the stars that begin at `base + k` and decides what follows them.
fn match_star(
    pattern: &[u8],
    text: &[u8],
    mode: WildmatchMode,
    depth: usize,
    base: usize,
    k: usize,
    at: TextAt,
) -> (r: AfterStar)
    requires
        depth < RECURSION_LIMIT,
        base + k < pattern@.len(),
        at.wf(text@),
    ensures
        r.result(pattern@, text@, mode, depth as int, base as int) == star(
            pattern@,
            text@,
            mode,
            depth as int,
            base as int,
            k as int,
            at.idx as int,
            at.ch,
            at.next as int,
        ),
        r matches AfterStar::Continue { k, t } ==> base + k <= pattern@.len() && at.next <= t
            <= text@.len() && at.idx < text@.len(),
    decreases RECURSION_LIMIT - depth, 2int,
{
    let len: usize = pattern.len();
    let p: usize = base + k;
    let crosses_slash = !mode.no_match_slash_literal;
    if p + 1 >= len {
        return match_after_star(pattern, text, mode, depth, base, k + 1, crosses_slash, at);
    }
    if pattern[p + 1] != STAR {
        return match_after_star(pattern, text, mode, depth, base, k + 1, crosses_slash, at);
    }
    let next: usize = skip_stars(pattern, p + 2);
    let q: usize = next - base;
    if crosses_slash {
        return match_after_star(pattern, text, mode, depth, base, q, true, at);
    }
    let alone = (k == 0 || pattern[k - 1] == SLASH) && (next >= len || pattern[next] == SLASH || (
    pattern[next] == BACKSLASH && next + 1 < len && pattern[next + 1] == SLASH));
    if !alone {
        return match_after_star(pattern, text, mode, depth, base, q, false, at);
    }
    if next < len {
        let res = match_recursive(
            &pattern[q + 1..len],
            &text[at.idx..text.len()],
            mode,
            depth + 1,
        );
        if res == WildmatchResult::Match {
            return AfterStar::Done(WildmatchResult::Match);
        }
    }
    match_after_star(pattern, text, mode, depth, base, q, true, at)
}

/// Matches the whole of `pattern` against the whole of `text`, `depth` stars deep.
pub fn match_recursive(pattern: &[u8], text: &[u8], mode: WildmatchMode, depth: usize) -> (r:
    WildmatchResult)
    requires
        depth <= RECURSION_LIMIT,
    ensures
        r == matched_from(pattern@, text@, mode, depth as int, 0, 0, 0),
    decreases RECURSION_LIMIT - depth, 3int,
{
    if depth == RECURSION_LIMIT {
        return WildmatchResult::RecursionLimitReached;
    }
    let len: usize = pattern.len();
    let text_len: usize = text.len();
    let mut base: usize = 0;
    let mut k: usize = 0;
    let mut t: usize = 0;
    while base + k < len
        invariant
            depth < RECURSION_LIMIT,
            len == pattern@.len(),
            text_len == text@.len(),
            base + k <= len,
            t <= text_len,
            matched_from(pattern@, text@, mode, depth as int, base as int, k as int, t as int)
                == matched_from(pattern@, text@, mode, depth as int, 0, 0, 0),
        decreases text_len - t,
    {
        let c: u8 = fold(mode, pattern[base + k]);
        if t >= text_len && c != STAR {
            return WildmatchResult::AbortAll;
        }
        let at = if t < text_len {
            TextAt { idx: t, ch: fold(mode, text[t]), next: t + 1 }
        } else {
            TextAt { idx: text_len, ch: 0, next: text_len }
        };
        if c == BACKSLASH {
            if base + k + 1 >= len || fold(mode, pattern[base + k + 1]) != at.ch {
                return WildmatchResult::NoMatch;
            }
            k = k + 2;
            t = at.next;
        } else if c == '?' as u8 {
            if mode.no_match_slash_literal && at.ch == SLASH {
                return WildmatchResult::NoMatch;
            }
            k = k + 1;
            t = at.next;
        } else if c == STAR {
            match match_star(pattern, text, mode, depth, base, k, at) {
                AfterStar::Done(r) => {
                    return r;
                },
                AfterStar::Continue { k: k2, t: t2 } => {
                    k = k2;
                    t = t2;
                },
            }
        } else if c == BRACKET_OPEN {
            match read_bracket(pattern, mode, at.ch, base, k) {
                None => {
                    return WildmatchResult::AbortAll;
                },
                Some(end) => {
                    if !end.matched || (mode.no_match_slash_literal && at.ch == SLASH) {
                        return WildmatchResult::NoMatch;
                    }
                    base = end.base;
                    k = end.k;
                    t = at.next;
                },
            }
        } else {
            if c != at.ch {
                return WildmatchResult::NoMatch;
            }
            k = k + 1;
            t = at.next;
        }
    }
    if t < text_len {
        WildmatchResult::NoMatch
    } else {
        WildmatchResult::Match
    }
}

/// `pat` matches the whole of `text` under `m`.
pub open spec fn wild_matches(pat: Seq<u8>, text: Seq<u8>, m: WildmatchMode) -> bool {
    matched_from(pat, text, m, 0, 0, 0, 0) == WildmatchResult::Match
}

/// Whether `pattern` matches the whole of `value`.
pub fn wildmatch(pattern: &[u8], value: &[u8], mode: WildmatchMode) -> (r: bool)
    ensures
        r == wild_matches(pattern@, value@, mode),
{
    let res = match_recursive(pattern, value, mode, 0);
    res == WildmatchResult::Match
}

} // verus!
