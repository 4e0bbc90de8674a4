//! What two stars in a pattern match.
use crate::bytes::from;
use crate::git::pattern::{ends_folded, folded_seq, lemma_literal_from, lemma_prefix_from, lemma_seek_stops, literal};
use crate::git::wildmatch::{after_star, after_stars, folded, glob_character, matched_from, seek, star, star_tail, wild_matches, WildmatchMode, WildmatchResult, SLASH, STAR};
use vstd::prelude::*;

verus! {

/// What a star that matches slashes finds before a text without wildcards, from `t` on.
proof fn lemma_tail(pat: Seq<u8>, text: Seq<u8>, m: WildmatchMode, q: int, t: int)
    requires
        0 <= q < pat.len(),
        literal(from(pat, q)),
        0 <= t < text.len(),
    ensures
        star_tail(pat, text, m, 0, q, folded(m, pat[q]), true, t, folded(m, text[t]), t + 1)
            == WildmatchResult::Match <==> text.len() - t >= pat.len() - q && ends_folded(
            m,
            text,
            from(pat, q),
        ),
    decreases text.len() - t,
{
    let suf = from(pat, q);
    let c = folded(m, pat[q]);
    let t_ch = folded(m, text[t]);
    assert(suf[0] == pat[q]);
    assert(!glob_character(suf[0]));
    assert(!glob_character(c));
    lemma_seek_stops(text, m, c, true, t, t_ch, t + 1);
    let (i, ch, n) = seek(text, m, c, true, t, t_ch, t + 1);
    let s = text.len() - suf.len();
    if ends_folded(m, text, suf) && s >= t {
        assert(folded_seq(m, from(text, s))[0] == folded(m, text[s]));
        assert(folded_seq(m, suf)[0] == c);
        assert(i <= s);
    }
    if ch == c {
        lemma_literal_from(suf, from(text, i), m, 1, 0, 0);
        assert(from(suf, 0) =~= suf);
        assert(from(from(text, i), 0) =~= from(text, i));
        let res = matched_from(suf, from(text, i), m, 1, 0, 0, 0);
        if res == WildmatchResult::Match {
            assert(folded_seq(m, suf).len() == folded_seq(m, from(text, i)).len());
            assert(i == s);
        } else {
            if ends_folded(m, text, suf) {
                assert(i != s);
            }
            if n < text.len() && res == WildmatchResult::NoMatch {
                lemma_tail(pat, text, m, q, n);
            }
        }
    }
}

/// The matcher passes over what is the same.
proof fn lemma_passed(pat: Seq<u8>, text: Seq<u8>, m: WildmatchMode, k: int, n: int)
    requires
        0 <= k <= n <= pat.len(),
        n <= text.len(),
        literal(pat.subrange(0, n)),
        forall|j: int| k <= j < n ==> folded(m, #[trigger] pat[j]) == folded(m, text[j]),
    ensures
        matched_from(pat, text, m, 0, 0, k, k) == matched_from(pat, text, m, 0, 0, n, n),
    decreases n - k,
{
    if k < n {
        assert(pat.subrange(0, n)[k] == pat[k]);
        assert(!glob_character(pat[k]));
        lemma_passed(pat, text, m, k + 1, n);
    }
}

/// The path begins with `dir`.
pub open spec fn is_in(m: WildmatchMode, text: Seq<u8>, dir: Seq<u8>) -> bool {
    dir.len() <= text.len() && folded_seq(m, text.subrange(0, dir.len() as int)) == folded_seq(m, dir)
}

proof fn lemma_is_in(m: WildmatchMode, text: Seq<u8>, pat: Seq<u8>, dir: Seq<u8>)
    requires
        dir.len() <= pat.len(),
        pat.subrange(0, dir.len() as int) == dir,
        literal(dir),
    ensures
        wild_matches(pat, text, m) ==> is_in(m, text, dir),
        is_in(m, text, dir) ==> (wild_matches(pat, text, m) <==> matched_from(
            pat,
            text,
            m,
            0,
            0,
            dir.len() as int,
            dir.len() as int,
        ) == WildmatchResult::Match),
{
    let n = dir.len() as int;
    assert forall|j: int| 0 <= j < n implies pat[j] == dir[j] by {
        assert(pat.subrange(0, n)[j] == pat[j]);
    }
    if wild_matches(pat, text, m) {
        lemma_prefix_from(pat, text, m, n, 0);
        assert(folded_seq(m, text.subrange(0, n)) =~= folded_seq(m, dir));
    }
    if is_in(m, text, dir) {
        assert forall|j: int| 0 <= j < n implies folded(m, #[trigger] pat[j]) == folded(m, text[j]) by {
            assert(folded_seq(m, text.subrange(0, n))[j] == folded(m, text[j]));
            assert(folded_seq(m, dir)[j] == folded(m, dir[j]));
        }
        lemma_passed(pat, text, m, 0, n);
    }
}

/// `dir` is nothing, or ends with a slash.
pub open spec fn a_directory(dir: Seq<u8>) -> bool {
    dir.len() == 0 || dir.last() == SLASH
}

/// Two stars at the end match everything below a directory.
pub proof fn law_two_stars_match_what_is_below(dir: Seq<u8>, text: Seq<u8>, m: WildmatchMode)
    requires
        m.no_match_slash_literal,
        literal(dir),
        a_directory(dir),
    ensures
        wild_matches(dir + seq![STAR, STAR], text, m) <==> is_in(m, text, dir),
{
    let pat = dir + seq![STAR, STAR];
    let n = dir.len() as int;
    assert(pat.subrange(0, n) =~= dir);
    lemma_is_in(m, text, pat, dir);
    if is_in(m, text, dir) {
        assert(pat[n] == STAR && pat[n + 1] == STAR);
        assert(n > 0 ==> pat[n - 1] == dir.last());
        assert(after_stars(pat, n + 2) == n + 2);
        let (ch, next) = if n < text.len() {
            (folded(m, text[n]), n + 1)
        } else {
            (0u8, n)
        };
        assert(matched_from(pat, text, m, 0, 0, n, n) == star(pat, text, m, 0, 0, n, n, ch, next));
        assert(star(pat, text, m, 0, 0, n, n, ch, next) == after_star(
            pat,
            text,
            m,
            0,
            0,
            n + 2,
            true,
            n,
            ch,
            next,
        ));
    }
}

/// Two stars between slashes match any number of directories, and none: the path is in `dir`
/// and ends with `name`, as whole components.
pub proof fn law_two_stars_match_any_depth(dir: Seq<u8>, name: Seq<u8>, text: Seq<u8>, m: WildmatchMode)
    requires
        m.no_match_slash_literal,
        literal(dir),
        a_directory(dir),
        literal(name),
        name.len() > 0,
    ensures
        wild_matches(dir + seq![STAR, STAR, SLASH] + name, text, m) <==> ({
            let s = text.len() - name.len();
            &&& is_in(m, text, dir)
            &&& dir.len() <= s
            &&& folded_seq(m, from(text, s)) == folded_seq(m, name)
            &&& s == dir.len() || (s > dir.len() && text[s - 1] == SLASH)
        }),
{
    let pat = dir + seq![STAR, STAR, SLASH] + name;
    let n = dir.len() as int;
    assert(pat.subrange(0, n) =~= dir);
    lemma_is_in(m, text, pat, dir);
    assert(pat[n] == STAR && pat[n + 1] == STAR && pat[n + 2] == SLASH);
    assert(n > 0 ==> pat[n - 1] == dir.last());
    assert(after_stars(pat, n + 2) == n + 2);
    let suf = from(pat, n + 2);
    assert(suf =~= seq![SLASH] + name);
    assert(literal(suf)) by {
        assert forall|i: int| 0 <= i < suf.len() implies !glob_character(#[trigger] suf[i]) by {
            if i > 0 {
                assert(suf[i] == name[i - 1]);
            }
        }
    }
    assert(from(pat, n + 3) =~= name);
    let s = text.len() - name.len();
    if is_in(m, text, dir) {
        let rest = from(text, n);
        lemma_literal_from(name, rest, m, 1, 0, 0);
        assert(from(name, 0) =~= name);
        assert(from(rest, 0) =~= rest);
        let near = matched_from(name, rest, m, 1, 0, 0, 0) == WildmatchResult::Match;
        assert(near <==> folded_seq(m, name) == folded_seq(m, rest));
        if near {
            assert(folded_seq(m, name).len() == folded_seq(m, rest).len());
        }
        let (ch, next) = if n < text.len() {
            (folded(m, text[n]), n + 1)
        } else {
            (0u8, n)
        };
        let r = matched_from(pat, text, m, 0, 0, n, n);
        assert(r == star(pat, text, m, 0, 0, n, n, ch, next));
        let after = after_star(pat, text, m, 0, 0, n + 2, true, n, ch, next);
        assert(r == WildmatchResult::Match <==> near || after == WildmatchResult::Match);
        let tail = star_tail(pat, text, m, 0, n + 2, SLASH, true, n, ch, next);
        assert(after == tail);
        if n < text.len() {
            lemma_tail(pat, text, m, n + 2, n);
            lemma_component_end(m, text, name);
        } else {
            assert(tail == WildmatchResult::AbortAll);
        }
    }
}

proof fn lemma_component_end(m: WildmatchMode, text: Seq<u8>, name: Seq<u8>)
    ensures
        ends_folded(m, text, seq![SLASH] + name) <==> ({
            let s = text.len() - name.len();
            s >= 1 && text[s - 1] == SLASH && folded_seq(m, from(text, s)) == folded_seq(m, name)
        }),
{
    let suf = seq![SLASH] + name;
    let s = text.len() - name.len();
    if s >= 1 {
        let a = folded_seq(m, from(text, s - 1));
        let b = folded_seq(m, suf);
        let x = folded_seq(m, from(text, s));
        let y = folded_seq(m, name);
        assert(a =~= seq![folded(m, text[s - 1])] + x);
        assert(b =~= seq![SLASH] + y);
        assert(a[0] == folded(m, text[s - 1]));
        assert(b[0] == SLASH);
        if a == b {
            assert(x =~= a.subrange(1, a.len() as int));
            assert(y =~= b.subrange(1, b.len() as int));
        }
    }
}

} // verus!
