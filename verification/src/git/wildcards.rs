//! What wildcard patterns mean.
use crate::bytes::{from, lemma_pos_of, pos_of};
use crate::git::wildmatch::{folded, glob_character, lemma_seek, matched_from, seek, star, star_tail, to_try, wild_matches};
use crate::git::wildmatch::{WildmatchMode, WildmatchResult, BACKSLASH, BRACKET_OPEN, RECURSION_LIMIT, SLASH, STAR};
use vstd::prelude::*;

verus! {

/// The pattern from `k` on has no bracket expressions, and no `**`.
pub open spec fn simple(pat: Seq<u8>, k: int) -> bool
    decreases pat.len() - k + 1,
{
    if k >= pat.len() {
        true
    } else if pat[k] == BACKSLASH {
        simple(pat, k + 2)
    } else if pat[k] == BRACKET_OPEN {
        false
    } else if pat[k] == STAR {
        (k + 1 >= pat.len() || pat[k + 1] != STAR) && simple(pat, k + 1)
    } else {
        simple(pat, k + 1)
    }
}

/// How many stars the pattern has from `k` on.
pub open spec fn stars(pat: Seq<u8>, k: int) -> nat
    decreases pat.len() - k + 1,
{
    if k >= pat.len() {
        0
    } else if pat[k] == BACKSLASH {
        stars(pat, k + 2)
    } else if pat[k] == STAR {
        1 + stars(pat, k + 1)
    } else {
        stars(pat, k + 1)
    }
}

/// A star can stand for the text from `a` to `b`.
pub open spec fn passable(m: WildmatchMode, text: Seq<u8>, a: int, b: int) -> bool {
    m.no_match_slash_literal ==> forall|i: int| a <= i < b ==> #[trigger] text[i] != SLASH
}

/// The pattern from `k` on matches the whole of the text from `t` on: `*` stands for any text and
/// `?` for any byte, both without slashes where these are kept apart, a byte behind a backslash
/// for itself, and every other byte for itself too.
pub open spec fn means(pat: Seq<u8>, text: Seq<u8>, m: WildmatchMode, k: int, t: int) -> bool
    decreases pat.len() - k + 1, text.len() - t,
{
    if k >= pat.len() {
        t == text.len()
    } else if pat[k] == BACKSLASH {
        k + 1 < pat.len() && t < text.len() && folded(m, pat[k + 1]) == folded(m, text[t]) && means(
            pat,
            text,
            m,
            k + 2,
            t + 1,
        )
    } else if pat[k] == '?' as u8 {
        t < text.len() && !(m.no_match_slash_literal && text[t] == SLASH) && means(pat, text, m, k + 1, t + 1)
    } else if pat[k] == STAR {
        means(pat, text, m, k + 1, t) || (t < text.len() && !(m.no_match_slash_literal && text[t] == SLASH)
            && means(pat, text, m, k, t + 1))
    } else {
        t < text.len() && folded(m, pat[k]) == folded(m, text[t]) && means(pat, text, m, k + 1, t + 1)
    }
}

/// What a result of the matcher says of the pattern from `k` on and the text from `t` on.
pub open spec fn tells(r: WildmatchResult, pat: Seq<u8>, text: Seq<u8>, m: WildmatchMode, k: int, t: int) -> bool {
    match r {
        WildmatchResult::Match => means(pat, text, m, k, t),
        WildmatchResult::NoMatch => !means(pat, text, m, k, t),
        WildmatchResult::AbortAll => forall|u: int|
            t <= u <= text.len() ==> !#[trigger] means(pat, text, m, k, u),
        WildmatchResult::AbortToStarStar => m.no_match_slash_literal && forall|u: int|
            t <= u <= text.len() && passable(m, text, t, u) ==> !#[trigger] means(pat, text, m, k, u),
        WildmatchResult::RecursionLimitReached => false,
    }
}

proof fn lemma_folded(m: WildmatchMode, c: u8)
    ensures
        folded(m, c) == SLASH <==> c == SLASH,
        folded(m, c) == STAR <==> c == STAR,
        folded(m, c) == BACKSLASH <==> c == BACKSLASH,
        folded(m, c) == BRACKET_OPEN <==> c == BRACKET_OPEN,
        folded(m, c) == '?' as u8 <==> c == '?' as u8,
        glob_character(folded(m, c)) == glob_character(c),
{
}

/// A star stands for the text up to where what follows it matches.
pub proof fn lemma_star_means(pat: Seq<u8>, text: Seq<u8>, m: WildmatchMode, k: int, t: int)
    requires
        0 <= k < pat.len(),
        pat[k] == STAR,
        0 <= t <= text.len(),
    ensures
        means(pat, text, m, k, t) <==> exists|j: int|
            t <= j <= text.len() && passable(m, text, t, j) && #[trigger] means(pat, text, m, k + 1, j),
    decreases text.len() - t,
{
    if t < text.len() {
        lemma_star_means(pat, text, m, k, t + 1);
    }
    if means(pat, text, m, k, t) {
        if means(pat, text, m, k + 1, t) {
            assert(passable(m, text, t, t));
        } else {
            let j = choose|j: int|
                t + 1 <= j <= text.len() && passable(m, text, t + 1, j) && #[trigger] means(pat, text, m, k + 1, j);
            assert(passable(m, text, t, j)) by {
                assert forall|x: int| t <= x < j && m.no_match_slash_literal implies #[trigger] text[x] != SLASH by {
                    if x > t {
                        assert(text[x] != SLASH);
                    }
                }
            }
        }
    }
    if exists|j: int|
        t <= j <= text.len() && passable(m, text, t, j) && #[trigger] means(pat, text, m, k + 1, j) {
        let j = choose|j: int|
            t <= j <= text.len() && passable(m, text, t, j) && #[trigger] means(pat, text, m, k + 1, j);
        if j > t {
            assert(m.no_match_slash_literal ==> text[t] != SLASH);
            assert(passable(m, text, t + 1, j));
        }
    }
}

proof fn lemma_cut(pat: Seq<u8>, text: Seq<u8>, m: WildmatchMode, q: int, i: int, a: int, b: int)
    requires
        0 <= q <= pat.len(),
        0 <= i <= text.len(),
        0 <= a,
        0 <= b <= text.len() - i,
    ensures
        means(from(pat, q), from(text, i), m, a, b) == means(pat, text, m, q + a, i + b),
        simple(from(pat, q), a) == simple(pat, q + a),
        stars(from(pat, q), a) == stars(pat, q + a),
    decreases pat.len() - q - a + 1, text.len() - i - b,
{
    let p = from(pat, q);
    let s = from(text, i);
    assert(p.len() == pat.len() - q);
    assert(s.len() == text.len() - i);
    if a < p.len() {
        assert(p[a] == pat[q + a]);
        assert(a + 1 < p.len() ==> p[a + 1] == pat[q + a + 1]);
        assert(b < s.len() ==> s[b] == text[i + b]);
        if b < s.len() {
            lemma_cut(pat, text, m, q, i, a + 1, b + 1);
            lemma_cut(pat, text, m, q, i, a + 2, b + 1);
        } else {
            lemma_cut(pat, text, m, q, i, a + 1, b);
            lemma_cut(pat, text, m, q, i, a + 2, b);
        }
        if pat[q + a] == STAR {
            lemma_cut(pat, text, m, q, i, a + 1, b);
            if b < s.len() {
                lemma_cut(pat, text, m, q, i, a, b + 1);
            }
        }
    }
}

/// Where `seek` stops, and what it passed.
proof fn lemma_seek_stops(text: Seq<u8>, m: WildmatchMode, c: u8, i: int, ch: u8, n: int)
    requires
        0 <= i <= text.len(),
        i < text.len() ==> n == i + 1 && ch == folded(m, text[i]),
        i == text.len() ==> n == i && ch == 0,
    ensures
        ({
            let match_slash = !m.no_match_slash_literal;
            let (i2, ch2, n2) = seek(text, m, c, match_slash, i, ch, n);
            &&& i <= i2 <= text.len()
            &&& i2 < text.len() ==> n2 == i2 + 1 && ch2 == folded(m, text[i2])
            &&& i2 == text.len() ==> i == i2 && n2 == n && ch2 == 0
            &&& forall|j: int| i <= j < i2 ==> folded(m, #[trigger] text[j]) != c
            &&& passable(m, text, i, i2)
            &&& (!match_slash && ch2 == SLASH) || ch2 == c || n2 >= text.len()
        }),
    decreases text.len() - n,
{
    let match_slash = !m.no_match_slash_literal;
    if !((!match_slash && ch == SLASH) || ch == c || n >= text.len()) {
        lemma_folded(m, text[i]);
        lemma_seek_stops(text, m, c, n, folded(m, text[n]), n + 1);
    }
}

/// What the matcher finds is what the pattern means.
proof fn lemma_matched(pat: Seq<u8>, text: Seq<u8>, m: WildmatchMode, depth: int, k: int, t: int)
    requires
        0 <= k,
        0 <= t <= text.len(),
        0 <= depth,
        simple(pat, k),
        depth + stars(pat, k) < RECURSION_LIMIT,
    ensures
        tells(matched_from(pat, text, m, depth, 0, k, t), pat, text, m, k, t),
    decreases RECURSION_LIMIT - depth, 2 * (text.len() - t), 4int,
{
    if k < pat.len() {
        lemma_folded(m, pat[k]);
        if t < text.len() {
            lemma_folded(m, text[t]);
        }
        if pat[k] == STAR {
            if t < text.len() {
                lemma_star(pat, text, m, depth, k, t, folded(m, text[t]), t + 1);
            } else {
                lemma_star(pat, text, m, depth, k, t, 0, t);
            }
        } else if t < text.len() {
            if pat[k] == BACKSLASH {
                if k + 1 < pat.len() && folded(m, pat[k + 1]) == folded(m, text[t]) {
                    lemma_matched(pat, text, m, depth, k + 2, t + 1);
                    lemma_passed_on(pat, text, m, depth, k, k + 2, t);
                }
            } else if pat[k] == '?' as u8 {
                if !(m.no_match_slash_literal && text[t] == SLASH) {
                    lemma_matched(pat, text, m, depth, k + 1, t + 1);
                    lemma_passed_on(pat, text, m, depth, k, k + 1, t);
                }
            } else if folded(m, pat[k]) == folded(m, text[t]) {
                lemma_matched(pat, text, m, depth, k + 1, t + 1);
                lemma_passed_on(pat, text, m, depth, k, k + 1, t);
            }
        } else {
            assert forall|u: int| t <= u <= text.len() implies !#[trigger] means(pat, text, m, k, u) by {}
        }
    }
}

/// What is found after one byte was matched holds of the pattern with that byte.
proof fn lemma_passed_on(pat: Seq<u8>, text: Seq<u8>, m: WildmatchMode, depth: int, k: int, next: int, t: int)
    requires
        0 <= k < pat.len(),
        0 <= t < text.len(),
        pat[k] != STAR && pat[k] != BRACKET_OPEN,
        next == (if pat[k] == BACKSLASH {
            k + 2
        } else {
            k + 1
        }),
        pat[k] == BACKSLASH ==> k + 1 < pat.len() && folded(m, pat[k + 1]) == folded(m, text[t]),
        pat[k] == '?' as u8 ==> !(m.no_match_slash_literal && text[t] == SLASH),
        pat[k] != BACKSLASH && pat[k] != '?' as u8 ==> folded(m, pat[k]) == folded(m, text[t]),
        tells(matched_from(pat, text, m, depth, 0, next, t + 1), pat, text, m, next, t + 1),
    ensures
        tells(matched_from(pat, text, m, depth, 0, next, t + 1), pat, text, m, k, t),
{
    let r = matched_from(pat, text, m, depth, 0, next, t + 1);
    if r is AbortAll {
        assert forall|u: int| t <= u <= text.len() implies !#[trigger] means(pat, text, m, k, u) by {
            if means(pat, text, m, k, u) {
                assert(means(pat, text, m, next, u + 1));
            }
        }
    }
    if r is AbortToStarStar {
        assert forall|u: int| t <= u <= text.len() && passable(m, text, t, u) implies !#[trigger] means(
            pat,
            text,
            m,
            k,
            u,
        ) by {
            if means(pat, text, m, k, u) {
                lemma_folded(m, text[u]);
                lemma_folded(m, text[t]);
                if u > t && text[u] == SLASH {
                    // The byte that stands for itself is a slash, and the text begins with it.
                    assert(text[t] == SLASH);
                    assert(false);
                }
                assert(passable(m, text, t + 1, u + 1)) by {
                    assert forall|x: int| t + 1 <= x < u + 1 && m.no_match_slash_literal implies #[trigger] text[x]
                        != SLASH by {
                        if u > t {
                            assert(text[x] != SLASH);
                        }
                    }
                }
                assert(means(pat, text, m, next, u + 1));
            }
        }
    }
}

/// What a star finds is what it means.
proof fn lemma_star(pat: Seq<u8>, text: Seq<u8>, m: WildmatchMode, depth: int, k: int, t: int, ch: u8, n: int)
    requires
        0 <= k < pat.len(),
        pat[k] == STAR,
        0 <= t <= text.len(),
        0 <= depth,
        simple(pat, k),
        depth + stars(pat, k) < RECURSION_LIMIT,
        t < text.len() ==> n == t + 1 && ch == folded(m, text[t]),
        t == text.len() ==> n == t && ch == 0,
    ensures
        tells(star(pat, text, m, depth, 0, k, t, ch, n), pat, text, m, k, t),
    decreases RECURSION_LIMIT - depth, to_try(text, t, n), 3int,
{
    let kept_apart = m.no_match_slash_literal;
    let q = k + 1;
    let rest = from(text, t);
    if q >= pat.len() {
        if kept_apart && rest.contains(SLASH) {
            let s = choose|s: int| 0 <= s < rest.len() && rest[s] == SLASH;
            assert(text[t + s] == SLASH);
            assert forall|u: int| t <= u <= text.len() && passable(m, text, t, u) implies !#[trigger] means(
                pat,
                text,
                m,
                k,
                u,
            ) by {
                if means(pat, text, m, k, u) {
                    lemma_star_means(pat, text, m, k, u);
                    let j = choose|j: int|
                        u <= j <= text.len() && passable(m, text, u, j) && #[trigger] means(pat, text, m, q, j);
                    assert(j == text.len());
                    assert(u <= t + s);
                    assert(text[t + s] != SLASH);
                }
            }
        } else {
            lemma_star_means(pat, text, m, k, t);
            assert(means(pat, text, m, q, text.len() as int));
            assert(passable(m, text, t, text.len() as int)) by {
                assert forall|i: int| t <= i < text.len() && kept_apart implies #[trigger] text[i] != SLASH by {
                    assert(rest[i - t] == text[i]);
                }
            }
        }
    } else {
        let c = folded(m, pat[q]);
        lemma_folded(m, pat[q]);
        if kept_apart && c == SLASH {
            let slash = pos_of(text, SLASH, t);
            lemma_pos_of(text, SLASH, t);
            if slash < text.len() {
                assert(simple(pat, q) && stars(pat, q) == stars(pat, q + 1));
                lemma_matched(pat, text, m, depth, q + 1, slash + 1);
                lemma_slash_after_star(pat, text, m, depth, k, t);
            } else {
                assert forall|u: int| t <= u <= text.len() implies !#[trigger] means(pat, text, m, k, u) by {
                    if means(pat, text, m, k, u) {
                        lemma_star_means(pat, text, m, k, u);
                        let j = choose|j: int|
                            u <= j <= text.len() && passable(m, text, u, j) && #[trigger] means(
                                pat,
                                text,
                                m,
                                q,
                                j,
                            );
                        lemma_folded(m, text[j]);
                        assert(text[j] == SLASH);
                    }
                }
            }
        } else {
            lemma_tail(pat, text, m, depth, k, t, t, ch, n);
        }
    }
}

/// What is found behind the slash that a star stops at holds of the star.
proof fn lemma_slash_after_star(pat: Seq<u8>, text: Seq<u8>, m: WildmatchMode, depth: int, k: int, t: int)
    requires
        0 <= k,
        k + 1 < pat.len(),
        pat[k] == STAR,
        pat[k + 1] == SLASH,
        m.no_match_slash_literal,
        0 <= t <= text.len(),
        pos_of(text, SLASH, t) < text.len(),
        tells(
            matched_from(pat, text, m, depth, 0, k + 2, pos_of(text, SLASH, t) + 1),
            pat,
            text,
            m,
            k + 2,
            pos_of(text, SLASH, t) + 1,
        ),
    ensures
        tells(
            matched_from(pat, text, m, depth, 0, k + 2, pos_of(text, SLASH, t) + 1),
            pat,
            text,
            m,
            k,
            t,
        ),
{
    let slash = pos_of(text, SLASH, t);
    let r = matched_from(pat, text, m, depth, 0, k + 2, slash + 1);
    lemma_pos_of(text, SLASH, t);
    assert(text[slash] == SLASH);
    assert(passable(m, text, t, slash));
    // The star reaches up to a slash, and no further.
    assert forall|u: int| t <= u <= text.len() && #[trigger] means(pat, text, m, k, u) implies exists|j: int|
        u <= j < text.len() && j >= slash && passable(m, text, u, j) && text[j] == SLASH && #[trigger] means(
            pat,
            text,
            m,
            k + 2,
            j + 1,
        ) by {
        lemma_star_means(pat, text, m, k, u);
        let j = choose|j: int|
            u <= j <= text.len() && passable(m, text, u, j) && #[trigger] means(pat, text, m, k + 1, j);
        lemma_folded(m, text[j]);
        lemma_folded(m, pat[k + 1]);
        assert(means(pat, text, m, k + 2, j + 1));
        assert(j >= slash);
    }
    match r {
        WildmatchResult::Match => {
            lemma_star_means(pat, text, m, k, t);
            assert(means(pat, text, m, k + 1, slash));
        },
        WildmatchResult::NoMatch => {
            if means(pat, text, m, k, t) {
                let j = choose|j: int|
                    t <= j < text.len() && j >= slash && passable(m, text, t, j) && text[j] == SLASH
                        && #[trigger] means(pat, text, m, k + 2, j + 1);
                if j > slash {
                    assert(text[slash] != SLASH);
                }
            }
        },
        WildmatchResult::AbortAll => {
            assert forall|u: int| t <= u <= text.len() implies !#[trigger] means(pat, text, m, k, u) by {
                if means(pat, text, m, k, u) {
                    lemma_star_means(pat, text, m, k, u);
                    let j = choose|j: int|
                        u <= j < text.len() && j >= slash && passable(m, text, u, j) && text[j] == SLASH
                            && #[trigger] means(pat, text, m, k + 2, j + 1);
                    assert(!means(pat, text, m, k + 2, j + 1));
                }
            }
        },
        WildmatchResult::AbortToStarStar => {
            assert forall|u: int| t <= u <= text.len() && passable(m, text, t, u) implies !#[trigger] means(
                pat,
                text,
                m,
                k,
                u,
            ) by {
                if means(pat, text, m, k, u) {
                    lemma_star_means(pat, text, m, k, u);
                    let j = choose|j: int|
                        u <= j < text.len() && j >= slash && passable(m, text, u, j) && text[j] == SLASH
                            && #[trigger] means(pat, text, m, k + 2, j + 1);
                    assert(u <= slash) by {
                        if u > slash {
                            assert(text[slash] != SLASH);
                        }
                    }
                    if j > slash {
                        assert(text[slash] != SLASH);
                    }
                    assert(passable(m, text, slash + 1, slash + 1));
                    assert(!means(pat, text, m, k + 2, slash + 1));
                }
            }
        },
        WildmatchResult::RecursionLimitReached => {},
    }
}

/// Trying what follows a star at one position after the other finds what the star means. Nothing
/// matched from `t` to `i`.
proof fn lemma_tail(
    pat: Seq<u8>,
    text: Seq<u8>,
    m: WildmatchMode,
    depth: int,
    k: int,
    t: int,
    i: int,
    ch: u8,
    n: int,
)
    requires
        0 <= k,
        k + 1 < pat.len(),
        pat[k] == STAR,
        0 <= t <= i <= text.len(),
        0 <= depth,
        simple(pat, k),
        depth + stars(pat, k) < RECURSION_LIMIT,
        i < text.len() ==> n == i + 1 && ch == folded(m, text[i]),
        i == text.len() ==> n == i && ch == 0,
        !(m.no_match_slash_literal && pat[k + 1] == SLASH),
        passable(m, text, t, i),
        forall|j: int| t <= j < i ==> !#[trigger] means(pat, text, m, k + 1, j),
    ensures
        tells(
            star_tail(pat, text, m, depth, k + 1, folded(m, pat[k + 1]), !m.no_match_slash_literal, i, ch, n),
            pat,
            text,
            m,
            k,
            t,
        ),
    decreases RECURSION_LIMIT - depth, to_try(text, i, n), 0int,
{
    let kept_apart = m.no_match_slash_literal;
    let q = k + 1;
    let c = folded(m, pat[q]);
    lemma_folded(m, pat[q]);
    lemma_seek_stops(text, m, c, i, ch, n);
    lemma_seek(text, m, c, !kept_apart, i, ch, n);
    let (i2, ch2, n2) = if glob_character(c) {
        (i, ch, n)
    } else {
        seek(text, m, c, !kept_apart, i, ch, n)
    };
    assert forall|j: int| t <= j < i2 implies !#[trigger] means(pat, text, m, q, j) by {
        if j >= i {
            assert(folded(m, text[j]) != c);
        }
    }
    assert(passable(m, text, t, i2)) by {
        assert forall|x: int| t <= x < i2 && kept_apart implies #[trigger] text[x] != SLASH by {}
    }
    if !glob_character(c) && ch2 != c {
        lemma_not_there(pat, text, m, k, t, i2, ch2, n2);
    } else {
        let p2 = from(pat, q);
        let s2 = from(text, i2);
        lemma_cut(pat, text, m, q, i2, 0, 0);
        lemma_matched(p2, s2, m, depth + 1, 0, 0);
        let res = matched_from(p2, s2, m, depth + 1, 0, 0, 0);
        assert(tells(res, pat, text, m, q, i2)) by {
            assert forall|u: int| i2 <= u <= text.len() implies means(p2, s2, m, 0, u - i2) == #[trigger] means(
                pat,
                text,
                m,
                q,
                u,
            ) && passable(m, s2, 0, u - i2) == passable(m, text, i2, u) by {
                lemma_cut(pat, text, m, q, i2, 0, u - i2);
                assert forall|x: int| 0 <= x < u - i2 implies #[trigger] s2[x] == text[i2 + x] by {}
                if passable(m, s2, 0, u - i2) && kept_apart {
                    assert forall|x: int| i2 <= x < u implies #[trigger] text[x] != SLASH by {
                        assert(s2[x - i2] == text[x]);
                    }
                }
            }
        }
        lemma_end_of_text(pat, text, m, q);
        if res is Match {
            lemma_star_means(pat, text, m, k, t);
            assert(means(pat, text, m, q, i2));
        } else if res is AbortAll {
            assert forall|u: int| t <= u <= text.len() implies !#[trigger] means(pat, text, m, k, u) by {
                if means(pat, text, m, k, u) {
                    lemma_star_means(pat, text, m, k, u);
                    let j = choose|j: int|
                        u <= j <= text.len() && passable(m, text, u, j) && #[trigger] means(pat, text, m, q, j);
                    assert(j >= i2);
                }
            }
        } else if res is AbortToStarStar {
            lemma_star_stops(pat, text, m, k, t, i2);
        } else if kept_apart && ch2 == SLASH {
            lemma_folded(m, text[i2]);
            assert forall|u: int| i2 <= u <= text.len() && passable(m, text, i2, u) implies !#[trigger] means(
                pat,
                text,
                m,
                q,
                u,
            ) by {
                if u > i2 {
                    assert(text[i2] != SLASH);
                }
            }
            lemma_star_stops(pat, text, m, k, t, i2);
        } else if n2 >= text.len() {
            assert forall|u: int| t <= u <= text.len() implies !#[trigger] means(pat, text, m, k, u) by {
                if means(pat, text, m, k, u) {
                    lemma_star_means(pat, text, m, k, u);
                    let j = choose|j: int|
                        u <= j <= text.len() && passable(m, text, u, j) && #[trigger] means(pat, text, m, q, j);
                    assert(j >= i2);
                    assert(j == i2 || j == text.len());
                }
            }
        } else {
            assert(passable(m, text, t, n2)) by {
                lemma_folded(m, text[i2]);
                assert forall|x: int| t <= x < n2 && kept_apart implies #[trigger] text[x] != SLASH by {}
            }
            lemma_tail(pat, text, m, depth, k, t, n2, folded(m, text[n2]), n2 + 1);
        }
    }
}

/// What follows a star needs a byte.
proof fn lemma_end_of_text(pat: Seq<u8>, text: Seq<u8>, m: WildmatchMode, q: int)
    requires
        0 <= q < pat.len(),
        pat[q] != STAR,
    ensures
        !means(pat, text, m, q, text.len() as int),
{
}

/// Where what follows a star matches nowhere from `i` on before a slash, nor before `i`, the star
/// matches nowhere before a slash.
proof fn lemma_star_stops(pat: Seq<u8>, text: Seq<u8>, m: WildmatchMode, k: int, t: int, i: int)
    requires
        0 <= k,
        k + 1 < pat.len(),
        pat[k] == STAR,
        0 <= t <= i <= text.len(),
        m.no_match_slash_literal,
        forall|j: int| t <= j < i ==> !#[trigger] means(pat, text, m, k + 1, j),
        forall|u: int|
            i <= u <= text.len() && passable(m, text, i, u) ==> !#[trigger] means(pat, text, m, k + 1, u),
    ensures
        tells(WildmatchResult::AbortToStarStar, pat, text, m, k, t),
{
    assert forall|u: int| t <= u <= text.len() && passable(m, text, t, u) implies !#[trigger] means(
        pat,
        text,
        m,
        k,
        u,
    ) by {
        if means(pat, text, m, k, u) {
            lemma_star_means(pat, text, m, k, u);
            let j = choose|j: int|
                u <= j <= text.len() && passable(m, text, u, j) && #[trigger] means(pat, text, m, k + 1, j);
            if j >= i {
                assert(passable(m, text, i, j)) by {
                    assert forall|x: int| i <= x < j implies #[trigger] text[x] != SLASH by {
                        if x < u {
                            assert(text[x] != SLASH);
                        }
                    }
                }
            }
        }
    }
}

/// The byte behind a star is not in the text, or not before the next slash.
proof fn lemma_not_there(pat: Seq<u8>, text: Seq<u8>, m: WildmatchMode, k: int, t: int, i: int, ch: u8, n: int)
    requires
        0 <= k,
        k + 1 < pat.len(),
        pat[k] == STAR,
        !glob_character(pat[k + 1]),
        !(m.no_match_slash_literal && pat[k + 1] == SLASH),
        0 <= t <= i <= text.len(),
        i < text.len() ==> n == i + 1 && ch == folded(m, text[i]),
        i == text.len() ==> n == i,
        ch != folded(m, pat[k + 1]),
        (m.no_match_slash_literal && ch == SLASH) || n >= text.len(),
        forall|j: int| t <= j < i ==> !#[trigger] means(pat, text, m, k + 1, j),
    ensures
        tells(
            if m.no_match_slash_literal {
                WildmatchResult::AbortToStarStar
            } else {
                WildmatchResult::AbortAll
            },
            pat,
            text,
            m,
            k,
            t,
        ),
{
    lemma_folded(m, pat[k + 1]);
    if i < text.len() {
        lemma_folded(m, text[i]);
    }
    lemma_end_of_text(pat, text, m, k + 1);
    if m.no_match_slash_literal {
        assert forall|u: int| i <= u <= text.len() && passable(m, text, i, u) implies !#[trigger] means(
            pat,
            text,
            m,
            k + 1,
            u,
        ) by {
            if u > i && n < text.len() {
                assert(text[i] != SLASH);
            }
        }
        lemma_star_stops(pat, text, m, k, t, i);
    } else {
        assert forall|u: int| t <= u <= text.len() implies !#[trigger] means(pat, text, m, k, u) by {
            if means(pat, text, m, k, u) {
                lemma_star_means(pat, text, m, k, u);
                let j = choose|j: int|
                    u <= j <= text.len() && passable(m, text, u, j) && #[trigger] means(pat, text, m, k + 1, j);
                assert(j >= i);
                assert(j == i || j == text.len());
            }
        }
    }
}

/// A pattern without bracket expressions and `**` matches what its wildcards say, as long as it
/// has less than 64 stars: giving up early on a text misses nothing.
pub proof fn law_simple_wildcards_mean_what_they_say(pat: Seq<u8>, text: Seq<u8>, m: WildmatchMode)
    requires
        simple(pat, 0),
        stars(pat, 0) < RECURSION_LIMIT,
    ensures
        wild_matches(pat, text, m) <==> means(pat, text, m, 0, 0),
{
    lemma_matched(pat, text, m, 0, 0, 0);
    let r = matched_from(pat, text, m, 0, 0, 0, 0);
    if r is AbortToStarStar {
        assert(passable(m, text, 0, 0));
    }
}

} // verus!
