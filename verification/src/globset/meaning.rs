//! What patterns without classes and alternations match, and that the strategies for them say
//! the same.
use crate::bytes::{begins, ends, from, stands_at};
use crate::globset::expression::{between, token_spans, tokens_span};
use crate::globset::glob::{all_literal, literal_text, without_char, GlobView};
use crate::globset::parse::GlobOptions;
use crate::globset::set::{base_start, basename, dot_start, extension, glob_matches, lemma_base_start, lemma_dot_start, regex_matches, strategy_matches};
use crate::globset::token::TokenView;
use crate::text::lemma_char;
use vstd::prelude::*;
use vstd::utf8::{encode_scalar, encode_utf8};

verus! {

/// The byte can stand for `?`, or be one of those that `*` stands for.
pub open spec fn wild(opts: GlobOptions, b: u8) -> bool {
    !(opts.literal_separator && b == '/' as u8)
}

/// The tokens from `i` on match the whole of the path from `p` on. Classes and alternations
/// are not matched here.
pub open spec fn matches_from(
    ts: Seq<TokenView>,
    opts: GlobOptions,
    path: Seq<u8>,
    i: int,
    p: int,
) -> bool
    decreases ts.len() - i, path.len() - p,
    when 0 <= i <= ts.len() && 0 <= p <= path.len()
{
    if i >= ts.len() {
        p == path.len()
    } else {
        match ts[i] {
            TokenView::Literal(c) => {
                let e = encode_utf8(seq![c]);
                stands_at(path, e, p) && matches_from(ts, opts, path, i + 1, p + e.len())
            },
            TokenView::Any => p < path.len() && wild(opts, path[p]) && matches_from(
                ts,
                opts,
                path,
                i + 1,
                p + 1,
            ),
            TokenView::ZeroOrMore => matches_from(ts, opts, path, i + 1, p) || (p < path.len()
                && wild(opts, path[p]) && matches_from(ts, opts, path, i, p + 1)),
            TokenView::RecursivePrefix => matches_from(ts, opts, path, i + 1, p) || after_separator(
                ts,
                opts,
                path,
                i + 1,
                p,
            ),
            TokenView::RecursiveSuffix => p < path.len() && path[p] == '/' as u8 && somewhere(
                ts,
                opts,
                path,
                i + 1,
                p + 1,
            ),
            TokenView::RecursiveZeroOrMore => p < path.len() && path[p] == '/' as u8
                && after_separator(ts, opts, path, i + 1, p),
            TokenView::Class { negated, ranges } => false,
            TokenView::Alternates(branches) => false,
        }
    }
}

/// The tokens from `i` on match what comes after one of the separators from `p` on.
pub open spec fn after_separator(
    ts: Seq<TokenView>,
    opts: GlobOptions,
    path: Seq<u8>,
    i: int,
    p: int,
) -> bool
    decreases ts.len() - i, path.len() - p,
    when 0 <= i <= ts.len() && 0 <= p <= path.len()
{
    p < path.len() && ((path[p] == '/' as u8 && matches_from(ts, opts, path, i, p + 1))
        || after_separator(ts, opts, path, i, p + 1))
}

/// The tokens from `i` on match what is left of the path somewhere from `p` on.
pub open spec fn somewhere(
    ts: Seq<TokenView>,
    opts: GlobOptions,
    path: Seq<u8>,
    i: int,
    p: int,
) -> bool
    decreases ts.len() - i, path.len() - p + 1,
    when 0 <= i <= ts.len() && 0 <= p <= path.len()
{
    matches_from(ts, opts, path, i, p) || (p < path.len() && somewhere(ts, opts, path, i, p + 1))
}

proof fn lemma_after_separator(
    ts: Seq<TokenView>,
    opts: GlobOptions,
    path: Seq<u8>,
    i: int,
    p: int,
)
    requires
        0 <= i <= ts.len(),
        0 <= p <= path.len(),
    ensures
        after_separator(ts, opts, path, i, p) <==> exists|q: int|
            p < q <= path.len() && path[q - 1] == '/' as u8 && #[trigger] matches_from(
                ts,
                opts,
                path,
                i,
                q,
            ),
    decreases path.len() - p,
{
    if p < path.len() {
        lemma_after_separator(ts, opts, path, i, p + 1);
        if path[p] == '/' as u8 && matches_from(ts, opts, path, i, p + 1) {
            assert(path[(p + 1) - 1] == '/' as u8);
        }
    }
}

proof fn lemma_somewhere(ts: Seq<TokenView>, opts: GlobOptions, path: Seq<u8>, p: int)
    requires
        0 <= p <= path.len(),
    ensures
        somewhere(ts, opts, path, ts.len() as int, p),
    decreases path.len() - p,
{
    if p < path.len() {
        lemma_somewhere(ts, opts, path, p + 1);
    } else {
        assert(matches_from(ts, opts, path, ts.len() as int, p));
    }
}

/// The character that a token is.
proof fn lemma_token_char(t: TokenView) -> (c: char)
    ensures
        c == t->Literal_0,
{
    t->Literal_0
}

/// The pattern matches the path. `**` alone matches every path.
pub open spec fn means(g: GlobView, path: Seq<u8>) -> bool {
    (g.tokens.len() == 1 && g.tokens[0] is RecursivePrefix) || matches_from(
        g.tokens,
        g.opts,
        path,
        0,
        0,
    )
}

proof fn lemma_encode_first(c: char, s: Seq<char>)
    ensures
        encode_utf8(seq![c] + s) == encode_utf8(seq![c]) + encode_utf8(s),
{
    let t = seq![c] + s;
    assert(t.drop_first() =~= s);
    assert(seq![c].drop_first() =~= Seq::<char>::empty());
    assert(encode_utf8(seq![c]) =~= encode_scalar(c as u32)) by {
        assert(encode_utf8(Seq::<char>::empty()) =~= Seq::<u8>::empty());
    }
}

proof fn lemma_literal_text(ts: Seq<TokenView>, i: int)
    requires
        0 <= i < ts.len(),
        ts[i] is Literal,
    ensures
        literal_text(ts.skip(i)) == seq![ts[i]->Literal_0] + literal_text(ts.skip(i + 1)),
        encode_utf8(literal_text(ts.skip(i))) == encode_utf8(seq![ts[i]->Literal_0]) + encode_utf8(
            literal_text(ts.skip(i + 1)),
        ),
{
    assert(literal_text(ts.skip(i)) =~= seq![ts[i]->Literal_0] + literal_text(ts.skip(i + 1)));
    lemma_encode_first(ts[i]->Literal_0, literal_text(ts.skip(i + 1)));
}

proof fn lemma_split(path: Seq<u8>, p: int, a: Seq<u8>, b: Seq<u8>)
    requires
        0 <= p <= path.len(),
    ensures
        from(path, p) == a + b <==> stands_at(path, a, p) && from(path, p + a.len()) == b,
{
    let here = from(path, p);
    if here == a + b {
        assert(here.len() == a.len() + b.len());
        assert(path.subrange(p, p + a.len()) =~= a) by {
            assert forall|k: int| 0 <= k < a.len() implies path[p + k] == a[k] by {
                assert(here[k] == (a + b)[k]);
            }
        }
        assert(from(path, p + a.len()) =~= b) by {
            assert forall|k: int| 0 <= k < b.len() implies path[p + a.len() + k] == b[k] by {
                assert(here[a.len() + k] == (a + b)[a.len() + k]);
            }
        }
    }
    if stands_at(path, a, p) && from(path, p + a.len()) == b {
        let there = from(path, p + a.len());
        assert(here =~= a + b) by {
            assert forall|k: int| 0 <= k < here.len() implies here[k] == (a + b)[k] by {
                if k < a.len() {
                    assert(path.subrange(p, p + a.len())[k] == a[k]);
                } else {
                    assert(there[k - a.len()] == b[k - a.len()]);
                }
            }
        }
    }
}

proof fn lemma_split_prefix(path: Seq<u8>, p: int, a: Seq<u8>, b: Seq<u8>)
    requires
        0 <= p <= path.len(),
    ensures
        begins(from(path, p), a + b) <==> stands_at(path, a, p) && begins(
            from(path, p + a.len()),
            b,
        ),
{
    let here = from(path, p);
    let n = (a + b).len() as int;
    if begins(here, a + b) {
        let head = here.subrange(0, n);
        assert(path.subrange(p, p + a.len()) =~= a) by {
            assert forall|k: int| 0 <= k < a.len() implies path[p + k] == a[k] by {
                assert(head[k] == (a + b)[k]);
            }
        }
        assert(from(path, p + a.len()).subrange(0, b.len() as int) =~= b) by {
            assert forall|k: int| 0 <= k < b.len() implies path[p + a.len() + k] == b[k] by {
                assert(head[a.len() + k] == (a + b)[a.len() + k]);
            }
        }
    }
    if stands_at(path, a, p) && begins(from(path, p + a.len()), b) {
        let there = from(path, p + a.len()).subrange(0, b.len() as int);
        assert(here.subrange(0, n) =~= a + b) by {
            assert forall|k: int| 0 <= k < n implies here.subrange(0, n)[k] == (a + b)[k] by {
                if k < a.len() {
                    assert(path.subrange(p, p + a.len())[k] == a[k]);
                } else {
                    assert(there[k - a.len()] == b[k - a.len()]);
                }
            }
        }
    }
}

/// Characters match their encoding.
proof fn lemma_literals(ts: Seq<TokenView>, opts: GlobOptions, path: Seq<u8>, i: int, p: int)
    requires
        0 <= i <= ts.len(),
        0 <= p <= path.len(),
        all_literal(ts.skip(i)),
    ensures
        matches_from(ts, opts, path, i, p) <==> from(path, p) == encode_utf8(
            literal_text(ts.skip(i)),
        ),
    decreases ts.len() - i,
{
    let text = encode_utf8(literal_text(ts.skip(i)));
    if i >= ts.len() {
        assert(literal_text(ts.skip(i)) =~= Seq::<char>::empty());
        assert(text =~= Seq::<u8>::empty());
        assert(from(path, p).len() == path.len() - p);
        if p == path.len() {
            assert(from(path, p) =~= text);
        }
    } else {
        assert(ts.skip(i)[0] == ts[i]);
        let c = lemma_token_char(ts[i]);
        let e = encode_utf8(seq![c]);
        let rest = encode_utf8(literal_text(ts.skip(i + 1)));
        lemma_literal_text(ts, i);
        assert forall|k: int| 0 <= k < ts.skip(i + 1).len() implies #[trigger] ts.skip(i + 1)[k]
            is Literal by {
            assert(ts.skip(i)[k + 1] == ts.skip(i + 1)[k]);
        }
        lemma_split(path, p, e, rest);
        if stands_at(path, e, p) {
            lemma_literals(ts, opts, path, i + 1, p + e.len());
        }
    }
}

/// `*` before characters matches whatever ends with them, as long as it may stand for what
/// comes before.
proof fn lemma_star(ts: Seq<TokenView>, opts: GlobOptions, path: Seq<u8>, i: int, p: int)
    requires
        0 <= i < ts.len(),
        ts[i] is ZeroOrMore,
        0 <= p <= path.len(),
        all_literal(ts.skip(i + 1)),
    ensures
        ({
            let text = encode_utf8(literal_text(ts.skip(i + 1)));
            matches_from(ts, opts, path, i, p) <==> p + text.len() <= path.len() && ends(
                path,
                text,
            ) && forall|k: int|
                p <= k < path.len() - text.len() ==> wild(opts, #[trigger] path[k])
        }),
    decreases path.len() - p,
{
    let text = encode_utf8(literal_text(ts.skip(i + 1)));
    lemma_literals(ts, opts, path, i + 1, p);
    if p < path.len() {
        lemma_star(ts, opts, path, i, p + 1);
    }
    if from(path, p) == text {
        assert(path.subrange(path.len() - text.len(), path.len() as int) =~= text);
    }
    if p + text.len() == path.len() && ends(path, text) {
        assert(from(path, p) =~= text);
    }
    if matches_from(ts, opts, path, i, p) && from(path, p) != text {
        assert forall|k: int| p <= k < path.len() - text.len() implies wild(
            opts,
            #[trigger] path[k],
        ) by {
            if k > p {
                assert(p + 1 <= k);
            }
        }
    }
}

/// Characters before a last `*` match whatever begins with them.
proof fn lemma_prefix(ts: Seq<TokenView>, opts: GlobOptions, path: Seq<u8>, i: int, p: int)
    requires
        0 <= i < ts.len(),
        0 <= p <= path.len(),
        all_literal(ts.drop_last().skip(i)),
        ts.last() is ZeroOrMore && !opts.literal_separator || ts.last() is RecursiveSuffix,
    ensures
        ({
            let text = encode_utf8(literal_text(ts.drop_last().skip(i))) + (if ts.last() is ZeroOrMore {
                seq![]
            } else {
                seq!['/' as u8]
            });
            matches_from(ts, opts, path, i, p) <==> begins(from(path, p), text)
        }),
    decreases ts.len() - i,
{
    let tail: Seq<u8> = if ts.last() is ZeroOrMore {
        seq![]
    } else {
        seq!['/' as u8]
    };
    let head = ts.drop_last();
    let words = encode_utf8(literal_text(head.skip(i)));
    let here = from(path, p);
    if i == ts.len() - 1 {
        assert(literal_text(head.skip(i)) =~= Seq::<char>::empty());
        assert(words + tail =~= tail);
        assert(here.subrange(0, 0) =~= Seq::<u8>::empty());
        if ts.last() is ZeroOrMore {
            assert(literal_text(ts.skip(i + 1)) =~= Seq::<char>::empty());
            lemma_star(ts, opts, path, i, p);
            assert(path.subrange(path.len() as int, path.len() as int) =~= Seq::<u8>::empty());
        } else {
            if p < path.len() && path[p] == '/' as u8 {
                lemma_somewhere(ts, opts, path, p + 1);
                assert(here.subrange(0, 1) =~= tail);
            }
            if begins(here, tail) {
                assert(here.subrange(0, 1)[0] == '/' as u8);
            }
        }
    } else {
        assert(head.skip(i)[0] == ts[i]);
        let c = lemma_token_char(ts[i]);
        let e = encode_utf8(seq![c]);
        let rest = encode_utf8(literal_text(head.skip(i + 1)));
        lemma_literal_text(head, i);
        assert(words + tail =~= e + (rest + tail));
        assert forall|k: int| 0 <= k < head.skip(i + 1).len() implies #[trigger] head.skip(
            i + 1,
        )[k] is Literal by {
            assert(head.skip(i)[k + 1] == head.skip(i + 1)[k]);
        }
        lemma_split_prefix(path, p, e, rest + tail);
        if stands_at(path, e, p) {
            lemma_prefix(ts, opts, path, i + 1, p + e.len());
        }
    }
}

proof fn lemma_scalar_bytes(c: u32, b: u8)
    requires
        c <= 0x10ffff,
        b < 0x80,
        encode_scalar(c).contains(b),
    ensures
        c == b,
{
    let x = c;
    assert(x <= 0x7f ==> ((x & 0x7F) as u8) == x) by (bit_vector);
    assert((0x80u8 | ((x & 0x3F) as u8)) >= 0x80) by (bit_vector);
    assert((0x80u8 | (((x >> 6) & 0x3F) as u8)) >= 0x80) by (bit_vector);
    assert((0x80u8 | (((x >> 12) & 0x3F) as u8)) >= 0x80) by (bit_vector);
    assert((0xC0u8 | (((x >> 6) & 0x1F) as u8)) >= 0x80) by (bit_vector);
    assert((0xE0u8 | (((x >> 12) & 0xF) as u8)) >= 0x80) by (bit_vector);
    assert((0xF0u8 | (((x >> 18) & 0x7) as u8)) >= 0x80) by (bit_vector);
}

/// A byte below 128 stands in the encoding of a text only where its character stands in the
/// text.
proof fn lemma_encoded_bytes(s: Seq<char>, b: u8, k: int)
    requires
        b < 0x80,
        0 <= k < encode_utf8(s).len(),
        encode_utf8(s)[k] == b,
    ensures
        exists|i: int| 0 <= i < s.len() && #[trigger] s[i] == b as char,
    decreases s.len(),
{
    if s.len() > 0 {
        let c = lemma_char(s, 0);
        let e = encode_scalar(c as u32);
        vstd::utf8::char_is_scalar(c);
        if k < e.len() {
            assert(e[k] == b);
            assert(e.contains(b));
            lemma_scalar_bytes(c as u32, b);
            assert(s[0] == b as char);
        } else {
            lemma_encoded_bytes(s.drop_first(), b, k - e.len());
            let i = choose|i: int|
                0 <= i < s.drop_first().len() && #[trigger] s.drop_first()[i] == b as char;
            assert(s[i + 1] == b as char);
        }
    }
}

pub proof fn lemma_free_of(ts: Seq<TokenView>, b: u8)
    requires
        b < 0x80,
        all_literal(ts),
        without_char(ts, b as char),
    ensures
        forall|k: int| 0 <= k < encode_utf8(literal_text(ts)).len() ==> #[trigger] encode_utf8(
            literal_text(ts),
        )[k] != b,
{
    let text = encode_utf8(literal_text(ts));
    assert forall|k: int| 0 <= k < text.len() implies #[trigger] text[k] != b by {
        if text[k] == b {
            lemma_encoded_bytes(literal_text(ts), b, k);
            let i = choose|i: int|
                0 <= i < literal_text(ts).len() && #[trigger] literal_text(ts)[i] == b as char;
            assert(ts[i] == TokenView::Literal(b as char));
        }
    }
}

/// The last component of a path, also where that is `..`.
pub open spec fn last_name(path: Seq<u8>) -> Seq<u8> {
    from(path, base_start(path, path.len() as int))
}

/// Where the strategy for a pattern is one that needs no regular expression, it says what the
/// tokens of the pattern say, of every path whose last component is not `..`.
pub proof fn law_strategy_says_what_tokens_say(g: GlobView, path: Seq<u8>)
    requires
        last_name(path) != seq!['.' as u8, '.' as u8],
        !(g.strategy() is RequiredExtension),
        !(g.strategy() is Regex),
    ensures
        strategy_matches(g.strategy(), g.regex(), path) <==> means(g, path),
{
    let n = path.len() as int;
    let ts = g.tokens;
    lemma_base_start(path, n);
    if g.basename_literal() is Some {
        lemma_basename(g, path);
    } else if g.literal() is Some {
        assert(ts.skip(0) =~= ts);
        lemma_literals(ts, g.opts, path, 0, 0);
        assert(from(path, 0) =~= path);
        assert(ts[0] is Literal);
    } else if g.ext() is Some {
        lemma_extension(g, path);
    } else if g.prefix() is Some {
        if !(ts.last() is ZeroOrMore || ts.last() is RecursiveSuffix) {
            assert(all_literal(ts));
            assert(g.literal() is Some);
        }
        law_prefix_says_what_tokens_say(g, path);
    } else {
        lemma_suffix(g, path);
    }
}

/// The tokens of a pattern that ends in `*`, and that is found by what paths begin with, match
/// the paths that begin with it, and no others.
pub proof fn law_prefix_says_what_tokens_say(g: GlobView, path: Seq<u8>)
    requires
        g.prefix() is Some,
        g.tokens.last() is ZeroOrMore || g.tokens.last() is RecursiveSuffix,
    ensures
        means(g, path) <==> begins(path, encode_utf8(g.prefix()->0)),
{
    let ts = g.tokens;
    let head = ts.drop_last();
    assert(head.skip(0) =~= head);
    lemma_prefix(ts, g.opts, path, 0, 0);
    assert(from(path, 0) =~= path);
    if ts.last() is RecursiveSuffix {
        lemma_encode_push(literal_text(head), '/');
        assert(ts.len() == 1 ==> !(ts[0] is RecursivePrefix));
    } else {
        assert(encode_utf8(literal_text(head)) + Seq::<u8>::empty() =~= encode_utf8(literal_text(head)));
    }
}

/// An extension begins with a dot and has neither a further one nor a separator. The tokens of
/// a pattern that is found by it match the paths that have it, where their last component is
/// not `..`, and no others.
pub proof fn law_extension_says_what_tokens_say(g: GlobView, path: Seq<u8>)
    requires
        g.ext() is Some,
        last_name(path) != seq!['.' as u8, '.' as u8],
    ensures
        g.ext()->0[0] == '.',
        forall|i: int| 0 < i < g.ext()->0.len() ==> (#[trigger] g.ext()->0[i]) != '.' && g.ext()->0[i] != '/',
        means(g, path) <==> extension(basename(path)) == encode_utf8(g.ext()->0),
{
    let k = g.after_prefix();
    let rest = g.tokens.skip(k + 2);
    let text = g.ext()->0;
    assert(g.tokens.skip(1)[k - 1] is ZeroOrMore || k == 0);
    assert(g.tokens[k] is ZeroOrMore);
    lemma_extension(g, path);
    lemma_encode_first('.', literal_text(rest));
    lemma_encode_ascii('.');
    assert(encode_utf8(text).len() > 0);
    assert forall|i: int| 0 < i < text.len() implies (#[trigger] text[i]) != '.' && text[i] != '/' by {
        assert(text[i] == rest[i - 1]->Literal_0);
        assert(rest[i - 1] is Literal && rest[i - 1] != TokenView::Literal('.') && rest[i - 1] != TokenView::Literal(
            '/',
        ));
    }
}

/// A pattern matches a path in a set if and only if its own regular expression does, where
/// that matches what the tokens of the pattern match and the last component of the path is not
/// `..`.
pub proof fn law_set_agrees_with_matcher(g: GlobView, path: Seq<u8>)
    requires
        last_name(path) != seq!['.' as u8, '.' as u8],
    ensures
        (regex_matches(g.regex(), path) <==> means(g, path)) ==> (glob_matches(g, path) <==> regex_matches(
            g.regex(),
            path,
        )),
{
    if g.strategy() is RequiredExtension {
        if means(g, path) {
            law_required_extension_is_needed(g, path);
        }
    } else if !(g.strategy() is Regex) {
        law_strategy_says_what_tokens_say(g, path);
    }
}

proof fn lemma_encode_concat(a: Seq<char>, b: Seq<char>)
    ensures
        encode_utf8(a + b) == encode_utf8(a) + encode_utf8(b),
    decreases a.len(),
{
    if a.len() == 0 {
        assert(a + b =~= b);
        assert(encode_utf8(a) + encode_utf8(b) =~= encode_utf8(b));
    } else {
        lemma_encode_concat(a.drop_first(), b);
        assert((a + b).drop_first() =~= a.drop_first() + b);
        assert((a + b)[0] == a[0]);
        assert(encode_utf8(a + b) =~= encode_utf8(a) + encode_utf8(b));
    }
}

proof fn lemma_encode_ascii(c: char)
    requires
        c == '/' || c == '.',
    ensures
        encode_utf8(seq![c]) == seq![c as u8],
{
    vstd::utf8::is_ascii_chars_encode_utf8(seq![c]);
    assert(encode_utf8(seq![c]) =~= seq![c as u8]);
}

proof fn lemma_encode_push(s: Seq<char>, c: char)
    requires
        c == '/' || c == '.',
    ensures
        encode_utf8(s.push(c)) == encode_utf8(s) + seq![c as u8],
{
    assert(s.push(c) =~= s + seq![c]);
    lemma_encode_concat(s, seq![c]);
    lemma_encode_ascii(c);
}

proof fn lemma_basename(g: GlobView, path: Seq<u8>)
    requires
        last_name(path) != seq!['.' as u8, '.' as u8],
        g.basename_literal() is Some,
    ensures
        strategy_matches(g.strategy(), g.regex(), path) <==> means(g, path),
{
    let ts = g.tokens;
    let n = path.len() as int;
    let rest = ts.skip(1);
    let text = encode_utf8(literal_text(rest));
    let b = base_start(path, n);
    lemma_base_start(path, n);
    assert(without_char(rest, '/')) by {
        assert forall|i: int| 0 <= i < rest.len() implies #[trigger] rest[i] != TokenView::Literal(
            '/',
        ) by {
            assert(g.within_component(rest[i]));
        }
    }
    lemma_free_of(rest, '/' as u8);
    vstd::utf8::encode_utf8_first_scalar(literal_text(rest));
    assert(text.len() > 0);
    lemma_literals(ts, g.opts, path, 1, 0);
    lemma_after_separator(ts, g.opts, path, 1, 0);
    assert(from(path, 0) =~= path);
    if means(g, path) {
        if matches_from(ts, g.opts, path, 1, 0) {
            assert(path == text);
            if b > 0 {
                assert(text[b - 1] == '/' as u8);
            }
        } else {
            let q = choose|q: int|
                0 < q <= path.len() && path[q - 1] == '/' as u8 && #[trigger] matches_from(
                    ts,
                    g.opts,
                    path,
                    1,
                    q,
                );
            lemma_literals(ts, g.opts, path, 1, q);
            assert(from(path, q) == text);
            assert(b == q) by {
                if b > q {
                    assert(text[b - 1 - q] == '/' as u8);
                }
            }
        }
    }
    if basename(path) == text {
        lemma_literals(ts, g.opts, path, 1, b);
        if b > 0 {
            assert(matches_from(ts, g.opts, path, 1, b));
        }
    }
}

/// A path has the extension `text` where it ends with it.
proof fn lemma_extension_ends(path: Seq<u8>, text: Seq<u8>)
    requires
        last_name(path) != seq!['.' as u8, '.' as u8],
        text.len() > 0,
        text[0] == '.' as u8,
        forall|x: int| 0 < x < text.len() ==> #[trigger] text[x] != '.' as u8 && text[x] != '/' as u8,
    ensures
        extension(last_name(path)) == text <==> ends(path, text),
        basename(path) == last_name(path),
{
    let n = path.len() as int;
    let b = base_start(path, n);
    lemma_base_start(path, n);
    let name = from(path, b);
    assert(extension(name) == text <==> ends(path, text)) by {
        let m = name.len() as int;
        lemma_dot_start(name, m);
        let d = dot_start(name, m);
        if ends(path, text) {
            let at = n - text.len();
            let tail = path.subrange(at, n);
            assert(tail == text);
            assert(b <= at) by {
                if b > at {
                    assert(tail[b - 1 - at] == '/' as u8);
                    assert(text[0] == '.' as u8);
                }
            }
            assert(name[at - b] == tail[0]);
            assert(d == at - b) by {
                if d > at - b {
                    assert(tail[d - (at - b)] == name[d]);
                }
            }
            assert(from(name, d) =~= text);
        }
        if extension(name) == text {
            assert(d >= 0);
            assert(path.subrange(n - text.len(), n) =~= from(name, d));
        }
    }
}

/// A path that is matched by tokens of which those from `k` on are characters ends with them.
proof fn lemma_ends_with_literals(ts: Seq<TokenView>, opts: GlobOptions, path: Seq<u8>, k: int, i: int, p: int)
    requires
        0 <= i <= k <= ts.len(),
        0 <= p <= path.len(),
        all_literal(ts.skip(k)),
        matches_from(ts, opts, path, i, p),
    ensures
        ends(path, encode_utf8(literal_text(ts.skip(k)))),
    decreases ts.len() - i, path.len() - p,
{
    let text = encode_utf8(literal_text(ts.skip(k)));
    if i == k {
        lemma_literals(ts, opts, path, i, p);
        assert(path.subrange(path.len() - text.len(), path.len() as int) =~= from(path, p));
    } else {
        match ts[i] {
            TokenView::Literal(c) => lemma_ends_with_literals(
                ts,
                opts,
                path,
                k,
                i + 1,
                p + encode_utf8(seq![c]).len(),
            ),
            TokenView::Any => lemma_ends_with_literals(ts, opts, path, k, i + 1, p + 1),
            TokenView::ZeroOrMore => {
                if matches_from(ts, opts, path, i + 1, p) {
                    lemma_ends_with_literals(ts, opts, path, k, i + 1, p);
                } else {
                    lemma_ends_with_literals(ts, opts, path, k, i, p + 1);
                }
            },
            TokenView::RecursivePrefix => {
                if matches_from(ts, opts, path, i + 1, p) {
                    lemma_ends_with_literals(ts, opts, path, k, i + 1, p);
                } else {
                    lemma_separator_then_literals(ts, opts, path, k, i + 1, p);
                }
            },
            TokenView::RecursiveZeroOrMore => lemma_separator_then_literals(ts, opts, path, k, i + 1, p),
            TokenView::RecursiveSuffix => lemma_somewhere_literals(ts, opts, path, k, i + 1, p + 1),
            TokenView::Class { negated, ranges } => {},
            TokenView::Alternates(branches) => {},
        }
    }
}

proof fn lemma_separator_then_literals(ts: Seq<TokenView>, opts: GlobOptions, path: Seq<u8>, k: int, i: int, p: int)
    requires
        0 <= i <= k <= ts.len(),
        0 <= p <= path.len(),
        all_literal(ts.skip(k)),
        after_separator(ts, opts, path, i, p),
    ensures
        ends(path, encode_utf8(literal_text(ts.skip(k)))),
    decreases ts.len() - i, path.len() - p,
{
    if path[p] == '/' as u8 && matches_from(ts, opts, path, i, p + 1) {
        lemma_ends_with_literals(ts, opts, path, k, i, p + 1);
    } else {
        lemma_separator_then_literals(ts, opts, path, k, i, p + 1);
    }
}

proof fn lemma_somewhere_literals(ts: Seq<TokenView>, opts: GlobOptions, path: Seq<u8>, k: int, i: int, p: int)
    requires
        0 <= i <= k <= ts.len(),
        0 <= p <= path.len(),
        all_literal(ts.skip(k)),
        somewhere(ts, opts, path, i, p),
    ensures
        ends(path, encode_utf8(literal_text(ts.skip(k)))),
    decreases ts.len() - i, path.len() - p + 1,
{
    if matches_from(ts, opts, path, i, p) {
        lemma_ends_with_literals(ts, opts, path, k, i, p);
    } else {
        lemma_somewhere_literals(ts, opts, path, k, i, p + 1);
    }
}

proof fn lemma_ext_start(g: GlobView, n: int)
    requires
        0 <= n <= g.tokens.len(),
        g.ext_start(n) is Some,
    ensures
        ({
            let k = g.ext_start(n)->0;
            &&& 0 <= k < n
            &&& g.tokens[k] == TokenView::Literal('.')
            &&& forall|x: int|
                k < x < n ==> #[trigger] g.tokens[x] is Literal && g.tokens[x] != TokenView::Literal('.')
                    && g.tokens[x] != TokenView::Literal('/')
        }),
    decreases n,
{
    if g.tokens[n - 1] is Literal && g.tokens[n - 1] != TokenView::Literal('.') {
        lemma_ext_start(g, n - 1);
    }
}

/// An extension that is asked for before a regular expression is tried is one that every path
/// has which the tokens of the pattern match, where its last component is not `..`. Of classes
/// and alternations nothing is said.
pub proof fn law_required_extension_is_needed(g: GlobView, path: Seq<u8>)
    requires
        last_name(path) != seq!['.' as u8, '.' as u8],
        g.required_ext() is Some,
        means(g, path),
    ensures
        extension(basename(path)).len() > 0,
        extension(basename(path)) == encode_utf8(g.required_ext()->0),
{
    let ts = g.tokens;
    let n = ts.len() as int;
    let k = g.ext_start(n)->0;
    lemma_ext_start(g, n);
    let rest = ts.skip(k + 1);
    let text = encode_utf8(literal_text(ts.skip(k)));
    assert(ts.skip(k)[0] == ts[k]);
    assert forall|x: int| 0 <= x < ts.skip(k).len() implies #[trigger] ts.skip(k)[x] is Literal by {
        assert(ts.skip(k)[x] == ts[k + x]);
    }
    assert forall|x: int| 0 <= x < rest.len() implies #[trigger] rest[x] is Literal && rest[x] != TokenView::Literal(
        '.',
    ) && rest[x] != TokenView::Literal('/') by {
        assert(rest[x] == ts[k + 1 + x]);
    }
    lemma_literal_text(ts, k);
    lemma_encode_ascii('.');
    lemma_free_of(rest, '/' as u8);
    lemma_free_of(rest, '.' as u8);
    assert(text =~= seq!['.' as u8] + encode_utf8(literal_text(rest)));
    assert forall|x: int| 0 < x < text.len() implies #[trigger] text[x] != '.' as u8 && text[x] != '/' as u8 by {
        assert(text[x] == encode_utf8(literal_text(rest))[x - 1]);
    }
    if n == 1 && ts[0] is RecursivePrefix {
        assert(ts[k] is Literal);
    }
    lemma_ends_with_literals(ts, g.opts, path, k, 0, 0);
    lemma_extension_ends(path, text);
}

proof fn lemma_extension(g: GlobView, path: Seq<u8>)
    requires
        last_name(path) != seq!['.' as u8, '.' as u8],
        g.basename_literal() is None,
        g.literal() is None,
        g.ext() is Some,
    ensures
        strategy_matches(g.strategy(), g.regex(), path) <==> means(g, path),
{
    let ts = g.tokens;
    let n = path.len() as int;
    let k = g.after_prefix();
    let rest = ts.skip(k + 2);
    let text = seq!['.' as u8] + encode_utf8(literal_text(rest));
    let b = base_start(path, n);
    lemma_base_start(path, n);
    lemma_encode_ascii('.');
    lemma_encode_first('.', literal_text(rest));
    assert(encode_utf8(seq!['.'] + literal_text(rest)) == text);
    // What `*` stands for, and the characters after it.
    assert(literal_text(ts.skip(k + 1)) =~= seq!['.'] + literal_text(rest));
    assert forall|x: int| 0 <= x < ts.skip(k + 1).len() implies #[trigger] ts.skip(k + 1)[x]
        is Literal by {
        if x > 0 {
            assert(rest[x - 1] == ts.skip(k + 1)[x]);
        }
    }
    lemma_free_of(rest, '/' as u8);
    lemma_free_of(rest, '.' as u8);
    let name = from(path, b);
    assert forall|x: int| 0 < x < text.len() implies #[trigger] text[x] != '.' as u8 && text[x]
        != '/' as u8 by {
        assert(text[x] == encode_utf8(literal_text(rest))[x - 1]);
    }
    lemma_extension_ends(path, text);
    assert(basename(path) == name);
    // The pattern matches where the path ends with the extension.
    lemma_star(ts, g.opts, path, k, 0);
    if k == 0 {
        assert(!g.opts.literal_separator);
        assert(!(ts[0] is RecursivePrefix));
    } else {
        lemma_after_separator(ts, g.opts, path, 1, 0);
        lemma_star(ts, g.opts, path, k, b);
        if ends(path, text) {
            let at = n - text.len();
            let tail = path.subrange(at, n);
            assert(b <= at) by {
                if b > at {
                    assert(tail[b - 1 - at] == '/' as u8);
                    assert(text[0] == '.' as u8);
                }
            }
            assert(matches_from(ts, g.opts, path, k, b));
            if b > 0 {
                assert(matches_from(ts, g.opts, path, 1, b));
            }
        }
        if means(g, path) && !matches_from(ts, g.opts, path, 1, 0) {
            let q = choose|q: int|
                0 < q <= path.len() && path[q - 1] == '/' as u8 && #[trigger] matches_from(
                    ts,
                    g.opts,
                    path,
                    1,
                    q,
                );
            lemma_star(ts, g.opts, path, k, q);
        }
    }
}

proof fn lemma_suffix(g: GlobView, path: Seq<u8>)
    requires
        g.basename_literal() is None,
        g.literal() is None,
        g.ext() is None,
        g.prefix() is None,
        g.suffix() is Some,
    ensures
        strategy_matches(g.strategy(), g.regex(), path) <==> means(g, path),
{
    let ts = g.tokens;
    let n = path.len() as int;
    let k = g.after_prefix();
    let star = ts[k] is ZeroOrMore;
    let start = if star {
        k + 1
    } else {
        k
    };
    let rest = ts.skip(start);
    let words = encode_utf8(literal_text(rest));
    assert(from(path, 0) =~= path);
    if star {
        assert(!g.suffix_is_component());
        lemma_star(ts, g.opts, path, k, 0);
        lemma_after_separator(ts, g.opts, path, 1, 0);
        if k == 1 && means(g, path) && !matches_from(ts, g.opts, path, 1, 0) {
            let q = choose|q: int|
                0 < q <= path.len() && path[q - 1] == '/' as u8 && #[trigger] matches_from(
                    ts,
                    g.opts,
                    path,
                    1,
                    q,
                );
            lemma_star(ts, g.opts, path, k, q);
        }
    } else if k == 0 {
        // Characters alone are a strategy of their own.
        assert(rest =~= ts);
        assert(g.literal() is Some);
    } else {
        assert(rest[0] == ts[1]);
        lemma_after_separator(ts, g.opts, path, 1, 0);
        assert(g.suffix_is_component());
        lemma_encode_ascii('/');
        lemma_encode_first('/', literal_text(rest));
        let full = seq!['/' as u8] + words;
        assert(from(full, 1) =~= words);
        lemma_literals(ts, g.opts, path, 1, 0);
        if ends(path, full) {
            let q = n - full.len();
            lemma_literals(ts, g.opts, path, 1, q + 1);
            assert(from(path, q) =~= path.subrange(q, n));
            lemma_split(path, q, seq!['/' as u8], words);
            assert(path.subrange(q, q + 1)[0] == '/' as u8);
            assert(matches_from(ts, g.opts, path, 1, q + 1));
        }
        if means(g, path) && !matches_from(ts, g.opts, path, 1, 0) {
            let q = choose|q: int|
                0 < q <= path.len() && path[q - 1] == '/' as u8 && #[trigger] matches_from(
                    ts,
                    g.opts,
                    path,
                    1,
                    q,
                );
            lemma_literals(ts, g.opts, path, 1, q);
            assert(path.subrange(q - 1, q) =~= seq!['/' as u8]);
            lemma_split(path, q - 1, seq!['/' as u8], words);
            assert(from(path, q - 1) =~= path.subrange(q - 1, n));
        }
    }
}

proof fn lemma_somewhere_is(ts: Seq<TokenView>, opts: GlobOptions, path: Seq<u8>, i: int, p: int)
    requires
        0 <= i <= ts.len(),
        0 <= p <= path.len(),
    ensures
        somewhere(ts, opts, path, i, p) <==> exists|q: int|
            #[trigger] between(p, q, path.len() as int) && matches_from(ts, opts, path, i, q),
    decreases path.len() - p,
{
    let n = path.len() as int;
    if p < n {
        lemma_somewhere_is(ts, opts, path, i, p + 1);
        if somewhere(ts, opts, path, i, p + 1) {
            let q = choose|q: int| #[trigger] between(p + 1, q, n) && matches_from(ts, opts, path, i, q);
            assert(between(p, q, n));
        }
        if exists|q: int| #[trigger] between(p, q, n) && matches_from(ts, opts, path, i, q) {
            let q = choose|q: int| #[trigger] between(p, q, n) && matches_from(ts, opts, path, i, q);
            if q > p {
                assert(between(p + 1, q, n));
            }
        }
    }
    if matches_from(ts, opts, path, i, p) {
        assert(between(p, p, n));
    }
}

/// The token matches from `p` on, and those after it what is left.
proof fn lemma_token_then(ts: Seq<TokenView>, opts: GlobOptions, path: Seq<u8>, i: int, p: int)
    requires
        0 <= i < ts.len(),
        0 <= p <= path.len(),
        !(ts[i] is Class) && !(ts[i] is Alternates),
    ensures
        matches_from(ts, opts, path, i, p) <==> exists|q: int|
            #[trigger] between(p, q, path.len() as int) && token_spans(ts[i], opts, path, p, q) && matches_from(
                ts,
                opts,
                path,
                i + 1,
                q,
            ),
    decreases path.len() - p,
{
    let n = path.len() as int;
    let t = ts[i];
    let rest = exists|q: int|
        #[trigger] between(p, q, n) && token_spans(t, opts, path, p, q) && matches_from(ts, opts, path, i + 1, q);
    match t {
        TokenView::Literal(c) => {
            let e = encode_utf8(seq![c]);
            if matches_from(ts, opts, path, i, p) {
                assert(between(p, p + e.len(), n));
            }
            if rest {
                let q = choose|q: int|
                    #[trigger] between(p, q, n) && token_spans(t, opts, path, p, q) && matches_from(
                        ts,
                        opts,
                        path,
                        i + 1,
                        q,
                    );
                assert(path.subrange(p, q).len() == q - p);
            }
        },
        TokenView::Any => {
            if matches_from(ts, opts, path, i, p) {
                assert(between(p, p + 1, n));
            }
        },
        TokenView::ZeroOrMore => {
            if matches_from(ts, opts, path, i + 1, p) {
                assert(between(p, p, n));
            }
            if p < n {
                lemma_token_then(ts, opts, path, i, p + 1);
                if wild(opts, path[p]) && matches_from(ts, opts, path, i, p + 1) {
                    let q = choose|q: int|
                        #[trigger] between(p + 1, q, n) && token_spans(t, opts, path, p + 1, q) && matches_from(
                            ts,
                            opts,
                            path,
                            i + 1,
                            q,
                        );
                    assert(between(p, q, n));
                }
                if rest {
                    let q = choose|q: int|
                        #[trigger] between(p, q, n) && token_spans(t, opts, path, p, q) && matches_from(
                            ts,
                            opts,
                            path,
                            i + 1,
                            q,
                        );
                    if q > p {
                        assert(between(p + 1, q, n));
                        assert(opts.literal_separator ==> path[p] != '/' as u8);
                    }
                }
            }
        },
        TokenView::RecursivePrefix => {
            lemma_after_separator(ts, opts, path, i + 1, p);
            if matches_from(ts, opts, path, i + 1, p) {
                assert(between(p, p, n));
            }
            if after_separator(ts, opts, path, i + 1, p) {
                let q = choose|q: int|
                    p < q <= path.len() && path[q - 1] == '/' as u8 && #[trigger] matches_from(ts, opts, path, i + 1, q);
                assert(between(p, q, n));
            }
        },
        TokenView::RecursiveSuffix => {
            if p < n {
                lemma_somewhere_is(ts, opts, path, i + 1, p + 1);
                if path[p] == '/' as u8 && somewhere(ts, opts, path, i + 1, p + 1) {
                    let q = choose|q: int| #[trigger] between(p + 1, q, n) && matches_from(ts, opts, path, i + 1, q);
                    assert(between(p, q, n));
                }
                if rest {
                    let q = choose|q: int|
                        #[trigger] between(p, q, n) && token_spans(t, opts, path, p, q) && matches_from(
                            ts,
                            opts,
                            path,
                            i + 1,
                            q,
                        );
                    assert(between(p + 1, q, n));
                }
            }
        },
        TokenView::RecursiveZeroOrMore => {
            lemma_after_separator(ts, opts, path, i + 1, p);
            if after_separator(ts, opts, path, i + 1, p) {
                let q = choose|q: int|
                    p < q <= path.len() && path[q - 1] == '/' as u8 && #[trigger] matches_from(ts, opts, path, i + 1, q);
                assert(between(p, q, n));
            }
        },
        _ => {},
    }
}

/// The first `k` tokens match the path up to somewhere, and the others what is left.
spec fn splits(ts: Seq<TokenView>, opts: GlobOptions, path: Seq<u8>, k: int) -> bool {
    let n = path.len() as int;
    exists|p: int|
        #[trigger] between(0, p, n) && tokens_span(ts.take(k), opts, path, 0, p) && matches_from(ts, opts, path, k, p)
}

proof fn lemma_splits(ts: Seq<TokenView>, opts: GlobOptions, path: Seq<u8>, k: int)
    requires
        0 <= k <= ts.len(),
        forall|i: int| 0 <= i < ts.len() ==> !(#[trigger] ts[i] is Class) && !(ts[i] is Alternates),
    ensures
        splits(ts, opts, path, k) <==> tokens_span(ts, opts, path, 0, path.len() as int),
    decreases ts.len() - k,
{
    let n = path.len() as int;
    if k == ts.len() {
        assert(ts.take(k) =~= ts);
        if tokens_span(ts, opts, path, 0, n) {
            assert(between(0, n, n));
        }
    } else {
        lemma_splits(ts, opts, path, k + 1);
        let head = ts.take(k);
        let more = ts.take(k + 1);
        assert(more.drop_last() =~= head);
        assert(more.last() == ts[k]);
        assert(!(ts[k] is Class));
        if splits(ts, opts, path, k) {
            let p = choose|p: int|
                #[trigger] between(0, p, n) && tokens_span(head, opts, path, 0, p) && matches_from(ts, opts, path, k, p);
            lemma_token_then(ts, opts, path, k, p);
            let q = choose|q: int|
                #[trigger] between(p, q, n) && token_spans(ts[k], opts, path, p, q) && matches_from(
                    ts,
                    opts,
                    path,
                    k + 1,
                    q,
                );
            assert(between(0, p, q));
            assert(tokens_span(more, opts, path, 0, q));
            assert(between(0, q, n));
        }
        if splits(ts, opts, path, k + 1) {
            let q = choose|q: int|
                #[trigger] between(0, q, n) && tokens_span(more, opts, path, 0, q) && matches_from(
                    ts,
                    opts,
                    path,
                    k + 1,
                    q,
                );
            let p = choose|p: int|
                #[trigger] between(0, p, q) && tokens_span(more.drop_last(), opts, path, 0, p) && token_spans(
                    more.last(),
                    opts,
                    path,
                    p,
                    q,
                );
            assert(between(p, q, n));
            lemma_token_then(ts, opts, path, k, p);
            assert(between(0, p, n));
        }
    }
}

/// Patterns without classes and alternations mean what their tokens match one after the other.
pub proof fn law_tokens_mean_what_they_match(g: GlobView, path: Seq<u8>)
    requires
        forall|i: int| 0 <= i < g.tokens.len() ==> !(#[trigger] g.tokens[i] is Class) && !(g.tokens[i] is Alternates),
    ensures
        means(g, path) <==> (g.tokens == seq![TokenView::RecursivePrefix] || tokens_span(
            g.tokens,
            g.opts,
            path,
            0,
            path.len() as int,
        )),
{
    let ts = g.tokens;
    let n = path.len() as int;
    lemma_splits(ts, g.opts, path, 0);
    assert(ts.take(0) =~= seq![]);
    if splits(ts, g.opts, path, 0) {
        let p = choose|p: int|
            #[trigger] between(0, p, n) && tokens_span(ts.take(0), g.opts, path, 0, p) && matches_from(
                ts,
                g.opts,
                path,
                0,
                p,
            );
        assert(p == 0);
    }
    if matches_from(ts, g.opts, path, 0, 0) {
        assert(between(0, 0, n));
        assert(tokens_span(ts.take(0), g.opts, path, 0, 0));
    }
    if ts.len() == 1 && ts[0] is RecursivePrefix {
        assert(ts =~= seq![TokenView::RecursivePrefix]);
    }
}

} // verus!
