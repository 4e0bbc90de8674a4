//! What the options of a pattern change.
use crate::globset::error::ErrorKindView;
use crate::globset::expression::{between, token_spans, tokens_span};
use crate::globset::glob::GlobView;
use crate::globset::meaning::{law_tokens_mean_what_they_match, means};
use crate::globset::parse::{parsed, plain_options, GlobOptions};
use crate::globset::token::TokenView;
use crate::globset::written::{law_malformed_patterns_are_refused, law_pattern_read_back, special, token_text, tokens_text, writable};
use vstd::prelude::*;

verus! {

/// A pattern of one token.
pub open spec fn one_token(t: TokenView, opts: GlobOptions) -> GlobView {
    GlobView { glob: token_text(t), opts, tokens: seq![t] }
}

proof fn lemma_one(t: TokenView, opts: GlobOptions)
    requires
        opts.backslash_escape,
        t is Any || t is ZeroOrMore || t is Literal,
    ensures
        parsed(token_text(t), opts) == Ok::<Seq<TokenView>, ErrorKindView>(seq![t]),
{
    let ts = seq![t];
    assert(ts.drop_last() =~= seq![]);
    assert(writable(ts.drop_last()));
    assert(writable(ts));
    assert(tokens_text(ts.drop_last()) =~= seq![]);
    assert(tokens_text(ts) =~= token_text(t));
    law_pattern_read_back(ts, opts);
}

proof fn lemma_one_spans(t: TokenView, opts: GlobOptions, path: Seq<u8>)
    ensures
        tokens_span(seq![t], opts, path, 0, path.len() as int) <==> token_spans(
            t,
            opts,
            path,
            0,
            path.len() as int,
        ),
{
    let ts = seq![t];
    let n = path.len() as int;
    let none = ts.drop_last();
    assert(none =~= seq![]);
    if token_spans(t, opts, path, 0, n) {
        assert(between(0, 0, n));
        assert(tokens_span(none, opts, path, 0, 0));
    }
    if tokens_span(ts, opts, path, 0, n) {
        let k = choose|k: int|
            #[trigger] between(0, k, n) && tokens_span(none, opts, path, 0, k) && token_spans(t, opts, path, k, n);
        assert(k == 0);
    }
}

/// `*` is read as what matches any path, and `?` as what matches any byte; where separators
/// are to be matched by themselves only, neither matches one.
pub proof fn law_separators_are_matched_by_themselves(opts: GlobOptions, path: Seq<u8>)
    requires
        opts.backslash_escape,
    ensures
        parsed(seq!['*'], opts) == Ok::<Seq<TokenView>, ErrorKindView>(seq![TokenView::ZeroOrMore]),
        parsed(seq!['?'], opts) == Ok::<Seq<TokenView>, ErrorKindView>(seq![TokenView::Any]),
        means(one_token(TokenView::ZeroOrMore, opts), path) <==> !(opts.literal_separator && path.contains(
            '/' as u8,
        )),
        means(one_token(TokenView::Any, opts), path) <==> path.len() == 1 && !(opts.literal_separator && path[0]
            == '/' as u8),
{
    let star = TokenView::ZeroOrMore;
    let any = TokenView::Any;
    lemma_one(star, opts);
    lemma_one(any, opts);
    law_tokens_mean_what_they_match(one_token(star, opts), path);
    law_tokens_mean_what_they_match(one_token(any, opts), path);
    lemma_one_spans(star, opts, path);
    lemma_one_spans(any, opts, path);
    assert(seq![star][0] != seq![TokenView::RecursivePrefix][0]);
    assert(seq![any][0] != seq![TokenView::RecursivePrefix][0]);
    if path.contains('/' as u8) {
        let i = choose|i: int| 0 <= i < path.len() && path[i] == '/' as u8;
        assert(path[i] == '/' as u8);
    }
    if !(forall|k: int| 0 <= k < path.len() ==> #[trigger] path[k] != '/' as u8) {
        let k = choose|k: int| 0 <= k < path.len() && #[trigger] path[k] == '/' as u8;
        assert(path.contains(path[k]));
    }
}

/// A pattern without further options matches across directories, takes a character after a
/// `\` as it is, and has to close its classes.
pub proof fn law_patterns_without_options(path: Seq<u8>, c: char, rest: Seq<char>)
    requires
        special(c),
        forall|k: int| 0 <= k < rest.len() ==> (#[trigger] rest[k]) != ']' && rest[k] != '-',
    ensures
        means(one_token(TokenView::ZeroOrMore, plain_options()), path),
        parsed(seq!['\\', c], plain_options()) == Ok::<Seq<TokenView>, ErrorKindView>(
            seq![TokenView::Literal(c)],
        ),
        parsed(seq!['['] + rest, plain_options()) is Err,
{
    law_separators_are_matched_by_themselves(plain_options(), path);
    lemma_one(TokenView::Literal(c), plain_options());
    let none = Seq::<TokenView>::empty();
    law_malformed_patterns_are_refused(none, plain_options(), rest);
    assert(tokens_text(none).push('[') =~= seq!['[']);
}

} // verus!
