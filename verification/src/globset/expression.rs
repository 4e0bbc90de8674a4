//! What the regular expressions for patterns mean, and that they mean what the patterns do.
use crate::globset::parse::GlobOptions;
use crate::globset::regex::{branch_parts, byte_regex, bytes_regex, escaped_text, glob_regex, hex_char, joined_parts, range_regex, ranges_regex, token_regex, tokens_regex};
use crate::globset::token::TokenView;
use vstd::prelude::*;
use vstd::utf8::encode_utf8;

verus! {

/// A part of a regular expression that matches one byte.
pub enum Atom {
    Byte(u8),
    /// `.`
    Any,
    /// `[^/]`
    NotSlash,
    /// `[..]`, or `[^..]`
    OneOf { negated: bool, ranges: Seq<(char, char)> },
}

/// A regular expression.
pub enum Expression {
    One(Atom),
    /// Followed by `*`.
    Many(Atom),
    /// Followed by `?`.
    Maybe(Atom),
    /// One after the other.
    Then(Seq<Expression>),
    /// `(?:..|..)`
    Either(Seq<Expression>),
}

/// The character means something of its own in a regular expression.
pub open spec fn is_operator(c: char) -> bool {
    seq!['\\', '.', '+', '*', '?', '(', ')', '|', '[', ']', '{', '}', '^', '$', '#', '&', '-', '~'].contains(c)
}

/// The hexadecimal digits.
pub open spec fn digits() -> Seq<char> {
    seq!['0', '1', '2', '3', '4', '5', '6', '7', '8', '9', 'a', 'b', 'c', 'd', 'e', 'f']
}

/// A byte as it is written: an ASCII character, with a `\` before it where it means something of its own, or `\x` and
/// two digits.
pub open spec fn byte_text(b: u8) -> Seq<char> {
    if b < 128 {
        if is_operator(b as char) {
            seq!['\\', b as char]
        } else {
            seq![b as char]
        }
    } else {
        seq!['\\', 'x', digits()[b as int / 16], digits()[b as int % 16]]
    }
}

/// The bytes as they are written.
pub open spec fn bytes_text(s: Seq<u8>) -> Seq<char>
    decreases s.len(),
{
    if s.len() == 0 {
        seq![]
    } else {
        bytes_text(s.drop_last()) + byte_text(s.last())
    }
}

/// The ranges of a class as they are written: a character, or two with a `-` between them.
pub open spec fn members_text(v: Seq<(char, char)>) -> Seq<char>
    decreases v.len(),
{
    if v.len() == 0 {
        seq![]
    } else {
        let (a, b) = v.last();
        let first = bytes_text(encode_utf8(seq![a]));
        members_text(v.drop_last()) + (if a == b {
            first
        } else {
            first + seq!['-'] + bytes_text(encode_utf8(seq![b]))
        })
    }
}

/// A part that matches one byte as it is written.
pub open spec fn atom_text(a: Atom) -> Seq<char> {
    match a {
        Atom::Byte(b) => byte_text(b),
        Atom::Any => seq!['.'],
        Atom::NotSlash => seq!['[', '^', '/', ']'],
        Atom::OneOf { negated, ranges } => (if negated {
            seq!['[', '^']
        } else {
            seq!['[']
        }) + members_text(ranges) + seq![']'],
    }
}

/// An expression as it is written.
pub open spec fn text_of(e: Expression) -> Seq<char>
    decreases e,
{
    match e {
        Expression::One(a) => atom_text(a),
        Expression::Many(a) => atom_text(a) + seq!['*'],
        Expression::Maybe(a) => atom_text(a) + seq!['?'],
        Expression::Then(v) => text_of_all(v),
        Expression::Either(v) => seq!['(', '?', ':'] + text_of_choices(v) + seq![')'],
    }
}

/// Expressions as they are written one after the other.
pub open spec fn text_of_all(v: Seq<Expression>) -> Seq<char>
    decreases v,
{
    if v.len() == 0 {
        seq![]
    } else {
        text_of_all(v.drop_last()) + text_of(v.last())
    }
}

/// Expressions as they are written with `|` between them.
pub open spec fn text_of_choices(v: Seq<Expression>) -> Seq<char>
    decreases v,
{
    if v.len() == 0 {
        seq![]
    } else if v.len() == 1 {
        text_of(v.last())
    } else {
        text_of_choices(v.drop_last()) + seq!['|'] + text_of(v.last())
    }
}

/// The byte is a character in one of the ranges.
pub open spec fn byte_in_ranges(b: u8, ranges: Seq<(char, char)>) -> bool {
    exists|i: int| 0 <= i < ranges.len() && (#[trigger] ranges[i]).0 as int <= b as int && b as int <= ranges[i].1 as int
}

/// The part matches the byte.
pub open spec fn has(a: Atom, b: u8) -> bool {
    match a {
        Atom::Byte(x) => b == x,
        Atom::Any => true,
        Atom::NotSlash => b != '/' as u8,
        Atom::OneOf { negated, ranges } => byte_in_ranges(b, ranges) != negated,
    }
}

/// The position `k` lies between `i` and `j`.
pub open spec fn between(i: int, k: int, j: int) -> bool {
    i <= k <= j
}

/// The expression matches the bytes from `i` to `j`.
pub open spec fn spans(e: Expression, s: Seq<u8>, i: int, j: int) -> bool
    decreases e,
{
    match e {
        Expression::One(a) => j == i + 1 && has(a, s[i]),
        Expression::Many(a) => forall|k: int| i <= k < j ==> has(a, #[trigger] s[k]),
        Expression::Maybe(a) => i == j || (j == i + 1 && has(a, s[i])),
        Expression::Then(v) => all_span(v, s, i, j),
        Expression::Either(v) => one_spans(v, s, i, j),
    }
}

/// The expressions match the bytes from `i` to `j` one after the other.
pub open spec fn all_span(v: Seq<Expression>, s: Seq<u8>, i: int, j: int) -> bool
    decreases v,
{
    if v.len() == 0 {
        i == j
    } else {
        exists|k: int| #[trigger] between(i, k, j) && all_span(v.drop_last(), s, i, k) && spans(v.last(), s, k, j)
    }
}

/// One of the expressions matches the bytes from `i` to `j`.
pub open spec fn one_spans(v: Seq<Expression>, s: Seq<u8>, i: int, j: int) -> bool
    decreases v,
{
    v.len() > 0 && (spans(v.last(), s, i, j) || one_spans(v.drop_last(), s, i, j))
}

/// Nothing is written for the token: it is an alternation with nothing in its branches.
pub open spec fn blank(t: TokenView) -> bool
    decreases t,
{
    match t {
        TokenView::Alternates(branches) => all_blank(branches),
        _ => false,
    }
}

/// Nothing is written for any of the tokens.
pub open spec fn blank_tokens(ts: Seq<TokenView>) -> bool
    decreases ts,
{
    ts.len() == 0 || (blank(ts.last()) && blank_tokens(ts.drop_last()))
}

/// Nothing is written for any of the branches.
pub open spec fn all_blank(bs: Seq<Seq<TokenView>>) -> bool
    decreases bs,
{
    bs.len() == 0 || (blank_tokens(bs.last()) && all_blank(bs.drop_last()))
}

/// The token matches the bytes from `i` to `j`. `*` and `?` match no separator where that is asked for. Branches of an
/// alternation in which nothing stands are left out, unless they are to be kept.
pub open spec fn token_spans(t: TokenView, opts: GlobOptions, s: Seq<u8>, i: int, j: int) -> bool
    decreases t,
{
    match t {
        TokenView::Literal(c) => s.subrange(i, j) == encode_utf8(seq![c]),
        TokenView::Any => j == i + 1 && (opts.literal_separator ==> s[i] != '/' as u8),
        TokenView::ZeroOrMore => opts.literal_separator ==> forall|k: int| i <= k < j ==> #[trigger] s[k] != '/' as u8,
        TokenView::RecursivePrefix => i == j || s[j - 1] == '/' as u8,
        TokenView::RecursiveSuffix => i < j && s[i] == '/' as u8,
        TokenView::RecursiveZeroOrMore => i < j && s[i] == '/' as u8 && s[j - 1] == '/' as u8,
        TokenView::Class { negated, ranges } => j == i + 1 && byte_in_ranges(s[i], ranges) != negated,
        TokenView::Alternates(branches) => {
            if branches.len() == 0 || (all_blank(branches) && !opts.empty_alternates) {
                i == j
            } else {
                some_branch_spans(branches, opts, s, i, j)
            }
        },
    }
}

/// The tokens match the bytes from `i` to `j` one after the other.
pub open spec fn tokens_span(ts: Seq<TokenView>, opts: GlobOptions, s: Seq<u8>, i: int, j: int) -> bool
    decreases ts,
{
    if ts.len() == 0 {
        i == j
    } else {
        exists|k: int|
            #[trigger] between(i, k, j) && tokens_span(ts.drop_last(), opts, s, i, k) && token_spans(ts.last(), opts, s, k, j)
    }
}

/// One of the branches that count matches the bytes from `i` to `j`.
pub open spec fn some_branch_spans(bs: Seq<Seq<TokenView>>, opts: GlobOptions, s: Seq<u8>, i: int, j: int) -> bool
    decreases bs,
{
    bs.len() > 0 && (((opts.empty_alternates || !blank_tokens(bs.last())) && tokens_span(bs.last(), opts, s, i, j))
        || some_branch_spans(bs.drop_last(), opts, s, i, j))
}

/// The expressions for bytes.
pub open spec fn of_bytes(s: Seq<u8>) -> Seq<Expression>
    decreases s.len(),
{
    if s.len() == 0 {
        seq![]
    } else {
        of_bytes(s.drop_last()).push(Expression::One(Atom::Byte(s.last())))
    }
}

/// A separator.
pub open spec fn slash() -> Atom {
    Atom::Byte('/' as u8)
}

/// The expression for a token.
pub open spec fn of_token(t: TokenView, opts: GlobOptions) -> Expression
    decreases t,
{
    let one = if opts.literal_separator {
        Atom::NotSlash
    } else {
        Atom::Any
    };
    match t {
        TokenView::Literal(c) => Expression::Then(of_bytes(encode_utf8(seq![c]))),
        TokenView::Any => Expression::One(one),
        TokenView::ZeroOrMore => Expression::Many(one),
        TokenView::RecursivePrefix => Expression::Either(
            seq![
                Expression::Maybe(slash()),
                Expression::Then(seq![Expression::Many(Atom::Any), Expression::One(slash())]),
            ],
        ),
        TokenView::RecursiveSuffix => Expression::Then(seq![Expression::One(slash()), Expression::Many(Atom::Any)]),
        TokenView::RecursiveZeroOrMore => Expression::Either(
            seq![
                Expression::One(slash()),
                Expression::Then(
                    seq![Expression::One(slash()), Expression::Many(Atom::Any), Expression::One(slash())],
                ),
            ],
        ),
        TokenView::Class { negated, ranges } => Expression::One(Atom::OneOf { negated, ranges }),
        TokenView::Alternates(branches) => {
            let v = of_branches(branches, opts);
            if v.len() == 0 {
                Expression::Then(seq![])
            } else {
                Expression::Either(v)
            }
        },
    }
}

/// The expressions for tokens one after the other.
pub open spec fn of_tokens(ts: Seq<TokenView>, opts: GlobOptions) -> Seq<Expression>
    decreases ts,
{
    if ts.len() == 0 {
        seq![]
    } else {
        of_tokens(ts.drop_last(), opts).push(of_token(ts.last(), opts))
    }
}

/// The expressions for the branches that count.
pub open spec fn of_branches(bs: Seq<Seq<TokenView>>, opts: GlobOptions) -> Seq<Expression>
    decreases bs,
{
    if bs.len() == 0 {
        seq![]
    } else {
        let before = of_branches(bs.drop_last(), opts);
        if opts.empty_alternates || !blank_tokens(bs.last()) {
            before.push(Expression::Then(of_tokens(bs.last(), opts)))
        } else {
            before
        }
    }
}

proof fn lemma_operator(c: char)
    ensures
        is_operator(c) == crate::globset::regex::meta(c),
{
    let all = seq!['\\', '.', '+', '*', '?', '(', ')', '|', '[', ']', '{', '}', '^', '$', '#', '&', '-', '~'];
    if crate::globset::regex::meta(c) {
        assert(all[0] == '\\' && all[1] == '.' && all[2] == '+' && all[3] == '*' && all[4] == '?' && all[5] == '('
            && all[6] == ')' && all[7] == '|' && all[8] == '[' && all[9] == ']' && all[10] == '{' && all[11] == '}'
            && all[12] == '^' && all[13] == '$' && all[14] == '#' && all[15] == '&' && all[16] == '-' && all[17] == '~');
    }
    if all.contains(c) {
        let i = choose|i: int| 0 <= i < all.len() && all[i] == c;
        assert(crate::globset::regex::meta(all[i]));
    }
}

proof fn lemma_byte_text(b: u8)
    ensures
        byte_regex(b) == byte_text(b),
{
    let c = b as char;
    if b < 128 {
        lemma_operator(c);
        let s = seq![c];
        assert(s.drop_last() =~= seq![]);
        assert(escaped_text(s.drop_last()) == Seq::<char>::empty());
        assert(byte_regex(b) =~= byte_text(b));
    } else {
        assert(hex_char(b as int / 16) == digits()[b as int / 16]);
        assert(hex_char(b as int % 16) == digits()[b as int % 16]);
    }
}

proof fn lemma_bytes_text(s: Seq<u8>)
    ensures
        bytes_regex(s) == bytes_text(s),
        text_of_all(of_bytes(s)) == bytes_text(s),
        s.len() > 0 ==> bytes_text(s).len() > 0,
    decreases s.len(),
{
    if s.len() > 0 {
        lemma_bytes_text(s.drop_last());
        lemma_byte_text(s.last());
        let v = of_bytes(s);
        assert(v.drop_last() =~= of_bytes(s.drop_last()));
        assert(v.last() == Expression::One(Atom::Byte(s.last())));
        assert(text_of(v.last()) == byte_text(s.last()));
    }
}

proof fn lemma_members_text(v: Seq<(char, char)>)
    ensures
        ranges_regex(v) == members_text(v),
    decreases v.len(),
{
    if v.len() > 0 {
        lemma_members_text(v.drop_last());
        lemma_bytes_text(encode_utf8(seq![v.last().0]));
        lemma_bytes_text(encode_utf8(seq![v.last().1]));
        assert(range_regex(v.last()) == (if v.last().0 == v.last().1 {
            bytes_text(encode_utf8(seq![v.last().0]))
        } else {
            bytes_text(encode_utf8(seq![v.last().0])) + seq!['-'] + bytes_text(encode_utf8(seq![v.last().1]))
        }));
    }
}

proof fn lemma_fixed_texts()
    ensures
        "[^/]"@ == atom_text(Atom::NotSlash),
        "."@ == atom_text(Atom::Any),
        "[^/]*"@ == text_of(Expression::Many(Atom::NotSlash)),
        ".*"@ == text_of(Expression::Many(Atom::Any)),
        "(?:"@ == seq!['(', '?', ':'],
        atom_text(slash()) == seq!['/'],
        "(?:/?|.*/)"@ == seq!['(', '?', ':', '/', '?', '|', '.', '*', '/', ')'],
        "/.*"@ == seq!['/', '.', '*'],
        "(?:/|/.*/)"@ == seq!['(', '?', ':', '/', '|', '/', '.', '*', '/', ')'],
{
    reveal_strlit("[^/]");
    reveal_strlit(".");
    reveal_strlit("[^/]*");
    reveal_strlit(".*");
    reveal_strlit("(?:");
    reveal_strlit("(?:/?|.*/)");
    reveal_strlit("/.*");
    reveal_strlit("(?:/|/.*/)");
    lemma_operator('/');
    assert("[^/]"@ =~= atom_text(Atom::NotSlash));
    assert("."@ =~= atom_text(Atom::Any));
    assert("[^/]*"@ =~= text_of(Expression::Many(Atom::NotSlash)));
    assert(".*"@ =~= text_of(Expression::Many(Atom::Any)));
    assert("(?:"@ =~= seq!['(', '?', ':']);
    assert("(?:/?|.*/)"@ =~= seq!['(', '?', ':', '/', '?', '|', '.', '*', '/', ')']);
    assert("/.*"@ =~= seq!['/', '.', '*']);
    assert("(?:/|/.*/)"@ =~= seq!['(', '?', ':', '/', '|', '/', '.', '*', '/', ')']);
    assert(('/' as u8) as char == '/');
    assert(atom_text(slash()) =~= seq!['/']);
}

proof fn lemma_text_of_two(a: Expression, b: Expression)
    ensures
        text_of_all(seq![a, b]) == text_of(a) + text_of(b),
        text_of_choices(seq![a, b]) == text_of(a) + seq!['|'] + text_of(b),
        text_of_all(seq![a]) == text_of(a),
{
    reveal_with_fuel(text_of_all, 3);
    reveal_with_fuel(text_of_choices, 3);
    assert(seq![a, b].drop_last() =~= seq![a]);
    assert(seq![a].drop_last() =~= seq![]);
    assert(text_of_all(seq![a]) =~= text_of(a));
    assert(text_of_all(seq![a, b]) =~= text_of(a) + text_of(b));
}

proof fn lemma_token_text(t: TokenView, opts: GlobOptions)
    ensures
        token_regex(t, opts) == text_of(of_token(t, opts)),
        !opts.empty_alternates ==> (token_regex(t, opts).len() == 0 <==> blank(t)),
    decreases t,
{
    lemma_fixed_texts();
    match t {
        TokenView::Literal(c) => {
            lemma_bytes_text(encode_utf8(seq![c]));
            vstd::utf8::encode_utf8_first_scalar(seq![c]);
        },
        TokenView::RecursivePrefix => {
            let a = Expression::Maybe(slash());
            let b = Expression::Then(seq![Expression::Many(Atom::Any), Expression::One(slash())]);
            lemma_text_of_two(Expression::Many(Atom::Any), Expression::One(slash()));
            lemma_text_of_two(a, b);
            assert(token_regex(t, opts) =~= text_of(of_token(t, opts)));
        },
        TokenView::RecursiveSuffix => {
            lemma_text_of_two(Expression::One(slash()), Expression::Many(Atom::Any));
            assert(token_regex(t, opts) =~= text_of(of_token(t, opts)));
        },
        TokenView::RecursiveZeroOrMore => {
            let one = Expression::One(slash());
            let all = seq![one, Expression::Many(Atom::Any), one];
            lemma_text_of_two(one, Expression::Many(Atom::Any));
            assert(all.drop_last() =~= seq![one, Expression::Many(Atom::Any)]);
            assert(text_of_all(all) == text_of_all(all.drop_last()) + text_of(all.last()));
            lemma_text_of_two(one, Expression::Then(all));
            assert(token_regex(t, opts) =~= text_of(of_token(t, opts)));
        },
        TokenView::Class { negated, ranges } => {
            lemma_members_text(ranges);
            assert(token_regex(t, opts) =~= text_of(of_token(t, opts)));
        },
        TokenView::Alternates(branches) => {
            assert(decreases_to!(t => branches));
            lemma_branches_text(branches, opts);
            assert(token_regex(t, opts) =~= text_of(of_token(t, opts)));
        },
        _ => {},
    }
}

proof fn lemma_tokens_text(ts: Seq<TokenView>, opts: GlobOptions)
    ensures
        tokens_regex(ts, opts) == text_of_all(of_tokens(ts, opts)),
        !opts.empty_alternates ==> (tokens_regex(ts, opts).len() == 0 <==> blank_tokens(ts)),
    decreases ts,
{
    if ts.len() > 0 {
        assert(decreases_to!(ts => ts.last()));
        lemma_tokens_text(ts.drop_last(), opts);
        lemma_token_text(ts.last(), opts);
        let v = of_tokens(ts, opts);
        assert(v.drop_last() =~= of_tokens(ts.drop_last(), opts));
    }
}

proof fn lemma_branches_text(bs: Seq<Seq<TokenView>>, opts: GlobOptions)
    ensures
        branch_parts(bs, opts).len() == of_branches(bs, opts).len(),
        joined_parts(branch_parts(bs, opts)) == text_of_choices(of_branches(bs, opts)),
        !opts.empty_alternates ==> (branch_parts(bs, opts).len() == 0 <==> all_blank(bs)),
        opts.empty_alternates ==> branch_parts(bs, opts).len() == bs.len(),
    decreases bs,
{
    if bs.len() > 0 {
        assert(decreases_to!(bs => bs.last()));
        lemma_branches_text(bs.drop_last(), opts);
        lemma_tokens_text(bs.last(), opts);
        let v = of_branches(bs, opts);
        let parts = branch_parts(bs, opts);
        if opts.empty_alternates || !blank_tokens(bs.last()) {
            assert(v.drop_last() =~= of_branches(bs.drop_last(), opts));
            assert(parts.drop_last() =~= branch_parts(bs.drop_last(), opts));
            assert(text_of(v.last()) == text_of_all(of_tokens(bs.last(), opts)));
        }
    }
}

/// The regular expression for a pattern is anchored at both ends and works on bytes. Between its ends it is the
/// expression for the tokens, and for `**` alone it matches everything.
pub proof fn law_expression_is_written(ts: Seq<TokenView>, opts: GlobOptions)
    ensures
        glob_regex(ts, opts) == (if opts.case_insensitive {
            "(?-u)(?i)^"@
        } else {
            "(?-u)^"@
        }) + text_of(
            if ts.len() == 1 && ts[0] is RecursivePrefix {
                Expression::Many(Atom::Any)
            } else {
                Expression::Then(of_tokens(ts, opts))
            },
        ) + seq!['$'],
{
    lemma_fixed_texts();
    lemma_tokens_text(ts, opts);
    reveal_strlit("(?-u)(?i)^");
    reveal_strlit("(?-u)^");
    reveal_strlit("(?-u)");
    reveal_strlit("(?i)");
    assert("(?-u)(?i)^"@ =~= "(?-u)"@ + "(?i)"@ + seq!['^']);
    assert("(?-u)^"@ =~= "(?-u)"@ + seq!['^']);
    assert(glob_regex(ts, opts) =~= (if opts.case_insensitive {
        "(?-u)(?i)^"@
    } else {
        "(?-u)^"@
    }) + text_of(
        if ts.len() == 1 && ts[0] is RecursivePrefix {
            Expression::Many(Atom::Any)
        } else {
            Expression::Then(of_tokens(ts, opts))
        },
    ) + seq!['$']);
}

proof fn lemma_bytes_span(v: Seq<u8>, s: Seq<u8>, i: int, j: int)
    requires
        0 <= i <= j <= s.len(),
    ensures
        all_span(of_bytes(v), s, i, j) <==> s.subrange(i, j) == v,
    decreases v.len(),
{
    reveal_with_fuel(all_span, 2);
    reveal_with_fuel(spans, 2);
    let es = of_bytes(v);
    if v.len() == 0 {
        assert(i == j ==> s.subrange(i, j) =~= v);
    } else {
        let before = v.drop_last();
        assert(es.drop_last() =~= of_bytes(before));
        if all_span(es, s, i, j) {
            let k = choose|k: int| #[trigger] between(i, k, j) && all_span(es.drop_last(), s, i, k) && spans(es.last(), s, k, j);
            lemma_bytes_span(before, s, i, k);
            assert(s.subrange(i, j) =~= s.subrange(i, k).push(s[k]));
            assert(v =~= before.push(v.last()));
        }
        if s.subrange(i, j) == v {
            let k = j - 1;
            lemma_bytes_span(before, s, i, k);
            assert(s.subrange(i, k) =~= before);
            assert(s.subrange(i, j)[k - i] == s[k]);
            assert(between(i, k, j));
        }
    }
}

proof fn lemma_two_span(a: Expression, b: Expression, s: Seq<u8>, i: int, j: int)
    ensures
        all_span(seq![a], s, i, j) <==> i <= j && spans(a, s, i, j),
        all_span(seq![a, b], s, i, j) <==> exists|k: int| #[trigger] between(i, k, j) && spans(a, s, i, k) && spans(b, s, k, j),
        one_spans(seq![a, b], s, i, j) <==> spans(a, s, i, j) || spans(b, s, i, j),
{
    reveal_with_fuel(all_span, 2);
    reveal_with_fuel(spans, 2);
    reveal_with_fuel(one_spans, 3);
    let single = seq![a];
    let pair = seq![a, b];
    assert(pair.drop_last() =~= single);
    assert(single.drop_last() =~= seq![]);
    assert forall|k: int| #[trigger] all_span(single, s, i, k) <==> i <= k && spans(a, s, i, k) by {
        if i <= k && spans(a, s, i, k) {
            assert(between(i, i, k));
        }
    }
    if all_span(pair, s, i, j) {
        let k = choose|k: int|
            #[trigger] between(i, k, j) && all_span(pair.drop_last(), s, i, k) && spans(pair.last(), s, k, j);
        assert(spans(a, s, i, k));
    }
    if exists|k: int| #[trigger] between(i, k, j) && spans(a, s, i, k) && spans(b, s, k, j) {
        let k = choose|k: int| #[trigger] between(i, k, j) && spans(a, s, i, k) && spans(b, s, k, j);
        assert(between(i, k, j) && all_span(single, s, i, k));
    }
}

proof fn lemma_token_spans(t: TokenView, opts: GlobOptions, s: Seq<u8>, i: int, j: int)
    requires
        0 <= i <= j <= s.len(),
    ensures
        spans(of_token(t, opts), s, i, j) <==> token_spans(t, opts, s, i, j),
    decreases t,
{
    reveal_with_fuel(all_span, 2);
    reveal_with_fuel(spans, 3);
    reveal_with_fuel(one_spans, 2);
    reveal_with_fuel(token_spans, 2);
    let one = Expression::One(slash());
    let any = Expression::Many(Atom::Any);
    match t {
        TokenView::Literal(c) => {
            lemma_bytes_span(encode_utf8(seq![c]), s, i, j);
        },
        TokenView::RecursivePrefix => {
            lemma_two_span(any, one, s, i, j);
            lemma_two_span(Expression::Maybe(slash()), Expression::Then(seq![any, one]), s, i, j);
            if i < j && s[j - 1] == '/' as u8 {
                assert(between(i, j - 1, j));
            }
        },
        TokenView::RecursiveSuffix => {
            lemma_two_span(one, any, s, i, j);
            if i < j && s[i] == '/' as u8 {
                assert(between(i, i + 1, j));
            }
        },
        TokenView::RecursiveZeroOrMore => {
            let all = seq![one, any, one];
            let two = seq![one, any];
            assert(all.drop_last() =~= two);
            assert forall|k: int| #[trigger] all_span(two, s, i, k) <==> i < k && s[i] == '/' as u8 by {
                lemma_two_span(one, any, s, i, k);
                if i < k && s[i] == '/' as u8 {
                    assert(between(i, i + 1, k));
                }
            }
            if all_span(all, s, i, j) {
                let k = choose|k: int|
                    #[trigger] between(i, k, j) && all_span(all.drop_last(), s, i, k) && spans(all.last(), s, k, j);
            }
            if i + 1 < j && s[i] == '/' as u8 && s[j - 1] == '/' as u8 {
                assert(between(i, j - 1, j) && all_span(two, s, i, j - 1));
            }
            lemma_two_span(one, Expression::Then(all), s, i, j);
        },
        TokenView::Alternates(branches) => {
            assert(decreases_to!(t => branches));
            lemma_branches_text(branches, opts);
            lemma_branches_span(branches, opts, s, i, j);
        },
        TokenView::ZeroOrMore => {
            if opts.literal_separator {
                if token_spans(t, opts, s, i, j) {
                    assert forall|k: int| i <= k < j implies has(Atom::NotSlash, #[trigger] s[k]) by {}
                }
                if spans(of_token(t, opts), s, i, j) {
                    assert forall|k: int| i <= k < j implies #[trigger] s[k] != '/' as u8 by {
                        assert(has(Atom::NotSlash, s[k]));
                    }
                }
            }
        },
        _ => {},
    }
}

proof fn lemma_tokens_span(ts: Seq<TokenView>, opts: GlobOptions, s: Seq<u8>, i: int, j: int)
    requires
        0 <= i <= j <= s.len(),
    ensures
        all_span(of_tokens(ts, opts), s, i, j) <==> tokens_span(ts, opts, s, i, j),
    decreases ts,
{
    reveal_with_fuel(all_span, 2);
    reveal_with_fuel(tokens_span, 2);
    if ts.len() > 0 {
        let before = ts.drop_last();
        let v = of_tokens(ts, opts);
        assert(decreases_to!(ts => ts.last()));
        assert(v.drop_last() =~= of_tokens(before, opts));
        if all_span(v, s, i, j) {
            let k = choose|k: int| #[trigger] between(i, k, j) && all_span(v.drop_last(), s, i, k) && spans(v.last(), s, k, j);
            lemma_tokens_span(before, opts, s, i, k);
            lemma_token_spans(ts.last(), opts, s, k, j);
        }
        if tokens_span(ts, opts, s, i, j) {
            let k = choose|k: int|
                #[trigger] between(i, k, j) && tokens_span(before, opts, s, i, k) && token_spans(ts.last(), opts, s, k, j);
            lemma_tokens_span(before, opts, s, i, k);
            lemma_token_spans(ts.last(), opts, s, k, j);
            assert(between(i, k, j));
        }
    }
}

proof fn lemma_branches_span(bs: Seq<Seq<TokenView>>, opts: GlobOptions, s: Seq<u8>, i: int, j: int)
    requires
        0 <= i <= j <= s.len(),
    ensures
        one_spans(of_branches(bs, opts), s, i, j) <==> some_branch_spans(bs, opts, s, i, j),
    decreases bs,
{
    reveal_with_fuel(one_spans, 2);
    reveal_with_fuel(spans, 2);
    reveal_with_fuel(some_branch_spans, 2);
    if bs.len() > 0 {
        let v = of_branches(bs, opts);
        assert(decreases_to!(bs => bs.last()));
        lemma_branches_span(bs.drop_last(), opts, s, i, j);
        lemma_tokens_span(bs.last(), opts, s, i, j);
        if opts.empty_alternates || !blank_tokens(bs.last()) {
            assert(v.drop_last() =~= of_branches(bs.drop_last(), opts));
        }
    }
}

/// The expression for tokens matches what the tokens match.
pub proof fn law_expression_means_what_tokens_mean(ts: Seq<TokenView>, opts: GlobOptions, path: Seq<u8>)
    ensures
        spans(Expression::Then(of_tokens(ts, opts)), path, 0, path.len() as int) <==> tokens_span(
            ts,
            opts,
            path,
            0,
            path.len() as int,
        ),
{
    lemma_tokens_span(ts, opts, path, 0, path.len() as int);
}

} // verus!
