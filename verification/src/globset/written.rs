//! How patterns are written, and that they are read as they were written.
use crate::globset::error::ErrorKindView;
use crate::globset::parse::{class_from, lemma_step, parse_from, parsed, start_state, step, ClassView, GlobOptions, ParseState};
use crate::globset::token::TokenView;
use crate::text::lemma_char;
use vstd::prelude::*;

verus! {

/// The character means something of its own in a pattern.
pub open spec fn special(c: char) -> bool {
    c == '?' || c == '*' || c == '[' || c == '{' || c == '}' || c == ',' || c == '\\'
}

/// A range of a class as it is written: a character, or two with a `-` between them.
pub open spec fn range_text(r: (char, char)) -> Seq<char> {
    if r.0 == r.1 {
        seq![r.0]
    } else {
        seq![r.0, '-', r.1]
    }
}

/// The ranges of a class as they are written.
pub open spec fn ranges_text(v: Seq<(char, char)>) -> Seq<char>
    decreases v.len(),
{
    if v.len() == 0 {
        seq![]
    } else {
        range_text(v[0]) + ranges_text(v.drop_first())
    }
}

/// A token as it is written: a character that means something of its own with a `\` before it.
pub open spec fn token_text(t: TokenView) -> Seq<char>
    decreases t,
{
    match t {
        TokenView::Literal(c) => if special(c) {
            seq!['\\', c]
        } else {
            seq![c]
        },
        TokenView::Any => seq!['?'],
        TokenView::ZeroOrMore => seq!['*'],
        TokenView::RecursivePrefix => seq!['*', '*', '/'],
        TokenView::RecursiveSuffix => seq!['/', '*', '*'],
        TokenView::RecursiveZeroOrMore => seq!['/', '*', '*', '/'],
        TokenView::Class { negated, ranges } => seq!['['] + (if negated {
            seq!['!']
        } else {
            seq![]
        }) + ranges_text(ranges) + seq![']'],
        TokenView::Alternates(branches) => seq!['{'] + branches_text(branches) + seq!['}'],
    }
}

/// Tokens as they are written, one after the other.
pub open spec fn tokens_text(ts: Seq<TokenView>) -> Seq<char>
    decreases ts,
{
    if ts.len() == 0 {
        seq![]
    } else {
        tokens_text(ts.drop_last()) + token_text(ts.last())
    }
}

/// The branches of an alternation as they are written, with a `,` between them.
pub open spec fn branches_text(bs: Seq<Seq<TokenView>>) -> Seq<char>
    decreases bs,
{
    if bs.len() == 0 {
        seq![]
    } else if bs.len() == 1 {
        tokens_text(bs.last())
    } else {
        branches_text(bs.drop_last()) + seq![','] + tokens_text(bs.last())
    }
}

/// The ranges can be written in a class as they are: no range is empty, and no character of them means something of
/// its own there.
pub open spec fn plain_ranges(v: Seq<(char, char)>) -> bool {
    &&& v.len() > 0
    &&& v[0].0 != '!' && v[0].0 != '^'
    &&& forall|i: int|
        0 <= i < v.len() ==> (#[trigger] v[i]).0 <= v[i].1 && v[i].0 != ']' && v[i].0 != '-' && v[i].1 != ']' && v[i].1
            != '-'
}

/// The tokens can be written. No two `*` follow each other, `**/` comes first, and `/**` last.
pub open spec fn writable(ts: Seq<TokenView>) -> bool
    decreases ts,
{
    ts.len() > 0 ==> {
        let t = ts.last();
        let before = ts.drop_last();
        &&& writable(before)
        &&& before.len() > 0 ==> !(before.last() is RecursiveSuffix)
        &&& match t {
            TokenView::ZeroOrMore => before.len() > 0 ==> !(before.last() is ZeroOrMore),
            TokenView::RecursivePrefix => before.len() == 0,
            TokenView::Class { negated, ranges } => plain_ranges(ranges),
            TokenView::Alternates(branches) => branches.len() > 0 && all_writable(branches),
            _ => true,
        }
    }
}

/// Each branch can be written.
pub open spec fn all_writable(bs: Seq<Seq<TokenView>>) -> bool
    decreases bs,
{
    bs.len() > 0 ==> writable(bs.last()) && all_writable(bs.drop_last())
}

proof fn lemma_class_read(chars: Seq<char>, i: int, acc: Seq<(char, char)>, v: Seq<(char, char)>, first: bool)
    requires
        0 <= i,
        i + ranges_text(v).len() < chars.len(),
        chars.subrange(i, i + ranges_text(v).len()) == ranges_text(v),
        chars[i + ranges_text(v).len()] == ']',
        first ==> v.len() > 0,
        forall|k: int|
            0 <= k < v.len() ==> (#[trigger] v[k]).0 <= v[k].1 && v[k].0 != ']' && v[k].0 != '-' && v[k].1 != ']'
                && v[k].1 != '-',
    ensures
        class_from(chars, i, acc, first, false) == ClassView::Closed(acc + v, i + ranges_text(v).len() + 1),
    decreases v.len(),
{
    let text = ranges_text(v);
    let found = chars.subrange(i, i + text.len());
    if v.len() == 0 {
        assert(acc + v =~= acc);
    } else {
        let (a, b) = v[0];
        let r = range_text(v[0]);
        let more = v.drop_first();
        assert(found[0] == text[0]);
        assert(chars[i] == a);
        let next = i + r.len();
        assert(chars.subrange(next, next + ranges_text(more).len()) =~= ranges_text(more)) by {
            assert forall|k: int| 0 <= k < ranges_text(more).len() implies chars[next + k] == #[trigger] ranges_text(
                more,
            )[k] by {
                assert(found[r.len() + k] == text[r.len() + k]);
            }
        }
        assert forall|k: int| 0 <= k < more.len() implies (#[trigger] more[k]).0 <= more[k].1 && more[k].0 != ']'
            && more[k].0 != '-' && more[k].1 != ']' && more[k].1 != '-' by {
            assert(more[k] == v[k + 1]);
        }
        lemma_class_read(chars, next, acc.push((a, b)), more, false);
        assert(acc.push((a, b)) + more =~= acc + v);
        if a != b {
            assert(found[1] == text[1] && found[2] == text[2]);
            assert(chars[i + 1] == '-' && chars[i + 2] == b);
            let begun = acc.push((a, a));
            assert(begun.drop_last().push((a, b)) =~= acc.push((a, b)));
            assert(class_from(chars, i, acc, first, false) == class_from(chars, i + 1, begun, false, false));
            assert(class_from(chars, i + 1, begun, false, false) == class_from(chars, i + 2, begun, false, true));
            assert(class_from(chars, i + 2, begun, false, true) == class_from(
                chars,
                i + 3,
                acc.push((a, b)),
                false,
                false,
            ));
        }
    }
}

/// The state once the last branch has been read up to `pos`.
spec fn read_to(st: ParseState, ts: Seq<TokenView>, pos: int) -> ParseState {
    ParseState {
        pos,
        stack: st.stack,
        branches: st.branches.update(st.branches.len() - 1, ts),
        unclosed: st.unclosed,
    }
}

/// The text stands in `chars` at `i`.
spec fn text_at(chars: Seq<char>, text: Seq<char>, i: int) -> bool {
    0 <= i && i + text.len() <= chars.len() && forall|k: int| 0 <= k < text.len() ==> chars[i + k] == #[trigger] text[k]
}

proof fn lemma_text_parts(chars: Seq<char>, a: Seq<char>, b: Seq<char>, i: int)
    requires
        text_at(chars, a + b, i),
    ensures
        text_at(chars, a, i),
        text_at(chars, b, i + a.len()),
{
    assert forall|k: int| 0 <= k < a.len() implies chars[i + k] == #[trigger] a[k] by {
        assert((a + b)[k] == a[k]);
    }
    assert forall|k: int| 0 <= k < b.len() implies chars[i + a.len() + k] == #[trigger] b[k] by {
        assert((a + b)[a.len() + k] == b[k]);
    }
}

/// What comes after the tokens does not change how the last of them is read.
spec fn ends_well(chars: Seq<char>, ts: Seq<TokenView>, inside: bool, end: int) -> bool {
    ts.len() > 0 ==> {
        &&& ts.last() is ZeroOrMore ==> end == chars.len() || chars[end] != '*'
        &&& ts.last() is RecursiveSuffix ==> end == chars.len() || (inside && (chars[end] == ',' || chars[end] == '}'))
    }
}

/// The text of a token that comes after another one begins with no `*`, unless it is a `*`.
proof fn lemma_first_char(t: TokenView)
    ensures
        token_text(t).len() > 0,
        token_text(t)[0] == '*' ==> t is ZeroOrMore || t is RecursivePrefix,
{
}

proof fn lemma_step_taken(chars: Seq<char>, opts: GlobOptions, st: ParseState)
    requires
        st.wf(chars),
        st.pos < chars.len(),
    ensures
        step(chars, opts, st) matches Ok(next) ==> next.wf(chars) && parse_from(chars, opts, st) == parse_from(
            chars,
            opts,
            next,
        ),
{
    lemma_step(chars, opts, st);
}

proof fn lemma_tokens_read(chars: Seq<char>, opts: GlobOptions, st: ParseState, ts: Seq<TokenView>)
    requires
        opts.backslash_escape,
        st.wf(chars),
        !st.unclosed,
        st.branches.last().len() == 0,
        writable(ts),
        text_at(chars, tokens_text(ts), st.pos),
        ends_well(chars, ts, st.stack.len() > 0, st.pos + tokens_text(ts).len()),
    ensures
        read_to(st, ts, st.pos + tokens_text(ts).len()).wf(chars),
        parse_from(chars, opts, st) == parse_from(chars, opts, read_to(st, ts, st.pos + tokens_text(ts).len())),
    decreases ts, 0int,
{
    if ts.len() == 0 {
        assert(read_to(st, ts, st.pos).branches =~= st.branches) by {
            assert(st.branches.last() =~= ts);
        }
    } else {
        let before = ts.drop_last();
        let t = ts.last();
        assert(decreases_to!(ts => t));
        lemma_text_parts(chars, tokens_text(before), token_text(t), st.pos);
        lemma_first_char(t);
        let p = st.pos + tokens_text(before).len();
        let text = token_text(t);
        let end = p + text.len();
        assert(chars[p + 0] == text[0]);
        lemma_tokens_read(chars, opts, st, before);
        let here = read_to(st, before, p);
        let there = read_to(st, ts, end);
        lemma_token_read(chars, opts, here, t, end);
        assert(here.branches.last() == before);
        assert(before.push(t) =~= ts);
        assert(here.branches.update(here.branches.len() - 1, ts) =~= there.branches);
    }
}

/// One token is read.
proof fn lemma_token_read(chars: Seq<char>, opts: GlobOptions, st: ParseState, t: TokenView, end: int)
    requires
        opts.backslash_escape,
        st.wf(chars),
        !st.unclosed,
        text_at(chars, token_text(t), st.pos),
        end == st.pos + token_text(t).len(),
        t is ZeroOrMore ==> end == chars.len() || chars[end] != '*',
        t is RecursivePrefix ==> st.branches.last().len() == 0,
        t is RecursiveSuffix ==> end == chars.len() || (st.stack.len() > 0 && (chars[end] == ',' || chars[end] == '}')),
        t matches TokenView::Class { negated, ranges } ==> plain_ranges(ranges),
        t matches TokenView::Alternates(branches) ==> branches.len() > 0 && all_writable(branches),
    ensures
        st.with(t, end).wf(chars),
        parse_from(chars, opts, st) == parse_from(chars, opts, st.with(t, end)),
    decreases t, 1int,
{
    let p = st.pos;
    let text = token_text(t);
    lemma_first_char(t);
    assert(chars[p + 0] == text[0]);
    match t {
        TokenView::Literal(c) => {
            if special(c) {
                assert(chars[p + 1] == text[1]);
            }
            lemma_step_taken(chars, opts, st);
        },
        TokenView::Any => {
            lemma_step_taken(chars, opts, st);
        },
        TokenView::ZeroOrMore => {
            lemma_step_taken(chars, opts, st);
        },
        TokenView::RecursivePrefix => {
            assert(chars[p + 1] == text[1] && chars[p + 2] == text[2]);
            lemma_step_taken(chars, opts, st);
        },
        TokenView::RecursiveSuffix => {
            assert(chars[p + 1] == text[1] && chars[p + 2] == text[2]);
            lemma_step_taken(chars, opts, st);
            let mid = st.with(TokenView::Literal('/'), p + 1);
            lemma_step_taken(chars, opts, mid);
            assert(st.stack.len() > 0 ==> st.stack[0] < st.branches.len());
            assert(mid.branches.last() =~= st.branches.last().push(TokenView::Literal('/')));
            assert(mid.branches.last().drop_last() =~= st.branches.last());
            assert(mid.with_last(t, end).branches =~= st.with(t, end).branches);
        },
        TokenView::RecursiveZeroOrMore => {
            assert(chars[p + 1] == text[1] && chars[p + 2] == text[2] && chars[p + 3] == text[3]);
            lemma_step_taken(chars, opts, st);
            let mid = st.with(TokenView::Literal('/'), p + 1);
            lemma_step_taken(chars, opts, mid);
            assert(mid.branches.last() =~= st.branches.last().push(TokenView::Literal('/')));
            assert(mid.branches.last().drop_last() =~= st.branches.last());
            assert(mid.with_last(t, end).branches =~= st.with(t, end).branches);
        },
        TokenView::Class { negated, ranges } => {
            let mark: Seq<char> = if negated {
                seq!['!']
            } else {
                seq![]
            };
            let inner = ranges_text(ranges);
            lemma_text_parts(chars, seq!['['] + mark + inner, seq![']'], p);
            lemma_text_parts(chars, seq!['['] + mark, inner, p);
            lemma_text_parts(chars, seq!['['], mark, p);
            let start = p + 1 + mark.len();
            assert(inner[0] == ranges[0].0);
            assert(chars[start + 0] == inner[0]);
            if negated {
                assert(chars[p + 1 + 0] == mark[0]);
            }
            assert(chars[start + inner.len() + 0] == seq![']'][0]);
            assert(chars.subrange(start, start + inner.len()) =~= inner);
            lemma_class_read(chars, start, seq![], ranges, true);
            assert(Seq::<(char, char)>::empty() + ranges =~= ranges);
            lemma_step_taken(chars, opts, st);
        },
        TokenView::Alternates(branches) => {
            let inner = branches_text(branches);
            lemma_text_parts(chars, seq!['{'] + inner, seq!['}'], p);
            lemma_text_parts(chars, seq!['{'], inner, p);
            lemma_step_taken(chars, opts, st);
            let opened = ParseState {
                pos: p + 1,
                stack: st.stack.push(st.branches.len() as int),
                branches: st.branches.push(seq![]),
                unclosed: st.unclosed,
            };
            assert(chars[p + 1 + inner.len() + 0] == seq!['}'][0]);
            assert(decreases_to!(t => branches));
            lemma_branches_read(chars, opts, opened, branches);
            let full = ParseState {
                pos: p + 1 + inner.len(),
                stack: opened.stack,
                branches: st.branches + branches,
                unclosed: st.unclosed,
            };
            assert(opened.branches.drop_last() =~= st.branches);
            lemma_step_taken(chars, opts, full);
            assert(opened.stack.drop_last() =~= st.stack);
            assert(full.branches.take(st.branches.len() as int) =~= st.branches);
            assert(full.branches.skip(st.branches.len() as int) =~= branches);
        },
    }
}

proof fn lemma_branches_read(chars: Seq<char>, opts: GlobOptions, st: ParseState, bs: Seq<Seq<TokenView>>)
    requires
        opts.backslash_escape,
        st.wf(chars),
        !st.unclosed,
        st.stack.len() > 0,
        st.branches.last().len() == 0,
        bs.len() > 0,
        all_writable(bs),
        text_at(chars, branches_text(bs), st.pos),
        st.pos + branches_text(bs).len() < chars.len(),
        chars[st.pos + branches_text(bs).len()] == ',' || chars[st.pos + branches_text(bs).len()] == '}',
    ensures
        ({
            let full = ParseState {
                pos: st.pos + branches_text(bs).len(),
                stack: st.stack,
                branches: st.branches.drop_last() + bs,
                unclosed: st.unclosed,
            };
            full.wf(chars) && parse_from(chars, opts, st) == parse_from(chars, opts, full)
        }),
    decreases bs, 0int,
{
    let last = bs.last();
    let end = st.pos + branches_text(bs).len();
    assert(decreases_to!(bs => last));
    if bs.len() == 1 {
        lemma_tokens_read(chars, opts, st, last);
        assert(read_to(st, last, end).branches =~= st.branches.drop_last() + bs);
    } else {
        let before = bs.drop_last();
        let head = branches_text(before);
        lemma_text_parts(chars, head + seq![','], tokens_text(last), st.pos);
        lemma_text_parts(chars, head, seq![','], st.pos);
        assert(chars[st.pos + head.len() + 0] == seq![','][0]);
        lemma_branches_read(chars, opts, st, before);
        let full = ParseState {
            pos: st.pos + head.len(),
            stack: st.stack,
            branches: st.branches.drop_last() + before,
            unclosed: st.unclosed,
        };
        lemma_step_taken(chars, opts, full);
        let next = full.with_branch(st.pos + head.len() + 1);
        lemma_tokens_read(chars, opts, next, last);
        assert(read_to(next, last, end).branches =~= st.branches.drop_last() + bs);
    }
}

/// A pattern is read as the tokens that it was written from, where `\` escapes: characters stand for themselves, `?`
/// and `*` for what they mean, and classes and alternations have the members that were written.
pub proof fn law_pattern_read_back(ts: Seq<TokenView>, opts: GlobOptions)
    requires
        opts.backslash_escape,
        writable(ts),
    ensures
        parsed(tokens_text(ts), opts) == Ok::<Seq<TokenView>, ErrorKindView>(ts),
{
    let chars = tokens_text(ts);
    let st = start_state();
    assert(text_at(chars, chars, 0));
    lemma_tokens_read(chars, opts, st, ts);
    let done = read_to(st, ts, chars.len() as int);
    assert(done.branches[0] == ts);
}

/// The list of characters can be written in a class.
pub open spec fn plain_members(list: Seq<char>) -> bool {
    &&& list.len() > 0
    &&& list[0] != '!' && list[0] != '^'
    &&& forall|i: int| 0 <= i < list.len() ==> #[trigger] list[i] != ']' && list[i] != '-'
}

/// The character is in one of the ranges.
pub open spec fn in_ranges(x: char, ranges: Seq<(char, char)>) -> bool {
    exists|i: int| 0 <= i < ranges.len() && (#[trigger] ranges[i]).0 <= x && x <= ranges[i].1
}

/// The only token is a class that holds exactly the characters of the list, or all others.
pub open spec fn class_of(r: Result<Seq<TokenView>, ErrorKindView>, list: Seq<char>, inverted: bool) -> bool {
    r matches Ok(ts) && ts.len() == 1 && (ts[0] matches TokenView::Class { negated, ranges } && negated == inverted
        && forall|x: char| #[trigger] in_ranges(x, ranges) <==> list.contains(x))
}

proof fn lemma_members_text(list: Seq<char>)
    ensures
        ranges_text(list.map_values(|c: char| (c, c))) == list,
    decreases list.len(),
{
    let v = list.map_values(|c: char| (c, c));
    if list.len() > 0 {
        lemma_members_text(list.drop_first());
        assert(v.drop_first() =~= list.drop_first().map_values(|c: char| (c, c)));
        assert(ranges_text(v) =~= list);
    }
}

/// A class of single characters holds these characters and no others, and one that begins with `!` or `^` all others.
pub proof fn law_class_holds_its_members(list: Seq<char>, opts: GlobOptions)
    requires
        plain_members(list),
    ensures
        class_of(parsed(seq!['['] + list + seq![']'], opts), list, false),
        class_of(parsed(seq!['[', '!'] + list + seq![']'], opts), list, true),
        class_of(parsed(seq!['[', '^'] + list + seq![']'], opts), list, true),
{
    let v = list.map_values(|c: char| (c, c));
    lemma_members_text(list);
    assert forall|x: char| #[trigger] in_ranges(x, v) <==> list.contains(x) by {
        if in_ranges(x, v) {
            let i = choose|i: int| 0 <= i < v.len() && (#[trigger] v[i]).0 <= x && x <= v[i].1;
            assert(list[i] == x);
        }
        if list.contains(x) {
            let i = choose|i: int| 0 <= i < list.len() && list[i] == x;
            assert(v[i] == (x, x));
        }
    }
    assert forall|k: int| 0 <= k < v.len() implies (#[trigger] v[k]).0 <= v[k].1 && v[k].0 != ']' && v[k].0 != '-'
        && v[k].1 != ']' && v[k].1 != '-' by {
        assert(list[k] != ']' && list[k] != '-');
    }
    lemma_one_class(seq!['['] + list + seq![']'], list, v, false, opts);
    lemma_one_class(seq!['[', '!'] + list + seq![']'], list, v, true, opts);
    lemma_one_class(seq!['[', '^'] + list + seq![']'], list, v, true, opts);
}

proof fn lemma_one_class(
    chars: Seq<char>,
    list: Seq<char>,
    v: Seq<(char, char)>,
    inverted: bool,
    opts: GlobOptions,
)
    requires
        plain_members(list),
        v.len() == list.len(),
        ranges_text(v) == list,
        forall|k: int|
            0 <= k < v.len() ==> (#[trigger] v[k]).0 <= v[k].1 && v[k].0 != ']' && v[k].0 != '-' && v[k].1 != ']'
                && v[k].1 != '-',
        inverted ==> chars == seq!['[', '!'] + list + seq![']'] || chars == seq!['[', '^'] + list + seq![']'],
        !inverted ==> chars == seq!['['] + list + seq![']'],
    ensures
        parsed(chars, opts) == Ok::<Seq<TokenView>, ErrorKindView>(
            seq![TokenView::Class { negated: inverted, ranges: v }],
        ),
{
    let st = start_state();
    let start: int = if inverted {
        2
    } else {
        1
    };
    let n = list.len() as int;
    assert(chars.subrange(start, start + n) =~= list);
    assert(chars[start] == list[0]);
    assert(chars[start + n] == ']');
    lemma_class_read(chars, start, seq![], v, true);
    assert(Seq::<(char, char)>::empty() + v =~= v);
    lemma_step_taken(chars, opts, st);
    let t = TokenView::Class { negated: inverted, ranges: v };
    let next = st.with(t, start + n + 1);
    assert(step(chars, opts, st) == Ok::<ParseState, ErrorKindView>(next));
    assert(next.branches[0] =~= seq![t]);
}

/// The tokens that stand for these characters.
pub open spec fn literals(text: Seq<char>) -> Seq<TokenView>
    decreases text.len(),
{
    if text.len() == 0 {
        seq![]
    } else {
        literals(text.drop_last()).push(TokenView::Literal(text.last()))
    }
}

/// Text without characters that mean something of their own is read as these characters.
pub proof fn law_plain_text_is_literal(text: Seq<char>, opts: GlobOptions)
    requires
        forall|i: int| 0 <= i < text.len() ==> !special(#[trigger] text[i]),
    ensures
        parsed(text, opts) == Ok::<Seq<TokenView>, ErrorKindView>(literals(text)),
{
    lemma_plain_read(text, opts, text.len() as int);
    assert(text.take(text.len() as int) =~= text);
}

proof fn lemma_plain_read(text: Seq<char>, opts: GlobOptions, k: int)
    requires
        0 <= k <= text.len(),
        forall|i: int| 0 <= i < text.len() ==> !special(#[trigger] text[i]),
    ensures
        ({
            let next = ParseState { pos: k, stack: seq![], branches: seq![literals(text.take(k))], unclosed: false };
            next.wf(text) && parse_from(text, opts, start_state()) == parse_from(text, opts, next)
        }),
    decreases k,
{
    if k > 0 {
        lemma_plain_read(text, opts, k - 1);
        let done = literals(text.take(k - 1));
        let here = ParseState { pos: k - 1, stack: seq![], branches: seq![done], unclosed: false };
        let next = ParseState { pos: k, stack: seq![], branches: seq![literals(text.take(k))], unclosed: false };
        assert(!special(text[k - 1]));
        lemma_step_taken(text, opts, here);
        assert(text.take(k).drop_last() =~= text.take(k - 1));
        let c = lemma_char(text, k - 1);
        assert(text.take(k).last() == c);
        assert(literals(text.take(k)) == done.push(TokenView::Literal(c)));
        assert(here.branches.last() == done);
        assert(step(text, opts, here) == Ok::<ParseState, ErrorKindView>(here.with(TokenView::Literal(c), k)));
        assert(here.with(TokenView::Literal(c), k).branches =~= next.branches);
    } else {
        assert(text.take(0) =~= seq![]);
        assert(start_state().branches =~= seq![literals(text.take(0))]);
    }
}

proof fn lemma_read_before(chars: Seq<char>, opts: GlobOptions, ts: Seq<TokenView>, c: char)
    requires
        opts.backslash_escape,
        writable(ts),
        ts.len() > 0 ==> !(ts.last() is RecursiveSuffix),
        c != '*',
        text_at(chars, tokens_text(ts).push(c), 0),
    ensures
        ({
            let n = tokens_text(ts).len() as int;
            let st = read_to(start_state(), ts, n);
            st.wf(chars) && st.pos < chars.len() && chars[n] == c && parse_from(chars, opts, start_state())
                == parse_from(chars, opts, st)
        }),
{
    let text = tokens_text(ts);
    let n = text.len() as int;
    assert(text.push(c) =~= text + seq![c]);
    lemma_text_parts(chars, text, seq![c], 0);
    assert(chars[n + 0] == seq![c][0]);
    lemma_tokens_read(chars, opts, start_state(), ts);
}

proof fn lemma_unclosed(chars: Seq<char>, i: int, ranges: Seq<(char, char)>, first: bool)
    requires
        0 <= i <= chars.len(),
        forall|k: int| i <= k < chars.len() ==> (#[trigger] chars[k]) != ']' && chars[k] != '-',
    ensures
        class_from(chars, i, ranges, first, false) is Unclosed,
    decreases chars.len() - i,
{
    if i < chars.len() {
        let c = lemma_char(chars, i);
        lemma_unclosed(chars, i + 1, ranges.push((c, c)), false);
    }
}

/// A pattern that ends with a `\`, closes an alternation that was not opened, or does not close
/// an alternation or a class that it opens, is refused.
pub proof fn law_malformed_patterns_are_refused(ts: Seq<TokenView>, opts: GlobOptions, rest: Seq<char>)
    requires
        opts.backslash_escape,
        writable(ts),
        ts.len() > 0 ==> !(ts.last() is RecursiveSuffix),
        forall|k: int| 0 <= k < rest.len() ==> (#[trigger] rest[k]) != ']' && rest[k] != '-',
    ensures
        parsed(tokens_text(ts).push('\\'), opts) == Err::<Seq<TokenView>, ErrorKindView>(
            ErrorKindView::DanglingEscape,
        ),
        parsed(tokens_text(ts).push('}') + rest, opts) == Err::<Seq<TokenView>, ErrorKindView>(
            ErrorKindView::UnopenedAlternates,
        ),
        parsed(tokens_text(ts).push('{'), opts) == Err::<Seq<TokenView>, ErrorKindView>(
            ErrorKindView::UnclosedAlternates,
        ),
        !opts.allow_unclosed_class ==> parsed(tokens_text(ts).push('[') + rest, opts) == Err::<
            Seq<TokenView>,
            ErrorKindView,
        >(ErrorKindView::UnclosedClass),
{
    let text = tokens_text(ts);
    let n = text.len() as int;
    let st = read_to(start_state(), ts, n);
    let a = text.push('\\');
    assert(text_at(a, a, 0));
    lemma_read_before(a, opts, ts, '\\');
    let b = text.push('}') + rest;
    assert(text_at(b, text.push('}'), 0));
    lemma_read_before(b, opts, ts, '}');
    let c = text.push('{');
    assert(text_at(c, c, 0));
    lemma_read_before(c, opts, ts, '{');
    lemma_step_taken(c, opts, st);
    let open = ParseState {
        pos: n + 1,
        stack: st.stack.push(1),
        branches: st.branches.push(seq![]),
        unclosed: false,
    };
    assert(step(c, opts, st) == Ok::<ParseState, ErrorKindView>(open));
    assert(parse_from(c, opts, open) == Ok::<Seq<Seq<TokenView>>, ErrorKindView>(open.branches));
    if !opts.allow_unclosed_class {
        let d = text.push('[') + rest;
        assert(text_at(d, text.push('['), 0));
        lemma_read_before(d, opts, ts, '[');
        assert forall|k: int| n + 1 <= k < d.len() implies (#[trigger] d[k]) != ']' && d[k] != '-' by {
            assert(d[k] == rest[k - n - 1]);
        }
        let start = if crate::globset::parse::negates(d, n + 1) {
            n + 2
        } else {
            n + 1
        };
        lemma_unclosed(d, start, seq![], true);
        assert(step(d, opts, st) == Err::<ParseState, ErrorKindView>(ErrorKindView::UnclosedClass));
    }
}

} // verus!
