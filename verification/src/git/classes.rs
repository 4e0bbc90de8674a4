//! What bracket expressions in a pattern match.
use crate::bytes::{lemma_lit, lemma_pos_of_is, lit};
use crate::git::wildmatch::{bracket, class_members, class_next, folded, matched_from, named_class, wild_matches, ClassEnd, WildmatchMode, WildmatchResult, BRACKET_CLOSE, SLASH};
use vstd::prelude::*;

verus! {

/// `c` stands for itself in a bracket expression.
pub open spec fn plain_member(c: u8) -> bool {
    c != 0x5b && c != 0x5c && c != 0x5d && c != 0x2d
}

/// The members of a bracket expression, where all of them stand for themselves. The first may
/// be a closing bracket, and does not negate the expression.
pub open spec fn member_list(list: Seq<u8>) -> bool {
    &&& list.len() > 0
    &&& list[0] != 0x21 && list[0] != 0x5e
    &&& plain_member(list[0]) || list[0] == 0x5d
    &&& forall|i: int| 0 < i < list.len() ==> plain_member(#[trigger] list[i])
}

/// `t` is one of the members of the list.
pub open spec fn is_member(m: WildmatchMode, list: Seq<u8>, t: u8) -> bool {
    exists|i: int| 0 <= i < list.len() && folded(m, #[trigger] list[i]) == t
}

/// A bracket expression, with the sign that negates it where there is one.
pub open spec fn expression(sign: Seq<u8>, list: Seq<u8>) -> Seq<u8> {
    seq![0x5bu8] + sign + list + seq![0x5du8]
}

/// `sign` negates a bracket expression, or is nothing.
pub open spec fn a_sign(sign: Seq<u8>) -> bool {
    sign == Seq::<u8>::empty() || sign == seq![0x21u8] || sign == seq![0x5eu8]
}

proof fn lemma_list(pat: Seq<u8>, m: WildmatchMode, t: u8, k: int, end: int, prev: u8, matched: bool)
    requires
        1 <= k < end < pat.len(),
        pat[end] == 0x5d,
        plain_member(pat[k]) || pat[k] == 0x5d,
        forall|j: int| k < j < end ==> plain_member(#[trigger] pat[j]),
    ensures
        class_members(pat, m, t, 0, k, prev, matched, 0) == (ClassEnd::End {
            base: 0,
            k: end + 1,
            matched: matched || is_member(m, pat.subrange(k, end), t),
        }),
    decreases end - k,
{
    let c = folded(m, pat[k]);
    let list = pat.subrange(k, end);
    let now = matched || c == t;
    assert(list[0] == pat[k]);
    if k + 1 < end {
        let rest = pat.subrange(k + 1, end);
        assert(plain_member(pat[k + 1]));
        lemma_list(pat, m, t, k + 1, end, c, now);
        assert(is_member(m, list, t) <==> c == t || is_member(m, rest, t)) by {
            if is_member(m, rest, t) {
                let i = choose|i: int| 0 <= i < rest.len() && folded(m, #[trigger] rest[i]) == t;
                assert(folded(m, list[i + 1]) == t);
            }
            if is_member(m, list, t) {
                let i = choose|i: int| 0 <= i < list.len() && folded(m, #[trigger] list[i]) == t;
                if i > 0 {
                    assert(folded(m, rest[i - 1]) == t);
                }
            }
        }
        assert(class_next(pat, m, t, 0, k + 1, c, now, 0) == class_members(pat, m, t, 0, k + 1, c, now, 0));
    } else {
        assert(class_next(pat, m, t, 0, k + 1, c, now, 0) == (ClassEnd::End { base: 0, k: k + 2, matched: now }));
        assert(is_member(m, list, t) <==> c == t) by {
            if is_member(m, list, t) {
                let i = choose|i: int| 0 <= i < list.len() && folded(m, #[trigger] list[i]) == t;
                assert(i == 0);
            }
        }
    }
    assert(class_members(pat, m, t, 0, k, prev, matched, 0) == class_next(
        pat,
        m,
        t,
        0,
        k + 1,
        c,
        now,
        0,
    ));
}

/// A bracket expression matches each of its members and nothing else; with a `!` or `^` at its
/// beginning, all but these.
pub proof fn law_brackets_hold_their_members(
    before: Seq<u8>,
    sign: Seq<u8>,
    list: Seq<u8>,
    after: Seq<u8>,
    m: WildmatchMode,
    t: u8,
)
    requires
        a_sign(sign),
        member_list(list),
    ensures
        bracket(before + expression(sign, list) + after, m, t, 0, before.len() as int) == (ClassEnd::End {
            base: 0,
            k: before.len() as int + expression(sign, list).len(),
            matched: is_member(m, list, t) != (sign.len() > 0),
        }),
{
    let pat = before + expression(sign, list) + after;
    let b = before.len() as int;
    let k = b + 1 + sign.len();
    let end = k + list.len();
    assert(pat[b] == 0x5b);
    assert(pat[end] == 0x5d);
    assert forall|j: int| k <= j < end implies pat[j] == list[j - k] by {}
    assert(pat[k] == list[0]);
    assert forall|j: int| k < j < end implies plain_member(#[trigger] pat[j]) by {
        assert(pat[j] == list[j - k]);
    }
    lemma_list(pat, m, t, k, end, 0, false);
    assert(pat.subrange(k, end) =~= list);
    if sign.len() > 0 {
        assert(pat[b + 1] == sign[0]);
    }
}

/// A pattern that is a bracket expression matches one byte.
pub proof fn law_brackets_match_one_byte(sign: Seq<u8>, list: Seq<u8>, text: Seq<u8>, m: WildmatchMode)
    requires
        a_sign(sign),
        member_list(list),
    ensures
        wild_matches(expression(sign, list), text, m) <==> text.len() == 1 && is_member(
            m,
            list,
            folded(m, text[0]),
        ) != (sign.len() > 0) && !(m.no_match_slash_literal && text[0] == SLASH),
{
    let pat = expression(sign, list);
    assert(pat[0] == 0x5b);
    if text.len() > 0 {
        let t = folded(m, text[0]);
        law_brackets_hold_their_members(seq![], sign, list, seq![], m, t);
        assert(Seq::<u8>::empty() + pat + Seq::<u8>::empty() =~= pat);
        let n = pat.len() as int;
        assert(matched_from(pat, text, m, 0, 0, n, 1) == if text.len() > 1 {
            WildmatchResult::NoMatch
        } else {
            WildmatchResult::Match
        });
    }
}

/// A range in a bracket expression holds its lower end and what is between its ends, with
/// these. Where case does not count, this holds of a range of letters of one case.
pub proof fn law_ranges_hold_what_is_between(
    before: Seq<u8>,
    lo: u8,
    hi: u8,
    after: Seq<u8>,
    m: WildmatchMode,
    t: u8,
)
    requires
        plain_member(lo),
        lo != 0x21 && lo != 0x5e && lo != 0,
        hi != 0x5c && hi != 0x5d,
        m.ignore_case ==> lo <= hi && ((0x41 <= lo && hi <= 0x5a) || (0x61 <= lo && hi <= 0x7a)),
    ensures
        bracket(before + expression(seq![], seq![lo, 0x2du8, hi]) + after, m, t, 0, before.len() as int)
            == (ClassEnd::End {
            base: 0,
            k: before.len() as int + 5,
            matched: t == folded(m, lo) || folded(m, lo) <= t <= folded(m, hi),
        }),
{
    let pat = before + expression(seq![], seq![lo, 0x2du8, hi]) + after;
    let b = before.len() as int;
    assert(pat[b] == 0x5b && pat[b + 1] == lo && pat[b + 2] == 0x2d && pat[b + 3] == hi && pat[b + 4] == 0x5d);
    let x = folded(m, lo);
    let hit = folded(m, lo) <= t <= folded(m, hi);
    assert(crate::git::wildmatch::in_class_range(m, x, folded(m, hi), t) == hit);
    assert(class_next(pat, m, t, 0, b + 4, 0, x == t || hit, 0) == ClassEnd::End {
        base: 0,
        k: b + 5,
        matched: x == t || hit,
    });
    assert(class_members(pat, m, t, 0, b + 2, x, x == t, 0) == class_next(
        pat,
        m,
        t,
        0,
        b + 4,
        0,
        x == t || hit,
        0,
    ));
    assert(class_next(pat, m, t, 0, b + 2, x, x == t, 0) == class_members(pat, m, t, 0, b + 2, x, x == t, 0));
    assert(class_members(pat, m, t, 0, b + 1, 0, false, 0) == class_next(pat, m, t, 0, b + 2, x, x == t, 0));
}

proof fn lemma_class_names()
    ensures
        lit("alnum") == seq![0x61u8, 0x6cu8, 0x6eu8, 0x75u8, 0x6du8],
        lit("alpha") == seq![0x61u8, 0x6cu8, 0x70u8, 0x68u8, 0x61u8],
        lit("blank") == seq![0x62u8, 0x6cu8, 0x61u8, 0x6eu8, 0x6bu8],
        lit("cntrl") == seq![0x63u8, 0x6eu8, 0x74u8, 0x72u8, 0x6cu8],
        lit("digit") == seq![0x64u8, 0x69u8, 0x67u8, 0x69u8, 0x74u8],
        lit("graph") == seq![0x67u8, 0x72u8, 0x61u8, 0x70u8, 0x68u8],
        lit("lower") == seq![0x6cu8, 0x6fu8, 0x77u8, 0x65u8, 0x72u8],
        lit("print") == seq![0x70u8, 0x72u8, 0x69u8, 0x6eu8, 0x74u8],
        lit("punct") == seq![0x70u8, 0x75u8, 0x6eu8, 0x63u8, 0x74u8],
        lit("space") == seq![0x73u8, 0x70u8, 0x61u8, 0x63u8, 0x65u8],
        lit("upper") == seq![0x75u8, 0x70u8, 0x70u8, 0x65u8, 0x72u8],
        lit("xdigit") == seq![0x78u8, 0x64u8, 0x69u8, 0x67u8, 0x69u8, 0x74u8],
{
    assert(lit("alnum") == seq![0x61u8, 0x6cu8, 0x6eu8, 0x75u8, 0x6du8]) by {
        reveal_strlit("alnum");
        lemma_lit("alnum", seq![0x61u8, 0x6cu8, 0x6eu8, 0x75u8, 0x6du8]);
    }
    assert(lit("alpha") == seq![0x61u8, 0x6cu8, 0x70u8, 0x68u8, 0x61u8]) by {
        reveal_strlit("alpha");
        lemma_lit("alpha", seq![0x61u8, 0x6cu8, 0x70u8, 0x68u8, 0x61u8]);
    }
    assert(lit("blank") == seq![0x62u8, 0x6cu8, 0x61u8, 0x6eu8, 0x6bu8]) by {
        reveal_strlit("blank");
        lemma_lit("blank", seq![0x62u8, 0x6cu8, 0x61u8, 0x6eu8, 0x6bu8]);
    }
    assert(lit("cntrl") == seq![0x63u8, 0x6eu8, 0x74u8, 0x72u8, 0x6cu8]) by {
        reveal_strlit("cntrl");
        lemma_lit("cntrl", seq![0x63u8, 0x6eu8, 0x74u8, 0x72u8, 0x6cu8]);
    }
    assert(lit("digit") == seq![0x64u8, 0x69u8, 0x67u8, 0x69u8, 0x74u8]) by {
        reveal_strlit("digit");
        lemma_lit("digit", seq![0x64u8, 0x69u8, 0x67u8, 0x69u8, 0x74u8]);
    }
    assert(lit("graph") == seq![0x67u8, 0x72u8, 0x61u8, 0x70u8, 0x68u8]) by {
        reveal_strlit("graph");
        lemma_lit("graph", seq![0x67u8, 0x72u8, 0x61u8, 0x70u8, 0x68u8]);
    }
    assert(lit("lower") == seq![0x6cu8, 0x6fu8, 0x77u8, 0x65u8, 0x72u8]) by {
        reveal_strlit("lower");
        lemma_lit("lower", seq![0x6cu8, 0x6fu8, 0x77u8, 0x65u8, 0x72u8]);
    }
    assert(lit("print") == seq![0x70u8, 0x72u8, 0x69u8, 0x6eu8, 0x74u8]) by {
        reveal_strlit("print");
        lemma_lit("print", seq![0x70u8, 0x72u8, 0x69u8, 0x6eu8, 0x74u8]);
    }
    assert(lit("punct") == seq![0x70u8, 0x75u8, 0x6eu8, 0x63u8, 0x74u8]) by {
        reveal_strlit("punct");
        lemma_lit("punct", seq![0x70u8, 0x75u8, 0x6eu8, 0x63u8, 0x74u8]);
    }
    assert(lit("space") == seq![0x73u8, 0x70u8, 0x61u8, 0x63u8, 0x65u8]) by {
        reveal_strlit("space");
        lemma_lit("space", seq![0x73u8, 0x70u8, 0x61u8, 0x63u8, 0x65u8]);
    }
    assert(lit("upper") == seq![0x75u8, 0x70u8, 0x70u8, 0x65u8, 0x72u8]) by {
        reveal_strlit("upper");
        lemma_lit("upper", seq![0x75u8, 0x70u8, 0x70u8, 0x65u8, 0x72u8]);
    }
    assert(lit("xdigit") == seq![0x78u8, 0x64u8, 0x69u8, 0x67u8, 0x69u8, 0x74u8]) by {
        reveal_strlit("xdigit");
        lemma_lit("xdigit", seq![0x78u8, 0x64u8, 0x69u8, 0x67u8, 0x69u8, 0x74u8]);
    }
}

/// The classes that have names.
#[verifier::rlimit(60)]
pub proof fn law_named_classes(m: WildmatchMode, t: u8)
    ensures
        named_class(m, seq![0x61u8, 0x6cu8, 0x6eu8, 0x75u8, 0x6du8], t) == Some(0x30 <= t <= 0x39 || 0x41 <= t <= 0x5a || 0x61 <= t <= 0x7a),
        named_class(m, seq![0x61u8, 0x6cu8, 0x70u8, 0x68u8, 0x61u8], t) == Some(0x41 <= t <= 0x5a || 0x61 <= t <= 0x7a),
        named_class(m, seq![0x62u8, 0x6cu8, 0x61u8, 0x6eu8, 0x6bu8], t) == Some(t == 0x09 || t == 0x0a || t == 0x0c || t == 0x0d || t == 0x20),
        named_class(m, seq![0x63u8, 0x6eu8, 0x74u8, 0x72u8, 0x6cu8], t) == Some(t < 0x20 || t == 0x7f),
        named_class(m, seq![0x64u8, 0x69u8, 0x67u8, 0x69u8, 0x74u8], t) == Some(0x30 <= t <= 0x39),
        named_class(m, seq![0x67u8, 0x72u8, 0x61u8, 0x70u8, 0x68u8], t) == Some(0x21 <= t <= 0x7e),
        named_class(m, seq![0x6cu8, 0x6fu8, 0x77u8, 0x65u8, 0x72u8], t) == Some(0x61 <= t <= 0x7a),
        named_class(m, seq![0x70u8, 0x72u8, 0x69u8, 0x6eu8, 0x74u8], t) == Some(0x20 <= t <= 0x7e),
        named_class(m, seq![0x70u8, 0x75u8, 0x6eu8, 0x63u8, 0x74u8], t) == Some(0x21 <= t <= 0x2f || 0x3a <= t <= 0x40 || 0x5b <= t <= 0x60 || 0x7b <= t <= 0x7e),
        named_class(m, seq![0x73u8, 0x70u8, 0x61u8, 0x63u8, 0x65u8], t) == Some(t == 0x20),
        named_class(m, seq![0x75u8, 0x70u8, 0x70u8, 0x65u8, 0x72u8], t) == Some(0x41 <= t <= 0x5a || (m.ignore_case && 0x61 <= t <= 0x7a)),
        named_class(m, seq![0x78u8, 0x64u8, 0x69u8, 0x67u8, 0x69u8, 0x74u8], t) == Some(0x30 <= t <= 0x39 || 0x41 <= t <= 0x46 || 0x61 <= t <= 0x66),
{
    lemma_class_names();
    let alnum_ = seq![0x61u8, 0x6cu8, 0x6eu8, 0x75u8, 0x6du8];
    let alpha_ = seq![0x61u8, 0x6cu8, 0x70u8, 0x68u8, 0x61u8];
    let blank_ = seq![0x62u8, 0x6cu8, 0x61u8, 0x6eu8, 0x6bu8];
    let cntrl_ = seq![0x63u8, 0x6eu8, 0x74u8, 0x72u8, 0x6cu8];
    let digit_ = seq![0x64u8, 0x69u8, 0x67u8, 0x69u8, 0x74u8];
    let graph_ = seq![0x67u8, 0x72u8, 0x61u8, 0x70u8, 0x68u8];
    let lower_ = seq![0x6cu8, 0x6fu8, 0x77u8, 0x65u8, 0x72u8];
    let print_ = seq![0x70u8, 0x72u8, 0x69u8, 0x6eu8, 0x74u8];
    let punct_ = seq![0x70u8, 0x75u8, 0x6eu8, 0x63u8, 0x74u8];
    let space_ = seq![0x73u8, 0x70u8, 0x61u8, 0x63u8, 0x65u8];
    let upper_ = seq![0x75u8, 0x70u8, 0x70u8, 0x65u8, 0x72u8];
    let xdigit_ = seq![0x78u8, 0x64u8, 0x69u8, 0x67u8, 0x69u8, 0x74u8];
    assert(alpha_[2] != alnum_[2]);
    assert(blank_[0] != alnum_[0]);
    assert(blank_[0] != alpha_[0]);
    assert(cntrl_[0] != alnum_[0]);
    assert(cntrl_[0] != alpha_[0]);
    assert(cntrl_[0] != blank_[0]);
    assert(digit_[0] != alnum_[0]);
    assert(digit_[0] != alpha_[0]);
    assert(digit_[0] != blank_[0]);
    assert(digit_[0] != cntrl_[0]);
    assert(graph_[0] != alnum_[0]);
    assert(graph_[0] != alpha_[0]);
    assert(graph_[0] != blank_[0]);
    assert(graph_[0] != cntrl_[0]);
    assert(graph_[0] != digit_[0]);
    assert(lower_[0] != alnum_[0]);
    assert(lower_[0] != alpha_[0]);
    assert(lower_[0] != blank_[0]);
    assert(lower_[0] != cntrl_[0]);
    assert(lower_[0] != digit_[0]);
    assert(lower_[0] != graph_[0]);
    assert(print_[0] != alnum_[0]);
    assert(print_[0] != alpha_[0]);
    assert(print_[0] != blank_[0]);
    assert(print_[0] != cntrl_[0]);
    assert(print_[0] != digit_[0]);
    assert(print_[0] != graph_[0]);
    assert(print_[0] != lower_[0]);
    assert(punct_[0] != alnum_[0]);
    assert(punct_[0] != alpha_[0]);
    assert(punct_[0] != blank_[0]);
    assert(punct_[0] != cntrl_[0]);
    assert(punct_[0] != digit_[0]);
    assert(punct_[0] != graph_[0]);
    assert(punct_[0] != lower_[0]);
    assert(punct_[1] != print_[1]);
    assert(space_[0] != alnum_[0]);
    assert(space_[0] != alpha_[0]);
    assert(space_[0] != blank_[0]);
    assert(space_[0] != cntrl_[0]);
    assert(space_[0] != digit_[0]);
    assert(space_[0] != graph_[0]);
    assert(space_[0] != lower_[0]);
    assert(space_[0] != print_[0]);
    assert(space_[0] != punct_[0]);
    assert(upper_[0] != alnum_[0]);
    assert(upper_[0] != alpha_[0]);
    assert(upper_[0] != blank_[0]);
    assert(upper_[0] != cntrl_[0]);
    assert(upper_[0] != digit_[0]);
    assert(upper_[0] != graph_[0]);
    assert(upper_[0] != lower_[0]);
    assert(upper_[0] != print_[0]);
    assert(upper_[0] != punct_[0]);
    assert(upper_[0] != space_[0]);
    assert(xdigit_.len() != alnum_.len());
    assert(xdigit_.len() != alpha_.len());
    assert(xdigit_.len() != blank_.len());
    assert(xdigit_.len() != cntrl_.len());
    assert(xdigit_.len() != digit_.len());
    assert(xdigit_.len() != graph_.len());
    assert(xdigit_.len() != lower_.len());
    assert(xdigit_.len() != print_.len());
    assert(xdigit_.len() != punct_.len());
    assert(xdigit_.len() != space_.len());
    assert(xdigit_.len() != upper_.len());
}

/// A class is named between colons, in brackets of its own.
pub proof fn law_class_is_named_between_colons(name: Seq<u8>, after: Seq<u8>, before: Seq<u8>, m: WildmatchMode, t: u8)
    requires
        name.len() > 0,
        forall|i: int| 0 <= i < name.len() ==> (#[trigger] name[i]) != 0x5d,
        named_class(m, name, t) is Some,
    ensures
        bracket(
            before + seq![0x5bu8, 0x5bu8, 0x3au8] + name + seq![0x3au8, 0x5du8, 0x5du8] + after,
            m,
            t,
            0,
            before.len() as int,
        ) == (ClassEnd::End {
            base: 0,
            k: before.len() as int + name.len() + 6,
            matched: named_class(m, name, t) == Some(true),
        }),
{
    let pat = before + seq![0x5bu8, 0x5bu8, 0x3au8] + name + seq![0x3au8, 0x5du8, 0x5du8] + after;
    let b = before.len() as int;
    let e = b + 3 + name.len();
    assert(pat[b] == 0x5b && pat[b + 1] == 0x5b && pat[b + 2] == 0x3a);
    assert(pat[e] == 0x3a && pat[e + 1] == 0x5d && pat[e + 2] == 0x5d);
    assert forall|j: int| b + 3 <= j < e + 1 implies pat[j] != 0x5d by {
        if j < e {
            assert(pat[j] == name[j - b - 3]);
        }
    }
    lemma_pos_of_is(pat, BRACKET_CLOSE, b + 3, e + 1);
    assert(pat.subrange(b + 3, e) =~= name);
    let hit = named_class(m, name, t)->0;
    assert(class_next(pat, m, t, 0, e + 2, 0, hit, 0) == ClassEnd::End { base: 0, k: e + 3, matched: hit });
    assert(class_members(pat, m, t, 0, b + 1, 0, false, 0) == class_next(pat, m, t, 0, e + 2, 0, hit, 0));
}

} // verus!
