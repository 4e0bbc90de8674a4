//! What the lines of ignore files mean.
use crate::bytes::{begins, from, lemma_pos_of_is, lit};
use crate::globset::expression::{between, token_spans, tokens_span};
use crate::globset::glob::{all_literal, literal_text, without_char, GlobView};
use crate::globset::meaning::{law_tokens_mean_what_they_match, lemma_free_of, means};
use crate::globset::set::{base_start, basename, lemma_base_start};
use crate::globset::token::TokenView;
use crate::globset::written::{law_pattern_read_back, law_plain_text_is_literal, literals, special, token_text, tokens_text, writable};
use crate::ignore::error::Match;
use crate::ignore::gitignore::{escaped_mark, first_is, is_anchored, last_is, line_at, line_end, line_rule, line_text, relative_to, rule_options, rule_pattern, with_lines, without_boms, without_marks, without_slash, RuleView, Rules};
use crate::path::is_here;
use crate::text::{lemma_char, trimmed_len, white_space};
use vstd::prelude::*;
use vstd::utf8::encode_utf8;

verus! {

/// Nothing is cut off the end of the line.
pub open spec fn keeps_its_end(line: Seq<char>) -> bool {
    line.len() > 0 && !white_space(line.last())
}

proof fn lemma_trimmed_len(s: Seq<char>, n: int)
    requires
        0 <= n <= s.len(),
    ensures
        0 <= trimmed_len(s, n) <= n,
    decreases n,
{
    if n > 0 && white_space(s[n - 1]) {
        lemma_trimmed_len(s, n - 1);
    }
}

proof fn lemma_trimmed_behind(c: char, s: Seq<char>, n: int)
    requires
        0 <= n <= s.len(),
        trimmed_len(s, n) > 0,
    ensures
        trimmed_len(seq![c] + s, n + 1) == trimmed_len(s, n) + 1,
    decreases n,
{
    let t = seq![c] + s;
    assert(t[n] == s[n - 1]);
    if white_space(s[n - 1]) {
        lemma_trimmed_behind(c, s, n - 1);
    }
}

/// A `!` before a line changes nothing but that what matches is kept: the pattern is the same, and so is whether only
/// directories match.
pub proof fn law_negation_changes_only_the_verdict(line: Seq<char>)
    requires
        line.len() > 0,
        line[0] != '!' && line[0] != '#' && line[0] != '\\',
        line_rule(line) is Some,
    ensures
        ({
            let plain = line_rule(line)->0;
            line_rule(seq!['!'] + line) matches Some(kept) && kept.actual == plain.actual && kept.is_only_dir
                == plain.is_only_dir && kept.is_whitelist && !plain.is_whitelist
        }),
{
    let n = line.len() as int;
    let kept = seq!['!'] + line;
    lemma_trimmed_len(line, n);
    if trimmed_len(line, n) > 0 {
        lemma_trimmed_behind('!', line, n);
    }
    let m = trimmed_len(line, n);
    assert(kept[n] == line[n - 1]);
    assert(n >= 2 ==> kept[n - 1] == line[n - 2]);
    assert(kept.skip(1) =~= line);
    assert(kept.take(m + 1).skip(1) =~= line.take(m));
    assert(kept[0] == '!');
    assert(m > 0 ==> line.take(m)[0] == line[0]);
}

/// A line that writes a rule: with `!` or without, with a `/` before the text or without, and with a `/` behind it or
/// without.
pub open spec fn rule_line(keeps: bool, tied: bool, text: Seq<char>, only_dir: bool) -> Seq<char> {
    (if keeps {
        seq!['!']
    } else {
        seq![]
    }) + (if tied {
        seq!['/']
    } else {
        seq![]
    }) + text + (if only_dir {
        seq!['/']
    } else {
        seq![]
    })
}

/// The text of a rule without marks of its own: it begins with none of them, and ends neither in a separator nor in
/// something that is escaped.
pub open spec fn unmarked(text: Seq<char>) -> bool {
    &&& text.len() > 0
    &&& text[0] != '!' && text[0] != '#' && text[0] != '\\' && text[0] != '/'
    &&& text.last() != '/' && text.last() != '\\'
}

/// The text ends in `/**`.
pub open spec fn ends_in_stars(text: Seq<char>) -> bool {
    text.len() >= 3 && text.skip(text.len() - 3) == seq!['/', '*', '*']
}

/// A rule is read as it was written. Its pattern matches at any depth where it has no separator but at its end, and what
/// is in a directory where it ends in `/**`.
pub proof fn law_rule_read_back(keeps: bool, tied: bool, text: Seq<char>, only_dir: bool)
    requires
        unmarked(text),
        text != seq!['*', '*'],
    ensures
        ({
            let line = rule_line(keeps, tied, text, only_dir);
            keeps_its_end(line) ==> line_rule(line) == Some(
                RuleView {
                    original: line,
                    actual: if ends_in_stars(text) {
                        text + seq!['/', '*']
                    } else if tied || text.contains('/') {
                        text
                    } else {
                        seq!['*', '*', '/'] + text
                    },
                    is_whitelist: keeps,
                    is_only_dir: only_dir,
                },
            )
        }),
{
    let line = rule_line(keeps, tied, text, only_dir);
    lemma_marks_read(keeps, tied, text, only_dir);
    lemma_slash_read(text, only_dir);
    lemma_pattern_read(text, tied);
    if keeps_its_end(line) {
        let n = line.len() as int;
        assert(trimmed_len(line, n) == n);
        assert(line.take(n) =~= line);
        assert(line[0] != '#');
    }
}

/// The text of a rule, and the separator behind it.
spec fn whole(text: Seq<char>, only_dir: bool) -> Seq<char> {
    if only_dir {
        text.push('/')
    } else {
        text
    }
}

proof fn lemma_marks_read(keeps: bool, tied: bool, text: Seq<char>, only_dir: bool)
    requires
        unmarked(text),
    ensures
        ({
            let line = rule_line(keeps, tied, text, only_dir);
            &&& line.len() > 0 && line[0] != '#' && line[0] != '\\'
            &&& without_marks(line) == whole(text, only_dir)
            &&& is_anchored(line) == tied
            &&& first_is(line, '!') == keeps
            &&& !escaped_mark(line)
        }),
{
    let line = rule_line(keeps, tied, text, only_dir);
    let first = lemma_char(text, 0);
    if keeps {
        assert(line[0] == '!');
        if tied {
            assert(line[1] == '/');
            assert(line.skip(1)[0] == '/');
            assert(line.skip(1).skip(1) =~= whole(text, only_dir));
        } else {
            assert(line[1] == first);
            assert(line.skip(1)[0] == first);
            assert(line.skip(1) =~= whole(text, only_dir));
        }
    } else if tied {
        assert(line[0] == '/');
        assert(line.skip(1) =~= whole(text, only_dir));
    } else {
        assert(line[0] == first);
        assert(line =~= whole(text, only_dir));
    }
}

proof fn lemma_slash_read(text: Seq<char>, only_dir: bool)
    requires
        unmarked(text),
    ensures
        without_slash(whole(text, only_dir)) == text,
        last_is(whole(text, only_dir), '/') == only_dir,
{
    let w = whole(text, only_dir);
    let last = lemma_char(text, text.len() - 1);
    if only_dir {
        assert(w.drop_last() =~= text);
    }
}

proof fn lemma_pattern_read(text: Seq<char>, tied: bool)
    requires
        unmarked(text),
        text != seq!['*', '*'],
    ensures
        rule_pattern(text, tied) == (if ends_in_stars(text) {
            text + seq!['/', '*']
        } else if tied || text.contains('/') {
            text
        } else {
            seq!['*', '*', '/'] + text
        }),
{
    let m = text.len() as int;
    if ends_in_stars(text) {
        let e = text.skip(m - 3);
        assert(e[0] == '/' && e[1] == '*' && e[2] == '*');
        assert(text[m - 3] == '/' && text[m - 2] == '*' && text[m - 1] == '*');
        assert(text.contains('/'));
    } else if tied || text.contains('/') {
        if m >= 3 && text[m - 3] == '/' && text[m - 2] == '*' && text.last() == '*' {
            assert(text.skip(m - 3) =~= seq!['/', '*', '*']);
        }
    } else {
        let u = seq!['*', '*', '/'] + text;
        if u[m] == '/' && u[m + 1] == '*' && u.last() == '*' {
            if m > 2 {
                assert(text[m - 3] == '/');
            } else if m == 2 {
                assert(text[0] == '*' && text[1] == '*');
                assert(text =~= seq!['*', '*']);
            }
        }
    }
}

proof fn lemma_literals(text: Seq<char>)
    ensures
        literals(text).len() == text.len(),
        literal_text(literals(text)) == text,
        all_literal(literals(text)),
        writable(literals(text)),
        text.len() > 0 && !text.contains('/') ==> without_char(literals(text), '/'),
        (forall|i: int| 0 <= i < text.len() ==> !special(#[trigger] text[i])) ==> tokens_text(literals(text)) == text,
        forall|i: int| 0 <= i < text.len() ==> #[trigger] literals(text)[i] == TokenView::Literal(text[i]),
    decreases text.len(),
{
    let ts = literals(text);
    if text.len() > 0 {
        let head = text.drop_last();
        let c = lemma_char(text, text.len() - 1);
        lemma_literals(head);
        assert(ts.drop_last() =~= literals(head));
        assert(ts.last() == TokenView::Literal(c));
        assert forall|i: int| 0 <= i < text.len() implies #[trigger] ts[i] == TokenView::Literal(text[i]) by {
            let d = lemma_char(text, i);
            if i < head.len() {
                assert(ts[i] == literals(head)[i]);
                assert(head[i] == d);
            }
        }
        assert(literal_text(ts) =~= text) by {
            assert forall|i: int| 0 <= i < text.len() implies #[trigger] literal_text(ts)[i] == text[i] by {
                let d = lemma_char(text, i);
                assert(ts[i] == TokenView::Literal(d));
            }
        }
        if head.len() > 0 {
            assert(literals(head)[head.len() - 1] is Literal);
        }
        if !text.contains('/') {
            assert forall|i: int| 0 <= i < ts.len() implies #[trigger] ts[i] != TokenView::Literal('/') by {
                assert(ts[i] == TokenView::Literal(text[i]));
                assert(text.contains(text[i]));
            }
        }
        if forall|i: int| 0 <= i < text.len() ==> !special(#[trigger] text[i]) {
            assert forall|i: int| 0 <= i < head.len() implies !special(#[trigger] head[i]) by {
                assert(head[i] == text[i]);
            }
            assert(!special(text[text.len() - 1]));
            assert(token_text(ts.last()) =~= seq![c]);
            assert(tokens_text(ts) =~= text);
        }
    } else {
        assert(literal_text(ts) =~= text);
    }
}

/// The last name of the path is `name`.
pub open spec fn is_named(path: Seq<u8>, name: Seq<u8>) -> bool {
    path == name || exists|dir: Seq<u8>| path == #[trigger] (dir + seq!['/' as u8]) + name
}

proof fn lemma_is_named(path: Seq<u8>, name: Seq<u8>)
    requires
        name.len() > 0,
        !name.contains('/' as u8),
        name != seq!['.' as u8, '.' as u8],
    ensures
        basename(path) == name <==> is_named(path, name),
{
    let n = path.len() as int;
    let b = base_start(path, n);
    lemma_base_start(path, n);
    let last = from(path, b);
    if basename(path) == name {
        assert(last == name);
        if b == 0 {
            assert(path =~= name);
        } else {
            let dir = path.take(b - 1);
            assert(path =~= (dir + seq!['/' as u8]) + name);
        }
    }
    if is_named(path, name) {
        assert(last == name) by {
            if path == name {
                if b > 0 {
                    assert(name.contains(name[b - 1]));
                }
                assert(last =~= name);
            } else {
                let dir = choose|dir: Seq<u8>| path == #[trigger] (dir + seq!['/' as u8]) + name;
                let k = dir.len() as int;
                assert(path[k] == '/' as u8);
                if b > k + 1 {
                    assert(path[b - 1] == name[b - 1 - (k + 1)]);
                    assert(name.contains(name[b - 1 - (k + 1)]));
                }
                assert(b == k + 1);
                assert(last =~= name);
            }
        }
    }
}

/// No rules.
spec fn none() -> Rules {
    Rules { rules: Seq::empty(), globs: Seq::empty() }
}

/// A rule that is nothing but a name matches every path with that name as its last one, at any depth. One that is tied
/// to its directory, or that has a separator in it, matches the one path that it writes. With a separator behind it, it
/// matches directories only; and with a `!` before it, what matches is kept.
pub proof fn law_names_are_ignored(keeps: bool, tied: bool, text: Seq<char>, only_dir: bool, path: Seq<u8>, is_dir: bool)
    requires
        unmarked(text),
        forall|i: int| 0 <= i < text.len() ==> !special(#[trigger] text[i]),
        text != seq!['.', '.'],
    ensures
        ({
            let line = rule_line(keeps, tied, text, only_dir);
            let name = encode_utf8(text);
            let hit = (if tied || text.contains('/') {
                path == name
            } else {
                is_named(path, name)
            }) && (only_dir ==> is_dir);
            let rules = Rules { rules: Seq::empty(), globs: Seq::empty() };
            keeps_its_end(line) ==> rules.with_line(line, false).verdict(path, is_dir) == (if !hit {
                Match::Nothing
            } else if keeps {
                Match::Whitelist(0int)
            } else {
                Match::Ignore(0int)
            })
        }),
{
    let line = rule_line(keeps, tied, text, only_dir);
    let opts = rule_options(false);
    let name = encode_utf8(text);
    let lits = literals(text);
    let last = lemma_char(text, text.len() - 1);
    assert(text != seq!['*', '*']) by {
        if text == seq!['*', '*'] {
            assert(text[0] == '*');
            assert(special(text[0]));
        }
    }
    assert(!ends_in_stars(text)) by {
        if ends_in_stars(text) {
            assert(text.skip(text.len() - 3)[2] == '*');
            assert(special(text[text.len() - 1]));
        }
    }
    law_rule_read_back(keeps, tied, text, only_dir);
    lemma_literals(text);
    vstd::utf8::encode_utf8_first_scalar(text);
    if keeps_its_end(line) {
        let rule = line_rule(line)->0;
        let rules = none().with_line(line, false);
        if tied || text.contains('/') {
            law_plain_text_is_literal(text, opts);
            let g = GlobView { glob: rule.actual, opts, tokens: lits };
            assert(lits[0] is Literal);
            assert(g.basename_literal() is None);
            assert(g.literal() == Some(text));
            assert(rules.globs[0] == g && rules.rules[0] == rule);
        } else {
            let ts = seq![TokenView::RecursivePrefix] + lits;
            lemma_behind_prefix(lits);
            law_pattern_read_back(ts, opts);
            assert(tokens_text(ts) =~= seq!['*', '*', '/'] + text);
            let g = GlobView { glob: rule.actual, opts, tokens: ts };
            assert(g.tokens.skip(1) =~= lits);
            assert forall|i: int| 0 <= i < lits.len() implies g.within_component(#[trigger] lits[i]) by {
                assert(lits[i] == TokenView::Literal(text[i]));
                assert(lits[i] != TokenView::Literal('/'));
            }
            assert(g.basename_literal() == Some(text));
            assert(rules.globs[0] == g && rules.rules[0] == rule);
            lemma_free_of(lits, '/' as u8);
            assert(!name.contains('/' as u8));
            assert(name != seq!['.' as u8, '.' as u8]) by {
                let dots = seq!['.', '.'];
                vstd::utf8::is_ascii_chars_encode_utf8(dots);
                assert(encode_utf8(dots) =~= seq!['.' as u8, '.' as u8]);
                vstd::utf8::encode_utf8_decode_utf8(dots);
                vstd::utf8::encode_utf8_decode_utf8(text);
            }
            lemma_is_named(path, name);
        }
        assert(rules.rules.len() == 1);
        reveal_with_fuel(Rules::last_hit, 2);
    }
}

/// Tokens that can be written can be written behind `**/`.
proof fn lemma_behind_prefix(ts: Seq<TokenView>)
    requires
        writable(ts),
        all_literal(ts),
    ensures
        writable(seq![TokenView::RecursivePrefix] + ts),
        tokens_text(seq![TokenView::RecursivePrefix] + ts) == seq!['*', '*', '/'] + tokens_text(ts),
    decreases ts.len(),
{
    let all = seq![TokenView::RecursivePrefix] + ts;
    if ts.len() > 0 {
        let head = ts.drop_last();
        assert forall|i: int| 0 <= i < head.len() implies #[trigger] head[i] is Literal by {
            assert(head[i] == ts[i]);
        }
        lemma_behind_prefix(head);
        assert(all.drop_last() =~= seq![TokenView::RecursivePrefix] + head);
        assert(all.last() == ts.last());
        assert(ts[ts.len() - 1] is Literal);
        if head.len() > 0 {
            assert(head[head.len() - 1] is Literal);
        }
        assert(tokens_text(all) =~= seq!['*', '*', '/'] + tokens_text(ts));
    } else {
        assert(all =~= seq![TokenView::RecursivePrefix]);
        assert(all.drop_last() =~= seq![]);
        assert(writable(all.drop_last()));
        assert(token_text(all.last()) == seq!['*', '*', '/']);
        assert(tokens_text(all.drop_last()) =~= seq![]);
        assert(tokens_text(all) =~= seq!['*', '*', '/'] + tokens_text(ts));
    }
}

/// The token is a character other than a separator, `?` or `*`.
pub open spec fn within_a_name(t: TokenView) -> bool {
    match t {
        TokenView::Literal(c) => c != '/',
        TokenView::Any | TokenView::ZeroOrMore => true,
        _ => false,
    }
}

proof fn lemma_spans_no_separator(ts: Seq<TokenView>, path: Seq<u8>, i: int, j: int)
    requires
        forall|k: int| 0 <= k < ts.len() ==> within_a_name(#[trigger] ts[k]),
        0 <= i <= j <= path.len(),
        tokens_span(ts, rule_options(false), path, i, j),
    ensures
        forall|k: int| i <= k < j ==> #[trigger] path[k] != '/' as u8,
    decreases ts.len(),
{
    let opts = rule_options(false);
    if ts.len() > 0 {
        let head = ts.drop_last();
        let t = ts.last();
        let p = choose|k: int|
            #[trigger] between(i, k, j) && tokens_span(head, opts, path, i, k) && token_spans(t, opts, path, k, j);
        assert forall|k: int| 0 <= k < head.len() implies within_a_name(#[trigger] head[k]) by {
            assert(head[k] == ts[k]);
        }
        lemma_spans_no_separator(head, path, i, p);
        assert(within_a_name(ts[ts.len() - 1]));
        assert forall|k: int| p <= k < j implies #[trigger] path[k] != '/' as u8 by {
            if let TokenView::Literal(c) = t {
                let one = literals(seq![c]);
                let e = encode_utf8(seq![c]);
                lemma_literals(seq![c]);
                assert(seq![c][0] == c);
                lemma_free_of(one, '/' as u8);
                assert(path.subrange(p, j)[k - p] == e[k - p]);
            }
        }
    }
}

/// A rule that is tied to its directory and has no other separator matches nothing in a directory below it.
pub proof fn law_tied_rules_stay_in_their_directory(keeps: bool, ts: Seq<TokenView>, only_dir: bool, path: Seq<u8>)
    requires
        writable(ts),
        unmarked(tokens_text(ts)),
        tokens_text(ts) != seq!['*', '*'],
        !tokens_text(ts).contains('/'),
        forall|k: int| 0 <= k < ts.len() ==> within_a_name(#[trigger] ts[k]),
        path.contains('/' as u8),
    ensures
        ({
            let line = rule_line(keeps, true, tokens_text(ts), only_dir);
            let rules = (Rules { rules: Seq::empty(), globs: Seq::empty() }).with_line(line, false);
            keeps_its_end(line) ==> rules.globs.len() == 1 && !means(rules.globs[0], path)
        }),
{
    let text = tokens_text(ts);
    let line = rule_line(keeps, true, text, only_dir);
    let opts = rule_options(false);
    let n = path.len() as int;
    law_rule_read_back(keeps, true, text, only_dir);
    law_pattern_read_back(ts, opts);
    if ends_in_stars(text) {
        assert(text.skip(text.len() - 3)[0] == '/');
        assert(text[text.len() - 3] == '/');
    }
    if keeps_its_end(line) {
        let g = GlobView { glob: line_rule(line)->0.actual, opts, tokens: ts };
        assert forall|i: int| 0 <= i < ts.len() implies !(#[trigger] ts[i] is Class) && !(ts[i] is Alternates) by {
            assert(within_a_name(ts[i]));
        }
        if ts.len() > 0 {
            assert(within_a_name(ts[0]));
        }
        law_tokens_mean_what_they_match(g, path);
        if ts == seq![TokenView::RecursivePrefix] {
            assert(ts[0] is RecursivePrefix);
        }
        if tokens_span(ts, opts, path, 0, n) {
            lemma_spans_no_separator(ts, path, 0, n);
            let k = choose|k: int| 0 <= k < path.len() && path[k] == '/' as u8;
        }
    }
}

/// Comments and empty lines write no rules.
pub proof fn law_comments_are_no_rules(line: Seq<char>)
    requires
        line.len() == 0 || line[0] == '#',
    ensures
        line_rule(line) is None,
{
}

/// A `\` before a `#` or `!` at the beginning of a line takes their meaning away.
pub proof fn law_escaped_marks_are_text(mark: char, rest: Seq<char>)
    requires
        mark == '!' || mark == '#',
        rest.len() > 0,
        rest.last() != '/' && rest.last() != '\\',
        !rest.contains('/'),
        rest.last() != '*',
    ensures
        ({
            let line = seq!['\\', mark] + rest;
            keeps_its_end(line) ==> (line_rule(line) matches Some(rule) && rule.actual == seq!['*', '*', '/', mark] + rest
                && !rule.is_whitelist && !rule.is_only_dir)
        }),
{
    let line = seq!['\\', mark] + rest;
    let n = line.len() as int;
    let last = lemma_char(rest, rest.len() - 1);
    if keeps_its_end(line) {
        assert(line.take(n) =~= line);
        let t = line.skip(1);
        assert(t =~= seq![mark] + rest);
        assert(t.last() == last);
        assert(!t.contains('/')) by {
            if t.contains('/') {
                let i = choose|i: int| 0 <= i < t.len() && t[i] == '/';
                assert(rest[i - 1] == '/');
            }
        }
        assert(t != seq!['*', '*']) by {
            assert(t[0] == mark);
        }
        assert((seq!['*', '*', '/'] + t) =~= seq!['*', '*', '/', mark] + rest);
        assert((seq!['*', '*', '/'] + t).last() == last);
    }
}

/// The lines of a file, each with what ends it.
pub open spec fn written_lines(lines: Seq<Seq<char>>, crlf: bool) -> Seq<u8>
    decreases lines.len(),
{
    if lines.len() == 0 {
        seq![]
    } else {
        encode_utf8(lines[0]) + (if crlf {
            seq![13u8, 10]
        } else {
            seq![10u8]
        }) + written_lines(lines.drop_first(), crlf)
    }
}

/// The rules with what the lines add to them, one after the other.
pub open spec fn with_all(rules: Rules, lines: Seq<Seq<char>>, folds: bool) -> Rules
    decreases lines.len(),
{
    if lines.len() == 0 {
        rules
    } else {
        with_all(rules.with_line(lines[0], folds), lines.drop_first(), folds)
    }
}

/// The text is on one line.
pub open spec fn on_one_line(line: Seq<char>) -> bool {
    !line.contains('\n') && !line.contains('\r')
}

proof fn lemma_free(line: Seq<char>, b: u8)
    requires
        b < 0x80,
        !line.contains(b as char),
    ensures
        forall|k: int| 0 <= k < encode_utf8(line).len() ==> #[trigger] encode_utf8(line)[k] != b,
{
    let ts = literals(line);
    lemma_literals(line);
    assert forall|i: int| 0 <= i < ts.len() implies #[trigger] ts[i] != TokenView::Literal(b as char) by {
        let c = lemma_char(line, i);
        assert(ts[i] == TokenView::Literal(line[i]));
        assert(line.contains(c));
    }
    lemma_free_of(ts, b);
}

proof fn lemma_with_all(rules: Rules, data: Seq<u8>, i: int, lines: Seq<Seq<char>>, crlf: bool, folds: bool)
    requires
        0 <= i <= data.len(),
        from(data, i) == written_lines(lines, crlf),
        forall|k: int| 0 <= k < lines.len() ==> on_one_line(#[trigger] lines[k]),
        i == 0 && lines.len() > 0 ==> !first_is(lines[0], '\u{feff}'),
    ensures
        with_lines(rules, data, i, folds) == with_all(rules, lines, folds),
    decreases lines.len(),
{
    let rest = from(data, i);
    if lines.len() > 0 {
        let line = lines[0];
        let e = encode_utf8(line);
        let end: Seq<u8> = if crlf {
            seq![13u8, 10]
        } else {
            seq![10u8]
        };
        let more = lines.drop_first();
        assert(on_one_line(line));
        lemma_free(line, 10);
        lemma_free(line, 13);
        let all = e + end + written_lines(more, crlf);
        assert(rest == all);
        assert forall|k: int| 0 <= k < all.len() implies #[trigger] data[i + k] == all[k] by {
            assert(rest[k] == data[i + k]);
        }
        let stop = i + e.len() + end.len() - 1;
        assert forall|k: int| i <= k < stop implies #[trigger] data[k] != 10 by {
            assert(data[i + (k - i)] == all[k - i]);
            if k - i < e.len() {
                assert(all[k - i] == e[k - i]);
            }
        }
        assert(data[i + (stop - i)] == all[stop - i]);
        assert(data[stop] == 10);
        lemma_pos_of_is(data, 10, i, stop);
        assert(line_end(data, i) == stop);
        if stop > i {
            assert(data[i + (stop - 1 - i)] == all[stop - 1 - i]);
            if !crlf {
                assert(all[stop - 1 - i] == e[e.len() - 1]);
            }
        }
        assert(line_at(data, i) =~= e) by {
            assert forall|k: int| 0 <= k < e.len() implies data[i + k] == #[trigger] e[k] by {
                assert(all[k] == e[k]);
            }
        }
        vstd::utf8::encode_utf8_valid_utf8(line);
        vstd::utf8::encode_utf8_decode_utf8(line);
        assert(line_text(data, i) == line);
        assert(from(data, stop + 1) =~= written_lines(more, crlf)) by {
            assert forall|k: int| 0 <= k < written_lines(more, crlf).len() implies data[stop + 1 + k]
                == #[trigger] written_lines(more, crlf)[k] by {
                assert(data[i + (stop + 1 - i + k)] == all[stop + 1 - i + k]);
            }
        }
        assert forall|k: int| 0 <= k < more.len() implies on_one_line(#[trigger] more[k]) by {
            assert(more[k] == lines[k + 1]);
        }
        lemma_with_all(rules.with_line(line, folds), data, stop + 1, more, crlf, folds);
    } else {
        assert(rest.len() == 0);
    }
}

/// Every line of a file writes a rule, in the order of the lines, whether lines end in a line feed or in a carriage
/// return with one.
pub proof fn law_every_line_is_read(rules: Rules, lines: Seq<Seq<char>>, crlf: bool, folds: bool)
    requires
        forall|k: int| 0 <= k < lines.len() ==> on_one_line(#[trigger] lines[k]),
        lines.len() > 0 ==> !first_is(lines[0], '\u{feff}'),
    ensures
        with_lines(rules, written_lines(lines, crlf), 0, folds) == with_all(rules, lines, folds),
{
    let data = written_lines(lines, crlf);
    assert(from(data, 0) =~= data);
    lemma_with_all(rules, data, 0, lines, crlf, folds);
}

/// The last line need not be ended, and a byte order mark before the first one does not count.
pub proof fn law_last_line_is_read(rules: Rules, line: Seq<char>, folds: bool)
    requires
        on_one_line(line),
        !first_is(line, '\u{feff}'),
    ensures
        with_lines(rules, encode_utf8(line), 0, folds) == rules.with_line(line, folds),
        with_lines(rules, encode_utf8(seq!['\u{feff}'] + line), 0, folds) == rules.with_line(line, folds),
{
    let marked = seq!['\u{feff}'] + line;
    lemma_last_line(rules, line, folds);
    assert(on_one_line(marked)) by {
        if marked.contains('\n') {
            let i = choose|i: int| 0 <= i < marked.len() && marked[i] == '\n';
            assert(line[i - 1] == '\n');
        }
        if marked.contains('\r') {
            let i = choose|i: int| 0 <= i < marked.len() && marked[i] == '\r';
            assert(line[i - 1] == '\r');
        }
    }
    lemma_last_line(rules, marked, folds);
    assert(marked[0] == '\u{feff}');
    assert(marked.skip(1) =~= line);
    assert(without_boms(marked) == without_boms(line));
}

proof fn lemma_last_line(rules: Rules, line: Seq<char>, folds: bool)
    requires
        on_one_line(line),
    ensures
        with_lines(rules, encode_utf8(line), 0, folds) == rules.with_line(without_boms(line), folds),
{
    let data = encode_utf8(line);
    lemma_free(line, 10);
    lemma_pos_of_is(data, 10, 0, data.len() as int);
    vstd::utf8::encode_utf8_valid_utf8(line);
    vstd::utf8::encode_utf8_decode_utf8(line);
    assert(line_at(data, 0) =~= data);
    if line.len() > 0 {
        vstd::utf8::encode_utf8_first_scalar(line);
        assert(with_lines(rules.with_line(line_text(data, 0), folds), data, data.len() as int + 1, folds) == rules.with_line(
            line_text(data, 0),
            folds,
        ));
    } else {
        assert(data =~= seq![]);
    }
}

/// A path in a directory is, relative to it, what follows the directory and a separator. A `./` before a path does not
/// count.
pub proof fn law_paths_are_relative(root: Seq<u8>, path: Seq<u8>)
    ensures
        !is_here(root) && !begins(root + seq!['/' as u8] + path, lit("./")) ==> relative_to(
            root + seq!['/' as u8] + path,
            root,
        ) == path,
        !begins(path, lit("./")) ==> relative_to(lit("./") + path, root) == relative_to(path, root),
        is_here(root) && !begins(path, lit("./")) ==> relative_to(path, root) == path,
{
    let sep = seq!['/' as u8];
    let full = root + sep + path;
    reveal_strlit("./");
    reveal_strlit("/");
    vstd::utf8::is_ascii_chars_encode_utf8("./"@);
    vstd::utf8::is_ascii_chars_encode_utf8("/"@);
    assert(lit("/") =~= sep);
    assert(full[root.len() as int] == '/' as u8);
    assert(full.contains('/' as u8));
    assert(full.subrange(0, root.len() as int) =~= root);
    let rest = from(full, root.len() as int);
    assert(rest =~= sep + path);
    assert(rest.subrange(0, 1) =~= sep);
    assert(from(rest, 1) =~= path);
    let dotted = lit("./") + path;
    assert(dotted.subrange(0, 2) =~= lit("./"));
    assert(from(dotted, 2) =~= path);
}

} // verus!
