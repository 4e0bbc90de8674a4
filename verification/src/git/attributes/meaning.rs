//! What the lines of attribute files mean.
use crate::bytes::{begins, ends, from, lemma_pos_of_any_is, lemma_pos_of_is, lit};
use crate::git::attributes::line::{blanks, content_end, line_of, mapping_of, mappings_from, name_byte, past_blanks, skipped_blanks, valid_attribute, word_assignment, AssignmentView, LineView, Mapping, MappingView, StateView};
use crate::git::attributes::search::{all_applied, attribute_match_mode, attributes_at, basename_start, filled, fresh, law_found_attribute_stays, list_applied, pending, renumbered, searched, some_missing, tracked_view, Attributes, Item, List, OutcomeView, Place};
use crate::git::pattern::{glob_characters, is_pattern, path_matches, pattern_mode, pattern_text, star_and_literal, wildcard_pos, PatternMode};
use vstd::prelude::*;

verus! {

/// The name is one of an attribute: letters, digits, `-`, `_` and `.`, of which it does not begin with `-`.
pub open spec fn plain_name(name: Seq<u8>) -> bool {
    &&& name.len() > 0
    &&& name[0] != '-' as u8
    &&& forall|i: int|
        0 <= i < name.len() ==> ('a' as u8 <= #[trigger] name[i] && name[i] <= 'z' as u8) || ('A' as u8 <= name[i]
            && name[i] <= 'Z' as u8) || ('0' as u8 <= name[i] && name[i] <= '9' as u8) || name[i] == '-' as u8 || name[i]
            == '_' as u8 || name[i] == '.' as u8
}

/// A name sets an attribute, `-` before it unsets it, `!` before it leaves it unspecified, and `=` behind it gives it a
/// value.
pub proof fn law_words_set_attributes(name: Seq<u8>, value: Seq<u8>)
    requires
        plain_name(name),
    ensures
        valid_attribute(name),
        word_assignment(name) == (AssignmentView { name, state: StateView::On }),
        word_assignment(seq!['-' as u8] + name) == (AssignmentView { name, state: StateView::Off }),
        word_assignment(seq!['!' as u8] + name) == (AssignmentView { name, state: StateView::Unspecified }),
        word_assignment(name + seq!['=' as u8] + value) == (AssignmentView { name, state: StateView::Value(value) }),
{
    let n = name.len() as int;
    assert forall|i: int| 0 <= i < n implies name_byte(#[trigger] name[i]) && name[i] != '=' as u8 by {}
    lemma_pos_of_is(name, '=' as u8, 0, n);
    assert(name.subrange(0, n) =~= name);
    let off = seq!['-' as u8] + name;
    let unset = seq!['!' as u8] + name;
    assert forall|i: int| 0 <= i < n + 1 implies #[trigger] off[i] != '=' as u8 && unset[i] != '=' as u8 by {
        if i > 0 {
            assert(off[i] == name[i - 1] && unset[i] == name[i - 1]);
        }
    }
    lemma_pos_of_is(off, '=' as u8, 0, n + 1);
    lemma_pos_of_is(unset, '=' as u8, 0, n + 1);
    assert(off.subrange(0, n + 1) =~= off && from(off, 1) =~= name);
    assert(unset.subrange(0, n + 1) =~= unset && from(unset, 1) =~= name);
    let with = name + seq!['=' as u8] + value;
    assert forall|i: int| 0 <= i < n implies #[trigger] with[i] != '=' as u8 by {
        assert(with[i] == name[i]);
    }
    assert(with[n] == '=' as u8);
    lemma_pos_of_is(with, '=' as u8, 0, n);
    assert(with.subrange(0, n) =~= name);
    assert(from(with, n + 1) =~= value);
}

/// The byte is a space, a tab or a carriage return.
pub open spec fn is_blank_byte(b: u8) -> bool {
    b == 32 || b == 9 || b == 13
}

/// The pattern begins a line as it is: with no mark, no quote and no blank in it.
pub open spec fn plain_pattern(head: Seq<u8>) -> bool {
    &&& head.len() > 0
    &&& head[0] != '#' as u8 && head[0] != '!' as u8 && head[0] != '"' as u8 && head[0] != '\\' as u8 && head[0] != '[' as u8
    &&& forall|i: int| 0 <= i < head.len() ==> !is_blank_byte(#[trigger] head[i]) && head[i] > 32
}

/// A line is a pattern and what it sets for the paths that match, with a blank between them. Blanks before it do not
/// count.
pub proof fn law_line_is_pattern_and_words(head: Seq<u8>, rest: Seq<u8>)
    requires
        plain_pattern(head),
        rest.len() > 0 ==> is_blank_byte(rest[0]),
    ensures
        line_of(head + rest) == LineView::Glob(head, rest),
        skipped_blanks(head + rest) == head + rest,
        skipped_blanks(seq![32u8] + (head + rest)) == head + rest,
        skipped_blanks(seq![9u8] + (head + rest)) == head + rest,
{
    let line = head + rest;
    let n = head.len() as int;
    let b = blanks();
    assert(b[0] == 32 && b[1] == 9 && b[2] == 13);
    assert forall|x: u8| #[trigger] b.contains(x) == is_blank_byte(x) by {
        if b.contains(x) {
            let i = choose|i: int| 0 <= i < b.len() && b[i] == x;
        }
    }
    assert forall|i: int| 0 <= i < n implies !b.contains(#[trigger] line[i]) by {
        assert(line[i] == head[i]);
    }
    assert(rest.len() > 0 ==> line[n] == rest[0]);
    lemma_pos_of_any_is(line, b, 0, n);
    assert(line.subrange(0, n) =~= head);
    assert(from(line, n) =~= rest);
    assert(line[0] == head[0]);
    reveal_strlit("[attr]");
    vstd::utf8::is_ascii_chars_encode_utf8("[attr]"@);
    assert(lit("[attr]")[0] == '[' as u8);
    if begins(head, lit("[attr]")) {
        assert(head.subrange(0, 6)[0] == head[0]);
    }
    assert(is_pattern(head, true)) by {
        assert(!is_blank_byte(head[0]) && head[0] > 32);
        assert(!crate::ascii::whitespace(head[0]));
    }
    assert(past_blanks(line, 0) == 0);
    assert(from(line, 0) =~= line);
    let spaced = seq![32u8] + line;
    let tabbed = seq![9u8] + line;
    assert(spaced[0] == 32 && spaced[1] == line[0]);
    assert(tabbed[0] == 9 && tabbed[1] == line[0]);
    assert(past_blanks(spaced, 1) == 1);
    assert(past_blanks(tabbed, 1) == 1);
    assert(past_blanks(spaced, 0) == 1);
    assert(past_blanks(tabbed, 0) == 1);
    assert(from(spaced, 1) =~= line);
    assert(from(tabbed, 1) =~= line);
}

/// A line that begins with `#` says nothing.
pub proof fn law_comments_say_nothing(rest: Seq<u8>, number: int)
    ensures
        mapping_of(seq!['#' as u8] + rest, number) is None,
{
    let line = seq!['#' as u8] + rest;
    assert(line[0] == '#' as u8);
    assert(!blanks().contains('#' as u8)) by {
        assert(blanks()[0] == 32 && blanks()[1] == 9 && blanks()[2] == 13);
    }
    assert(past_blanks(line, 0) == 0);
    assert(from(line, 0) =~= line);
}

/// A pattern as it is written: with a separator before its text or without, and with one behind it or without.
pub open spec fn written_pattern(rooted: bool, text: Seq<u8>, only_dir: bool) -> Seq<u8> {
    (if rooted {
        seq!['/' as u8]
    } else {
        seq![]
    }) + text + (if only_dir {
        seq!['/' as u8]
    } else {
        seq![]
    })
}

/// The text of a pattern begins with no mark and ends in no separator.
pub open spec fn plain_text(text: Seq<u8>) -> bool {
    &&& text.len() > 0
    &&& text[0] != '!' as u8 && text[0] != '\\' as u8 && text[0] != '/' as u8
    &&& text.last() != '/' as u8
}

/// A pattern is read as it was written.
pub proof fn law_pattern_read_back(rooted: bool, text: Seq<u8>, only_dir: bool)
    requires
        plain_text(text),
    ensures
        ({
            let pat = written_pattern(rooted, text, only_dir);
            let mode = pattern_mode(pat, true);
            &&& pattern_text(pat, true) == text
            &&& mode.absolute == rooted
            &&& mode.must_be_dir == only_dir
            &&& mode.no_sub_dir == !text.contains('/' as u8)
            &&& !mode.negative
            &&& mode.ends_with == star_and_literal(text)
        }),
{
    let pat = written_pattern(rooted, text, only_dir);
    let whole = if only_dir {
        text.push('/' as u8)
    } else {
        text
    };
    let last = text.last();
    assert(whole[0] == text[0]);
    if rooted {
        assert(pat[0] == '/' as u8);
        assert(from(pat, 1) =~= whole);
    } else {
        assert(pat =~= whole);
        assert(pat[0] == text[0]);
    }
    if only_dir {
        assert(whole.drop_last() =~= text);
    }
}

/// A `!` before a pattern turns it round and changes nothing else.
pub proof fn law_negative_patterns(pat: Seq<u8>)
    requires
        pat.len() > 0,
        pat[0] != '!' as u8 && pat[0] != '\\' as u8,
    ensures
        pattern_text(seq!['!' as u8] + pat, true) == pattern_text(pat, true),
        pattern_mode(seq!['!' as u8] + pat, true) == (PatternMode { negative: true, ..pattern_mode(pat, true) }),
        !pattern_mode(pat, true).negative,
{
    let n = seq!['!' as u8] + pat;
    assert(n[0] == '!' as u8);
    assert(from(n, 1) =~= pat);
}

/// The bytes hold no wildcard and no `\`.
pub open spec fn no_wildcards(s: Seq<u8>) -> bool {
    forall|i: int| 0 <= i < s.len() ==> #[trigger] s[i] != '*' as u8 && s[i] != '?' as u8 && s[i] != '[' as u8 && s[i]
        != '\\' as u8
}

proof fn lemma_no_wildcards(s: Seq<u8>)
    requires
        no_wildcards(s),
    ensures
        wildcard_pos(s) is None,
{
    let g = glob_characters();
    assert forall|i: int| 0 <= i < s.len() implies !g.contains(#[trigger] s[i]) by {
        if g.contains(s[i]) {
            let k = choose|k: int| 0 <= k < g.len() && g[k] == s[i];
            assert(s[i] != '*' as u8 && s[i] != '?' as u8 && s[i] != '[' as u8 && s[i] != '\\' as u8);
        }
    }
    lemma_pos_of_any_is(s, g, 0, s.len() as int);
}

/// Where the last name of a path begins.
proof fn lemma_basename_start_is(path: Seq<u8>, k: int, p: int)
    requires
        0 <= p <= k <= path.len(),
        p > 0 ==> path[p - 1] == '/' as u8,
        forall|i: int| p <= i < k ==> #[trigger] path[i] != '/' as u8,
    ensures
        p > 0 ==> basename_start(path, k) == Some(p as usize),
        p == 0 ==> basename_start(path, k) is None,
    decreases k,
{
    if p < k {
        assert(path[k - 1] != '/' as u8);
        lemma_basename_start_is(path, k - 1, p);
    }
}

/// The path of the name in the directory; the directory may be none.
pub open spec fn path_of(dir: Option<Seq<u8>>, name: Seq<u8>) -> Seq<u8> {
    match dir {
        Some(d) => d + seq!['/' as u8] + name,
        None => name,
    }
}

/// A pattern that is nothing but a name matches every path with that name as its last one. One that begins with a
/// separator, or has one in it, matches the one path that it writes. With a separator behind it, it matches directories
/// only.
pub proof fn law_names_match(
    rooted: bool,
    text: Seq<u8>,
    only_dir: bool,
    dir: Option<Seq<u8>>,
    name: Seq<u8>,
    is_dir: Option<bool>,
)
    requires
        plain_text(text),
        no_wildcards(text),
        !name.contains('/' as u8),
        path_of(dir, name).len() <= usize::MAX,
    ensures
        ({
            let pat = written_pattern(rooted, text, only_dir);
            let path = path_of(dir, name);
            path_matches(
                pattern_text(pat, true),
                pattern_mode(pat, true),
                wildcard_pos(pattern_text(pat, true)),
                path,
                basename_start(path, path.len() as int),
                is_dir,
                attribute_match_mode(),
            ) <==> (only_dir ==> is_dir == Some(true)) && (if rooted || text.contains('/' as u8) {
                path == text
            } else {
                name == text
            })
        }),
{
    let path = path_of(dir, name);
    law_pattern_read_back(rooted, text, only_dir);
    lemma_no_wildcards(text);
    lemma_last_name(dir, name);
}

proof fn lemma_last_name(dir: Option<Seq<u8>>, name: Seq<u8>)
    requires
        !name.contains('/' as u8),
        path_of(dir, name).len() <= usize::MAX,
    ensures
        ({
            let path = path_of(dir, name);
            match basename_start(path, path.len() as int) {
                Some(p) => dir is Some && p <= path.len() && from(path, p as int) == name,
                None => dir is None && path == name,
            }
        }),
{
    let path = path_of(dir, name);
    let p: int = match dir {
        Some(d) => d.len() as int + 1,
        None => 0,
    };
    assert forall|i: int| p <= i < path.len() implies #[trigger] path[i] != '/' as u8 by {
        assert(path[i] == name[i - p]);
        assert(name.contains(name[i - p]));
    }
    if p > 0 {
        assert(path[p - 1] == '/' as u8);
    }
    lemma_basename_start_is(path, path.len() as int, p);
    assert(from(path, p) =~= name);
}

/// A pattern of a `*` and an ending without separators matches every path whose last name has that ending.
pub proof fn law_endings_match(ending: Seq<u8>, dir: Option<Seq<u8>>, name: Seq<u8>, is_dir: Option<bool>)
    requires
        no_wildcards(ending),
        ending.len() > 0,
        !ending.contains('/' as u8),
        !name.contains('/' as u8),
        path_of(dir, name).len() <= usize::MAX,
    ensures
        ({
            let pat = seq!['*' as u8] + ending;
            let path = path_of(dir, name);
            path_matches(
                pattern_text(pat, true),
                pattern_mode(pat, true),
                wildcard_pos(pattern_text(pat, true)),
                path,
                basename_start(path, path.len() as int),
                is_dir,
                attribute_match_mode(),
            ) <==> exists|stem: Seq<u8>| name == #[trigger] (stem + ending)
        }),
{
    let pat = seq!['*' as u8] + ending;
    let path = path_of(dir, name);
    assert(pat.last() == ending.last());
    assert(!pat.contains('/' as u8)) by {
        if pat.contains('/' as u8) {
            let i = choose|i: int| 0 <= i < pat.len() && pat[i] == '/' as u8;
            assert(ending[i - 1] == '/' as u8);
        }
    }
    assert(ending.contains(ending.last())) by {
        assert(ending[ending.len() - 1] == ending.last());
    }
    assert(written_pattern(false, pat, false) =~= pat);
    law_pattern_read_back(false, pat, false);
    assert(from(pat, 1) =~= ending);
    lemma_no_wildcards(ending);
    assert(glob_characters()[0] == '*' as u8);
    assert(glob_characters().contains(pat[0]));
    lemma_pos_of_any_is(pat, glob_characters(), 0, 0);
    lemma_last_name(dir, name);
    let n = name.len() as int;
    let m = ending.len() as int;
    if ends(name, ending) {
        let stem = name.take(n - m);
        assert(name =~= stem + ending);
    }
    if exists|stem: Seq<u8>| name == #[trigger] (stem + ending) {
        let stem = choose|stem: Seq<u8>| name == #[trigger] (stem + ending);
        assert(name.subrange(n - m, n) =~= ending);
    }
}

/// Attributes that were found stay as they are while further lines are searched.
proof fn lemma_searched_keeps(
    lines: Seq<Mapping>,
    k: int,
    source: Option<Seq<u8>>,
    path: Seq<u8>,
    basename: Option<usize>,
    is_dir: Option<bool>,
    o: OutcomeView,
)
    ensures
        searched(lines, k, source, path, basename, is_dir, o).found.len() == o.found.len(),
        forall|i: int|
            0 <= i < o.found.len() && (#[trigger] o.found[i]) is Some ==> searched(
                lines,
                k,
                source,
                path,
                basename,
                is_dir,
                o,
            ).found[i] == o.found[i],
    decreases k,
{
    if k > 0 {
        let m = lines[k - 1];
        let attrs = tracked_view(m.assignments@);
        let place = Place { text: m.pattern.text@, source, number: m.sequence_number as int };
        let stack = pending(attrs, o.found, None);
        let next = filled(o, stack, place).0;
        law_found_attribute_stays(o, stack, place);
        lemma_searched_keeps(lines, k - 1, source, path, basename, is_dir, next);
        lemma_searched_keeps(lines, k - 1, source, path, basename, is_dir, o);
    }
}

/// A line that sets one attribute decides about it for every path that it matches, whatever the lines before it say. A line
/// that does not match changes nothing.
pub proof fn law_later_lines_decide(
    lines: Seq<Mapping>,
    k: int,
    source: Option<Seq<u8>>,
    path: Seq<u8>,
    basename: Option<usize>,
    is_dir: Option<bool>,
    o: OutcomeView,
    id: int,
    a: AssignmentView,
)
    requires
        0 < k <= lines.len(),
        0 <= id < o.found.len(),
        o.found[id] is None,
        tracked_view(lines[k - 1].assignments@) == seq![(id, a)],
        lines[k - 1].pattern.mode != crate::git::attributes::line::macro_mode(),
    ensures
        ({
            let m = lines[k - 1];
            let end = searched(lines, k, source, path, basename, is_dir, o);
            if path_matches(
                m.pattern.text@,
                m.pattern.mode,
                m.pattern.first_wildcard_pos,
                path,
                basename,
                is_dir,
                attribute_match_mode(),
            ) {
                end.found[id] matches Some(f) && f.assignment == a
            } else {
                end == searched(lines, k - 1, source, path, basename, is_dir, o)
            }
        }),
{
    let m = lines[k - 1];
    let attrs = tracked_view(m.assignments@);
    let place = Place { text: m.pattern.text@, source, number: m.sequence_number as int };
    let stack = pending(attrs, o.found, None);
    let item = Item { id, assignment: a, via: None };
    assert(attrs.last() == (id, a));
    assert(attrs.drop_last() =~= seq![]);
    assert(pending(attrs.drop_last(), o.found, None) =~= seq![]);
    assert(stack =~= seq![item]);
    assert(attrs[0] == (id, a));
    assert(some_missing(attrs, o.found)) by {
        assert(o.found[attrs[0].0] is None);
    }
    let next = o.with_item(item, place);
    assert(stack.last() == item);
    assert(stack.drop_last() =~= seq![]);
    let out = filled(o, stack, place).0;
    assert(out.found[id] == next.found[id]) by {
        let rest = stack.drop_last();
        crate::git::attributes::search::lemma_missing_update(o.found, id, next.found[id]->0);
        if next.remaining != 0 {
            if a.state is On && o.macros[id].len() > 0 {
                law_found_attribute_stays(next, rest + pending(o.macros[id], next.found, Some(id as usize)), place);
            } else {
                law_found_attribute_stays(next, rest, place);
            }
        }
    }
    law_found_attribute_stays(o, stack, place);
    lemma_searched_keeps(lines, k - 1, source, path, basename, is_dir, out);
}

proof fn lemma_list_keeps(
    l: List,
    path: Seq<u8>,
    basename: Option<usize>,
    is_dir: Option<bool>,
    o: OutcomeView,
)
    ensures
        list_applied(l, path, basename, is_dir, o).found.len() == o.found.len(),
        forall|i: int|
            0 <= i < o.found.len() && (#[trigger] o.found[i]) is Some ==> list_applied(l, path, basename, is_dir, o).found[i]
                == o.found[i],
{
    match crate::git::attributes::search::below(crate::git::config::source::maybe(l.base), path, basename) {
        None => {},
        Some((rest, pos)) => {
            lemma_searched_keeps(
                l.patterns@,
                l.patterns@.len() as int,
                crate::git::config::source::maybe(l.source),
                rest,
                pos,
                is_dir,
                o,
            );
        },
    }
}

/// What the last of the files says of an attribute stays, whatever the files before it say.
pub proof fn law_later_files_decide(lists: Seq<List>, k: int, path: Seq<u8>, is_dir: Option<bool>, o: OutcomeView, i: int)
    requires
        0 < k <= lists.len(),
        0 <= i < o.found.len(),
    ensures
        ({
            let last = list_applied(lists[k - 1], path, basename_start(path, path.len() as int), is_dir, o);
            last.found[i] is Some ==> all_applied(lists, k, path, is_dir, o).found[i] == last.found[i]
        }),
{
    let last = list_applied(lists[k - 1], path, basename_start(path, path.len() as int), is_dir, o);
    lemma_list_keeps(lists[k - 1], path, basename_start(path, path.len() as int), is_dir, o);
    lemma_all_keep(lists, k - 1, path, is_dir, last);
}

proof fn lemma_all_keep(lists: Seq<List>, k: int, path: Seq<u8>, is_dir: Option<bool>, o: OutcomeView)
    ensures
        all_applied(lists, k, path, is_dir, o).found.len() == o.found.len(),
        forall|i: int|
            0 <= i < o.found.len() && (#[trigger] o.found[i]) is Some ==> all_applied(lists, k, path, is_dir, o).found[i]
                == o.found[i],
    decreases k,
{
    if k > 0 {
        let next = list_applied(lists[k - 1], path, basename_start(path, path.len() as int), is_dir, o);
        lemma_list_keeps(lists[k - 1], path, basename_start(path, path.len() as int), is_dir, o);
        lemma_all_keep(lists, k - 1, path, is_dir, next);
    }
}

/// What the attribute files of the worktree say stays, whatever the global ones say.
pub proof fn law_worktree_decides_before_globals(a: Attributes, path: Seq<u8>, is_dir: Option<bool>, o: OutcomeView, i: int)
    ensures
        ({
            let first = fresh(a.collection, o, renumbered(a.collection, o));
            let own = all_applied(a.stack.patterns@, a.stack.patterns@.len() as int, path, is_dir, first);
            0 <= i < own.found.len() && own.found[i] is Some ==> attributes_at(a, path, is_dir, o).found[i] == own.found[i]
        }),
{
    let first = fresh(a.collection, o, renumbered(a.collection, o));
    let own = all_applied(a.stack.patterns@, a.stack.patterns@.len() as int, path, is_dir, first);
    lemma_all_keep(a.globals.patterns@, a.globals.patterns@.len() as int, path, is_dir, own);
}

/// The lines of a file, each with what ends it.
pub open spec fn written_lines(lines: Seq<Seq<u8>>, crlf: bool) -> Seq<u8>
    decreases lines.len(),
{
    if lines.len() == 0 {
        seq![]
    } else {
        lines[0] + (if crlf {
            seq![13u8, 10]
        } else {
            seq![10u8]
        }) + written_lines(lines.drop_first(), crlf)
    }
}

/// What the lines give one after the other, of which `number` came before.
pub open spec fn mappings_of(lines: Seq<Seq<u8>>, number: int) -> Seq<MappingView>
    decreases lines.len(),
{
    if lines.len() == 0 {
        seq![]
    } else {
        (match mapping_of(lines[0], number + 1) {
            Some(m) => seq![m],
            None => seq![],
        }) + mappings_of(lines.drop_first(), number + 1)
    }
}

proof fn lemma_mappings_of(data: Seq<u8>, i: int, lines: Seq<Seq<u8>>, crlf: bool, number: int)
    requires
        0 <= i <= data.len(),
        from(data, i) == written_lines(lines, crlf),
        forall|k: int| 0 <= k < lines.len() ==> !(#[trigger] lines[k]).contains(10u8) && !lines[k].contains(13u8),
    ensures
        mappings_from(data, i, number) == mappings_of(lines, number),
    decreases lines.len(),
{
    let rest = from(data, i);
    if lines.len() > 0 {
        let e = lines[0];
        let end: Seq<u8> = if crlf {
            seq![13u8, 10]
        } else {
            seq![10u8]
        };
        let more = lines.drop_first();
        assert(!lines[0].contains(10u8));
        let all = e + end + written_lines(more, crlf);
        assert(rest == all);
        assert forall|k: int| 0 <= k < all.len() implies #[trigger] data[i + k] == all[k] by {
            assert(rest[k] == data[i + k]);
        }
        let stop = i + e.len() + end.len() - 1;
        assert forall|k: int| i <= k < stop implies #[trigger] data[k] != 10 by {
            assert(data[i + (k - i)] == all[k - i]);
            if k - i < e.len() {
                assert(all[k - i] == e[k - i]);
                assert(e.contains(e[k - i]));
            }
        }
        assert(data[i + (stop - i)] == all[stop - i]);
        lemma_pos_of_is(data, 10, i, stop);
        if stop > i {
            assert(data[i + (stop - 1 - i)] == all[stop - 1 - i]);
            if !crlf {
                assert(all[stop - 1 - i] == e[e.len() - 1]);
                assert(e.contains(e[e.len() - 1]));
            }
        }
        assert(data.subrange(i, content_end(data, i)) =~= e) by {
            assert forall|k: int| 0 <= k < e.len() implies data[i + k] == #[trigger] e[k] by {
                assert(all[k] == e[k]);
            }
        }
        assert(from(data, stop + 1) =~= written_lines(more, crlf)) by {
            assert forall|k: int| 0 <= k < written_lines(more, crlf).len() implies data[stop + 1 + k]
                == #[trigger] written_lines(more, crlf)[k] by {
                assert(data[i + (stop + 1 - i + k)] == all[stop + 1 - i + k]);
            }
        }
        assert forall|k: int| 0 <= k < more.len() implies !(#[trigger] more[k]).contains(10u8) && !more[k].contains(13u8) by {
            assert(more[k] == lines[k + 1]);
        }
        lemma_mappings_of(data, stop + 1, more, crlf, number + 1);
        assert(Seq::<MappingView>::empty() + mappings_of(more, number + 1) =~= mappings_of(more, number + 1));
    } else {
        assert(rest.len() == 0);
    }
}

/// Every line of a file counts, in the order of the lines, whether they end in a line feed or in a carriage return with one.
pub proof fn law_every_line_counts(lines: Seq<Seq<u8>>, crlf: bool)
    requires
        forall|k: int| 0 <= k < lines.len() ==> !(#[trigger] lines[k]).contains(10u8) && !lines[k].contains(13u8),
    ensures
        mappings_from(written_lines(lines, crlf), 0, 0) == mappings_of(lines, 0),
{
    let data = written_lines(lines, crlf);
    assert(from(data, 0) =~= data);
    lemma_mappings_of(data, 0, lines, crlf, 0);
}

} // verus!
