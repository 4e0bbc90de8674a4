//! The rules of ignore files.
use crate::bytes::{begins, from, lemma_pos_of, lit, pos_of, to_vec};
use crate::globset::error::{opt_chars, ErrorKindView};
use crate::globset::glob::{GlobBuilder, GlobView};
use crate::globset::parse::{parsed, GlobOptions};
use crate::globset::set::{are_hits, ascending, buildable, glob_matches, Candidate, GlobSet, GlobSetBuilder};
use crate::ignore::error::{Error, Match, PartialErrorBuilder};
use crate::ignore::paths::{has_no_separator, strip_if_is_prefix, strip_path_prefix, stripped};
use crate::path::{is_current_dir, is_here};
use crate::text::{chars_of, has_char, string_of, trim_end, trimmed_len, utf8_string};
use vstd::prelude::*;

verus! {

/// A rule of an ignore file.
#[derive(Debug)]
pub struct GitIgnoreGlob {
    /// The rule as it was written.
    pub original: String,
    /// The glob pattern that paths are matched against.
    pub actual: String,
    /// What matches is kept.
    pub is_whitelist: bool,
    /// Only directories match.
    pub is_only_dir: bool,
}

pub struct RuleView {
    pub original: Seq<char>,
    pub actual: Seq<char>,
    pub is_whitelist: bool,
    pub is_only_dir: bool,
}

impl View for GitIgnoreGlob {
    type V = RuleView;

    open spec fn view(&self) -> RuleView {
        RuleView {
            original: self.original@,
            actual: self.actual@,
            is_whitelist: self.is_whitelist,
            is_only_dir: self.is_only_dir,
        }
    }
}

/// The string begins with `c`.
pub open spec fn first_is(s: Seq<char>, c: char) -> bool {
    s.len() > 0 && s[0] == c
}

/// The string ends with `c`.
pub open spec fn last_is(s: Seq<char>, c: char) -> bool {
    s.len() > 0 && s.last() == c
}

/// The line without the white space at its end, unless that is escaped.
pub open spec fn trimmed_line(s: Seq<char>) -> Seq<char> {
    if s.len() >= 2 && s[s.len() - 2] == '\\' && s.last() == ' ' {
        s
    } else {
        s.take(trimmed_len(s, s.len() as int))
    }
}

/// A `!` or `#` at the beginning is escaped.
pub open spec fn escaped_mark(s: Seq<char>) -> bool {
    s.len() >= 2 && s[0] == '\\' && (s[1] == '!' || s[1] == '#')
}

/// The text of a rule: without the marks at its beginning.
pub open spec fn without_marks(s: Seq<char>) -> Seq<char> {
    if escaped_mark(s) {
        s.skip(1)
    } else {
        let t = if first_is(s, '!') {
            s.skip(1)
        } else {
            s
        };
        if first_is(t, '/') {
            t.skip(1)
        } else {
            t
        }
    }
}

/// A `/` at the beginning ties the rule to the directory of its file.
pub open spec fn is_anchored(s: Seq<char>) -> bool {
    !escaped_mark(s) && (if first_is(s, '!') {
        first_is(s.skip(1), '/')
    } else {
        first_is(s, '/')
    })
}

/// The text without the `/` at its end, and without the `\` that may escape it.
pub open spec fn without_slash(s: Seq<char>) -> Seq<char> {
    if last_is(s, '/') {
        let t = s.drop_last();
        if last_is(t, '\\') {
            t.drop_last()
        } else {
            t
        }
    } else {
        s
    }
}

/// The pattern for the text of a rule. One without a `/` matches at any depth, and one that
/// ends in `/**` matches what is in a directory and not the directory.
pub open spec fn rule_pattern(s: Seq<char>, anchored: bool) -> Seq<char> {
    let t = if !anchored && !s.contains('/') && s != seq!['*', '*'] {
        seq!['*', '*', '/'] + s
    } else {
        s
    };
    if t.len() >= 3 && t[t.len() - 3] == '/' && t[t.len() - 2] == '*' && t.last() == '*' {
        t + seq!['/', '*']
    } else {
        t
    }
}

/// The rule that a line writes. `None` for comments and empty lines.
pub open spec fn line_rule(line: Seq<char>) -> Option<RuleView> {
    let s = trimmed_line(line);
    if first_is(line, '#') || s.len() == 0 {
        None
    } else {
        let t = without_marks(s);
        Some(
            RuleView {
                original: s,
                actual: rule_pattern(without_slash(t), is_anchored(s)),
                is_whitelist: !escaped_mark(s) && first_is(s, '!'),
                is_only_dir: last_is(t, '/'),
            },
        )
    }
}

/// Where the text of the rule in the first `end` characters begins, whether the rule keeps
/// what it matches, and whether it is tied to its directory.
fn read_marks(chars: &Vec<char>, end: usize) -> (r: (usize, bool, bool))
    requires
        0 < end <= chars@.len(),
    ensures
        ({
            let s = chars@.take(end as int);
            r.0 <= end && chars@.subrange(r.0 as int, end as int) == without_marks(s) && r.1 == (
            !escaped_mark(s) && first_is(s, '!')) && r.2 == is_anchored(s)
        }),
{
    let ghost s = chars@.take(end as int);
    let escaped: bool = end >= 2 && chars[0] == '\\' && (chars[1] == '!' || chars[1] == '#');
    if escaped {
        assert(chars@.subrange(1, end as int) =~= s.skip(1));
        return (1, false, false);
    }
    let keeps: bool = chars[0] == '!';
    let start: usize = if keeps {
        1
    } else {
        0
    };
    let ghost t = if keeps {
        s.skip(1)
    } else {
        s
    };
    assert(chars@.subrange(start as int, end as int) =~= t);
    let anchored: bool = start < end && chars[start] == '/';
    if anchored {
        assert(t[0] == '/');
        assert(chars@.subrange(start + 1, end as int) =~= t.skip(1));
        (start + 1, keeps, true)
    } else {
        (start, keeps, false)
    }
}

/// Where the text from `start` to `end` ends without the slash at its end.
fn read_slash(chars: &Vec<char>, start: usize, end: usize) -> (r: usize)
    requires
        start <= end <= chars@.len(),
    ensures
        start <= r <= end,
        chars@.subrange(start as int, r as int) == without_slash(
            chars@.subrange(start as int, end as int),
        ),
{
    let ghost t = chars@.subrange(start as int, end as int);
    if start == end || chars[end - 1] != '/' {
        return end;
    }
    let ghost u = t.drop_last();
    assert(chars@.subrange(start as int, end - 1) =~= u);
    if start == end - 1 || chars[end - 2] != '\\' {
        return end - 1;
    }
    assert(u.last() == '\\');
    assert(chars@.subrange(start as int, end - 2) =~= u.drop_last());
    end - 2
}

/// The pattern for the text from `start` to `stop`.
fn write_pattern(chars: &Vec<char>, start: usize, stop: usize, anchored: bool) -> (r: String)
    requires
        start <= stop <= chars@.len(),
    ensures
        r@ == rule_pattern(chars@.subrange(start as int, stop as int), anchored),
{
    let ghost u = chars@.subrange(start as int, stop as int);
    let stars: bool = stop - start == 2 && chars[start] == '*' && chars[start + 1] == '*';
    assert(stars == (u =~= seq!['*', '*'])) by {
        if u =~= seq!['*', '*'] {
            assert(u[0] == '*' && u[1] == '*');
        }
    }
    if !anchored && !has_char(chars, start, stop, '/') && !stars {
        let r = string_of(chars, start, stop, "**/");
        proof {
            reveal_strlit("**/");
            assert("**/"@ =~= seq!['*', '*', '/']);
            let w = r@;
            assert(w =~= seq!['*', '*', '/'] + u);
            // What comes after `**/` holds no slash of its own.
            if w.len() >= 3 && w[w.len() - 3] == '/' && w[w.len() - 2] == '*' && w.last() == '*' {
                if w.len() > 5 {
                    assert(u[w.len() - 6] == '/');
                    assert(u.contains('/'));
                } else if w.len() == 5 {
                    assert(u[0] == '*' && u[1] == '*');
                }
            }
        }
        return r;
    }
    let mut r = string_of(chars, start, stop, "");
    proof {
        reveal_strlit("");
        assert(r@ =~= u);
    }
    if stop - start >= 3 && chars[stop - 3] == '/' && chars[stop - 2] == '*' && chars[stop - 1]
        == '*' {
        r.push('/');
        r.push('*');
        assert(r@ =~= u + seq!['/', '*']);
    }
    r
}

/// The rule that a line writes.
fn read_line(line: &str) -> (r: Option<GitIgnoreGlob>)
    ensures
        match line_rule(line@) {
            Some(rule) => r matches Some(g) && g@ == rule,
            None => r is None,
        },
{
    let chars = chars_of(line);
    let len: usize = chars.len();
    if len > 0 && chars[0] == '#' {
        return None;
    }
    let keep: bool = len >= 2 && chars[len - 2] == '\\' && chars[len - 1] == ' ';
    let end: usize = if keep {
        len
    } else {
        trim_end(&chars)
    };
    assert(trimmed_line(line@) =~= chars@.take(end as int));
    if end == 0 {
        return None;
    }
    let original = string_of(&chars, 0, end, "");
    proof {
        reveal_strlit("");
        assert(original@ =~= chars@.take(end as int));
    }
    let (start, is_whitelist, anchored) = read_marks(&chars, end);
    let is_only_dir: bool = start < end && chars[end - 1] == '/';
    assert(is_only_dir == last_is(chars@.subrange(start as int, end as int), '/'));
    let stop: usize = read_slash(&chars, start, end);
    let actual = write_pattern(&chars, start, stop, anchored);
    Some(GitIgnoreGlob { original, actual, is_whitelist, is_only_dir })
}

/// The views of the rules.
pub open spec fn rules_view(v: Seq<GitIgnoreGlob>) -> Seq<RuleView> {
    v.map_values(|g: GitIgnoreGlob| g@)
}

/// The options for the patterns of rules.
pub open spec fn rule_options(case_insensitive: bool) -> GlobOptions {
    GlobOptions {
        case_insensitive,
        literal_separator: true,
        backslash_escape: true,
        empty_alternates: false,
        allow_unclosed_class: true,
    }
}

/// Rules and the patterns for them.
pub struct Rules {
    pub rules: Seq<RuleView>,
    pub globs: Seq<GlobView>,
}

impl Rules {
    /// The rules with what a line adds to them.
    pub open spec fn with_line(self, line: Seq<char>, case_insensitive: bool) -> Rules {
        match line_rule(line) {
            None => self,
            Some(rule) => match parsed(rule.actual, rule_options(case_insensitive)) {
                Ok(tokens) => Rules {
                    rules: self.rules.push(rule),
                    globs: self.globs.push(
                        GlobView {
                            glob: rule.actual,
                            opts: rule_options(case_insensitive),
                            tokens,
                        },
                    ),
                },
                Err(_) => self,
            },
        }
    }
}

/// What is wrong with a line.
pub open spec fn line_error(line: Seq<char>, case_insensitive: bool) -> Option<ErrorKindView> {
    match line_rule(line) {
        None => None,
        Some(rule) => match parsed(rule.actual, rule_options(case_insensitive)) {
            Ok(_) => None,
            Err(e) => Some(e),
        },
    }
}

/// The error that a line gives.
pub open spec fn is_glob_error(e: Error, line: Seq<char>, kind: ErrorKindView) -> bool {
    e matches Error::Glob { glob, err } && opt_chars(glob) == Some(trimmed_line(line)) && err@
        == kind.text()
}

/// A builder for the rules of a directory's ignore files.
pub struct GitignoreBuilder {
    builder: GlobSetBuilder,
    root: Vec<u8>,
    globs: Vec<GitIgnoreGlob>,
    case_insensitive: bool,
}

impl GitignoreBuilder {
    pub closed spec fn rules(self) -> Rules {
        Rules { rules: rules_view(self.globs@), globs: self.builder.patterns() }
    }

    pub closed spec fn directory(self) -> Seq<u8> {
        self.root@
    }

    pub closed spec fn folds_case(self) -> bool {
        self.case_insensitive
    }

    /// Each rule has a pattern.
    pub closed spec fn wf(self) -> bool {
        self.builder.wf() && self.builder.patterns().len() == self.globs@.len()
    }

    /// A builder without rules, for the files in the directory `root`.
    pub fn new(root: &[u8]) -> (r: GitignoreBuilder)
        ensures
            r.wf(),
            r.rules() == (Rules { rules: Seq::empty(), globs: Seq::empty() }),
            r.directory() == stripped(root@, lit("./")),
            !r.folds_case(),
    {
        let r = GitignoreBuilder {
            builder: GlobSetBuilder::new(),
            root: to_vec(strip_if_is_prefix("./".as_bytes(), root)),
            globs: Vec::new(),
            case_insensitive: false,
        };
        assert(r.rules().rules =~= Seq::empty());
        r
    }

    /// Whether letters of either case match each other in the rules that are added from now
    /// on. They do not where nothing is said.
    pub fn case_insensitive(&mut self, yes: bool)
        requires
            old(self).wf(),
        ensures
            final(self).wf(),
            final(self).rules() == old(self).rules(),
            final(self).directory() == old(self).directory(),
            final(self).folds_case() == yes,
    {
        self.case_insensitive = yes;
    }

    /// Adds the rule that a line writes.
    pub fn add_line(&mut self, line: &str) -> (r: Result<(), Error>)
        requires
            old(self).wf(),
        ensures
            final(self).wf(),
            final(self).rules() == old(self).rules().with_line(line@, old(self).folds_case()),
            final(self).directory() == old(self).directory(),
            final(self).folds_case() == old(self).folds_case(),
            match line_error(line@, old(self).folds_case()) {
                None => r is Ok,
                Some(kind) => r matches Err(e) && is_glob_error(e, line@, kind),
            },
    {
        let ghost before = self.rules();
        let glob = match read_line(line) {
            Some(glob) => glob,
            None => {
                return Ok(());
            },
        };
        let mut builder = GlobBuilder::new(glob.actual.as_str());
        builder.literal_separator(true);
        builder.case_insensitive(self.case_insensitive);
        builder.backslash_escape(true);
        builder.allow_unclosed_class(true);
        assert(builder.options() == rule_options(self.case_insensitive));
        match builder.build() {
            Ok(pattern) => {
                self.builder.add(pattern);
                self.globs.push(glob);
                assert(self.rules().rules =~= before.rules.push(glob@));
                Ok(())
            },
            Err(e) => Err(Error::Glob { glob: Some(glob.original), err: e.kind.to_text() }),
        }
    }
}

/// Where the line that begins at `i` ends: at the next line feed, or at the end.
pub open spec fn line_end(data: Seq<u8>, i: int) -> int {
    pos_of(data, '\n' as u8, i)
}

/// The line that begins at `i`, without what ends it.
pub open spec fn line_at(data: Seq<u8>, i: int) -> Seq<u8> {
    let e = line_end(data, i);
    if i < e < data.len() && data[e - 1] == '\r' as u8 {
        data.subrange(i, e - 1)
    } else {
        data.subrange(i, e)
    }
}

/// The line without the byte order marks at its beginning.
pub open spec fn without_boms(s: Seq<char>) -> Seq<char>
    decreases s.len(),
{
    if first_is(s, '\u{feff}') {
        without_boms(s.skip(1))
    } else {
        s
    }
}

/// The text of the line that begins at `i`.
pub open spec fn line_text(data: Seq<u8>, i: int) -> Seq<char> {
    let text = vstd::utf8::decode_utf8(line_at(data, i));
    if i == 0 {
        without_boms(text)
    } else {
        text
    }
}

/// The rules with what the lines from `i` on add to them. A line that is not UTF-8 ends them.
pub open spec fn with_lines(rules: Rules, data: Seq<u8>, i: int, folds: bool) -> Rules
    decreases data.len() + 1 - i,
    when 0 <= i
{
    if i >= data.len() || !vstd::utf8::valid_utf8(line_at(data, i)) {
        rules
    } else {
        proof {
            lemma_pos_of(data, '\n' as u8, i);
        }
        with_lines(rules.with_line(line_text(data, i), folds), data, line_end(data, i) + 1, folds)
    }
}

/// What is wrong with a line of a file.
pub enum Flaw {
    /// The line is not UTF-8.
    Encoding,
    /// The line writes a pattern that cannot be read.
    Pattern(Seq<char>, ErrorKindView),
}

/// The flaws of the lines from `i` on, of which the first has the number `n`.
pub open spec fn flaws_from(data: Seq<u8>, i: int, n: int, folds: bool) -> Seq<(int, Flaw)>
    decreases data.len() + 1 - i,
    when 0 <= i
{
    if i >= data.len() {
        seq![]
    } else if !vstd::utf8::valid_utf8(line_at(data, i)) {
        seq![(n, Flaw::Encoding)]
    } else {
        proof {
            lemma_pos_of(data, '\n' as u8, i);
        }
        let rest = flaws_from(data, line_end(data, i) + 1, n + 1, folds);
        match line_error(line_text(data, i), folds) {
            Some(kind) => seq![(n, Flaw::Pattern(line_text(data, i), kind))] + rest,
            None => rest,
        }
    }
}

/// The error in words for a line that is not UTF-8.
pub open spec fn encoding_text() -> Seq<char> {
    "stream did not contain valid UTF-8"@
}

/// The error is the one for a flaw in a line, without the path and the line's number.
pub open spec fn is_flaw(e: Error, flaw: Flaw) -> bool {
    match flaw {
        Flaw::Encoding => e matches Error::Io(text) && text@ == encoding_text(),
        Flaw::Pattern(line, kind) => is_glob_error(e, line, kind),
    }
}

/// The error is the one for a flaw in a line of the file at `path`.
pub open spec fn is_tagged_flaw(e: Error, path: Seq<u8>, flaw: (int, Flaw)) -> bool {
    let inner = if path.len() == 0 {
        e
    } else {
        *e->WithPath_err
    };
    &&& path.len() > 0 ==> e is WithPath && e->WithPath_path@ == path
    &&& inner is WithLineNumber && inner->line == flaw.0
    &&& is_flaw(*inner->WithLineNumber_err, flaw.1)
}

/// The errors are those for the flaws.
pub open spec fn are_flaws(errs: Seq<Error>, path: Seq<u8>, flaws: Seq<(int, Flaw)>) -> bool {
    errs.len() == flaws.len() && forall|k: int|
        0 <= k < errs.len() ==> is_tagged_flaw(#[trigger] errs[k], path, flaws[k])
}

/// The errors as one.
pub open spec fn is_collected(r: Option<Error>, path: Seq<u8>, flaws: Seq<(int, Flaw)>) -> bool {
    if flaws.len() == 0 {
        r is None
    } else if flaws.len() == 1 {
        r matches Some(e) && is_tagged_flaw(e, path, flaws[0])
    } else {
        r matches Some(Error::Partial(errs)) && are_flaws(errs@, path, flaws)
    }
}

/// The text without the byte order marks at its beginning.
fn trim_boms(text: String) -> (r: String)
    ensures
        r@ == without_boms(text@),
{
    let chars = chars_of(text.as_str());
    let len: usize = chars.len();
    let mut i: usize = 0;
    assert(chars@.skip(0) =~= chars@);
    while i < len && chars[i] == '\u{feff}'
        invariant
            i <= len == chars@.len(),
            without_boms(chars@) == without_boms(chars@.skip(i as int)),
        decreases len - i,
    {
        assert(chars@.skip(i as int)[0] == chars@[i as int]);
        assert(chars@.skip(i as int).skip(1) =~= chars@.skip(i + 1));
        i += 1;
    }
    let r = string_of(&chars, i, len, "");
    proof {
        reveal_strlit("");
        assert(r@ =~= chars@.skip(i as int));
        if i < len {
            assert(chars@.skip(i as int)[0] == chars@[i as int]);
        }
    }
    r
}

impl GitignoreBuilder {
    /// Adds the rules of the file at `path`, which holds `data`. Lines that cannot be read
    /// are left out, and the error tells of them.
    pub fn add_contents(&mut self, path: &[u8], data: &[u8]) -> (r: Option<Error>)
        requires
            old(self).wf(),
        ensures
            final(self).wf(),
            final(self).directory() == old(self).directory(),
            final(self).folds_case() == old(self).folds_case(),
            final(self).rules() == with_lines(old(self).rules(), data@, 0, old(self).folds_case()),
            is_collected(r, path@, flaws_from(data@, 0, 1, old(self).folds_case())),
    {
        let ghost rules = self.rules();
        let ghost folds = self.folds_case();
        let ghost root = self.directory();
        let ghost all = flaws_from(data@, 0, 1, folds);
        let mut errs = PartialErrorBuilder::new();
        let len: usize = data.len();
        let mut i: usize = 0;
        let mut n: u64 = 1;
        assert(Seq::<(int, Flaw)>::empty() + all =~= all);
        let ghost mut done = Seq::<(int, Flaw)>::empty();
        while i < len
            invariant
                i <= len == data@.len(),
                1 <= n,
                i < len ==> n <= i + 1,
                self.wf(),
                self.directory() == root,
                self.folds_case() == folds,
                with_lines(rules, data@, 0, folds) == with_lines(
                    self.rules(),
                    data@,
                    i as int,
                    folds,
                ),
                all == done + flaws_from(data@, i as int, n as int, folds),
                are_flaws(errs.errors(), path@, done),
                rules == old(self).rules(),
                folds == old(self).folds_case(),
                root == old(self).directory(),
                all == flaws_from(data@, 0, 1, folds),
            decreases len - i,
        {
            proof {
                lemma_pos_of(data@, '\n' as u8, i as int);
            }
            let mut e: usize = i;
            while e < len && data[e] != '\n' as u8
                invariant
                    i <= e <= len == data@.len(),
                    line_end(data@, i as int) == pos_of(data@, '\n' as u8, e as int),
                decreases len - e,
            {
                e += 1;
            }
            let stop: usize = if i < e && e < len && data[e - 1] == '\r' as u8 {
                e - 1
            } else {
                e
            };
            let bytes = to_vec(&data[i..stop]);
            assert(bytes@ == line_at(data@, i as int));
            let ghost errs0 = errs.errors();
            let text = match utf8_string(bytes) {
                Some(text) => text,
                None => {
                    let err = Error::Io("stream did not contain valid UTF-8".to_owned());
                    errs.add_error(err.tagged(path, n));
                    proof {
                        assert(all =~= done.push((n as int, Flaw::Encoding)));
                        assert(are_flaws(errs.errors(), path@, all));
                    }
                    return errs.into_error_option();
                },
            };
            let text = if i == 0 {
                trim_boms(text)
            } else {
                text
            };
            assert(text@ == line_text(data@, i as int));
            let ghost rest = flaws_from(data@, e + 1, n + 1, folds);
            match self.add_line(text.as_str()) {
                Ok(_) => {},
                Err(err) => {
                    let ghost flaw = (
                        n as int,
                        Flaw::Pattern(text@, line_error(text@, folds)->0),
                    );
                    errs.add_error(err.tagged(path, n));
                    proof {
                        assert(done + (seq![flaw] + rest) =~= done.push(flaw) + rest);
                        done = done.push(flaw);
                    }
                },
            }
            if e == len {
                assert(rest =~= seq![]);
                assert(done + rest =~= done);
                assert(with_lines(self.rules(), data@, e + 1, folds) == self.rules());
                return errs.into_error_option();
            }
            i = e + 1;
            if i < len {
                n += 1;
            }
        }
        assert(done + Seq::<(int, Flaw)>::empty() =~= done);
        errs.into_error_option()
    }

    /// The matcher for the rules that were added.
    pub fn build(self) -> (r: Result<Gitignore, Error>)
        requires
            self.wf(),
        ensures
            r matches Ok(g) ==> g.wf() && g.rules() == self.rules() && g.directory()
                == self.directory(),
            r matches Err(e) ==> e matches Error::Glob { glob: None, .. },
            buildable(self.rules().globs) ==> r is Ok,
    {
        match self.builder.build() {
            Ok(set) => Ok(Gitignore { set, root: self.root, globs: self.globs }),
            Err(e) => Err(Error::Glob { glob: None, err: e.to_text() }),
        }
    }
}

/// The rules of a directory's ignore files.
pub struct Gitignore {
    set: GlobSet,
    root: Vec<u8>,
    globs: Vec<GitIgnoreGlob>,
}

impl Rules {
    /// The rule `i` matches the path.
    pub open spec fn hit(self, i: int, path: Seq<u8>, is_dir: bool) -> bool {
        glob_matches(self.globs[i], path) && (!self.rules[i].is_only_dir || is_dir)
    }

    /// The last of the first `n` rules that matches the path.
    pub open spec fn last_hit(self, path: Seq<u8>, is_dir: bool, n: int) -> Option<int>
        decreases n,
    {
        if n <= 0 {
            None
        } else if self.hit(n - 1, path, is_dir) {
            Some(n - 1)
        } else {
            self.last_hit(path, is_dir, n - 1)
        }
    }

    /// What the rules say of a path that is relative to their directory.
    pub open spec fn verdict(self, path: Seq<u8>, is_dir: bool) -> Match<int> {
        match self.last_hit(path, is_dir, self.rules.len() as int) {
            None => Match::Nothing,
            Some(i) => if self.rules[i].is_whitelist {
                Match::Whitelist(i)
            } else {
                Match::Ignore(i)
            },
        }
    }
}

/// The path relative to the directory `root`.
pub open spec fn relative_to(path: Seq<u8>, root: Seq<u8>) -> Seq<u8> {
    let p = stripped(path, lit("./"));
    if !is_here(root) && p.contains('/' as u8) && begins(p, root) {
        stripped(from(p, root.len() as int), lit("/"))
    } else {
        p
    }
}

impl Gitignore {
    pub closed spec fn rules(self) -> Rules {
        Rules { rules: rules_view(self.globs@), globs: self.set.patterns() }
    }

    pub closed spec fn directory(self) -> Seq<u8> {
        self.root@
    }

    pub closed spec fn wf(self) -> bool {
        self.set.wf() && self.set.patterns().len() == self.globs@.len()
    }

    /// What the rules say of a path.
    pub open spec fn says(self, path: Seq<u8>, is_dir: bool) -> Match<int> {
        self.rules().verdict(relative_to(path, self.directory()), is_dir)
    }

    /// No rules, which say nothing of any path.
    pub fn empty() -> (r: Gitignore)
        ensures
            r.wf(),
            r.rules() == (Rules { rules: Seq::empty(), globs: Seq::empty() }),
            r.directory() == Seq::<u8>::empty(),
    {
        let r = Gitignore { set: GlobSet::empty(), root: Vec::new(), globs: Vec::new() };
        assert(r.rules().rules =~= Seq::empty());
        r
    }

    /// No rules, for the files in the directory `dir`.
    pub fn empty_in(dir: &[u8]) -> (r: Gitignore)
        ensures
            r.wf(),
            r.rules() == (Rules { rules: Seq::empty(), globs: Seq::empty() }),
            r.directory() == stripped(dir@, lit("./")),
    {
        let r = Gitignore {
            set: GlobSet::empty(),
            root: to_vec(strip_if_is_prefix("./".as_bytes(), dir)),
            globs: Vec::new(),
        };
        assert(r.rules().rules =~= Seq::empty());
        r
    }

    /// Whether there are no rules.
    pub fn is_empty(&self) -> (r: bool)
        requires
            self.wf(),
        ensures
            r == (self.rules().rules.len() == 0),
    {
        self.set.is_empty()
    }

    /// The number of the rule that decides about the path.
    pub fn matched(&self, path: &[u8], is_dir: bool) -> (r: Match<usize>)
        requires
            self.wf(),
        ensures
            same_match(r, self.says(path@, is_dir)),
    {
        if self.is_empty() {
            return Match::Nothing;
        }
        self.matched_stripped(self.strip(path), is_dir)
    }

    /// The number of the rule that decides about a path that is relative to the directory of
    /// the rules.
    pub fn matched_stripped(&self, path: &[u8], is_dir: bool) -> (r: Match<usize>)
        requires
            self.wf(),
        ensures
            same_match(r, self.rules().verdict(path@, is_dir)),
    {
        if self.is_empty() {
            return Match::Nothing;
        }
        let ghost rules = self.rules();
        let candidate = Candidate::new(path);
        let mut found: Vec<usize> = Vec::new();
        self.set.matches_candidate_into(&candidate, &mut found);
        let ghost n = rules.rules.len() as int;
        let mut k: usize = found.len();
        let mut above: usize = self.globs.len();
        assert forall|j: int| 0 <= j < k implies (#[trigger] found@[j]) < above by {
            assert(found@.contains(found@[j]));
        }
        while k > 0
            invariant
                k <= found@.len(),
                above <= n == self.globs@.len(),
                self.wf(),
                rules == self.rules(),
                n == rules.rules.len(),
                ascending(found@),
                are_hits(found@, rules.globs, path@),
                forall|j: int| 0 <= j < k ==> (#[trigger] found@[j]) < above,
                forall|j: int| k <= j < found@.len() ==> (#[trigger] found@[j]) >= above,
                rules.last_hit(path@, is_dir, n) == rules.last_hit(path@, is_dir, above as int),
            decreases k,
        {
            k -= 1;
            let i: usize = found[k];
            assert(found@.contains(i));
            proof {
                assert forall|x: int| i < x < above implies !glob_matches(
                    rules.globs[x],
                    path@,
                ) by {
                    if glob_matches(rules.globs[x], path@) {
                        assert(found@.contains(x as usize));
                        let j = choose|j: int| 0 <= j < found@.len() && found@[j] == x as usize;
                        if j < k {
                            assert(found@[j] < found@[k as int]);
                        }
                    }
                }
                lemma_last_hit(rules, path@, is_dir, i + 1, above as int);
            }
            let glob = &self.globs[i];
            assert(rules.rules[i as int] == self.globs@[i as int]@);
            if !glob.is_only_dir || is_dir {
                return if glob.is_whitelist {
                    Match::Whitelist(i)
                } else {
                    Match::Ignore(i)
                };
            }
            above = i;
            assert forall|j: int| 0 <= j < k implies (#[trigger] found@[j]) < above by {
                assert(found@[j] < found@[k as int]);
            }
            assert forall|j: int| k <= j < found@.len() implies (#[trigger] found@[j]) >= above by {
                if j > k {
                    assert(found@[k as int] < found@[j]);
                }
            }
        }
        proof {
            assert forall|x: int| 0 <= x < above implies !glob_matches(rules.globs[x], path@) by {
                if glob_matches(rules.globs[x], path@) {
                    assert(found@.contains(x as usize));
                    let j = choose|j: int| 0 <= j < found@.len() && found@[j] == x as usize;
                    assert(found@[j] >= above);
                }
            }
            lemma_last_hit(rules, path@, is_dir, 0, above as int);
        }
        Match::Nothing
    }

    /// The path relative to the directory of the rules.
    pub fn strip<'a>(&self, path: &'a [u8]) -> (r: &'a [u8])
        ensures
            r@ == relative_to(path@, self.directory()),
    {
        let p = strip_if_is_prefix("./".as_bytes(), path);
        if !is_current_dir(self.root.as_slice()) && !has_no_separator(p) {
            if let Some(q) = strip_path_prefix(self.root.as_slice(), p) {
                return strip_if_is_prefix("/".as_bytes(), q);
            }
        }
        p
    }
}

/// The two matches are the same.
pub open spec fn same_match(a: Match<usize>, b: Match<int>) -> bool {
    match (a, b) {
        (Match::Nothing, Match::Nothing) => true,
        (Match::Ignore(i), Match::Ignore(j)) => i == j,
        (Match::Whitelist(i), Match::Whitelist(j)) => i == j,
        _ => false,
    }
}

proof fn lemma_last_hit(rules: Rules, path: Seq<u8>, is_dir: bool, lo: int, hi: int)
    requires
        0 <= lo <= hi,
        forall|x: int| lo <= x < hi ==> !glob_matches(#[trigger] rules.globs[x], path),
    ensures
        rules.last_hit(path, is_dir, hi) == rules.last_hit(path, is_dir, lo),
    decreases hi,
{
    if lo < hi {
        lemma_last_hit(rules, path, is_dir, lo, hi - 1);
    }
}

/// Where there are no rules, nothing is said of any path.
pub proof fn law_no_rules_say_nothing(rules: Rules, path: Seq<u8>, is_dir: bool)
    requires
        rules.rules.len() == 0,
    ensures
        rules.verdict(path, is_dir) is Nothing,
{
}

/// A rule that is added after others decides about every path that it matches.
pub proof fn law_later_rule_decides(
    rules: Rules,
    rule: RuleView,
    glob: GlobView,
    path: Seq<u8>,
    is_dir: bool,
)
    requires
        rules.rules.len() == rules.globs.len(),
    ensures
        ({
            let more = Rules { rules: rules.rules.push(rule), globs: rules.globs.push(glob) };
            let n = rules.rules.len() as int;
            more.verdict(path, is_dir) == (if glob_matches(glob, path) && (!rule.is_only_dir
                || is_dir) {
                if rule.is_whitelist {
                    Match::Whitelist(n)
                } else {
                    Match::Ignore(n)
                }
            } else {
                rules.verdict(path, is_dir)
            })
        }),
{
    let more = Rules { rules: rules.rules.push(rule), globs: rules.globs.push(glob) };
    lemma_last_hit_prefix(rules, more, path, is_dir, rules.rules.len() as int);
}

proof fn lemma_last_hit_prefix(a: Rules, b: Rules, path: Seq<u8>, is_dir: bool, n: int)
    requires
        0 <= n,
        forall|i: int|
            0 <= i < n ==> #[trigger] a.rules[i] == b.rules[i] && a.globs[i] == b.globs[i],
    ensures
        a.last_hit(path, is_dir, n) == b.last_hit(path, is_dir, n),
        a.last_hit(path, is_dir, n) matches Some(i) ==> 0 <= i < n,
    decreases n,
{
    if n > 0 {
        assert(a.rules[n - 1] == b.rules[n - 1]);
        lemma_last_hit_prefix(a, b, path, is_dir, n - 1);
    }
}

/// The rules of `a`, and those of `b` behind them.
pub open spec fn followed_by(a: Rules, b: Rules) -> Rules {
    Rules { rules: a.rules + b.rules, globs: a.globs + b.globs }
}

/// What lines add comes behind the rules that were there.
pub proof fn lemma_lines_come_behind(rules: Rules, more: Rules, data: Seq<u8>, i: int, folds: bool)
    requires
        0 <= i,
    ensures
        with_lines(followed_by(rules, more), data, i, folds) == followed_by(
            rules,
            with_lines(more, data, i, folds),
        ),
    decreases data.len() + 1 - i,
{
    if i < data.len() && vstd::utf8::valid_utf8(line_at(data, i)) {
        lemma_pos_of(data, '\n' as u8, i);
        let line = line_text(data, i);
        let a = followed_by(rules, more).with_line(line, folds);
        let b = followed_by(rules, more.with_line(line, folds));
        assert(a.rules =~= b.rules);
        assert(a.globs =~= b.globs);
        lemma_lines_come_behind(rules, more.with_line(line, folds), data, line_end(data, i) + 1, folds);
    }
}

/// There is a pattern for each rule that lines add.
pub proof fn lemma_pattern_for_each_rule(rules: Rules, data: Seq<u8>, i: int, folds: bool)
    requires
        0 <= i,
        rules.rules.len() == rules.globs.len(),
    ensures
        with_lines(rules, data, i, folds).rules.len() == with_lines(rules, data, i, folds).globs.len(),
    decreases data.len() + 1 - i,
{
    if i < data.len() && vstd::utf8::valid_utf8(line_at(data, i)) {
        lemma_pos_of(data, '\n' as u8, i);
        lemma_pattern_for_each_rule(
            rules.with_line(line_text(data, i), folds),
            data,
            line_end(data, i) + 1,
            folds,
        );
    }
}

/// Rules that come behind others decide about every path that one of them matches, and the others
/// about the rest.
pub proof fn law_rules_behind_decide(a: Rules, b: Rules, path: Seq<u8>, is_dir: bool)
    requires
        a.rules.len() == a.globs.len(),
        b.rules.len() == b.globs.len(),
    ensures
        followed_by(a, b).verdict(path, is_dir) == (match b.verdict(path, is_dir) {
            Match::Nothing => a.verdict(path, is_dir),
            Match::Ignore(i) => Match::Ignore(a.rules.len() + i),
            Match::Whitelist(i) => Match::Whitelist(a.rules.len() + i),
        }),
{
    lemma_last_hit_behind(a, b, path, is_dir, b.rules.len() as int);
    lemma_last_hit_prefix(b, b, path, is_dir, b.rules.len() as int);
    lemma_last_hit_prefix(a, a, path, is_dir, a.rules.len() as int);
}

proof fn lemma_last_hit_behind(a: Rules, b: Rules, path: Seq<u8>, is_dir: bool, n: int)
    requires
        a.rules.len() == a.globs.len(),
        b.rules.len() == b.globs.len(),
        0 <= n <= b.rules.len(),
    ensures
        followed_by(a, b).last_hit(path, is_dir, a.rules.len() + n) == (match b.last_hit(path, is_dir, n) {
            Some(i) => Some(a.rules.len() + i),
            None => a.last_hit(path, is_dir, a.rules.len() as int),
        }),
    decreases n,
{
    let both = followed_by(a, b);
    if n > 0 {
        assert(both.rules[a.rules.len() + n - 1] == b.rules[n - 1]);
        assert(both.globs[a.rules.len() + n - 1] == b.globs[n - 1]);
        lemma_last_hit_behind(a, b, path, is_dir, n - 1);
    } else {
        lemma_last_hit_prefix(both, a, path, is_dir, a.rules.len() as int);
    }
}

} // verus!
