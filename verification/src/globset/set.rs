//! Matching a path against many patterns at a time.
use crate::bytes::{begins, ends, ends_with, from};
use crate::globset::error::{Error, ErrorKind};
use crate::globset::glob::{Glob, GlobView, MatchStrategy, StrategyView};
use crate::globset::table::{hits, lemma_hits, Table};
use aho_corasick::AhoCorasick;
use regex_automata::meta::Regex;
use vstd::prelude::*;
use vstd::utf8::encode_utf8;

verus! {

/// `regex_automata::meta::Regex`: one or more regular expressions that were compiled.
#[verifier::external_type_specification]
#[verifier::external_body]
pub struct ExRegex(regex_automata::meta::Regex);

/// `aho_corasick::AhoCorasick`: an automaton that finds words.
#[verifier::external_type_specification]
#[verifier::external_body]
pub struct ExAhoCorasick(aho_corasick::AhoCorasick);

/// The regular expression matches somewhere in the text, with `.` matching any byte and
/// without the text having to be UTF-8.
pub uninterp spec fn regex_matches(pattern: Seq<char>, text: Seq<u8>) -> bool;

/// The regular expressions that a compiled one was made from.
pub uninterp spec fn regex_patterns(re: Regex) -> Seq<Seq<char>>;

/// The words that an automaton looks for.
pub uninterp spec fn automaton_words(ac: AhoCorasick) -> Seq<Seq<u8>>;

/// The texts of the strings.
pub open spec fn texts(v: Seq<String>) -> Seq<Seq<char>> {
    v.map_values(|s: String| s@)
}

/// The encodings of the strings.
pub open spec fn encodings(v: Seq<String>) -> Seq<Seq<u8>> {
    v.map_values(|s: String| encode_utf8(s@))
}

/// `regex_automata::meta::Builder::build` compiles a regular expression, with `.` matching
/// any byte and without the text having to be UTF-8. It fails on an expression that it
/// cannot parse, or that needs more memory than it may take, which depends on the machine;
/// when that is, is left unsaid.
#[verifier::external_body]
fn build_regex(pattern: &str) -> (r: Result<Regex, String>)
    ensures
        r matches Ok(re) ==> regex_patterns(re) == seq![pattern@],
{
    let syntax = regex_automata::util::syntax::Config::new().utf8(false).dot_matches_new_line(true);
    let config = Regex::config()
        .utf8_empty(false)
        .nfa_size_limit(Some(10 * (1 << 20)))
        .hybrid_cache_capacity(10 * (1 << 20));
    let built = Regex::builder().syntax(syntax).configure(config).build(pattern);
    built.map_err(|e| format!("{}", e))
}

/// `regex_automata::meta::Builder::build_many` compiles regular expressions together, in the
/// same way, such that each of those that match is found. When it fails is left unsaid.
#[verifier::external_body]
fn build_regexes(patterns: &Vec<String>) -> (r: Result<Regex, String>)
    ensures
        r matches Ok(re) ==> regex_patterns(re) == texts(patterns@),
{
    let syntax = regex_automata::util::syntax::Config::new().utf8(false).dot_matches_new_line(true);
    let config = Regex::config()
        .match_kind(regex_automata::MatchKind::All)
        .utf8_empty(false)
        .nfa_size_limit(Some(10 * (1 << 20)))
        .hybrid_cache_capacity(10 * (1 << 20));
    let built = Regex::builder().syntax(syntax).configure(config).build_many(patterns);
    built.map_err(|e| format!("{}", e))
}

/// The numbers are the positions of the regular expressions that match.
pub open spec fn are_matching(v: Seq<usize>, patterns: Seq<Seq<char>>, text: Seq<u8>) -> bool {
    forall|k: usize| #[trigger]
        v.contains(k) <==> k < patterns.len() && regex_matches(patterns[k as int], text)
}

/// `regex_automata::meta::Regex::is_match` says whether one of the regular expressions
/// matches somewhere in the text.
#[verifier::external_body]
fn regex_is_match(re: &Regex, text: &[u8]) -> (r: bool)
    ensures
        r == (exists|i: int|
            0 <= i && i < regex_patterns(*re).len() && regex_matches(
                #[trigger] regex_patterns(*re)[i],
                text@,
            )),
{
    re.is_match(text)
}

/// `regex_automata::meta::Regex::which_overlapping_matches` gives the positions of the
/// regular expressions that match somewhere in the text, where they were compiled by
/// `build_many` such that each of those that match is found.
#[verifier::external_body]
fn regex_which_match(re: &Regex, text: &[u8]) -> (r: Vec<usize>)
    ensures
        are_matching(r@, regex_patterns(*re), text@),
{
    let mut set = regex_automata::PatternSet::new(re.pattern_len());
    re.which_overlapping_matches(&regex_automata::Input::new(text), &mut set);
    set.iter().map(|p| p.as_usize()).collect()
}

/// The bytes of all words.
pub open spec fn total_len(words: Seq<Seq<u8>>) -> nat
    decreases words.len(),
{
    if words.len() == 0 {
        0
    } else {
        total_len(words.drop_last()) + words.last().len()
    }
}

/// There is room for the words in an automaton. It numbers its states, its transitions and
/// the words that end at its states with 31 bits. With `l` bytes in `n` words, none of them
/// empty, there are at most `l + 4` states with `l + 769` transitions, `256 * (l + 4) + 1`
/// cells where these stand in tables, and `n * l + 1` words at states.
pub open spec fn fit_automaton(words: Seq<Seq<u8>>) -> bool {
    (total_len(words) + 8) * (words.len() + 600) <= 0x7fff_fffe
}

/// `aho_corasick::AhoCorasick::new` makes an automaton for words. It does so where there is
/// room for them and none of them is empty. Whether it fails on others is left unsaid.
#[verifier::external_body]
fn build_automaton(words: &Vec<String>) -> (r: Result<AhoCorasick, String>)
    ensures
        r matches Ok(ac) ==> automaton_words(ac) == encodings(words@),
        no_empty_word(encodings(words@)) && fit_automaton(encodings(words@)) ==> r is Ok,
{
    AhoCorasick::new(words).map_err(|e| format!("{}", e))
}

/// A place where a word was found.
pub struct Found {
    pub word: usize,
    pub start: usize,
    pub end: usize,
}

/// The word with the given number stands in the text from `start` to `end`.
pub open spec fn stands(words: Seq<Seq<u8>>, text: Seq<u8>, f: Found) -> bool {
    f.word < words.len() && f.start <= f.end <= text.len() && text.subrange(
        f.start as int,
        f.end as int,
    ) == words[f.word as int]
}

/// None of the words is empty.
pub open spec fn no_empty_word(words: Seq<Seq<u8>>) -> bool {
    forall|i: int| 0 <= i < words.len() ==> (#[trigger] words[i]).len() > 0
}

/// The places are those where one of the words stands.
pub open spec fn are_places(v: Seq<Found>, words: Seq<Seq<u8>>, text: Seq<u8>) -> bool {
    forall|f: Found| #[trigger] v.contains(f) <==> stands(words, text, f)
}

/// `aho_corasick::AhoCorasick::find_overlapping_iter` finds every place where one of the
/// words stands.
#[verifier::external_body]
fn find_overlapping(ac: &AhoCorasick, text: &[u8]) -> (r: Vec<Found>)
    requires
        no_empty_word(automaton_words(*ac)),
    ensures
        are_places(r@, automaton_words(*ac), text@),
{
    ac.find_overlapping_iter(text)
        .map(|m| Found { word: m.pattern().as_usize(), start: m.start(), end: m.end() })
        .collect()
}

/// `slice::sort` puts the numbers in ascending order.
#[verifier::external_body]
fn sort(v: &mut Vec<usize>)
    ensures
        final(v)@.to_multiset() == old(v)@.to_multiset(),
        forall|i: int, j: int|
            0 <= i <= j < final(v)@.len() ==> #[trigger] final(v)@[i] <= #[trigger] final(v)@[j],
{
    v.sort()
}

/// Where the last component of the path begins.
pub open spec fn base_start(path: Seq<u8>, n: int) -> int
    decreases n,
{
    if n <= 0 || path[n - 1] == '/' as u8 {
        n
    } else {
        base_start(path, n - 1)
    }
}

/// Where the extension that ends the first `n` bytes of a name begins, or -1.
pub open spec fn dot_start(name: Seq<u8>, n: int) -> int
    decreases n,
{
    if n <= 0 || name[n - 1] == '.' as u8 {
        n - 1
    } else {
        dot_start(name, n - 1)
    }
}

/// The last component of the path. It is empty where the path ends in a separator or `..`.
pub open spec fn basename(path: Seq<u8>) -> Seq<u8> {
    let name = from(path, base_start(path, path.len() as int));
    if name == seq!['.' as u8, '.' as u8] {
        seq![]
    } else {
        name
    }
}

/// The extension of a name, from its last dot on. It is empty where there is no dot.
pub open spec fn extension(name: Seq<u8>) -> Seq<u8> {
    let k = dot_start(name, name.len() as int);
    if k < 0 {
        seq![]
    } else {
        from(name, k)
    }
}

pub proof fn lemma_base_start(path: Seq<u8>, n: int)
    requires
        0 <= n <= path.len(),
    ensures
        0 <= base_start(path, n) <= n,
        base_start(path, n) > 0 ==> path[base_start(path, n) - 1] == '/' as u8,
        forall|i: int| base_start(path, n) <= i < n ==> path[i] != '/' as u8,
    decreases n,
{
    if n > 0 && path[n - 1] != '/' as u8 {
        lemma_base_start(path, n - 1);
    }
}

pub proof fn lemma_dot_start(name: Seq<u8>, n: int)
    requires
        0 <= n <= name.len(),
    ensures
        -1 <= dot_start(name, n) < n || n == 0 && dot_start(name, n) == -1,
        dot_start(name, n) >= 0 ==> name[dot_start(name, n)] == '.' as u8,
        forall|i: int| dot_start(name, n) < i < n ==> name[i] != '.' as u8,
    decreases n,
{
    if n > 0 && name[n - 1] != '.' as u8 {
        lemma_dot_start(name, n - 1);
    }
}

/// A path that is matched, with its last component and its extension.
#[derive(Debug)]
pub struct Candidate<'a> {
    path: &'a [u8],
    basename: &'a [u8],
    ext: &'a [u8],
}

impl<'a> Candidate<'a> {
    pub closed spec fn text(self) -> Seq<u8> {
        self.path@
    }

    pub closed spec fn wf(self) -> bool {
        self.basename@ == basename(self.path@) && self.ext@ == extension(basename(self.path@))
    }

    /// Takes the path apart.
    pub fn new(path: &'a [u8]) -> (r: Candidate<'a>)
        ensures
            r.wf(),
            r.text() == path@,
    {
        let len: usize = path.len();
        let mut b: usize = len;
        while b > 0 && path[b - 1] != '/' as u8
            invariant
                b <= len == path@.len(),
                base_start(path@, len as int) == base_start(path@, b as int),
            decreases b,
        {
            b -= 1;
        }
        let mut name: &[u8] = &path[b..len];
        if name.len() == 2 && name[0] == '.' as u8 && name[1] == '.' as u8 {
            assert(name@ =~= seq!['.' as u8, '.' as u8]);
            name = &path[len..len];
            assert(name@ =~= seq![]);
        } else {
            assert(name@ != seq!['.' as u8, '.' as u8]) by {
                if name@ == seq!['.' as u8, '.' as u8] {
                    assert(name@[0] == '.' as u8 && name@[1] == '.' as u8);
                }
            }
        }
        let n: usize = name.len();
        let mut d: usize = n;
        while d > 0 && name[d - 1] != '.' as u8
            invariant
                d <= n == name@.len(),
                dot_start(name@, n as int) == dot_start(name@, d as int),
            decreases d,
        {
            d -= 1;
        }
        let ext: &[u8] = if d > 0 {
            &name[d - 1..n]
        } else {
            &name[n..n]
        };
        assert(ext@ =~= extension(name@));
        Candidate { path, basename: name, ext }
    }
}

/// The strategy says that the path matches.
pub open spec fn strategy_matches(s: StrategyView, re: Seq<char>, path: Seq<u8>) -> bool {
    match s {
        StrategyView::Literal(t) => path == encode_utf8(t),
        StrategyView::BasenameLiteral(t) => basename(path).len() > 0 && basename(path)
            == encode_utf8(t),
        StrategyView::Extension(t) => extension(basename(path)).len() > 0 && extension(
            basename(path),
        ) == encode_utf8(t),
        StrategyView::Prefix(t) => begins(path, encode_utf8(t)),
        StrategyView::Suffix { suffix, component } => ends(path, encode_utf8(suffix)) || (component
            && path == from(encode_utf8(suffix), 1)),
        StrategyView::RequiredExtension(t) => extension(basename(path)).len() > 0 && extension(
            basename(path),
        ) == encode_utf8(t) && regex_matches(re, path),
        StrategyView::Regex => regex_matches(re, path),
    }
}

/// The pattern matches the path.
pub open spec fn glob_matches(g: GlobView, path: Seq<u8>) -> bool {
    strategy_matches(g.strategy(), g.regex(), path)
}

/// Words that a path begins or ends with, and the numbers of their patterns.
pub struct WordStrategy {
    matcher: AhoCorasick,
    map: Vec<usize>,
    longest: usize,
}

impl WordStrategy {
    pub closed spec fn words(self) -> Seq<Seq<u8>> {
        automaton_words(self.matcher)
    }

    pub closed spec fn numbers(self) -> Seq<usize> {
        self.map@
    }

    /// No word is empty, or longer than the longest.
    pub closed spec fn wf(self) -> bool {
        let words = automaton_words(self.matcher);
        words.len() == self.map@.len() && forall|i: int|
            0 <= i < words.len() ==> 0 < (#[trigger] words[i]).len() <= self.longest
    }

    /// One of the words with the number `n` begins the path.
    pub open spec fn begins_with(self, path: Seq<u8>, n: usize) -> bool {
        exists|k: int|
            0 <= k < self.words().len() && self.numbers()[k] == n && begins(
                path,
                #[trigger] self.words()[k],
            )
    }

    /// One of the words with the number `n` ends the path.
    pub open spec fn ends_with(self, path: Seq<u8>, n: usize) -> bool {
        exists|k: int|
            0 <= k < self.words().len() && self.numbers()[k] == n && ends(
                path,
                #[trigger] self.words()[k],
            )
    }

    /// The first bytes of the path, as many as the longest word has.
    fn path_prefix<'a>(&self, path: &'a [u8]) -> (r: &'a [u8])
        ensures
            r@ == path@.take(if path@.len() <= self.longest {
                path@.len() as int
            } else {
                self.longest as int
            }),
    {
        let len: usize = path.len();
        if len <= self.longest {
            assert(path@.take(len as int) =~= path@);
            path
        } else {
            let head: &[u8] = &path[0..self.longest];
            assert(head@ =~= path@.take(self.longest as int));
            head
        }
    }

    /// The last bytes of the path, as many as the longest word has.
    fn path_suffix<'a>(&self, path: &'a [u8]) -> (r: &'a [u8])
        ensures
            r@ == path@.skip(if path@.len() <= self.longest {
                0
            } else {
                path@.len() - self.longest
            }),
    {
        let len: usize = path.len();
        if len <= self.longest {
            assert(path@.skip(0) =~= path@);
            path
        } else {
            let tail: &[u8] = &path[len - self.longest..len];
            assert(tail@ =~= path@.skip(len - self.longest));
            tail
        }
    }

    /// Appends the numbers of the words that begin the path.
    fn prefixes_into(&self, path: &[u8], out: &mut Vec<usize>)
        requires
            self.wf(),
        ensures
            forall|n: usize| #[trigger]
                final(out)@.contains(n) <==> old(out)@.contains(n) || self.begins_with(path@, n),
    {
        let ghost before = out@;
        let head = self.path_prefix(path);
        let count: usize = self.map.len();
        let found = find_overlapping(&self.matcher, head);
        let mut i: usize = 0;
        while i < found.len()
            invariant
                i <= found@.len(),
                self.wf(),
                are_places(found@, self.words(), head@),
                forall|n: usize| #[trigger]
                    out@.contains(n) <==> before.contains(n) || exists|j: int|
                        0 <= j < i && (#[trigger] found@[j]).start == 0
                            && self.map@[found@[j].word as int] == n,
            decreases found@.len() - i,
        {
            assert(found@.contains(found@[i as int]));
            let ghost was = out@;
            if found[i].start == 0 {
                out.push(self.map[found[i].word]);
                proof {
                    lemma_contains_push(was, self.map@[found@[i as int].word as int]);
                }
            }
            i += 1;
        }
        proof {
            let words = self.words();
            assert forall|n: usize| #[trigger]
                out@.contains(n) <==> before.contains(n) || self.begins_with(path@, n) by {
                if self.begins_with(path@, n) {
                    let k = choose|k: int|
                        0 <= k < words.len() && self.numbers()[k] == n && begins(
                            path@,
                            #[trigger] words[k],
                        );
                    let f = Found { word: k as usize, start: 0, end: words[k].len() as usize };
                    assert(head@.subrange(0, words[k].len() as int) =~= words[k]);
                    assert(stands(words, head@, f));
                    assert(found@.contains(f));
                    let j = choose|j: int| 0 <= j < found@.len() && found@[j] == f;
                    assert(found@[j].start == 0);
                }
                if exists|j: int|
                    0 <= j < found@.len() && (#[trigger] found@[j]).start == 0
                        && self.map@[found@[j].word as int] == n {
                    let j = choose|j: int|
                        0 <= j < found@.len() && (#[trigger] found@[j]).start == 0
                            && self.map@[found@[j].word as int] == n;
                    let f = found@[j];
                    assert(found@.contains(f));
                    assert(stands(words, head@, f));
                    assert(path@.subrange(0, f.end as int) =~= head@.subrange(0, f.end as int));
                    assert(begins(path@, words[f.word as int]));
                }
            }
        }
    }

    /// Appends the numbers of the words that end the path.
    fn suffixes_into(&self, path: &[u8], out: &mut Vec<usize>)
        requires
            self.wf(),
        ensures
            forall|n: usize| #[trigger]
                final(out)@.contains(n) <==> old(out)@.contains(n) || self.ends_with(path@, n),
    {
        let ghost before = out@;
        let tail = self.path_suffix(path);
        let count: usize = self.map.len();
        let found = find_overlapping(&self.matcher, tail);
        let len: usize = tail.len();
        let mut i: usize = 0;
        while i < found.len()
            invariant
                i <= found@.len(),
                self.wf(),
                len == tail@.len(),
                are_places(found@, self.words(), tail@),
                forall|n: usize| #[trigger]
                    out@.contains(n) <==> before.contains(n) || exists|j: int|
                        0 <= j < i && (#[trigger] found@[j]).end == len
                            && self.map@[found@[j].word as int] == n,
            decreases found@.len() - i,
        {
            assert(found@.contains(found@[i as int]));
            let ghost was = out@;
            if found[i].end == len {
                out.push(self.map[found[i].word]);
                proof {
                    lemma_contains_push(was, self.map@[found@[i as int].word as int]);
                }
            }
            i += 1;
        }
        proof {
            let words = self.words();
            assert forall|n: usize| #[trigger]
                out@.contains(n) <==> before.contains(n) || self.ends_with(path@, n) by {
                if self.ends_with(path@, n) {
                    let k = choose|k: int|
                        0 <= k < words.len() && self.numbers()[k] == n && ends(
                            path@,
                            #[trigger] words[k],
                        );
                    let f = Found {
                        word: k as usize,
                        start: (len - words[k].len()) as usize,
                        end: len,
                    };
                    assert(tail@.subrange(len - words[k].len(), len as int) =~= words[k]);
                    assert(stands(words, tail@, f));
                    assert(found@.contains(f));
                    let j = choose|j: int| 0 <= j < found@.len() && found@[j] == f;
                    assert(found@[j].end == len);
                }
                if exists|j: int|
                    0 <= j < found@.len() && (#[trigger] found@[j]).end == len
                        && self.map@[found@[j].word as int] == n {
                    let j = choose|j: int|
                        0 <= j < found@.len() && (#[trigger] found@[j]).end == len
                            && self.map@[found@[j].word as int] == n;
                    let f = found@[j];
                    assert(found@.contains(f));
                    assert(stands(words, tail@, f));
                    let w = words[f.word as int];
                    assert(path@.subrange(path@.len() - w.len(), path@.len() as int)
                        =~= tail@.subrange(f.start as int, f.end as int));
                    assert(ends(path@, w));
                }
            }
        }
    }
}

proof fn lemma_contains_push(s: Seq<usize>, x: usize)
    ensures
        forall|n: usize| #[trigger] s.push(x).contains(n) <==> s.contains(n) || n == x,
{
    assert forall|n: usize| #[trigger] s.push(x).contains(n) <==> s.contains(n) || n == x by {
        if s.contains(n) {
            let i = choose|i: int| 0 <= i < s.len() && s[i] == n;
            assert(s.push(x)[i] == n);
        }
        if n == x {
            assert(s.push(x)[s.len() as int] == n);
        }
        if s.push(x).contains(n) {
            let i = choose|i: int| 0 <= i < s.push(x).len() && s.push(x)[i] == n;
            if i < s.len() {
                assert(s[i] == n);
            }
        }
    }
}

/// The strategies that patterns are filed under by a text.
pub enum Kind {
    Extension,
    Basename,
    Literal,
    Prefix,
    Suffix,
}

/// The pattern is filed under the key.
pub open spec fn filed(kind: Kind, g: GlobView, key: Seq<u8>) -> bool {
    match (kind, g.strategy()) {
        (Kind::Extension, StrategyView::Extension(t)) => key == encode_utf8(t),
        (Kind::Basename, StrategyView::BasenameLiteral(t)) => key == encode_utf8(t),
        (Kind::Literal, StrategyView::Literal(t)) => key == encode_utf8(t),
        (Kind::Literal, StrategyView::Suffix { suffix, component }) => component && key == from(
            encode_utf8(suffix),
            1,
        ),
        (Kind::Prefix, StrategyView::Prefix(t)) => key == encode_utf8(t),
        (Kind::Suffix, StrategyView::Suffix { suffix, component }) => key == encode_utf8(suffix),
        _ => false,
    }
}

/// The entries are those of the first `i` patterns.
pub open spec fn files(
    kind: Kind,
    entries: Seq<(Seq<u8>, usize)>,
    globs: Seq<GlobView>,
    i: int,
) -> bool {
    forall|key: Seq<u8>, n: usize| #[trigger]
        entries.contains((key, n)) <==> n < i && filed(kind, globs[n as int], key)
}

proof fn lemma_files_same(
    kind: Kind,
    entries: Seq<(Seq<u8>, usize)>,
    globs: Seq<GlobView>,
    i: int,
)
    requires
        files(kind, entries, globs, i),
        0 <= i < globs.len(),
        forall|key: Seq<u8>| !#[trigger] filed(kind, globs[i], key),
    ensures
        files(kind, entries, globs, i + 1),
{
}

proof fn lemma_files_push(
    kind: Kind,
    entries: Seq<(Seq<u8>, usize)>,
    globs: Seq<GlobView>,
    i: usize,
    key: Seq<u8>,
)
    requires
        files(kind, entries, globs, i as int),
        i < globs.len(),
        forall|k: Seq<u8>| #[trigger] filed(kind, globs[i as int], k) <==> k == key,
    ensures
        files(kind, entries.push((key, i)), globs, i + 1),
{
    let more = entries.push((key, i));
    assert forall|k: Seq<u8>, n: usize| #[trigger]
        more.contains((k, n)) <==> n < i + 1 && filed(kind, globs[n as int], k) by {
        if more.contains((k, n)) {
            let j = choose|j: int| 0 <= j < more.len() && more[j] == (k, n);
            if j < entries.len() {
                assert(entries[j] == (k, n));
                assert(entries.contains((k, n)));
            }
        }
        if n < i && filed(kind, globs[n as int], k) {
            assert(entries.contains((k, n)));
            let j = choose|j: int| 0 <= j < entries.len() && entries[j] == (k, n);
            assert(more[j] == (k, n));
        }
        if n == i && filed(kind, globs[n as int], k) {
            assert(more[entries.len() as int] == (k, n));
        }
    }
}

/// Texts and the numbers of their patterns, to be looked for together.
struct MultiStrategyBuilder {
    literals: Vec<String>,
    map: Vec<usize>,
    longest: usize,
}

/// The encoded texts and their numbers.
pub open spec fn zipped(literals: Seq<String>, map: Seq<usize>) -> Seq<(Seq<u8>, usize)> {
    Seq::new(literals.len(), |k: int| (encode_utf8(literals[k]@), map[k]))
}

impl MultiStrategyBuilder {
    spec fn entries(self) -> Seq<(Seq<u8>, usize)> {
        zipped(self.literals@, self.map@)
    }

    spec fn wf(self) -> bool {
        self.literals@.len() == self.map@.len() && forall|k: int|
            0 <= k < self.literals@.len() ==> encode_utf8((#[trigger] self.literals@[k])@).len()
                <= self.longest
    }

    fn new() -> (r: MultiStrategyBuilder)
        ensures
            r.wf(),
            r.literals@.len() == 0,
            r.entries() == Seq::<(Seq<u8>, usize)>::empty(),
    {
        let r = MultiStrategyBuilder { literals: Vec::new(), map: Vec::new(), longest: 0 };
        assert(r.entries() =~= Seq::<(Seq<u8>, usize)>::empty());
        r
    }

    fn insert(&mut self, n: usize, literal: String)
        requires
            old(self).wf(),
        ensures
            final(self).wf(),
            final(self).literals@ == old(self).literals@.push(literal),
            final(self).map@ == old(self).map@.push(n),
            final(self).entries() == old(self).entries().push((encode_utf8(literal@), n)),
    {
        let ghost before = *self;
        let len: usize = literal.as_str().as_bytes().len();
        if len > self.longest {
            self.longest = len;
        }
        self.map.push(n);
        self.literals.push(literal);
        proof {
            assert(self.entries() =~= before.entries().push((encode_utf8(literal@), n)));
            assert forall|k: int| 0 <= k < self.literals@.len() implies encode_utf8(
                (#[trigger] self.literals@[k])@,
            ).len() <= self.longest by {
                if k < before.literals@.len() {
                    assert(self.literals@[k] == before.literals@[k]);
                }
            }
        }
    }

    /// The automaton that looks for the texts.
    fn words(self) -> (r: Result<Option<WordStrategy>, Error>)
        requires
            self.wf(),
            forall|k: int|
                0 <= k < self.literals@.len() ==> encode_utf8((#[trigger] self.literals@[k])@).len()
                    > 0,
        ensures
            self.literals@.len() == 0 ==> r matches Ok(None),
            r matches Ok(w) ==> words_of(w) == self.entries(),
            r matches Ok(Some(w)) ==> w.wf(),
            fit_automaton(encodings(self.literals@)) ==> r is Ok,
            r matches Err(e) ==> e.kind is Regex && e.glob is None,
    {
        if self.literals.len() == 0 {
            assert(words_of(None) =~= self.entries());
            return Ok(None);
        }
        assert(no_empty_word(encodings(self.literals@)));
        match build_automaton(&self.literals) {
            Ok(matcher) => {
                let w = WordStrategy { matcher, map: self.map, longest: self.longest };
                proof {
                    assert forall|i: int| 0 <= i < w.words().len() implies 0 < (
                    #[trigger] w.words()[i]).len() <= w.longest by {
                        assert(w.words()[i] == encode_utf8(self.literals@[i]@));
                    }
                    assert(words_of(Some(w)) =~= self.entries());
                }
                Ok(Some(w))
            },
            Err(text) => Err(Error { glob: None, kind: ErrorKind::Regex(text) }),
        }
    }
}

/// The words and their numbers.
pub open spec fn words_of(w: Option<WordStrategy>) -> Seq<(Seq<u8>, usize)> {
    match w {
        None => seq![],
        Some(w) => Seq::new(w.words().len(), |k: int| (w.words()[k], w.numbers()[k])),
    }
}

proof fn lemma_words(w: WordStrategy, path: Seq<u8>, n: usize)
    ensures
        w.begins_with(path, n) <==> exists|key: Seq<u8>|
            #[trigger] words_of(Some(w)).contains((key, n)) && begins(path, key),
        w.ends_with(path, n) <==> exists|key: Seq<u8>|
            #[trigger] words_of(Some(w)).contains((key, n)) && ends(path, key),
{
    let all = words_of(Some(w));
    if w.begins_with(path, n) {
        let k = choose|k: int|
            0 <= k < w.words().len() && w.numbers()[k] == n && begins(
                path,
                #[trigger] w.words()[k],
            );
        assert(all[k] == (w.words()[k], n));
        assert(all.contains((w.words()[k], n)));
    }
    if w.ends_with(path, n) {
        let k = choose|k: int|
            0 <= k < w.words().len() && w.numbers()[k] == n && ends(
                path,
                #[trigger] w.words()[k],
            );
        assert(all[k] == (w.words()[k], n));
        assert(all.contains((w.words()[k], n)));
    }
    if exists|key: Seq<u8>| #[trigger] all.contains((key, n)) && begins(path, key) {
        let key = choose|key: Seq<u8>| #[trigger] all.contains((key, n)) && begins(path, key);
        let k = choose|k: int| 0 <= k < all.len() && all[k] == (key, n);
        assert(begins(path, w.words()[k]));
    }
    if exists|key: Seq<u8>| #[trigger] all.contains((key, n)) && ends(path, key) {
        let key = choose|key: Seq<u8>| #[trigger] all.contains((key, n)) && ends(path, key);
        let k = choose|k: int| 0 <= k < all.len() && all[k] == (key, n);
        assert(ends(path, w.words()[k]));
    }
}

/// The regular expressions of patterns that need a given extension.
pub struct RequiredExtensionStrategy {
    /// From an extension to positions in `regexes`.
    exts: Table,
    /// The numbers of the patterns, and their regular expressions.
    regexes: Vec<(usize, Regex)>,
}

impl RequiredExtensionStrategy {
    pub closed spec fn wf(self) -> bool {
        self.exts.wf()
    }

    /// The entries are those of the first `i` patterns.
    pub closed spec fn holds(self, globs: Seq<GlobView>, i: int) -> bool {
        &&& forall|key: Seq<u8>, k: usize| #[trigger]
            self.exts.entries().contains((key, k)) ==> {
                &&& k < self.regexes@.len()
                &&& self.regexes@[k as int].0 < i
                &&& globs[self.regexes@[k as int].0 as int].strategy()
                    matches StrategyView::RequiredExtension(t)
                &&& key == encode_utf8(t)
                &&& regex_patterns(self.regexes@[k as int].1)
                    == seq![globs[self.regexes@[k as int].0 as int].regex()]
            }
        &&& forall|n: int|
            0 <= n < i ==> ((#[trigger] globs[n]).strategy()
                matches StrategyView::RequiredExtension(t) ==> exists|k: usize|
                k < self.regexes@.len() && self.regexes@[k as int].0 == n
                    && #[trigger] self.exts.entries().contains((encode_utf8(t), k)))
    }

    /// The pattern `n` needs the extension of the path, and its regular expression matches.
    pub open spec fn yields(globs: Seq<GlobView>, path: Seq<u8>, n: usize) -> bool {
        n < globs.len() && globs[n as int].strategy() is RequiredExtension && glob_matches(
            globs[n as int],
            path,
        )
    }

    fn new() -> (r: RequiredExtensionStrategy)
        ensures
            r.wf(),
            forall|globs: Seq<GlobView>| #[trigger] r.holds(globs, 0),
    {
        RequiredExtensionStrategy { exts: Table::new(), regexes: Vec::new() }
    }

    fn insert(&mut self, n: usize, ext: &str, re: Regex, globs: Ghost<Seq<GlobView>>)
        requires
            old(self).wf(),
            old(self).holds(globs@, n as int),
            n < globs@.len(),
            globs@[n as int].strategy() == StrategyView::RequiredExtension(ext@),
            regex_patterns(re) == seq![globs@[n as int].regex()],
        ensures
            final(self).wf(),
            final(self).holds(globs@, n + 1),
    {
        let ghost before = *self;
        let k: usize = self.regexes.len();
        self.regexes.push((n, re));
        self.exts.insert(ext.as_bytes(), k);
        proof {
            let key = encode_utf8(ext@);
            let was = before.exts.entries();
            let now = self.exts.entries();
            assert(now == was.push((key, k)));
            assert forall|key2: Seq<u8>, j: usize| #[trigger] now.contains((key2, j)) implies {
                &&& j < self.regexes@.len()
                &&& self.regexes@[j as int].0 < n + 1
                &&& globs@[self.regexes@[j as int].0 as int].strategy()
                    matches StrategyView::RequiredExtension(t)
                &&& key2 == encode_utf8(t)
                &&& regex_patterns(self.regexes@[j as int].1)
                    == seq![globs@[self.regexes@[j as int].0 as int].regex()]
            } by {
                let x = choose|x: int| 0 <= x < now.len() && now[x] == (key2, j);
                if x < was.len() {
                    assert(was[x] == (key2, j));
                    assert(was.contains((key2, j)));
                    assert(self.regexes@[j as int] == before.regexes@[j as int]);
                }
            }
            assert forall|m: int| 0 <= m < n + 1 implies ((#[trigger] globs@[m]).strategy()
                matches StrategyView::RequiredExtension(t) ==> exists|j: usize|
                j < self.regexes@.len() && self.regexes@[j as int].0 == m && #[trigger] now.contains(
                    (encode_utf8(t), j),
                )) by {
                if globs@[m].strategy() is RequiredExtension {
                    let t = globs@[m].strategy()->RequiredExtension_0;
                    if m < n {
                        let j = choose|j: usize|
                            j < before.regexes@.len() && before.regexes@[j as int].0 == m
                                && #[trigger] was.contains((encode_utf8(t), j));
                        let x = choose|x: int| 0 <= x < was.len() && was[x] == (encode_utf8(t), j);
                        assert(now[x] == (encode_utf8(t), j));
                        assert(now.contains((encode_utf8(t), j)));
                        assert(self.regexes@[j as int] == before.regexes@[j as int]);
                    } else {
                        assert(now[was.len() as int] == (key, k));
                        assert(now.contains((encode_utf8(t), k)));
                        assert(self.regexes@[k as int].0 == m);
                    }
                }
            }
        }
    }

    /// Appends the numbers of the patterns that match.
    fn matches_into(&self, c: &Candidate<'_>, out: &mut Vec<usize>, globs: Ghost<Seq<GlobView>>)
        requires
            self.wf(),
            self.holds(globs@, globs@.len() as int),
            c.wf(),
        ensures
            forall|n: usize| #[trigger]
                final(out)@.contains(n) <==> old(out)@.contains(n)
                    || RequiredExtensionStrategy::yields(globs@, c.text(), n),
    {
        let ghost before = out@;
        let ghost path = c.text();
        if c.ext.len() == 0 {
            return;
        }
        let mut found: Vec<usize> = Vec::new();
        self.exts.extend_hits(c.ext, &mut found);
        let ghost all = hits(self.exts.entries(), c.ext@);
        assert(found@ =~= all);
        let mut i: usize = 0;
        while i < found.len()
            invariant
                i <= found@.len(),
                found@ == all,
                all == hits(self.exts.entries(), c.ext@),
                path == c.text(),
                c.wf(),
                c.ext@.len() > 0,
                self.wf(),
                self.holds(globs@, globs@.len() as int),
                forall|n: usize| #[trigger]
                    out@.contains(n) ==> before.contains(n) || RequiredExtensionStrategy::yields(
                        globs@,
                        path,
                        n,
                    ),
                forall|n: usize| #[trigger] before.contains(n) ==> out@.contains(n),
                forall|j: int|
                    0 <= j < i && regex_matches(
                        globs@[self.regexes@[#[trigger] all[j] as int].0 as int].regex(),
                        path,
                    ) ==> out@.contains(self.regexes@[all[j] as int].0),
            decreases found@.len() - i,
        {
            let k: usize = found[i];
            proof {
                assert(all.contains(k));
                lemma_hits(self.exts.entries(), c.ext@, k);
                assert(self.exts.entries().contains((c.ext@, k)));
            }
            let ghost was = out@;
            let ghost n = self.regexes@[k as int].0;
            let ghost re = globs@[n as int].regex();
            let hit: bool = regex_is_match(&self.regexes[k].1, c.path);
            assert(hit == regex_matches(re, path)) by {
                let ps = regex_patterns(self.regexes@[k as int].1);
                assert(ps[0] == re);
                if regex_matches(re, path) {
                    assert(regex_matches(ps[0], path));
                }
            }
            if hit {
                out.push(self.regexes[k].0);
                proof {
                    lemma_contains_push(was, n);
                    assert(RequiredExtensionStrategy::yields(globs@, path, n));
                }
            }
            i += 1;
        }
        proof {
            assert forall|n: usize| #[trigger]
                out@.contains(n) <==> before.contains(n) || RequiredExtensionStrategy::yields(
                    globs@,
                    path,
                    n,
                ) by {
                if RequiredExtensionStrategy::yields(globs@, path, n) {
                    let g = globs@[n as int];
                    let t = g.strategy()->RequiredExtension_0;
                    let k = choose|k: usize|
                        k < self.regexes@.len() && self.regexes@[k as int].0 == n
                            && #[trigger] self.exts.entries().contains((encode_utf8(t), k));
                    lemma_hits(self.exts.entries(), c.ext@, k);
                    let j = choose|j: int| 0 <= j < all.len() && all[j] == k;
                    assert(out@.contains(self.regexes@[all[j] as int].0));
                }
            }
        }
    }
}

/// Regular expressions that are matched together, and the numbers of their patterns.
pub struct RegexSetStrategy {
    matcher: Regex,
    map: Vec<usize>,
}

impl RegexSetStrategy {
    pub closed spec fn patterns(self) -> Seq<Seq<char>> {
        regex_patterns(self.matcher)
    }

    pub closed spec fn numbers(self) -> Seq<usize> {
        self.map@
    }
}

/// The regular expressions are those of the first `i` patterns that have no better strategy.
pub open spec fn regexes_hold(
    patterns: Seq<Seq<char>>,
    numbers: Seq<usize>,
    globs: Seq<GlobView>,
    i: int,
) -> bool {
    &&& patterns.len() == numbers.len()
    &&& forall|k: int|
        0 <= k < patterns.len() ==> (#[trigger] numbers[k]) < i
            && globs[numbers[k] as int].strategy() is Regex && patterns[k]
            == globs[numbers[k] as int].regex()
    &&& forall|n: usize|
        n < i && (#[trigger] globs[n as int]).strategy() is Regex ==> numbers.contains(n)
}

/// Patterns that are matched together.
pub struct GlobSet {
    len: usize,
    exts: Table,
    base_lits: Table,
    lits: Table,
    suffixes: Option<WordStrategy>,
    prefixes: Option<WordStrategy>,
    required_exts: RequiredExtensionStrategy,
    regexes: Option<RegexSetStrategy>,
    globs: Ghost<Seq<GlobView>>,
}

/// The numbers ascend.
pub open spec fn ascending(v: Seq<usize>) -> bool {
    forall|i: int, j: int| 0 <= i < j < v.len() ==> #[trigger] v[i] < #[trigger] v[j]
}

/// The numbers are those of the patterns that match.
pub open spec fn are_hits(v: Seq<usize>, globs: Seq<GlobView>, path: Seq<u8>) -> bool {
    forall|n: usize| #[trigger]
        v.contains(n) <==> n < globs.len() && glob_matches(globs[n as int], path)
}

/// One of the patterns matches.
pub open spec fn some_hit(globs: Seq<GlobView>, path: Seq<u8>) -> bool {
    exists|n: int| 0 <= n < globs.len() && glob_matches(#[trigger] globs[n], path)
}

/// The texts that paths begin with, of the patterns that are found by them.
pub open spec fn prefix_words(globs: Seq<GlobView>) -> Seq<Seq<u8>>
    decreases globs.len(),
{
    if globs.len() == 0 {
        Seq::empty()
    } else {
        let before = prefix_words(globs.drop_last());
        match globs.last().strategy() {
            StrategyView::Prefix(text) => before.push(encode_utf8(text)),
            _ => before,
        }
    }
}

/// The texts that paths end with, of the patterns that are found by them.
pub open spec fn suffix_words(globs: Seq<GlobView>) -> Seq<Seq<u8>>
    decreases globs.len(),
{
    if globs.len() == 0 {
        Seq::empty()
    } else {
        let before = suffix_words(globs.drop_last());
        match globs.last().strategy() {
            StrategyView::Suffix { suffix, component } => before.push(encode_utf8(suffix)),
            _ => before,
        }
    }
}

/// A set can be built from the patterns, whatever the limits of regular expressions are: none
/// of them needs one, and there is room for the texts of the others.
pub open spec fn buildable(globs: Seq<GlobView>) -> bool {
    &&& forall|n: int|
        0 <= n < globs.len() ==> !((#[trigger] globs[n]).strategy() is Regex)
            && !(globs[n].strategy() is RequiredExtension)
    &&& fit_automaton(prefix_words(globs))
    &&& fit_automaton(suffix_words(globs))
}

/// The error tells why no set could be built from the patterns. It names the regular
/// expression of a pattern that needs one of its own. Otherwise there was no room for texts,
/// or the regular expressions of the remaining patterns could not be compiled together.
pub open spec fn is_build_error(e: Error, globs: Seq<GlobView>) -> bool {
    e.kind is Regex && match e.glob {
        Some(text) => exists|n: int|
            0 <= n < globs.len() && (#[trigger] globs[n]).strategy() is RequiredExtension && text@
                == globs[n].regex(),
        None => !fit_automaton(prefix_words(globs)) || !fit_automaton(suffix_words(globs))
            || exists|n: int| 0 <= n < globs.len() && (#[trigger] globs[n]).strategy() is Regex,
    }
}

/// What was found by way of the texts that patterns are filed under.
pub open spec fn found_by_text(
    kind: Kind,
    entries: Seq<(Seq<u8>, usize)>,
    path: Seq<u8>,
    n: usize,
) -> bool {
    match kind {
        Kind::Extension => extension(basename(path)).len() > 0 && entries.contains(
            (extension(basename(path)), n),
        ),
        Kind::Basename => basename(path).len() > 0 && entries.contains((basename(path), n)),
        Kind::Literal => entries.contains((path, n)),
        Kind::Prefix => exists|key: Seq<u8>| #[trigger]
            entries.contains((key, n)) && begins(path, key),
        Kind::Suffix => exists|key: Seq<u8>| #[trigger]
            entries.contains((key, n)) && ends(path, key),
    }
}

/// What a regular expression without a better strategy finds.
pub open spec fn found_by_regex(globs: Seq<GlobView>, path: Seq<u8>, n: usize) -> bool {
    n < globs.len() && globs[n as int].strategy() is Regex && regex_matches(
        globs[n as int].regex(),
        path,
    )
}

impl GlobSet {
    /// The patterns of the set.
    pub closed spec fn patterns(self) -> Seq<GlobView> {
        self.globs@
    }

    /// Each pattern is filed under its strategy.
    pub closed spec fn wf(self) -> bool {
        let n = self.globs@.len() as int;
        &&& self.len == n
        &&& self.exts.wf() && files(Kind::Extension, self.exts.entries(), self.globs@, n)
        &&& self.base_lits.wf() && files(Kind::Basename, self.base_lits.entries(), self.globs@, n)
        &&& self.lits.wf() && files(Kind::Literal, self.lits.entries(), self.globs@, n)
        &&& files(Kind::Suffix, words_of(self.suffixes), self.globs@, n)
        &&& files(Kind::Prefix, words_of(self.prefixes), self.globs@, n)
        &&& self.suffixes matches Some(w) ==> w.wf()
        &&& self.prefixes matches Some(w) ==> w.wf()
        &&& self.required_exts.wf() && self.required_exts.holds(self.globs@, n)
        &&& match self.regexes {
            Some(r) => regexes_hold(r.patterns(), r.numbers(), self.globs@, n),
            None => regexes_hold(seq![], seq![], self.globs@, n),
        }
    }

    /// A builder for a set.
    pub fn builder() -> (r: GlobSetBuilder)
        ensures
            r.patterns() == Seq::<GlobView>::empty(),
            r.wf(),
    {
        GlobSetBuilder::new()
    }

    /// A set without patterns, which matches nothing.
    pub fn empty() -> (r: GlobSet)
        ensures
            r.wf(),
            r.patterns() == Seq::<GlobView>::empty(),
    {
        GlobSet {
            len: 0,
            exts: Table::new(),
            base_lits: Table::new(),
            lits: Table::new(),
            suffixes: None,
            prefixes: None,
            required_exts: RequiredExtensionStrategy::new(),
            regexes: None,
            globs: Ghost(Seq::empty()),
        }
    }

    /// Whether there is no pattern.
    pub fn is_empty(&self) -> (r: bool)
        requires
            self.wf(),
        ensures
            r == (self.patterns().len() == 0),
    {
        self.len == 0
    }

    proof fn lemma_found(self, path: Seq<u8>, n: usize)
        requires
            self.wf(),
        ensures
            (n < self.globs@.len() && glob_matches(self.globs@[n as int], path)) <==> {
                ||| found_by_text(Kind::Extension, self.exts.entries(), path, n)
                ||| found_by_text(Kind::Basename, self.base_lits.entries(), path, n)
                ||| found_by_text(Kind::Literal, self.lits.entries(), path, n)
                ||| found_by_text(Kind::Suffix, words_of(self.suffixes), path, n)
                ||| found_by_text(Kind::Prefix, words_of(self.prefixes), path, n)
                ||| RequiredExtensionStrategy::yields(self.globs@, path, n)
                ||| found_by_regex(self.globs@, path, n)
            },
    {
        let globs = self.globs@;
        if n < globs.len() && glob_matches(globs[n as int], path) {
            let g = globs[n as int];
            match g.strategy() {
                StrategyView::Literal(t) => {
                    assert(filed(Kind::Literal, g, path));
                    assert(self.lits.entries().contains((path, n)));
                },
                StrategyView::BasenameLiteral(t) => {
                    assert(filed(Kind::Basename, g, basename(path)));
                    assert(self.base_lits.entries().contains((basename(path), n)));
                },
                StrategyView::Extension(t) => {
                    assert(filed(Kind::Extension, g, extension(basename(path))));
                    assert(self.exts.entries().contains((extension(basename(path)), n)));
                },
                StrategyView::Prefix(t) => {
                    assert(filed(Kind::Prefix, g, encode_utf8(t)));
                    assert(words_of(self.prefixes).contains((encode_utf8(t), n)));
                },
                StrategyView::Suffix { suffix, component } => {
                    assert(filed(Kind::Suffix, g, encode_utf8(suffix)));
                    assert(words_of(self.suffixes).contains((encode_utf8(suffix), n)));
                    if component && path == from(encode_utf8(suffix), 1) {
                        assert(filed(Kind::Literal, g, path));
                        assert(self.lits.entries().contains((path, n)));
                    }
                },
                StrategyView::RequiredExtension(t) => {},
                StrategyView::Regex => {},
            }
        }
        if found_by_text(Kind::Prefix, words_of(self.prefixes), path, n) {
            let key = choose|key: Seq<u8>| #[trigger]
                words_of(self.prefixes).contains((key, n)) && begins(path, key);
            assert(filed(Kind::Prefix, globs[n as int], key));
        }
        if found_by_text(Kind::Suffix, words_of(self.suffixes), path, n) {
            let key = choose|key: Seq<u8>| #[trigger]
                words_of(self.suffixes).contains((key, n)) && ends(path, key);
            assert(filed(Kind::Suffix, globs[n as int], key));
        }
        if found_by_text(Kind::Literal, self.lits.entries(), path, n) {
            assert(filed(Kind::Literal, globs[n as int], path));
        }
        if found_by_text(Kind::Basename, self.base_lits.entries(), path, n) {
            assert(filed(Kind::Basename, globs[n as int], basename(path)));
        }
        if found_by_text(Kind::Extension, self.exts.entries(), path, n) {
            assert(filed(Kind::Extension, globs[n as int], extension(basename(path))));
        }
    }

    /// Appends the numbers of the patterns that match by way of a table or a word.
    fn texts_into(&self, c: &Candidate<'_>, out: &mut Vec<usize>)
        requires
            self.wf(),
            c.wf(),
            old(out)@.len() == 0,
        ensures
            forall|n: usize| #[trigger]
                final(out)@.contains(n) <==> {
                    ||| found_by_text(Kind::Extension, self.exts.entries(), c.text(), n)
                    ||| found_by_text(Kind::Basename, self.base_lits.entries(), c.text(), n)
                    ||| found_by_text(Kind::Literal, self.lits.entries(), c.text(), n)
                    ||| found_by_text(Kind::Suffix, words_of(self.suffixes), c.text(), n)
                    ||| found_by_text(Kind::Prefix, words_of(self.prefixes), c.text(), n)
                },
    {
        let ghost path = c.text();
        let ghost s0 = out@;
        if c.ext.len() > 0 {
            self.exts.extend_hits(c.ext, out);
        }
        let ghost s1 = out@;
        proof {
            assert forall|n: usize| #[trigger]
                s1.contains(n) <==> found_by_text(Kind::Extension, self.exts.entries(), path, n) by {
                lemma_hits(self.exts.entries(), c.ext@, n);
                if c.ext@.len() > 0 {
                    assert(s1 =~= hits(self.exts.entries(), c.ext@));
                }
            }
        }
        if c.basename.len() > 0 {
            self.base_lits.extend_hits(c.basename, out);
        }
        let ghost s2 = out@;
        proof {
            assert forall|n: usize| #[trigger]
                s2.contains(n) <==> s1.contains(n) || found_by_text(
                    Kind::Basename,
                    self.base_lits.entries(),
                    path,
                    n,
                ) by {
                lemma_hits(self.base_lits.entries(), c.basename@, n);
                lemma_contains_concat(s1, hits(self.base_lits.entries(), c.basename@), n);
            }
        }
        self.lits.extend_hits(c.path, out);
        let ghost s3 = out@;
        proof {
            assert forall|n: usize| #[trigger]
                s3.contains(n) <==> s2.contains(n) || found_by_text(
                    Kind::Literal,
                    self.lits.entries(),
                    path,
                    n,
                ) by {
                lemma_hits(self.lits.entries(), path, n);
                lemma_contains_concat(s2, hits(self.lits.entries(), path), n);
            }
        }
        if let Some(w) = &self.suffixes {
            w.suffixes_into(c.path, out);
        }
        let ghost s4 = out@;
        proof {
            assert forall|n: usize| #[trigger]
                s4.contains(n) <==> s3.contains(n) || found_by_text(
                    Kind::Suffix,
                    words_of(self.suffixes),
                    path,
                    n,
                ) by {
                if self.suffixes is Some {
                    lemma_words(self.suffixes->0, path, n);
                }
            }
        }
        if let Some(w) = &self.prefixes {
            w.prefixes_into(c.path, out);
        }
        let ghost s5 = out@;
        proof {
            assert forall|n: usize| #[trigger]
                s5.contains(n) <==> s4.contains(n) || found_by_text(
                    Kind::Prefix,
                    words_of(self.prefixes),
                    path,
                    n,
                ) by {
                if self.prefixes is Some {
                    lemma_words(self.prefixes->0, path, n);
                }
            }
        }
    }

    /// Appends the numbers of the patterns that match by way of a regular expression alone.
    fn regexes_into(&self, path: &[u8], out: &mut Vec<usize>)
        requires
            self.wf(),
        ensures
            forall|n: usize| #[trigger]
                final(out)@.contains(n) <==> old(out)@.contains(n) || found_by_regex(
                    self.globs@,
                    path@,
                    n,
                ),
    {
        let ghost before = out@;
        match &self.regexes {
            None => {
                proof {
                    assert forall|n: usize| !found_by_regex(self.globs@, path@, n) by {
                        if found_by_regex(self.globs@, path@, n) {
                            assert(Seq::<usize>::empty().contains(n));
                        }
                    }
                }
            },
            Some(r) => {
                let which = regex_which_match(&r.matcher, path);
                let mut i: usize = 0;
                while i < which.len()
                    invariant
                        i <= which@.len(),
                        are_matching(which@, r.patterns(), path@),
                        regexes_hold(
                            r.patterns(),
                            r.numbers(),
                            self.globs@,
                            self.globs@.len() as int,
                        ),
                        forall|n: usize| #[trigger]
                            out@.contains(n) ==> before.contains(n) || found_by_regex(
                                self.globs@,
                                path@,
                                n,
                            ),
                        forall|n: usize| #[trigger] before.contains(n) ==> out@.contains(n),
                        forall|j: int|
                            0 <= j < i ==> out@.contains(r.map@[#[trigger] which@[j] as int]),
                    decreases which@.len() - i,
                {
                    let k: usize = which[i];
                    assert(which@.contains(k));
                    let ghost was = out@;
                    assert(r.numbers()[k as int] < self.globs@.len());
                    out.push(r.map[k]);
                    proof {
                        lemma_contains_push(was, r.map@[k as int]);
                    }
                    i += 1;
                }
                proof {
                    let count = r.map.len();
                    assert forall|n: usize| #[trigger]
                        out@.contains(n) <==> before.contains(n) || found_by_regex(
                            self.globs@,
                            path@,
                            n,
                        ) by {
                        if found_by_regex(self.globs@, path@, n) {
                            assert(self.globs@[n as int].strategy() is Regex);
                            assert(r.numbers().contains(n));
                            let k = choose|k: int|
                                0 <= k < r.numbers().len() && r.numbers()[k] == n;
                            assert(r.patterns()[k] == self.globs@[n as int].regex());
                            assert(k == k as usize);
                            assert(which@.contains(k as usize));
                            let j = choose|j: int|
                                0 <= j < which@.len() && which@[j] == k as usize;
                            assert(out@.contains(r.map@[which@[j] as int]));
                        }
                    }
                }
            },
        }
    }

    /// The numbers of the patterns that match the path, in ascending order.
    pub fn matches(&self, path: &[u8]) -> (r: Vec<usize>)
        requires
            self.wf(),
        ensures
            ascending(r@),
            are_hits(r@, self.patterns(), path@),
            r@.len() > 0 <==> some_hit(self.patterns(), path@),
    {
        let mut out: Vec<usize> = Vec::new();
        self.matches_into(path, &mut out);
        proof {
            assert(self.patterns().len() == self.len);
            law_match_is_among_the_matches(out@, self.patterns(), path@);
        }
        out
    }

    /// Replaces what is in `into` by the numbers of the patterns that match the path, in
    /// ascending order.
    pub fn matches_into(&self, path: &[u8], into: &mut Vec<usize>)
        requires
            self.wf(),
        ensures
            ascending(final(into)@),
            are_hits(final(into)@, self.patterns(), path@),
    {
        let c = Candidate::new(path);
        self.matches_candidate_into(&c, into);
    }

    /// Replaces what is in `into` by the numbers of the patterns that match the path, in
    /// ascending order.
    pub fn matches_candidate_into(&self, c: &Candidate<'_>, into: &mut Vec<usize>)
        requires
            self.wf(),
            c.wf(),
        ensures
            ascending(final(into)@),
            are_hits(final(into)@, self.patterns(), c.text()),
    {
        into.clear();
        if self.is_empty() {
            return;
        }
        self.texts_into(c, into);
        self.required_exts.matches_into(c, into, Ghost(self.globs@));
        self.regexes_into(c.path, into);
        proof {
            assert(are_hits(into@, self.globs@, c.text())) by {
                assert forall|n: usize| #[trigger]
                    into@.contains(n) <==> n < self.globs@.len() && glob_matches(
                        self.globs@[n as int],
                        c.text(),
                    ) by {
                    self.lemma_found(c.text(), n);
                }
            }
        }
        let ghost found = into@;
        sort(into);
        proof {
            lemma_same_members(into@, found);
        }
        dedup(into);
    }

    /// Whether one of the patterns matches the path.
    pub fn is_match(&self, path: &[u8]) -> (r: bool)
        requires
            self.wf(),
        ensures
            r == some_hit(self.patterns(), path@),
    {
        let c = Candidate::new(path);
        self.is_match_candidate(&c)
    }

    /// Whether one of the patterns matches the path.
    pub fn is_match_candidate(&self, c: &Candidate<'_>) -> (r: bool)
        requires
            self.wf(),
            c.wf(),
        ensures
            r == some_hit(self.patterns(), c.text()),
    {
        if self.is_empty() {
            return false;
        }
        let ghost path = c.text();
        let mut out: Vec<usize> = Vec::new();
        self.texts_into(c, &mut out);
        if out.len() == 0 {
            self.required_exts.matches_into(c, &mut out, Ghost(self.globs@));
        }
        if out.len() > 0 {
            proof {
                let n = out@[0];
                assert(out@.contains(n));
                self.lemma_found(path, n);
                assert(glob_matches(self.globs@[n as int], path));
            }
            return true;
        }
        let ghost s = out@;
        self.regexes_into(c.path, &mut out);
        proof {
            if out@.len() > 0 {
                let n = out@[0];
                assert(out@.contains(n));
                self.lemma_found(path, n);
                assert(glob_matches(self.globs@[n as int], path));
            }
            if some_hit(self.globs@, path) {
                let k = choose|k: int|
                    0 <= k < self.globs@.len() && glob_matches(#[trigger] self.globs@[k], path);
                let n = k as usize;
                self.lemma_found(path, n);
                assert(out@.contains(n));
            }
        }
        out.len() > 0
    }
}

proof fn lemma_contains_concat(a: Seq<usize>, b: Seq<usize>, n: usize)
    ensures
        (a + b).contains(n) <==> a.contains(n) || b.contains(n),
{
    if a.contains(n) {
        let i = choose|i: int| 0 <= i < a.len() && a[i] == n;
        assert((a + b)[i] == n);
    }
    if b.contains(n) {
        let i = choose|i: int| 0 <= i < b.len() && b[i] == n;
        assert((a + b)[a.len() + i] == n);
    }
    if (a + b).contains(n) {
        let i = choose|i: int| 0 <= i < (a + b).len() && (a + b)[i] == n;
        if i < a.len() {
            assert(a[i] == n);
        } else {
            assert(b[i - a.len()] == n);
        }
    }
}

proof fn lemma_same_members(a: Seq<usize>, b: Seq<usize>)
    requires
        a.to_multiset() == b.to_multiset(),
    ensures
        forall|n: usize| #[trigger] a.contains(n) <==> b.contains(n),
{
    broadcast use vstd::seq_lib::group_to_multiset_ensures;

    assert forall|n: usize| #[trigger] a.contains(n) <==> b.contains(n) by {
        assert(a.contains(n) <==> a.to_multiset().count(n) > 0);
        assert(b.contains(n) <==> b.to_multiset().count(n) > 0);
    }
}

/// Leaves one of each run of equal numbers.
fn dedup(v: &mut Vec<usize>)
    requires
        forall|i: int, j: int|
            0 <= i <= j < old(v)@.len() ==> #[trigger] old(v)@[i] <= #[trigger] old(v)@[j],
    ensures
        ascending(final(v)@),
        forall|n: usize| #[trigger] final(v)@.contains(n) <==> old(v)@.contains(n),
{
    let ghost before = v@;
    let mut out: Vec<usize> = Vec::new();
    let mut i: usize = 0;
    while i < v.len()
        invariant
            v@ == before,
            i <= v@.len(),
            forall|x: int, y: int|
                0 <= x <= y < before.len() ==> #[trigger] before[x] <= #[trigger] before[y],
            ascending(out@),
            forall|n: usize| #[trigger] out@.contains(n) <==> before.take(i as int).contains(n),
            i > 0 ==> out@.len() > 0 && out@.last() == before[i - 1],
            i == 0 ==> out@.len() == 0,
        decreases v@.len() - i,
    {
        let x: usize = v[i];
        let ghost was = out@;
        proof {
            assert(before.take(i + 1) =~= before.take(i as int).push(x));
            lemma_contains_push(before.take(i as int), x);
            lemma_contains_push(was, x);
        }
        if out.len() == 0 || out[out.len() - 1] != x {
            out.push(x);
            assert(ascending(out@));
        } else {
            assert(was[was.len() - 1] == x);
            assert(was.contains(x));
        }
        i += 1;
    }
    assert(before.take(before.len() as int) =~= before);
    *v = out;
}

/// A builder for a set of patterns.
#[derive(Debug)]
pub struct GlobSetBuilder {
    pats: Vec<Glob>,
}

impl GlobSetBuilder {
    /// The patterns that were added.
    pub closed spec fn patterns(self) -> Seq<GlobView> {
        self.pats@.map_values(|g: Glob| g@)
    }

    pub closed spec fn wf(self) -> bool {
        forall|i: int| 0 <= i < self.pats@.len() ==> (#[trigger] self.pats@[i]).wf()
    }

    /// A builder without patterns.
    pub fn new() -> (r: GlobSetBuilder)
        ensures
            r.patterns() == Seq::<GlobView>::empty(),
            r.wf(),
    {
        let r = GlobSetBuilder { pats: Vec::new() };
        assert(r.patterns() =~= Seq::<GlobView>::empty());
        r
    }

    /// Adds a pattern.
    pub fn add(&mut self, pat: Glob) -> (r: &mut GlobSetBuilder)
        requires
            old(self).wf(),
            pat.wf(),
        ensures
            r.wf(),
            r.patterns() == old(self).patterns().push(pat@),
            *final(self) == *final(r),
    {
        let ghost before = self.patterns();
        self.pats.push(pat);
        assert(self.patterns() =~= before.push(pat@));
        self
    }

    /// The set of the patterns that were added. Where a regular expression is needed that
    /// cannot be compiled, or there is no room for texts, the error says why.
    pub fn build(&self) -> (r: Result<GlobSet, Error>)
        requires
            self.wf(),
        ensures
            r matches Ok(s) ==> s.wf() && s.patterns() == self.patterns(),
            r matches Err(e) ==> is_build_error(e, self.patterns()),
            buildable(self.patterns()) ==> r is Ok,
    {
        let ghost globs = self.patterns();
        let mut exts = Table::new();
        let mut base_lits = Table::new();
        let mut lits = Table::new();
        let mut suffixes = MultiStrategyBuilder::new();
        let mut prefixes = MultiStrategyBuilder::new();
        let mut required_exts = RequiredExtensionStrategy::new();
        let mut regexes = MultiStrategyBuilder::new();
        let len: usize = self.pats.len();
        let mut i: usize = 0;
        assert(texts(regexes.literals@) =~= seq![]);
        while i < len
            invariant
                i <= len == self.pats@.len(),
                self.wf(),
                globs == self.patterns(),
                exts.wf() && files(Kind::Extension, exts.entries(), globs, i as int),
                base_lits.wf() && files(Kind::Basename, base_lits.entries(), globs, i as int),
                lits.wf() && files(Kind::Literal, lits.entries(), globs, i as int),
                suffixes.wf() && files(Kind::Suffix, suffixes.entries(), globs, i as int),
                prefixes.wf() && files(Kind::Prefix, prefixes.entries(), globs, i as int),
                required_exts.wf() && required_exts.holds(globs, i as int),
                regexes.wf() && regexes_hold(
                    texts(regexes.literals@),
                    regexes.map@,
                    globs,
                    i as int,
                ),
                forall|k: int|
                    0 <= k < suffixes.literals@.len() ==> encode_utf8(
                        (#[trigger] suffixes.literals@[k])@,
                    ).len() > 0,
                forall|k: int|
                    0 <= k < prefixes.literals@.len() ==> encode_utf8(
                        (#[trigger] prefixes.literals@[k])@,
                    ).len() > 0,
                encodings(suffixes.literals@) == suffix_words(globs.take(i as int)),
                encodings(prefixes.literals@) == prefix_words(globs.take(i as int)),
            decreases len - i,
        {
            let ghost g = globs[i as int];
            assert(g == self.pats@[i as int]@);
            assert(self.pats@[i as int].wf());
            let ghost exts0 = exts.entries();
            let ghost base0 = base_lits.entries();
            let ghost lits0 = lits.entries();
            let ghost suff0 = suffixes.entries();
            let ghost pref0 = prefixes.entries();
            let ghost ghost_i = i as int;
            let ghost re0 = texts(regexes.literals@);
            let ghost map0 = regexes.map@;
            let ghost suffs0 = suffixes.literals@;
            let ghost prefs0 = prefixes.literals@;
            assert(globs.take(i + 1).drop_last() =~= globs.take(i as int));
            let p = &self.pats[i];
            match MatchStrategy::new(p) {
                MatchStrategy::Literal(s) => {
                    lits.insert(s.as_str().as_bytes(), i);
                    proof {
                        lemma_files_same(Kind::Extension, exts0, globs, ghost_i);
                        lemma_files_same(Kind::Basename, base0, globs, ghost_i);
                        lemma_files_push(Kind::Literal, lits0, globs, i, encode_utf8(s@));
                        lemma_files_same(Kind::Suffix, suff0, globs, ghost_i);
                        lemma_files_same(Kind::Prefix, pref0, globs, ghost_i);
                    }
                },
                MatchStrategy::BasenameLiteral(s) => {
                    base_lits.insert(s.as_str().as_bytes(), i);
                    proof {
                        lemma_files_same(Kind::Extension, exts0, globs, ghost_i);
                        lemma_files_push(Kind::Basename, base0, globs, i, encode_utf8(s@));
                        lemma_files_same(Kind::Literal, lits0, globs, ghost_i);
                        lemma_files_same(Kind::Suffix, suff0, globs, ghost_i);
                        lemma_files_same(Kind::Prefix, pref0, globs, ghost_i);
                    }
                },
                MatchStrategy::Extension(s) => {
                    exts.insert(s.as_str().as_bytes(), i);
                    proof {
                        lemma_files_push(Kind::Extension, exts0, globs, i, encode_utf8(s@));
                        lemma_files_same(Kind::Basename, base0, globs, ghost_i);
                        lemma_files_same(Kind::Literal, lits0, globs, ghost_i);
                        lemma_files_same(Kind::Suffix, suff0, globs, ghost_i);
                        lemma_files_same(Kind::Prefix, pref0, globs, ghost_i);
                    }
                },
                MatchStrategy::Prefix(s) => {
                    proof {
                        lemma_files_same(Kind::Extension, exts0, globs, ghost_i);
                        lemma_files_same(Kind::Basename, base0, globs, ghost_i);
                        lemma_files_same(Kind::Literal, lits0, globs, ghost_i);
                        lemma_files_same(Kind::Suffix, suff0, globs, ghost_i);
                        lemma_files_push(Kind::Prefix, pref0, globs, i, encode_utf8(s@));
                        lemma_encoded_len(s@);
                    }
                    prefixes.insert(i, s);
                    assert(encodings(prefixes.literals@) =~= encodings(prefs0).push(
                        encode_utf8(s@),
                    ));
                },
                MatchStrategy::Suffix { suffix, component } => {
                    proof {
                        lemma_encoded_len(suffix@);
                    }
                    if component {
                        let bytes: &[u8] = suffix.as_str().as_bytes();
                        let n: usize = bytes.len();
                        lits.insert(&bytes[1..n], i);
                        proof {
                            lemma_files_push(
                                Kind::Literal,
                                lits0,
                                globs,
                                i,
                                from(encode_utf8(suffix@), 1),
                            );
                        }
                    } else {
                        proof {
                            lemma_files_same(Kind::Literal, lits0, globs, ghost_i);
                        }
                    }
                    proof {
                        lemma_files_same(Kind::Extension, exts0, globs, ghost_i);
                        lemma_files_same(Kind::Basename, base0, globs, ghost_i);
                        lemma_files_push(Kind::Suffix, suff0, globs, i, encode_utf8(suffix@));
                        lemma_files_same(Kind::Prefix, pref0, globs, ghost_i);
                    }
                    suffixes.insert(i, suffix);
                    assert(encodings(suffixes.literals@) =~= encodings(suffs0).push(
                        encode_utf8(suffix@),
                    ));
                },
                MatchStrategy::RequiredExtension(ext) => {
                    let re = match new_regex(p.regex()) {
                        Ok(re) => re,
                        Err(e) => {
                            return Err(e);
                        },
                    };
                    required_exts.insert(i, ext.as_str(), re, Ghost(globs));
                    proof {
                        lemma_files_same(Kind::Extension, exts0, globs, ghost_i);
                        lemma_files_same(Kind::Basename, base0, globs, ghost_i);
                        lemma_files_same(Kind::Literal, lits0, globs, ghost_i);
                        lemma_files_same(Kind::Suffix, suff0, globs, ghost_i);
                        lemma_files_same(Kind::Prefix, pref0, globs, ghost_i);
                    }
                },
                MatchStrategy::Regex => {
                    let text = p.regex().to_owned();
                    regexes.insert(i, text);
                    proof {
                        lemma_files_same(Kind::Extension, exts0, globs, ghost_i);
                        lemma_files_same(Kind::Basename, base0, globs, ghost_i);
                        lemma_files_same(Kind::Literal, lits0, globs, ghost_i);
                        lemma_files_same(Kind::Suffix, suff0, globs, ghost_i);
                        lemma_files_same(Kind::Prefix, pref0, globs, ghost_i);
                        assert(texts(regexes.literals@) =~= re0.push(g.regex()));
                        lemma_regexes_push(re0, map0, globs, i);
                    }
                },
            }
            i += 1;
        }
        assert(globs.take(len as int) =~= globs);
        let suffixes = match suffixes.words() {
            Ok(w) => w,
            Err(e) => {
                return Err(e);
            },
        };
        let prefixes = match prefixes.words() {
            Ok(w) => w,
            Err(e) => {
                return Err(e);
            },
        };
        let regexes = if regexes.literals.len() == 0 {
            assert(texts(regexes.literals@) =~= seq![]);
            assert(regexes.map@ =~= seq![]);
            None
        } else {
            proof {
                let n = regexes.map@[0];
                assert(globs[n as int].strategy() is Regex);
            }
            match new_regex_set(&regexes.literals) {
                Ok(matcher) => Some(RegexSetStrategy { matcher, map: regexes.map }),
                Err(e) => {
                    return Err(e);
                },
            }
        };
        Ok(
            GlobSet {
                len,
                exts,
                base_lits,
                lits,
                suffixes,
                prefixes,
                required_exts,
                regexes,
                globs: Ghost(globs),
            },
        )
    }
}

/// Compiles a regular expression.
fn new_regex(pattern: &str) -> (r: Result<Regex, Error>)
    ensures
        r matches Ok(re) ==> regex_patterns(re) == seq![pattern@],
        r matches Err(e) ==> e.kind is Regex && (e.glob matches Some(g) && g@ == pattern@),
{
    match build_regex(pattern) {
        Ok(re) => Ok(re),
        Err(text) => Err(Error { glob: Some(pattern.to_owned()), kind: ErrorKind::Regex(text) }),
    }
}

/// Compiles regular expressions together.
fn new_regex_set(patterns: &Vec<String>) -> (r: Result<Regex, Error>)
    ensures
        r matches Ok(re) ==> regex_patterns(re) == texts(patterns@),
        r matches Err(e) ==> e.kind is Regex && e.glob is None,
{
    match build_regexes(patterns) {
        Ok(re) => Ok(re),
        Err(text) => Err(Error { glob: None, kind: ErrorKind::Regex(text) }),
    }
}

proof fn lemma_regexes_push(
    patterns: Seq<Seq<char>>,
    numbers: Seq<usize>,
    globs: Seq<GlobView>,
    i: usize,
)
    requires
        regexes_hold(patterns, numbers, globs, i as int),
        i < globs.len(),
        globs[i as int].strategy() is Regex,
    ensures
        regexes_hold(
            patterns.push(globs[i as int].regex()),
            numbers.push(i),
            globs,
            i + 1,
        ),
{
    lemma_contains_push(numbers, i);
}

/// The encoding of a text that is not empty is not empty.
proof fn lemma_encoded_len(s: Seq<char>)
    ensures
        s.len() > 0 ==> encode_utf8(s).len() > 0,
{
    if s.len() > 0 {
        vstd::utf8::encode_utf8_first_scalar(s);
    }
}

/// A pattern with its compiled regular expression.
#[derive(Debug)]
pub struct GlobMatcher {
    pat: Glob,
    re: Regex,
}

impl GlobMatcher {
    pub closed spec fn pattern(self) -> GlobView {
        self.pat@
    }

    pub closed spec fn wf(self) -> bool {
        regex_patterns(self.re) == seq![self.pat@.regex()]
    }

    /// Whether the pattern's regular expression matches the path.
    pub fn is_match(&self, path: &[u8]) -> (r: bool)
        requires
            self.wf(),
        ensures
            r == regex_matches(self.pattern().regex(), path@),
    {
        let r = regex_is_match(&self.re, path);
        proof {
            let ps = regex_patterns(self.re);
            assert(ps[0] == self.pat@.regex());
            if regex_matches(self.pat@.regex(), path@) {
                assert(regex_matches(ps[0], path@));
            }
        }
        r
    }

    /// The pattern.
    pub fn glob(&self) -> (r: &Glob)
        ensures
            r@ == self.pattern(),
    {
        &self.pat
    }
}

impl Glob {
    /// Compiles the pattern's regular expression. `None` where that fails.
    pub fn compile_matcher(&self) -> (r: Option<GlobMatcher>)
        requires
            self.wf(),
        ensures
            r matches Some(m) ==> m.wf() && m.pattern() == self@,
    {
        match new_regex(self.regex()) {
            Ok(re) => Some(GlobMatcher { pat: self.copy(), re }),
            Err(_) => None,
        }
    }
}

/// One of the patterns matches a path where the numbers of those that match are asked for and
/// there are any.
pub proof fn law_match_is_among_the_matches(v: Seq<usize>, globs: Seq<GlobView>, path: Seq<u8>)
    requires
        are_hits(v, globs, path),
        globs.len() <= usize::MAX,
    ensures
        v.len() > 0 <==> some_hit(globs, path),
{
    if v.len() > 0 {
        assert(v.contains(v[0]));
        assert(glob_matches(globs[v[0] as int], path));
    }
    if some_hit(globs, path) {
        let n = choose|n: int| 0 <= n < globs.len() && glob_matches(#[trigger] globs[n], path);
        assert(v.contains(n as usize));
    }
}

/// No word is longer than `n` bytes.
pub open spec fn none_longer(words: Seq<Seq<u8>>, n: int) -> bool {
    forall|i: int| 0 <= i < words.len() ==> (#[trigger] words[i]).len() <= n
}

proof fn lemma_total_len(words: Seq<Seq<u8>>, n: int)
    requires
        0 <= n,
        none_longer(words, n),
    ensures
        total_len(words) <= words.len() * n,
    decreases words.len(),
{
    if words.len() > 0 {
        let rest = words.drop_last();
        assert forall|i: int| 0 <= i < rest.len() implies (#[trigger] rest[i]).len() <= n by {
            assert(rest[i] == words[i]);
        }
        lemma_total_len(rest, n);
        assert(words.last() == words[words.len() - 1]);
        assert(words.len() * n == rest.len() * n + n) by (nonlinear_arith)
            requires
                words.len() == rest.len() + 1,
        ;
    } else {
        assert(words.len() * n == 0) by (nonlinear_arith)
            requires
                words.len() == 0,
        ;
    }
}

proof fn lemma_no_more_words(globs: Seq<GlobView>)
    ensures
        prefix_words(globs).len() <= globs.len(),
        suffix_words(globs).len() <= globs.len(),
    decreases globs.len(),
{
    if globs.len() > 0 {
        lemma_no_more_words(globs.drop_last());
    }
}

/// There is room for a thousand words of a thousand bytes.
proof fn lemma_fit(words: Seq<Seq<u8>>)
    requires
        words.len() <= 1000,
        none_longer(words, 1000),
    ensures
        fit_automaton(words),
{
    lemma_total_len(words, 1000);
    let l = total_len(words) as int;
    let n = words.len() as int;
    assert((l + 8) * (n + 600) <= 1000008 * 1600) by (nonlinear_arith)
        requires
            0 <= l <= 1000000,
            0 <= n <= 1000,
    ;
}

/// A set of up to a thousand patterns that need no regular expression can be built, where none of the texts that they
/// are found by is longer than a thousand bytes.
pub proof fn law_small_sets_can_be_built(globs: Seq<GlobView>)
    requires
        globs.len() <= 1000,
        forall|n: int|
            0 <= n < globs.len() ==> !((#[trigger] globs[n]).strategy() is Regex) && !(
            globs[n].strategy() is RequiredExtension),
        none_longer(prefix_words(globs), 1000),
        none_longer(suffix_words(globs), 1000),
    ensures
        buildable(globs),
{
    lemma_no_more_words(globs);
    lemma_fit(prefix_words(globs));
    lemma_fit(suffix_words(globs));
}

} // verus!
