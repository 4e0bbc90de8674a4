//! A glob pattern, and what can be told of the paths that it matches without a regular
//! expression.
use crate::globset::error::{opt_chars, Error};
use crate::globset::parse::{parse_tokens, parsed, plain_options, GlobOptions};
use crate::globset::regex::{glob_regex, to_regex_with};
use crate::globset::token::{copy_tokens, lemma_tokens_view, token_view, tokens_view, Token, TokenView};
use vstd::prelude::*;

verus! {

/// A glob pattern that was read.
#[derive(Debug)]
pub struct Glob {
    glob: String,
    re: String,
    opts: GlobOptions,
    tokens: Vec<Token>,
}

pub struct GlobView {
    pub glob: Seq<char>,
    pub opts: GlobOptions,
    pub tokens: Seq<TokenView>,
}

impl View for Glob {
    type V = GlobView;

    closed spec fn view(&self) -> GlobView {
        GlobView { glob: self.glob@, opts: self.opts, tokens: tokens_view(self.tokens@) }
    }
}

impl GlobView {
    /// The tokens are those that the text reads as.
    pub open spec fn read(self) -> bool {
        parsed(self.glob, self.opts) matches Ok(tokens) && tokens == self.tokens
    }

    /// The regular expression for the pattern.
    pub open spec fn regex(self) -> Seq<char> {
        glob_regex(self.tokens, self.opts)
    }
}

/// A builder for a pattern, with the options for it.
#[derive(Debug)]
pub struct GlobBuilder<'a> {
    glob: &'a str,
    opts: GlobOptions,
}

impl<'a> GlobBuilder<'a> {
    pub closed spec fn text(self) -> Seq<char> {
        self.glob@
    }

    pub closed spec fn options(self) -> GlobOptions {
        self.opts
    }

    /// A builder for the pattern `glob`. The pattern is read when it is built.
    pub fn new(glob: &'a str) -> (r: GlobBuilder<'a>)
        ensures
            r.text() == glob@,
            r.options() == plain_options(),
    {
        GlobBuilder { glob, opts: GlobOptions::default_options() }
    }

    /// Reads the pattern.
    pub fn build(&self) -> (r: Result<Glob, Error>)
        ensures
            match parsed(self.text(), self.options()) {
                Ok(tokens) => r matches Ok(g) && g.wf() && g@ == (GlobView {
                    glob: self.text(),
                    opts: self.options(),
                    tokens,
                }),
                Err(e) => r matches Err(x) && x.kind@ == e && opt_chars(x.glob) == Some(
                    self.text(),
                ),
            },
    {
        match parse_tokens(self.glob, self.opts) {
            Ok(tokens) => {
                let re = to_regex_with(&tokens, self.opts);
                Ok(Glob { glob: self.glob.to_owned(), re, opts: self.opts, tokens })
            },
            Err(e) => Err(e),
        }
    }

    /// Whether letters of either case match each other. They do not where nothing is said.
    pub fn case_insensitive(&mut self, yes: bool) -> (r: &mut GlobBuilder<'a>)
        ensures
            r.text() == old(self).text(),
            r.options() == (GlobOptions { case_insensitive: yes, ..old(self).options() }),
            *final(self) == *final(r),
    {
        self.opts.case_insensitive = yes;
        self
    }

    /// Whether only `/` matches a separator. Where nothing is said, `*` and `?` do too.
    pub fn literal_separator(&mut self, yes: bool) -> (r: &mut GlobBuilder<'a>)
        ensures
            r.text() == old(self).text(),
            r.options() == (GlobOptions { literal_separator: yes, ..old(self).options() }),
            *final(self) == *final(r),
    {
        self.opts.literal_separator = yes;
        self
    }

    /// Whether `\` escapes the character after it. It does where nothing is said.
    pub fn backslash_escape(&mut self, yes: bool) -> (r: &mut GlobBuilder<'a>)
        ensures
            r.text() == old(self).text(),
            r.options() == (GlobOptions { backslash_escape: yes, ..old(self).options() }),
            *final(self) == *final(r),
    {
        self.opts.backslash_escape = yes;
        self
    }

    /// Whether an empty branch of an alternation matches. It does not where nothing is said.
    pub fn empty_alternates(&mut self, yes: bool) -> (r: &mut GlobBuilder<'a>)
        ensures
            r.text() == old(self).text(),
            r.options() == (GlobOptions { empty_alternates: yes, ..old(self).options() }),
            *final(self) == *final(r),
    {
        self.opts.empty_alternates = yes;
        self
    }

    /// Whether a `[` without a `]` stands for itself. It is an error where nothing is said.
    pub fn allow_unclosed_class(&mut self, yes: bool) -> (r: &mut GlobBuilder<'a>)
        ensures
            r.text() == old(self).text(),
            r.options() == (GlobOptions { allow_unclosed_class: yes, ..old(self).options() }),
            *final(self) == *final(r),
    {
        self.opts.allow_unclosed_class = yes;
        self
    }
}

/// The tokens are all characters.
pub open spec fn all_literal(ts: Seq<TokenView>) -> bool {
    forall|i: int| 0 <= i < ts.len() ==> #[trigger] ts[i] is Literal
}

/// The characters that the tokens are.
pub open spec fn literal_text(ts: Seq<TokenView>) -> Seq<char> {
    Seq::new(ts.len(), |i: int| ts[i]->Literal_0)
}

/// None of the tokens is the character `c`.
pub open spec fn without_char(ts: Seq<TokenView>, c: char) -> bool {
    forall|i: int| 0 <= i < ts.len() ==> #[trigger] ts[i] != TokenView::Literal(c)
}

impl GlobView {
    /// The one path that the pattern matches, where it is nothing but characters.
    pub open spec fn literal(self) -> Option<Seq<char>> {
        if !self.opts.case_insensitive && all_literal(self.tokens) && self.tokens.len() > 0 {
            Some(literal_text(self.tokens))
        } else {
            None
        }
    }

    /// Where the part that `*` stands for begins, after a `**/`.
    pub open spec fn after_prefix(self) -> int {
        if self.tokens.len() > 0 && self.tokens[0] is RecursivePrefix {
            1
        } else {
            0
        }
    }

    /// The extension that a path must have, where the pattern says nothing else of it.
    pub open spec fn ext(self) -> Option<Seq<char>> {
        let k = self.after_prefix();
        let rest = self.tokens.skip(k + 2);
        if !self.opts.case_insensitive && self.tokens.len() >= k + 2 && self.tokens[k] is ZeroOrMore
            && !(k == 0 && self.opts.literal_separator) && self.tokens[k + 1]
            == TokenView::Literal('.') && all_literal(rest) && without_char(rest, '.')
            && without_char(rest, '/') {
            Some(seq!['.'] + literal_text(rest))
        } else {
            None
        }
    }

    /// Where the extension that ends the first `n` tokens begins.
    pub open spec fn ext_start(self, n: int) -> Option<int>
        decreases n,
    {
        if n <= 0 {
            None
        } else {
            match self.tokens[n - 1] {
                TokenView::Literal(c) => if c == '/' {
                    None
                } else if c == '.' {
                    Some(n - 1)
                } else {
                    self.ext_start(n - 1)
                },
                _ => None,
            }
        }
    }

    /// The extension that a path must have.
    pub open spec fn required_ext(self) -> Option<Seq<char>> {
        match self.ext_start(self.tokens.len() as int) {
            Some(k) if !self.opts.case_insensitive => Some(literal_text(self.tokens.skip(k))),
            _ => None,
        }
    }

    /// The beginning that a path must have, where the pattern says nothing else of it.
    pub open spec fn prefix(self) -> Option<Seq<char>> {
        let n = self.tokens.len();
        if self.opts.case_insensitive || n == 0 {
            None
        } else {
            let last = self.tokens.last();
            let head = if last is ZeroOrMore || last is RecursiveSuffix {
                self.tokens.drop_last()
            } else {
                self.tokens
            };
            let text = if last is RecursiveSuffix {
                literal_text(head).push('/')
            } else {
                literal_text(head)
            };
            if !(last is ZeroOrMore && self.opts.literal_separator) && all_literal(head)
                && text.len() > 0 {
                Some(text)
            } else {
                None
            }
        }
    }

    /// The suffix must begin a component of the path.
    pub open spec fn suffix_is_component(self) -> bool {
        self.after_prefix() == 1 && self.tokens.len() > 1 && self.tokens[1] is Literal
    }

    /// The end that a path must have, where the pattern says nothing else of it, and whether
    /// it may also be the whole path without the separator that it begins with.
    pub open spec fn suffix(self) -> Option<(Seq<char>, bool)> {
        let k = self.after_prefix();
        if self.opts.case_insensitive || self.tokens.len() <= k || (self.tokens[k] is ZeroOrMore
            && self.opts.literal_separator) {
            None
        } else {
            let rest = self.tokens.skip(
                if self.tokens[k] is ZeroOrMore {
                    k + 1
                } else {
                    k
                },
            );
            let text = if self.suffix_is_component() {
                seq!['/'] + literal_text(rest)
            } else {
                literal_text(rest)
            };
            if all_literal(rest) && text.len() > 0 && text != seq!['/'] {
                Some((text, self.suffix_is_component()))
            } else {
                None
            }
        }
    }

    /// The token stays within a component of the path.
    pub open spec fn within_component(self, t: TokenView) -> bool {
        match t {
            TokenView::Literal(c) => c != '/',
            TokenView::Any => self.opts.literal_separator,
            TokenView::ZeroOrMore => self.opts.literal_separator,
            _ => false,
        }
    }

    /// The tokens for the last component of a path, where the pattern says nothing of the
    /// others.
    pub open spec fn basename_tokens(self) -> Option<Seq<TokenView>> {
        let rest = self.tokens.skip(1);
        if !self.opts.case_insensitive && self.after_prefix() == 1 && rest.len() > 0 && (forall|
            i: int,
        |
            0 <= i < rest.len() ==> self.within_component(#[trigger] rest[i])) {
            Some(rest)
        } else {
            None
        }
    }

    /// The last component that a path must have, where the pattern says nothing else of it.
    pub open spec fn basename_literal(self) -> Option<Seq<char>> {
        match self.basename_tokens() {
            Some(rest) if all_literal(rest) => Some(literal_text(rest)),
            _ => None,
        }
    }
}

/// The characters of the tokens from `i` to `j`, after those of `head`. `None` where one of
/// them is no character.
fn literal_range(tokens: &Vec<Token>, i: usize, j: usize, head: String) -> (r: Option<String>)
    requires
        i <= j <= tokens@.len(),
    ensures
        r is Some <==> all_literal(tokens_view(tokens@).subrange(i as int, j as int)),
        r matches Some(s) ==> s@ == head@ + literal_text(
            tokens_view(tokens@).subrange(i as int, j as int),
        ),
{
    let ghost views = tokens_view(tokens@);
    proof {
        lemma_tokens_view(tokens@);
    }
    let ghost before = head@;
    let mut text = head;
    let mut k: usize = i;
    let ghost part = views.subrange(i as int, j as int);
    assert(before + literal_text(part.take(0)) =~= before);
    while k < j
        invariant
            i <= k <= j <= tokens@.len(),
            views == tokens_view(tokens@),
            views.len() == tokens@.len(),
            forall|x: int| 0 <= x < tokens@.len() ==> #[trigger] views[x] == token_view(tokens@[x]),
            part == views.subrange(i as int, j as int),
            forall|x: int| 0 <= x < k - i ==> #[trigger] part[x] is Literal,
            text@ == before + literal_text(part.take(k - i)),
        decreases j - k,
    {
        assert(part[k - i] == views[k as int]);
        match &tokens[k] {
            Token::Literal(c) => {
                text.push(*c);
                assert(literal_text(part.take(k + 1 - i)) =~= literal_text(part.take(k - i)).push(
                    *c,
                ));
                assert((before + literal_text(part.take(k - i))).push(*c) =~= before
                    + literal_text(part.take(k - i)).push(*c));
            },
            _ => {
                return None;
            },
        }
        k += 1;
    }
    assert(part.take(j - i) =~= part);
    Some(text)
}

/// Whether one of the tokens from `i` on is the character `c`.
fn has_char(tokens: &Vec<Token>, i: usize, c: char) -> (r: bool)
    requires
        i <= tokens@.len(),
    ensures
        r == !without_char(tokens_view(tokens@).skip(i as int), c),
{
    let ghost views = tokens_view(tokens@);
    let ghost rest = views.skip(i as int);
    proof {
        lemma_tokens_view(tokens@);
    }
    let mut k: usize = i;
    while k < tokens.len()
        invariant
            i <= k <= tokens@.len(),
            views == tokens_view(tokens@),
            views.len() == tokens@.len(),
            forall|x: int| 0 <= x < tokens@.len() ==> #[trigger] views[x] == token_view(tokens@[x]),
            rest == views.skip(i as int),
            forall|x: int| 0 <= x < k - i ==> #[trigger] rest[x] != TokenView::Literal(c),
        decreases tokens@.len() - k,
    {
        assert(rest[k - i] == views[k as int]);
        if let Token::Literal(d) = &tokens[k] {
            if *d == c {
                return true;
            }
        }
        k += 1;
    }
    false
}

impl Glob {
    /// The regular expression is that of the tokens, and they are those of the text.
    pub closed spec fn wf(self) -> bool {
        self.re@ == glob_regex(tokens_view(self.tokens@), self.opts) && self@.read()
    }

    /// Reads a pattern with the options that it has where none are given.
    pub fn new(glob: &str) -> (r: Result<Glob, Error>)
        ensures
            match parsed(glob@, plain_options()) {
                Ok(tokens) => r matches Ok(g) && g.wf() && g@ == (GlobView {
                    glob: glob@,
                    opts: plain_options(),
                    tokens,
                }),
                Err(e) => r matches Err(x) && x.kind@ == e && opt_chars(x.glob) == Some(glob@),
            },
    {
        GlobBuilder::new(glob).build()
    }

    /// A copy of the pattern.
    pub fn copy(&self) -> (r: Glob)
        requires
            self.wf(),
        ensures
            r.wf(),
            r@ == self@,
    {
        Glob {
            glob: self.glob.as_str().to_owned(),
            re: self.re.as_str().to_owned(),
            opts: self.opts,
            tokens: copy_tokens(&self.tokens),
        }
    }

    /// The text of the pattern.
    pub fn glob(&self) -> (r: &str)
        ensures
            r@ == self@.glob,
    {
        self.glob.as_str()
    }

    /// The regular expression for the pattern.
    pub fn regex(&self) -> (r: &str)
        requires
            self.wf(),
        ensures
            r@ == self@.regex(),
    {
        self.re.as_str()
    }

    /// The one path that the pattern matches, where it is nothing but characters.
    pub fn literal(&self) -> (r: Option<String>)
        ensures
            opt_chars(r) == self@.literal(),
    {
        if self.opts.case_insensitive || self.tokens.len() == 0 {
            proof {
                lemma_tokens_view(self.tokens@);
            }
            return None;
        }
        proof {
            lemma_tokens_view(self.tokens@);
            let all = self@.tokens;
            assert(all.subrange(0, all.len() as int) =~= all);
            assert(Seq::<char>::empty() + literal_text(all) =~= literal_text(all));
        }
        literal_range(&self.tokens, 0, self.tokens.len(), String::new())
    }

    /// The extension that a path must have, where the pattern says nothing else of it.
    pub fn ext(&self) -> (r: Option<String>)
        ensures
            opt_chars(r) == self@.ext(),
    {
        proof {
            lemma_tokens_view(self.tokens@);
        }
        let n: usize = self.tokens.len();
        if self.opts.case_insensitive || n == 0 {
            return None;
        }
        let k: usize = if matches!(self.tokens[0], Token::RecursivePrefix) {
            1
        } else {
            0
        };
        assert(k == self@.after_prefix());
        if n < 2 || n - 2 < k {
            return None;
        }
        if !matches!(self.tokens[k], Token::ZeroOrMore) || (k == 0 && self.opts.literal_separator) {
            return None;
        }
        match &self.tokens[k + 1] {
            Token::Literal(c) => if *c != '.' {
                return None;
            },
            _ => {
                return None;
            },
        }
        if has_char(&self.tokens, k + 2, '.') || has_char(&self.tokens, k + 2, '/') {
            return None;
        }
        let mut head = String::new();
        head.push('.');
        proof {
            assert(head@ =~= seq!['.']);
            assert(self@.tokens.subrange(k + 2, n as int) =~= self@.tokens.skip(k + 2));
        }
        literal_range(&self.tokens, k + 2, n, head)
    }

    /// The extension that a path must have.
    pub fn required_ext(&self) -> (r: Option<String>)
        ensures
            opt_chars(r) == self@.required_ext(),
    {
        proof {
            lemma_tokens_view(self.tokens@);
        }
        if self.opts.case_insensitive {
            return None;
        }
        let n: usize = self.tokens.len();
        let mut k: usize = n;
        while k > 0
            invariant
                k <= n == self.tokens@.len(),
                self@.tokens.len() == n,
                forall|x: int|
                    0 <= x < n ==> #[trigger] self@.tokens[x] == token_view(self.tokens@[x]),
                !self.opts.case_insensitive,
                self@.ext_start(n as int) == self@.ext_start(k as int),
                forall|x: int| k <= x < n ==> #[trigger] self@.tokens[x] is Literal,
            decreases k,
        {
            k -= 1;
            assert(self@.tokens[k as int] == token_view(self.tokens@[k as int]));
            match &self.tokens[k] {
                Token::Literal(c) => {
                    if *c == '/' {
                        return None;
                    }
                    if *c == '.' {
                        proof {
                            let rest = self@.tokens.subrange(k as int, n as int);
                            assert(rest =~= self@.tokens.skip(k as int));
                            assert forall|x: int| 0 <= x < rest.len() implies #[trigger] rest[x]
                                is Literal by {
                                assert(rest[x] == self@.tokens[k + x]);
                            }
                            assert(Seq::<char>::empty() + literal_text(rest) =~= literal_text(rest));
                        }
                        return literal_range(&self.tokens, k, n, String::new());
                    }
                },
                _ => {
                    return None;
                },
            }
        }
        None
    }

    /// The beginning that a path must have, where the pattern says nothing else of it.
    pub fn prefix(&self) -> (r: Option<String>)
        ensures
            opt_chars(r) == self@.prefix(),
    {
        proof {
            lemma_tokens_view(self.tokens@);
        }
        let n: usize = self.tokens.len();
        if self.opts.case_insensitive || n == 0 {
            return None;
        }
        assert(self@.tokens.last() == token_view(self.tokens@[n - 1]));
        let star: bool = matches!(self.tokens[n - 1], Token::ZeroOrMore);
        let need_sep: bool = matches!(self.tokens[n - 1], Token::RecursiveSuffix);
        if star && self.opts.literal_separator {
            return None;
        }
        let end: usize = if star || need_sep {
            n - 1
        } else {
            n
        };
        let ghost head = self@.tokens.subrange(0, end as int);
        proof {
            if star || need_sep {
                assert(head =~= self@.tokens.drop_last());
            } else {
                assert(head =~= self@.tokens);
            }
            assert(Seq::<char>::empty() + literal_text(head) =~= literal_text(head));
        }
        match literal_range(&self.tokens, 0, end, String::new()) {
            None => None,
            Some(text) => {
                let mut text = text;
                if need_sep {
                    text.push('/');
                } else if end == 0 {
                    return None;
                }
                Some(text)
            },
        }
    }

    /// The end that a path must have, where the pattern says nothing else of it, and whether
    /// it may also be the whole path without the separator that it begins with.
    pub fn suffix(&self) -> (r: Option<(String, bool)>)
        ensures
            match self@.suffix() {
                Some((text, component)) => r matches Some((s, c)) && s@ == text && c == component,
                None => r is None,
            },
    {
        proof {
            lemma_tokens_view(self.tokens@);
        }
        let n: usize = self.tokens.len();
        if self.opts.case_insensitive || n == 0 {
            return None;
        }
        let k: usize = if matches!(self.tokens[0], Token::RecursivePrefix) {
            1
        } else {
            0
        };
        if n <= k {
            return None;
        }
        let entire: bool = k == 1 && matches!(self.tokens[1], Token::Literal(_));
        let star: bool = matches!(self.tokens[k], Token::ZeroOrMore);
        if star && self.opts.literal_separator {
            return None;
        }
        let start: usize = if star {
            k + 1
        } else {
            k
        };
        let mut head = String::new();
        if entire {
            head.push('/');
            assert(head@ =~= seq!['/']);
        }
        let ghost before = head@;
        let ghost rest = self@.tokens.subrange(start as int, n as int);
        proof {
            assert(rest =~= self@.tokens.skip(start as int));
            assert(!entire ==> Seq::<char>::empty() + literal_text(rest) =~= literal_text(rest));
        }
        match literal_range(&self.tokens, start, n, head) {
            None => None,
            Some(text) => {
                let slash: bool = start + 1 == n && !entire && is_slash(&self.tokens[start]);
                if start == n || slash {
                    proof {
                        if slash {
                            assert(rest[0] == self@.tokens[start as int]);
                            assert(text@ =~= seq!['/']);
                        } else {
                            assert(!entire);
                            assert(text@.len() == 0);
                        }
                    }
                    return None;
                }
                proof {
                    if text@ == seq!['/'] {
                        assert(text@[0] == '/');
                        assert(text@.len() == 1);
                        assert(rest[0] == self@.tokens[start as int]);
                        assert(!entire);
                        assert(text@[0] == rest[0]->Literal_0);
                    }
                }
                Some((text, entire))
            },
        }
    }

    /// Where the tokens for the last component of a path begin, where the pattern says
    /// nothing of the others.
    pub fn basename_tokens(&self) -> (r: Option<usize>)
        ensures
            r is Some <==> self@.basename_tokens() is Some,
            r matches Some(k) ==> k <= self@.tokens.len() && self@.basename_tokens() == Some(
                self@.tokens.skip(k as int),
            ),
    {
        proof {
            lemma_tokens_view(self.tokens@);
        }
        let n: usize = self.tokens.len();
        if self.opts.case_insensitive || n < 2 {
            return None;
        }
        if !matches!(self.tokens[0], Token::RecursivePrefix) {
            return None;
        }
        let ghost rest = self@.tokens.skip(1);
        let mut i: usize = 1;
        while i < n
            invariant
                1 <= i <= n == self.tokens@.len(),
                self@.tokens.len() == n,
                forall|x: int|
                    0 <= x < n ==> #[trigger] self@.tokens[x] == token_view(self.tokens@[x]),
                rest == self@.tokens.skip(1),
                forall|x: int| 0 <= x < i - 1 ==> self@.within_component(#[trigger] rest[x]),
            decreases n - i,
        {
            assert(rest[i - 1] == self@.tokens[i as int]);
            let inside: bool = match &self.tokens[i] {
                Token::Literal(c) => *c != '/',
                Token::Any => self.opts.literal_separator,
                Token::ZeroOrMore => self.opts.literal_separator,
                _ => false,
            };
            if !inside {
                assert(!self@.within_component(rest[i - 1]));
                return None;
            }
            i += 1;
        }
        Some(1)
    }

    /// The last component that a path must have, where the pattern says nothing else of it.
    pub fn basename_literal(&self) -> (r: Option<String>)
        ensures
            opt_chars(r) == self@.basename_literal(),
    {
        proof {
            lemma_tokens_view(self.tokens@);
        }
        match self.basename_tokens() {
            None => None,
            Some(k) => {
                proof {
                    let rest = self@.tokens.skip(k as int);
                    assert(self@.tokens.subrange(k as int, self@.tokens.len() as int) =~= rest);
                    assert(Seq::<char>::empty() + literal_text(rest) =~= literal_text(rest));
                }
                literal_range(&self.tokens, k, self.tokens.len(), String::new())
            },
        }
    }

    /// Whether the two patterns have the same text and options.
    pub fn eq_glob(&self, other: &Glob) -> (r: bool)
        ensures
            r == (self@.glob == other@.glob && self@.opts == other@.opts),
    {
        self.glob == other.glob && self.opts == other.opts
    }
}

/// Whether the token is a separator.
fn is_slash(t: &Token) -> (r: bool)
    ensures
        r == (token_view(*t) == TokenView::Literal('/')),
{
    match t {
        Token::Literal(c) => *c == '/',
        _ => false,
    }
}

/// How it is found out whether a pattern matches a path.
#[derive(Debug)]
pub enum MatchStrategy {
    /// The path is this text.
    Literal(String),
    /// The last component of the path is this text.
    BasenameLiteral(String),
    /// The extension of the path is this text.
    Extension(String),
    /// The path begins with this text.
    Prefix(String),
    /// The path ends with this text. Where it must begin a component, the path may also be
    /// this text without the separator that it begins with.
    Suffix { suffix: String, component: bool },
    /// The extension of the path is this text, and the regular expression matches.
    RequiredExtension(String),
    /// The regular expression matches.
    Regex,
}

pub enum StrategyView {
    Literal(Seq<char>),
    BasenameLiteral(Seq<char>),
    Extension(Seq<char>),
    Prefix(Seq<char>),
    Suffix { suffix: Seq<char>, component: bool },
    RequiredExtension(Seq<char>),
    Regex,
}

impl View for MatchStrategy {
    type V = StrategyView;

    open spec fn view(&self) -> StrategyView {
        match self {
            MatchStrategy::Literal(s) => StrategyView::Literal(s@),
            MatchStrategy::BasenameLiteral(s) => StrategyView::BasenameLiteral(s@),
            MatchStrategy::Extension(s) => StrategyView::Extension(s@),
            MatchStrategy::Prefix(s) => StrategyView::Prefix(s@),
            MatchStrategy::Suffix { suffix, component } => StrategyView::Suffix {
                suffix: suffix@,
                component: *component,
            },
            MatchStrategy::RequiredExtension(s) => StrategyView::RequiredExtension(s@),
            MatchStrategy::Regex => StrategyView::Regex,
        }
    }
}

impl GlobView {
    /// The cheapest way to find out whether the pattern matches a path.
    pub open spec fn strategy(self) -> StrategyView {
        if self.basename_literal() is Some {
            StrategyView::BasenameLiteral(self.basename_literal()->0)
        } else if self.literal() is Some {
            StrategyView::Literal(self.literal()->0)
        } else if self.ext() is Some {
            StrategyView::Extension(self.ext()->0)
        } else if self.prefix() is Some {
            StrategyView::Prefix(self.prefix()->0)
        } else if self.suffix() is Some {
            let (suffix, component) = self.suffix()->0;
            StrategyView::Suffix { suffix, component }
        } else if self.required_ext() is Some {
            StrategyView::RequiredExtension(self.required_ext()->0)
        } else {
            StrategyView::Regex
        }
    }
}

impl MatchStrategy {
    /// The cheapest way to find out whether the pattern matches a path.
    pub fn new(pat: &Glob) -> (r: MatchStrategy)
        ensures
            r@ == pat@.strategy(),
    {
        if let Some(s) = pat.basename_literal() {
            MatchStrategy::BasenameLiteral(s)
        } else if let Some(s) = pat.literal() {
            MatchStrategy::Literal(s)
        } else if let Some(s) = pat.ext() {
            MatchStrategy::Extension(s)
        } else if let Some(s) = pat.prefix() {
            MatchStrategy::Prefix(s)
        } else if let Some((suffix, component)) = pat.suffix() {
            MatchStrategy::Suffix { suffix, component }
        } else if let Some(s) = pat.required_ext() {
            MatchStrategy::RequiredExtension(s)
        } else {
            MatchStrategy::Regex
        }
    }
}

/// A suffix that may also be the whole path without its separator begins with a separator.
pub proof fn law_component_suffix_begins_with_a_separator(g: GlobView)
    ensures
        g.suffix() matches Some((text, true)) ==> text.len() > 1 && text[0] == '/',
{
}

/// The literal for the last component of a path has no separator.
pub proof fn law_basename_has_no_separator(g: GlobView)
    ensures
        g.basename_literal() matches Some(text) ==> text.len() > 0 && !text.contains('/'),
{
    if let Some(text) = g.basename_literal() {
        let rest = g.tokens.skip(1);
        assert forall|i: int| 0 <= i < text.len() implies text[i] != '/' by {
            assert(g.within_component(rest[i]));
        }
    }
}

} // verus!
