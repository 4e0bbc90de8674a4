//! Reading glob patterns.
use crate::globset::error::{opt_chars, Error, ErrorKind, ErrorKindView};
use crate::globset::token::{branches_view, lemma_branches_push, lemma_branches_view, lemma_tokens_push, lemma_tokens_view, token_view, tokens_view, Token, TokenView};
use crate::text::{char_at, chars_of, lemma_char};
use vstd::prelude::*;

verus! {

/// How a glob pattern is read and matched.
#[derive(Clone, Copy, Debug, PartialEq, Eq, Structural)]
pub struct GlobOptions {
    /// Letters of either case match each other.
    pub case_insensitive: bool,
    /// `*` and `?` do not match `/`.
    pub literal_separator: bool,
    /// `\` escapes the character after it.
    pub backslash_escape: bool,
    /// An empty branch of an alternation matches.
    pub empty_alternates: bool,
    /// A `[` without a `]` stands for itself.
    pub allow_unclosed_class: bool,
}

/// The options that a pattern has where none are given.
pub open spec fn plain_options() -> GlobOptions {
    GlobOptions {
        case_insensitive: false,
        literal_separator: false,
        backslash_escape: true,
        empty_alternates: false,
        allow_unclosed_class: false,
    }
}

impl GlobOptions {
    /// The options that a pattern has where none are given.
    pub fn default_options() -> (r: GlobOptions)
        ensures
            r == plain_options(),
    {
        GlobOptions {
            case_insensitive: false,
            literal_separator: false,
            backslash_escape: true,
            empty_alternates: false,
            allow_unclosed_class: false,
        }
    }
}

/// How far the reading of a pattern has come.
pub struct ParseState {
    /// The position of the next character.
    pub pos: int,
    /// For each open alternation, the number of branches before its first.
    pub stack: Seq<int>,
    /// The branches that are being read. The first is the pattern itself.
    pub branches: Seq<Seq<TokenView>>,
    /// A `[` without a `]` was found.
    pub unclosed: bool,
}

impl ParseState {
    /// The state with a token more in the last branch.
    pub open spec fn with(self, t: TokenView, pos: int) -> ParseState {
        ParseState {
            pos,
            stack: self.stack,
            branches: self.branches.update(
                self.branches.len() - 1,
                self.branches.last().push(t),
            ),
            unclosed: self.unclosed,
        }
    }

    /// The state with another token at the end of the last branch.
    pub open spec fn with_last(self, t: TokenView, pos: int) -> ParseState {
        ParseState {
            pos,
            stack: self.stack,
            branches: self.branches.update(
                self.branches.len() - 1,
                self.branches.last().drop_last().push(t),
            ),
            unclosed: self.unclosed,
        }
    }

    /// The state with one branch more.
    pub open spec fn with_branch(self, pos: int) -> ParseState {
        ParseState {
            pos,
            stack: self.stack,
            branches: self.branches.push(seq![]),
            unclosed: self.unclosed,
        }
    }

    /// There is a branch, and each open alternation has begun after it.
    pub open spec fn wf(self, chars: Seq<char>) -> bool {
        &&& 0 <= self.pos <= chars.len()
        &&& self.branches.len() > 0
        &&& forall|i: int|
            0 <= i < self.stack.len() ==> 0 < #[trigger] self.stack[i] < self.branches.len()
        &&& forall|i: int, j: int|
            0 <= i < j < self.stack.len() ==> #[trigger] self.stack[i] < #[trigger] self.stack[j]
        &&& self.stack.len() == 0 ==> self.branches.len() == 1
        &&& self.stack.len() > 0 ==> self.stack[0] == 1
    }
}

/// What a character class reads as.
pub enum ClassView {
    /// The ranges, and the position after the `]`.
    Closed(Seq<(char, char)>, int),
    Unclosed,
    Invalid(char, char),
}

/// The rest of a character class from `i` on. `first` says that nothing of it was read yet,
/// and `in_range` that the last range waits for its end.
pub open spec fn class_from(
    chars: Seq<char>,
    i: int,
    ranges: Seq<(char, char)>,
    first: bool,
    in_range: bool,
) -> ClassView
    decreases chars.len() - i,
{
    if i >= chars.len() {
        ClassView::Unclosed
    } else {
        let c = chars[i];
        if c == ']' && !first {
            ClassView::Closed(
                if in_range {
                    ranges.push(('-', '-'))
                } else {
                    ranges
                },
                i + 1,
            )
        } else if c == '-' && !first && !in_range {
            class_from(chars, i + 1, ranges, false, true)
        } else if c != ']' && in_range {
            let start = ranges.last().0;
            if c < start {
                ClassView::Invalid(start, c)
            } else {
                class_from(chars, i + 1, ranges.drop_last().push((start, c)), false, false)
            }
        } else {
            class_from(chars, i + 1, ranges.push((c, c)), false, false)
        }
    }
}

/// A `!` or `^` at `i` negates the class.
pub open spec fn negates(chars: Seq<char>, i: int) -> bool {
    i < chars.len() && (chars[i] == '!' || chars[i] == '^')
}

/// The state after the character class that begins at the position of `st`.
pub open spec fn class_step(chars: Seq<char>, opts: GlobOptions, st: ParseState) -> Result<
    ParseState,
    ErrorKindView,
> {
    let negated = negates(chars, st.pos + 1);
    let start = if negated {
        st.pos + 2
    } else {
        st.pos + 1
    };
    match class_from(chars, start, seq![], true, false) {
        ClassView::Closed(ranges, end) => Ok(st.with(TokenView::Class { negated, ranges }, end)),
        ClassView::Invalid(a, b) => Err(ErrorKindView::InvalidRange(a, b)),
        ClassView::Unclosed => if opts.allow_unclosed_class {
            let next = st.with(TokenView::Literal('['), st.pos + 1);
            Ok(
                ParseState {
                    pos: next.pos,
                    stack: next.stack,
                    branches: next.branches,
                    unclosed: true,
                },
            )
        } else {
            Err(ErrorKindView::UnclosedClass)
        },
    }
}

/// The state after the `*` at the position of `st`. Two of them between separators, or at an
/// end of the pattern or of a branch, match any number of directories.
pub open spec fn star_step(chars: Seq<char>, st: ParseState) -> ParseState {
    let p = st.pos;
    let n = chars.len();
    let twice = st.with(TokenView::ZeroOrMore, p + 2).with(TokenView::ZeroOrMore, p + 2);
    if p + 1 >= n || chars[p + 1] != '*' {
        st.with(TokenView::ZeroOrMore, p + 1)
    } else if st.branches.last().len() == 0 {
        if p + 2 >= n {
            st.with(TokenView::RecursivePrefix, p + 2)
        } else if chars[p + 2] == '/' {
            st.with(TokenView::RecursivePrefix, p + 3)
        } else {
            twice
        }
    } else if !(p > 0 && chars[p - 1] == '/') && (st.branches.len() <= 1 || !(p > 0 && (chars[p - 1]
        == ',' || chars[p - 1] == '{'))) {
        twice
    } else {
        let at_end = p + 2 >= n || ((chars[p + 2] == ',' || chars[p + 2] == '}')
            && st.branches.len() >= 2);
        if !at_end && chars[p + 2] != '/' {
            twice
        } else {
            let next = if at_end {
                p + 2
            } else {
                p + 3
            };
            match st.branches.last().last() {
                TokenView::RecursivePrefix => st.with_last(TokenView::RecursivePrefix, next),
                TokenView::RecursiveSuffix => st.with_last(TokenView::RecursiveSuffix, next),
                _ => if at_end {
                    st.with_last(TokenView::RecursiveSuffix, next)
                } else {
                    st.with_last(TokenView::RecursiveZeroOrMore, next)
                },
            }
        }
    }
}

/// The state after the next character, and after those that belong to it.
pub open spec fn step(chars: Seq<char>, opts: GlobOptions, st: ParseState) -> Result<
    ParseState,
    ErrorKindView,
> {
    let c = chars[st.pos];
    let next = st.pos + 1;
    if c == '?' {
        Ok(st.with(TokenView::Any, next))
    } else if c == '*' {
        Ok(star_step(chars, st))
    } else if c == '[' && !st.unclosed {
        class_step(chars, opts, st)
    } else if c == '{' {
        Ok(
            ParseState {
                pos: next,
                stack: st.stack.push(st.branches.len() as int),
                branches: st.branches.push(seq![]),
                unclosed: st.unclosed,
            },
        )
    } else if c == '}' {
        if st.stack.len() == 0 {
            Err(ErrorKindView::UnopenedAlternates)
        } else {
            let start = st.stack.last();
            let outer = ParseState {
                pos: next,
                stack: st.stack.drop_last(),
                branches: st.branches.take(start),
                unclosed: st.unclosed,
            };
            Ok(outer.with(TokenView::Alternates(st.branches.skip(start)), next))
        }
    } else if c == ',' && st.stack.len() > 0 {
        Ok(st.with_branch(next))
    } else if c == '\\' && opts.backslash_escape {
        if next >= chars.len() {
            Err(ErrorKindView::DanglingEscape)
        } else {
            Ok(st.with(TokenView::Literal(chars[next]), next + 1))
        }
    } else {
        Ok(st.with(TokenView::Literal(c), next))
    }
}

pub proof fn lemma_class_from(
    chars: Seq<char>,
    i: int,
    ranges: Seq<(char, char)>,
    first: bool,
    in_range: bool,
)
    requires
        0 <= i <= chars.len(),
    ensures
        class_from(chars, i, ranges, first, in_range) matches ClassView::Closed(_, end) ==> i < end
            <= chars.len(),
    decreases chars.len() - i,
{
    if i < chars.len() {
        let c = chars[i];
        if c == ']' && !first {
        } else if c == '-' && !first && !in_range {
            lemma_class_from(chars, i + 1, ranges, false, true);
        } else if c != ']' && in_range {
            let start = ranges.last().0;
            lemma_class_from(chars, i + 1, ranges.drop_last().push((start, c)), false, false);
        } else {
            lemma_class_from(chars, i + 1, ranges.push((c, c)), false, false);
        }
    }
}

pub proof fn lemma_step(chars: Seq<char>, opts: GlobOptions, st: ParseState)
    requires
        st.wf(chars),
        st.pos < chars.len(),
    ensures
        step(chars, opts, st) matches Ok(next) ==> next.wf(chars) && st.pos < next.pos,
{
    let c = lemma_char(chars, st.pos);
    let escaped = lemma_char(chars, st.pos + 1);
    let start = if negates(chars, st.pos + 1) {
        st.pos + 2
    } else {
        st.pos + 1
    };
    if c == '[' {
        lemma_class_from(chars, start, seq![], true, false);
    }
    if c == '}' && st.stack.len() > 0 {
        let first = st.stack.last();
        assert(0 < first < st.branches.len());
        let stack = st.stack.drop_last();
        assert forall|i: int| 0 <= i < stack.len() implies 0 < #[trigger] stack[i] < first by {
            assert(stack[i] == st.stack[i]);
            assert(st.stack[i] < st.stack[st.stack.len() - 1]);
        }
    }
}

/// The branches that the rest of the pattern leaves.
pub open spec fn parse_from(chars: Seq<char>, opts: GlobOptions, st: ParseState) -> Result<
    Seq<Seq<TokenView>>,
    ErrorKindView,
>
    decreases chars.len() - st.pos,
    when st.wf(chars)
{
    if st.pos >= chars.len() {
        Ok(st.branches)
    } else {
        proof {
            lemma_step(chars, opts, st);
        }
        match step(chars, opts, st) {
            Ok(next) => parse_from(chars, opts, next),
            Err(e) => Err(e),
        }
    }
}

/// The state before the first character.
pub open spec fn start_state() -> ParseState {
    ParseState { pos: 0, stack: seq![], branches: seq![seq![]], unclosed: false }
}

/// The tokens of a pattern.
pub open spec fn parsed(chars: Seq<char>, opts: GlobOptions) -> Result<
    Seq<TokenView>,
    ErrorKindView,
> {
    match parse_from(chars, opts, start_state()) {
        Ok(branches) => if branches.len() > 1 {
            Err(ErrorKindView::UnclosedAlternates)
        } else {
            Ok(branches[0])
        },
        Err(e) => Err(e),
    }
}

/// A pattern that is being read.
struct Parser {
    chars: Vec<char>,
    pos: usize,
    stack: Vec<usize>,
    branches: Vec<Vec<Token>>,
    unclosed: bool,
    opts: GlobOptions,
}

impl Parser {
    spec fn state(self) -> ParseState {
        ParseState {
            pos: self.pos as int,
            stack: self.stack@.map_values(|x: usize| x as int),
            branches: branches_view(self.branches@),
            unclosed: self.unclosed,
        }
    }

    spec fn wf(self) -> bool {
        self.state().wf(self.chars@)
    }

    /// Adds a token to the last branch, and goes on at `pos`.
    fn push_token(&mut self, t: Token, pos: usize)
        requires
            old(self).wf(),
            pos <= old(self).chars@.len(),
        ensures
            final(self).wf(),
            final(self).chars@ == old(self).chars@,
            final(self).opts == old(self).opts,
            final(self).state() == old(self).state().with(token_view(t), pos as int),
    {
        let ghost before = self.branches@;
        let ghost v = token_view(t);
        proof {
            lemma_branches_view(before);
        }
        let n: usize = self.branches.len();
        let last = &mut self.branches[n - 1];
        proof {
            lemma_tokens_push(last@, t);
        }
        last.push(t);
        self.pos = pos;
        proof {
            lemma_branches_view(self.branches@);
            assert(self.branches@[n - 1]@ == before[n - 1]@.push(t));
            assert(branches_view(self.branches@) =~= branches_view(before).update(
                n - 1,
                branches_view(before).last().push(v),
            ));
        }
    }

    /// Takes the last token of the last branch away.
    fn pop_token(&mut self) -> (r: Option<Token>)
        requires
            old(self).wf(),
            old(self).state().branches.last().len() > 0,
        ensures
            final(self).wf(),
            final(self).chars@ == old(self).chars@,
            final(self).opts == old(self).opts,
            r matches Some(t) && token_view(t) == old(self).state().branches.last().last(),
            final(self).state() == (ParseState {
                pos: old(self).state().pos,
                stack: old(self).state().stack,
                branches: old(self).state().branches.update(
                    old(self).state().branches.len() - 1,
                    old(self).state().branches.last().drop_last(),
                ),
                unclosed: old(self).state().unclosed,
            }),
    {
        let ghost before = self.branches@;
        proof {
            lemma_branches_view(before);
        }
        let n: usize = self.branches.len();
        let last = &mut self.branches[n - 1];
        proof {
            lemma_tokens_view(last@);
        }
        let t = last.pop();
        proof {
            lemma_branches_view(self.branches@);
            assert(self.branches@[n - 1]@ =~= before[n - 1]@.drop_last());
            assert(tokens_view(before[n - 1]@).drop_last() =~= tokens_view(
                before[n - 1]@.drop_last(),
            ));
            assert(branches_view(self.branches@) =~= branches_view(before).update(
                n - 1,
                branches_view(before).last().drop_last(),
            ));
        }
        t
    }

    /// Begins an alternation.
    fn push_alternate(&mut self)
        requires
            old(self).wf(),
            old(self).pos < old(self).chars@.len(),
        ensures
            final(self).wf(),
            final(self).chars@ == old(self).chars@,
            final(self).opts == old(self).opts,
            final(self).state() == (ParseState {
                pos: old(self).pos + 1,
                stack: old(self).state().stack.push(old(self).state().branches.len() as int),
                branches: old(self).state().branches.push(seq![]),
                unclosed: old(self).unclosed,
            }),
    {
        let ghost before = self.state();
        let empty: Vec<Token> = Vec::new();
        proof {
            lemma_branches_view(self.branches@);
            lemma_branches_push(self.branches@, empty);
            assert(tokens_view(empty@) =~= seq![]);
        }
        self.stack.push(self.branches.len());
        assert(self.stack@.map_values(|x: usize| x as int) =~= before.stack.push(
            before.branches.len() as int,
        ));
        self.branches.push(empty);
        let len: usize = self.chars.len();
        self.pos = self.pos + 1;
    }

    /// Ends an alternation.
    fn pop_alternate(&mut self) -> (r: bool)
        requires
            old(self).wf(),
            old(self).pos < old(self).chars@.len(),
            old(self).chars@[old(self).pos as int] == '}',
        ensures
            final(self).chars@ == old(self).chars@,
            final(self).opts == old(self).opts,
            match step(old(self).chars@, old(self).opts, old(self).state()) {
                Ok(next) => r && final(self).wf() && final(self).state() == next,
                Err(e) => !r && e is UnopenedAlternates,
            },
    {
        let ghost before = *self;
        proof {
            lemma_step(self.chars@, self.opts, self.state());
            lemma_branches_view(self.branches@);
        }
        let start: usize = match self.stack.pop() {
            Some(start) => start,
            None => {
                return false;
            },
        };
        proof {
            assert(before.state().stack.last() == start);
            assert(self.stack@.map_values(|x: usize| x as int)
                =~= before.state().stack.drop_last());
        }
        let alternates = self.branches.split_off(start);
        proof {
            lemma_branches_view(alternates@);
            lemma_branches_view(self.branches@);
            assert(branches_view(alternates@) =~= before.state().branches.skip(start as int));
            assert(branches_view(self.branches@) =~= before.state().branches.take(start as int));
        }
        let len: usize = self.chars.len();
        let pos: usize = self.pos + 1;
        proof {
            let st = before.state();
            assert forall|i: int| 0 <= i < self.state().stack.len() implies 0
                < #[trigger] self.state().stack[i] < start by {
                assert(st.stack[i] < st.stack[st.stack.len() - 1]);
            }
        }
        self.push_token(Token::Alternates(alternates), pos);
        true
    }

    /// A comma begins a branch inside an alternation.
    fn parse_comma(&mut self)
        requires
            old(self).wf(),
            old(self).pos < old(self).chars@.len(),
            old(self).chars@[old(self).pos as int] == ',',
        ensures
            final(self).wf(),
            final(self).chars@ == old(self).chars@,
            final(self).opts == old(self).opts,
            step(old(self).chars@, old(self).opts, old(self).state()) == Ok::<
                ParseState,
                ErrorKindView,
            >(final(self).state()),
    {
        let len: usize = self.chars.len();
        if self.stack.len() == 0 {
            self.push_token(Token::Literal(','), self.pos + 1);
        } else {
            let ghost before = self.state();
            let empty: Vec<Token> = Vec::new();
            proof {
                lemma_branches_view(self.branches@);
                lemma_branches_push(self.branches@, empty);
                assert(tokens_view(empty@) =~= seq![]);
            }
            self.branches.push(empty);
            self.pos = self.pos + 1;
            assert(self.state() == before.with_branch(before.pos + 1));
        }
    }

    /// A backslash stands for the character after it, or for itself.
    fn parse_backslash(&mut self) -> (r: bool)
        requires
            old(self).wf(),
            old(self).pos < old(self).chars@.len(),
            old(self).chars@[old(self).pos as int] == '\\',
        ensures
            final(self).chars@ == old(self).chars@,
            final(self).opts == old(self).opts,
            match step(old(self).chars@, old(self).opts, old(self).state()) {
                Ok(next) => r && final(self).wf() && final(self).state() == next,
                Err(e) => !r && e is DanglingEscape,
            },
    {
        let len: usize = self.chars.len();
        let next: usize = self.pos + 1;
        if self.opts.backslash_escape {
            if next >= len {
                return false;
            }
            let c: char = char_at(&self.chars, next);
            self.push_token(Token::Literal(c), next + 1);
        } else {
            self.push_token(Token::Literal('\\'), next);
        }
        true
    }

    /// A `*`, or two of them.
    fn parse_star(&mut self)
        requires
            old(self).wf(),
            old(self).pos < old(self).chars@.len(),
        ensures
            final(self).wf(),
            final(self).chars@ == old(self).chars@,
            final(self).opts == old(self).opts,
            final(self).state() == star_step(old(self).chars@, old(self).state()),
    {
        let p: usize = self.pos;
        let n: usize = self.chars.len();
        let ghost st = self.state();
        if p + 1 >= n || self.chars[p + 1] != '*' {
            self.push_token(Token::ZeroOrMore, p + 1);
            return;
        }
        proof {
            lemma_branches_view(self.branches@);
            lemma_tokens_view(self.branches@.last()@);
        }
        let count: usize = self.branches.len();
        let empty: bool = self.branches[count - 1].len() == 0;
        if empty {
            if p + 2 >= n {
                self.push_token(Token::RecursivePrefix, p + 2);
            } else if self.chars[p + 2] == '/' {
                self.push_token(Token::RecursivePrefix, p + 3);
            } else {
                self.push_token(Token::ZeroOrMore, p + 2);
                self.push_token(Token::ZeroOrMore, p + 2);
            }
            return;
        }
        let after_separator: bool = p > 0 && self.chars[p - 1] == '/';
        let after_branch: bool = p > 0 && (self.chars[p - 1] == ',' || self.chars[p - 1] == '{');
        if !after_separator && (count <= 1 || !after_branch) {
            self.push_token(Token::ZeroOrMore, p + 2);
            self.push_token(Token::ZeroOrMore, p + 2);
            return;
        }
        let is_suffix: bool = p + 2 >= n || ((self.chars[p + 2] == ',' || self.chars[p + 2] == '}')
            && count >= 2);
        if !is_suffix && self.chars[p + 2] != '/' {
            self.push_token(Token::ZeroOrMore, p + 2);
            self.push_token(Token::ZeroOrMore, p + 2);
            return;
        }
        let next: usize = if is_suffix {
            p + 2
        } else {
            p + 3
        };
        let ghost b = st.branches.len() - 1;
        let popped = self.pop_token();
        let t: Token = match popped {
            Some(Token::RecursivePrefix) => Token::RecursivePrefix,
            Some(Token::RecursiveSuffix) => Token::RecursiveSuffix,
            _ => if is_suffix {
                Token::RecursiveSuffix
            } else {
                Token::RecursiveZeroOrMore
            },
        };
        self.push_token(t, next);
        assert(self.state().branches =~= st.with_last(token_view(t), next as int).branches);
    }

    /// A character class.
    fn parse_class(&mut self) -> (r: Result<(), ErrorKind>)
        requires
            old(self).wf(),
            old(self).pos < old(self).chars@.len(),
        ensures
            final(self).chars@ == old(self).chars@,
            final(self).opts == old(self).opts,
            match class_step(old(self).chars@, old(self).opts, old(self).state()) {
                Ok(next) => r is Ok && final(self).wf() && final(self).state() == next,
                Err(e) => r matches Err(k) && k@ == e,
            },
    {
        let n: usize = self.chars.len();
        let negated: bool = self.pos + 1 < n && (self.chars[self.pos + 1] == '!' || self.chars[
        self.pos + 1] == '^');
        let start: usize = if negated {
            self.pos + 2
        } else {
            self.pos + 1
        };
        let mut i: usize = start;
        let mut ranges: Vec<(char, char)> = Vec::new();
        let mut first = true;
        let mut in_range = false;
        let ghost goal = class_from(self.chars@, start as int, seq![], true, false);
        assert(ranges@ =~= seq![]);
        loop
            invariant_except_break
                *self == *old(self),
                self.wf(),
                n == self.chars@.len(),
                start <= i <= n,
                self.pos < n,
                negated == negates(self.chars@, self.pos + 1),
                start == (if negated {
                    self.pos + 2
                } else {
                    self.pos + 1
                }),
                goal == class_from(self.chars@, start as int, seq![], true, false),
                goal == class_from(self.chars@, i as int, ranges@, first, in_range),
                !first ==> ranges@.len() > 0,
                first ==> !in_range,
            ensures
                *self == *old(self),
                self.wf(),
                n == self.chars@.len(),
                self.pos < n,
                i <= n,
                negated == negates(self.chars@, self.pos + 1),
                start == (if negated {
                    self.pos + 2
                } else {
                    self.pos + 1
                }),
                goal == class_from(self.chars@, start as int, seq![], true, false),
                goal == ClassView::Closed(
                    if in_range {
                        ranges@.push(('-', '-'))
                    } else {
                        ranges@
                    },
                    i as int,
                ),
            decreases n - i,
        {
            if i >= n {
                if self.opts.allow_unclosed_class {
                    self.push_token(Token::Literal('['), self.pos + 1);
                    self.unclosed = true;
                    return Ok(());
                }
                return Err(ErrorKind::UnclosedClass);
            }
            let c: char = char_at(&self.chars, i);
            i += 1;
            if c == ']' && !first {
                break;
            }
            if c == '-' && !first && !in_range {
                in_range = true;
            } else if c != ']' && in_range {
                let k: usize = ranges.len() - 1;
                let a: char = ranges[k].0;
                if c < a {
                    return Err(ErrorKind::InvalidRange(a, c));
                }
                let ghost was = ranges@;
                ranges.set(k, (a, c));
                assert(ranges@ =~= was.drop_last().push((a, c)));
                in_range = false;
            } else {
                ranges.push((c, c));
                in_range = false;
            }
            first = false;
        }
        if in_range {
            ranges.push(('-', '-'));
        }
        self.push_token(Token::Class { negated, ranges }, i);
        Ok(())
    }

    /// Reads the pattern to its end.
    fn parse(&mut self) -> (r: Result<(), ErrorKind>)
        requires
            old(self).wf(),
        ensures
            final(self).chars@ == old(self).chars@,
            final(self).opts == old(self).opts,
            match parse_from(old(self).chars@, old(self).opts, old(self).state()) {
                Ok(branches) => r is Ok && final(self).wf() && branches_view(final(self).branches@)
                    == branches,
                Err(e) => r matches Err(k) && k@ == e,
            },
    {
        let ghost chars = self.chars@;
        let ghost opts = self.opts;
        let ghost goal = parse_from(chars, opts, self.state());
        while self.pos < self.chars.len()
            invariant
                self.wf(),
                self.chars@ == chars,
                self.opts == opts,
                goal == parse_from(chars, opts, self.state()),
                chars == old(self).chars@,
                opts == old(self).opts,
                goal == parse_from(old(self).chars@, old(self).opts, old(self).state()),
            decreases chars.len() - self.pos,
        {
            let c: char = char_at(&self.chars, self.pos);
            let next: usize = self.pos + 1;
            proof {
                lemma_step(chars, opts, self.state());
            }
            if c == '?' {
                self.push_token(Token::Any, next);
            } else if c == '*' {
                self.parse_star();
            } else if c == '[' && !self.unclosed {
                match self.parse_class() {
                    Ok(_) => {},
                    Err(e) => {
                        return Err(e);
                    },
                }
            } else if c == '{' {
                self.push_alternate();
            } else if c == '}' {
                if !self.pop_alternate() {
                    return Err(ErrorKind::UnopenedAlternates);
                }
            } else if c == ',' {
                self.parse_comma();
            } else if c == '\\' {
                if !self.parse_backslash() {
                    return Err(ErrorKind::DanglingEscape);
                }
            } else {
                self.push_token(Token::Literal(c), next);
            }
        }
        Ok(())
    }
}

/// The tokens of a pattern.
pub fn parse_tokens(glob: &str, opts: GlobOptions) -> (r: Result<Vec<Token>, Error>)
    ensures
        match parsed(glob@, opts) {
            Ok(tokens) => r matches Ok(t) && tokens_view(t@) == tokens,
            Err(e) => r matches Err(x) && x.kind@ == e && opt_chars(x.glob) == Some(glob@),
        },
{
    let mut branches: Vec<Vec<Token>> = Vec::new();
    let empty: Vec<Token> = Vec::new();
    proof {
        lemma_branches_push(branches@, empty);
        assert(tokens_view(empty@) =~= seq![]);
        assert(branches_view(branches@) =~= seq![]);
    }
    branches.push(empty);
    let mut p = Parser {
        chars: chars_of(glob),
        pos: 0,
        stack: Vec::new(),
        branches,
        unclosed: false,
        opts,
    };
    proof {
        assert(p.state().stack =~= seq![]);
        assert(p.state().branches =~= seq![seq![]]);
    }
    match p.parse() {
        Ok(_) => {},
        Err(kind) => {
            return Err(Error { glob: Some(glob.to_owned()), kind });
        },
    }
    proof {
        lemma_branches_view(p.branches@);
    }
    if p.branches.len() > 1 {
        return Err(Error { glob: Some(glob.to_owned()), kind: ErrorKind::UnclosedAlternates });
    }
    Ok(p.branches.swap_remove(0))
}

} // verus!
