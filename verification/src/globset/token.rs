//! The parts of a glob pattern.
use vstd::prelude::*;

verus! {

/// A part of a glob pattern.
#[derive(Debug)]
pub enum Token {
    Literal(char),
    /// `?`
    Any,
    /// `*`
    ZeroOrMore,
    /// `**/` at the beginning.
    RecursivePrefix,
    /// `/**` at the end.
    RecursiveSuffix,
    /// `/**/` in the middle.
    RecursiveZeroOrMore,
    /// `[..]`
    Class { negated: bool, ranges: Vec<(char, char)> },
    /// `{..,..}`
    Alternates(Vec<Vec<Token>>),
}

pub enum TokenView {
    Literal(char),
    Any,
    ZeroOrMore,
    RecursivePrefix,
    RecursiveSuffix,
    RecursiveZeroOrMore,
    Class { negated: bool, ranges: Seq<(char, char)> },
    Alternates(Seq<Seq<TokenView>>),
}

/// What a token stands for.
pub open spec fn token_view(t: Token) -> TokenView
    decreases t,
{
    match t {
        Token::Literal(c) => TokenView::Literal(c),
        Token::Any => TokenView::Any,
        Token::ZeroOrMore => TokenView::ZeroOrMore,
        Token::RecursivePrefix => TokenView::RecursivePrefix,
        Token::RecursiveSuffix => TokenView::RecursiveSuffix,
        Token::RecursiveZeroOrMore => TokenView::RecursiveZeroOrMore,
        Token::Class { negated, ranges } => TokenView::Class { negated, ranges: ranges@ },
        Token::Alternates(branches) => TokenView::Alternates(branches_view(branches@)),
    }
}

/// What a list of tokens stands for.
pub open spec fn tokens_view(s: Seq<Token>) -> Seq<TokenView>
    decreases s,
{
    if s.len() == 0 {
        seq![]
    } else {
        tokens_view(s.drop_last()).push(token_view(s.last()))
    }
}

/// What the branches of an alternation stand for.
pub open spec fn branches_view(s: Seq<Vec<Token>>) -> Seq<Seq<TokenView>>
    decreases s,
{
    if s.len() == 0 {
        seq![]
    } else {
        branches_view(s.drop_last()).push(tokens_view(s.last()@))
    }
}

impl View for Token {
    type V = TokenView;

    open spec fn view(&self) -> TokenView {
        token_view(*self)
    }
}

pub proof fn lemma_tokens_view(s: Seq<Token>)
    ensures
        tokens_view(s).len() == s.len(),
        forall|i: int| 0 <= i < s.len() ==> #[trigger] tokens_view(s)[i] == token_view(s[i]),
    decreases s.len(),
{
    if s.len() > 0 {
        lemma_tokens_view(s.drop_last());
        assert forall|i: int| 0 <= i < s.len() implies #[trigger] tokens_view(s)[i] == token_view(
            s[i],
        ) by {
            if i < s.len() - 1 {
                assert(tokens_view(s.drop_last())[i] == token_view(s.drop_last()[i]));
            }
        }
    }
}

pub proof fn lemma_branches_view(s: Seq<Vec<Token>>)
    ensures
        branches_view(s).len() == s.len(),
        forall|i: int| 0 <= i < s.len() ==> #[trigger] branches_view(s)[i] == tokens_view(s[i]@),
    decreases s.len(),
{
    if s.len() > 0 {
        lemma_branches_view(s.drop_last());
        assert forall|i: int| 0 <= i < s.len() implies #[trigger] branches_view(s)[i]
            == tokens_view(s[i]@) by {
            if i < s.len() - 1 {
                assert(branches_view(s.drop_last())[i] == tokens_view(s.drop_last()[i]@));
            }
        }
    }
}

pub proof fn lemma_tokens_push(s: Seq<Token>, t: Token)
    ensures
        tokens_view(s.push(t)) == tokens_view(s).push(token_view(t)),
{
    assert(s.push(t).drop_last() =~= s);
}

pub proof fn lemma_branches_push(s: Seq<Vec<Token>>, b: Vec<Token>)
    ensures
        branches_view(s.push(b)) == branches_view(s).push(tokens_view(b@)),
{
    assert(s.push(b).drop_last() =~= s);
}

/// A copy of a token.
fn copy_token(t: &Token) -> (r: Token)
    ensures
        token_view(r) == token_view(*t),
    decreases t,
{
    match t {
        Token::Literal(c) => Token::Literal(*c),
        Token::Any => Token::Any,
        Token::ZeroOrMore => Token::ZeroOrMore,
        Token::RecursivePrefix => Token::RecursivePrefix,
        Token::RecursiveSuffix => Token::RecursiveSuffix,
        Token::RecursiveZeroOrMore => Token::RecursiveZeroOrMore,
        Token::Class { negated, ranges } => {
            let mut v: Vec<(char, char)> = Vec::new();
            let mut i: usize = 0;
            while i < ranges.len()
                invariant
                    i <= ranges@.len(),
                    v@ == ranges@.take(i as int),
                decreases ranges@.len() - i,
            {
                v.push(ranges[i]);
                assert(v@ =~= ranges@.take(i + 1));
                i += 1;
            }
            assert(v@ =~= ranges@);
            Token::Class { negated: *negated, ranges: v }
        },
        Token::Alternates(branches) => Token::Alternates(copy_branches(branches)),
    }
}

/// A copy of the branches of an alternation.
fn copy_branches(branches: &Vec<Vec<Token>>) -> (r: Vec<Vec<Token>>)
    ensures
        branches_view(r@) == branches_view(branches@),
    decreases branches,
{
    let mut out: Vec<Vec<Token>> = Vec::new();
    let mut i: usize = 0;
    assert(branches@.take(0) =~= Seq::<Vec<Token>>::empty());
    while i < branches.len()
        invariant
            i <= branches@.len(),
            branches_view(out@) == branches_view(branches@.take(i as int)),
        decreases branches@.len() - i,
    {
        assert(decreases_to!(branches => branches@[i as int]));
        let b = copy_tokens(&branches[i]);
        proof {
            lemma_branches_push(out@, b);
            lemma_branches_push(branches@.take(i as int), branches@[i as int]);
            assert(branches@.take(i + 1) =~= branches@.take(i as int).push(branches@[i as int]));
        }
        out.push(b);
        i += 1;
    }
    assert(branches@.take(branches@.len() as int) =~= branches@);
    out
}

/// A copy of tokens.
pub fn copy_tokens(tokens: &Vec<Token>) -> (r: Vec<Token>)
    ensures
        tokens_view(r@) == tokens_view(tokens@),
    decreases tokens,
{
    let mut out: Vec<Token> = Vec::new();
    let mut i: usize = 0;
    assert(tokens@.take(0) =~= Seq::<Token>::empty());
    while i < tokens.len()
        invariant
            i <= tokens@.len(),
            tokens_view(out@) == tokens_view(tokens@.take(i as int)),
        decreases tokens@.len() - i,
    {
        assert(decreases_to!(tokens => tokens@[i as int]));
        let t = copy_token(&tokens[i]);
        proof {
            lemma_tokens_push(out@, t);
            lemma_tokens_push(tokens@.take(i as int), tokens@[i as int]);
            assert(tokens@.take(i + 1) =~= tokens@.take(i as int).push(tokens@[i as int]));
        }
        out.push(t);
        i += 1;
    }
    assert(tokens@.take(tokens@.len() as int) =~= tokens@);
    out
}

} // verus!
