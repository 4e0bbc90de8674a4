//! The regular expressions that glob patterns stand for.
use crate::globset::parse::GlobOptions;
use crate::globset::token::{branches_view, lemma_branches_view, lemma_tokens_view, token_view, tokens_view, Token, TokenView};
use vstd::prelude::*;
use vstd::utf8::encode_utf8;

verus! {

/// The character has a meaning of its own in a regular expression.
pub open spec fn meta(c: char) -> bool {
    c == '\\' || c == '.' || c == '+' || c == '*' || c == '?' || c == '(' || c == ')' || c == '|'
        || c == '[' || c == ']' || c == '{' || c == '}' || c == '^' || c == '$' || c == '#' || c
        == '&' || c == '-' || c == '~'
}

/// The text with a backslash before each character that has a meaning of its own.
pub open spec fn escaped_text(s: Seq<char>) -> Seq<char>
    decreases s.len(),
{
    if s.len() == 0 {
        seq![]
    } else {
        let rest = escaped_text(s.drop_last());
        if meta(s.last()) {
            rest.push('\\').push(s.last())
        } else {
            rest.push(s.last())
        }
    }
}

/// `regex_syntax::escape_into` appends its first argument to the second, with a backslash
/// before each character for which `regex_syntax::is_meta_character` is true.
#[verifier::external_body]
fn escape_into(text: &str, buf: &mut String)
    ensures
        final(buf)@ == old(buf)@ + escaped_text(text@),
{
    regex_syntax::escape_into(text, buf)
}

/// The hexadecimal digit for `n`.
pub open spec fn hex_char(n: int) -> char {
    if n == 0 {
        '0'
    } else if n == 1 {
        '1'
    } else if n == 2 {
        '2'
    } else if n == 3 {
        '3'
    } else if n == 4 {
        '4'
    } else if n == 5 {
        '5'
    } else if n == 6 {
        '6'
    } else if n == 7 {
        '7'
    } else if n == 8 {
        '8'
    } else if n == 9 {
        '9'
    } else if n == 10 {
        'a'
    } else if n == 11 {
        'b'
    } else if n == 12 {
        'c'
    } else if n == 13 {
        'd'
    } else if n == 14 {
        'e'
    } else {
        'f'
    }
}

/// The hexadecimal digit for `n`.
fn hex_digit_char(n: u8) -> (r: char)
    requires
        n < 16,
    ensures
        r == hex_char(n as int),
{
    if n < 10 {
        if n == 0 {
            '0'
        } else if n == 1 {
            '1'
        } else if n == 2 {
            '2'
        } else if n == 3 {
            '3'
        } else if n == 4 {
            '4'
        } else if n == 5 {
            '5'
        } else if n == 6 {
            '6'
        } else if n == 7 {
            '7'
        } else if n == 8 {
            '8'
        } else {
            '9'
        }
    } else if n == 10 {
        'a'
    } else if n == 11 {
        'b'
    } else if n == 12 {
        'c'
    } else if n == 13 {
        'd'
    } else if n == 14 {
        'e'
    } else {
        'f'
    }
}

/// The expression that matches a byte: an escaped character, or `\x` and two digits.
pub open spec fn byte_regex(b: u8) -> Seq<char> {
    if b <= 0x7f {
        escaped_text(seq![b as char])
    } else {
        seq!['\\', 'x', hex_char(b as int / 16), hex_char(b as int % 16)]
    }
}

/// The expression that matches the bytes one after the other.
pub open spec fn bytes_regex(s: Seq<u8>) -> Seq<char>
    decreases s.len(),
{
    if s.len() == 0 {
        seq![]
    } else {
        bytes_regex(s.drop_last()) + byte_regex(s.last())
    }
}

/// The expression that matches a character: the bytes of its encoding.
pub open spec fn char_regex(c: char) -> Seq<char> {
    bytes_regex(encode_utf8(seq![c]))
}

/// Appends the expression that matches the bytes one after the other.
fn bytes_to_escaped_literal(bs: &[u8], re: &mut String)
    ensures
        final(re)@ == old(re)@ + bytes_regex(bs@),
{
    let ghost before = re@;
    let mut i: usize = 0;
    assert(bs@.take(0) =~= seq![]);
    assert(before + bytes_regex(bs@.take(0)) =~= before);
    while i < bs.len()
        invariant
            i <= bs@.len(),
            re@ == before + bytes_regex(bs@.take(i as int)),
        decreases bs@.len() - i,
    {
        let b: u8 = bs[i];
        let ghost done = re@;
        if b <= 0x7f {
            let mut s = String::new();
            s.push(b as char);
            assert(s@ =~= seq![b as char]);
            escape_into(s.as_str(), re);
        } else {
            re.push('\\');
            re.push('x');
            re.push(hex_digit_char(b / 16));
            re.push(hex_digit_char(b % 16));
        }
        assert(re@ =~= done + byte_regex(b));
        assert(bs@.take(i + 1).drop_last() =~= bs@.take(i as int));
        assert((before + bytes_regex(bs@.take(i as int))) + byte_regex(b) =~= before + (bytes_regex(
            bs@.take(i as int),
        ) + byte_regex(b)));
        i += 1;
    }
    assert(bs@.take(bs@.len() as int) =~= bs@);
}

/// Appends the expression that matches a character.
fn char_to_escaped_literal(c: char, re: &mut String)
    ensures
        final(re)@ == old(re)@ + char_regex(c),
{
    let mut s = String::new();
    s.push(c);
    assert(s@ =~= seq![c]);
    bytes_to_escaped_literal(s.as_str().as_bytes(), re);
}

/// The expression for a range of a character class.
pub open spec fn range_regex(r: (char, char)) -> Seq<char> {
    if r.0 == r.1 {
        char_regex(r.0)
    } else {
        char_regex(r.0) + seq!['-'] + char_regex(r.1)
    }
}

/// The expressions for the ranges of a character class.
pub open spec fn ranges_regex(rs: Seq<(char, char)>) -> Seq<char>
    decreases rs.len(),
{
    if rs.len() == 0 {
        seq![]
    } else {
        ranges_regex(rs.drop_last()) + range_regex(rs.last())
    }
}

/// The texts with `|` between them.
pub open spec fn joined_parts(parts: Seq<Seq<char>>) -> Seq<char>
    decreases parts.len(),
{
    if parts.len() == 0 {
        seq![]
    } else if parts.len() == 1 {
        parts[0]
    } else {
        joined_parts(parts.drop_last()) + seq!['|'] + parts.last()
    }
}

/// The expression for a token.
pub open spec fn token_regex(t: TokenView, opts: GlobOptions) -> Seq<char>
    decreases t,
{
    match t {
        TokenView::Literal(c) => char_regex(c),
        TokenView::Any => if opts.literal_separator {
            "[^/]"@
        } else {
            "."@
        },
        TokenView::ZeroOrMore => if opts.literal_separator {
            "[^/]*"@
        } else {
            ".*"@
        },
        TokenView::RecursivePrefix => "(?:/?|.*/)"@,
        TokenView::RecursiveSuffix => "/.*"@,
        TokenView::RecursiveZeroOrMore => "(?:/|/.*/)"@,
        TokenView::Class { negated, ranges } => seq!['['] + (if negated {
            seq!['^']
        } else {
            seq![]
        }) + ranges_regex(ranges) + seq![']'],
        TokenView::Alternates(branches) => {
            let parts = branch_parts(branches, opts);
            if parts.len() == 0 {
                seq![]
            } else {
                "(?:"@ + joined_parts(parts) + seq![')']
            }
        },
    }
}

/// The expression for tokens one after the other.
pub open spec fn tokens_regex(ts: Seq<TokenView>, opts: GlobOptions) -> Seq<char>
    decreases ts,
{
    if ts.len() == 0 {
        seq![]
    } else {
        tokens_regex(ts.drop_last(), opts) + token_regex(ts.last(), opts)
    }
}

/// The expressions for the branches of an alternation. Those that are empty are left out,
/// unless the options keep them.
pub open spec fn branch_parts(branches: Seq<Seq<TokenView>>, opts: GlobOptions) -> Seq<Seq<char>>
    decreases branches,
{
    if branches.len() == 0 {
        seq![]
    } else {
        let rest = branch_parts(branches.drop_last(), opts);
        let re = tokens_regex(branches.last(), opts);
        if re.len() > 0 || opts.empty_alternates {
            rest.push(re)
        } else {
            rest
        }
    }
}

/// The regular expression for a pattern. `**` alone matches everything.
pub open spec fn glob_regex(ts: Seq<TokenView>, opts: GlobOptions) -> Seq<char> {
    "(?-u)"@ + (if opts.case_insensitive {
        "(?i)"@
    } else {
        seq![]
    }) + seq!['^'] + (if ts.len() == 1 && ts[0] is RecursivePrefix {
        ".*"@
    } else {
        tokens_regex(ts, opts)
    }) + seq!['$']
}

/// Appends the expressions for the ranges of a character class.
fn ranges_to_regex(ranges: &Vec<(char, char)>, re: &mut String)
    ensures
        final(re)@ == old(re)@ + ranges_regex(ranges@),
{
    let ghost before = re@;
    let mut i: usize = 0;
    assert(ranges@.take(0) =~= seq![]);
    assert(before + ranges_regex(ranges@.take(0)) =~= before);
    while i < ranges.len()
        invariant
            i <= ranges@.len(),
            re@ == before + ranges_regex(ranges@.take(i as int)),
        decreases ranges@.len() - i,
    {
        let ghost done = re@;
        let (a, b) = ranges[i];
        char_to_escaped_literal(a, re);
        if a != b {
            re.push('-');
            char_to_escaped_literal(b, re);
        }
        assert(re@ =~= done + range_regex((a, b)));
        assert(ranges@.take(i + 1).drop_last() =~= ranges@.take(i as int));
        assert((before + ranges_regex(ranges@.take(i as int))) + range_regex((a, b)) =~= before + (
        ranges_regex(ranges@.take(i as int)) + range_regex((a, b))));
        i += 1;
    }
    assert(ranges@.take(ranges@.len() as int) =~= ranges@);
}

/// Appends the expression for a token.
fn token_to_regex(t: &Token, opts: GlobOptions, re: &mut String)
    ensures
        final(re)@ == old(re)@ + token_regex(token_view(*t), opts),
    decreases t,
{
    let ghost before = re@;
    match t {
        Token::Literal(c) => char_to_escaped_literal(*c, re),
        Token::Any => if opts.literal_separator {
            re.push_str("[^/]")
        } else {
            re.push_str(".")
        },
        Token::ZeroOrMore => if opts.literal_separator {
            re.push_str("[^/]*")
        } else {
            re.push_str(".*")
        },
        Token::RecursivePrefix => re.push_str("(?:/?|.*/)"),
        Token::RecursiveSuffix => re.push_str("/.*"),
        Token::RecursiveZeroOrMore => re.push_str("(?:/|/.*/)"),
        Token::Class { negated, ranges } => {
            re.push('[');
            if *negated {
                re.push('^');
            }
            ranges_to_regex(ranges, re);
            re.push(']');
            assert(re@ =~= before + token_regex(token_view(*t), opts));
        },
        Token::Alternates(branches) => {
            branches_to_regex(branches, opts, re);
        },
    }
}

/// Appends the expression for tokens one after the other.
fn tokens_to_regex(tokens: &Vec<Token>, opts: GlobOptions, re: &mut String)
    ensures
        final(re)@ == old(re)@ + tokens_regex(tokens_view(tokens@), opts),
    decreases tokens,
{
    let ghost before = re@;
    let ghost views = tokens_view(tokens@);
    proof {
        lemma_tokens_view(tokens@);
        assert(views.take(0) =~= seq![]);
        assert(before + tokens_regex(views.take(0), opts) =~= before);
    }
    let mut i: usize = 0;
    while i < tokens.len()
        invariant
            i <= tokens@.len(),
            views == tokens_view(tokens@),
            views.len() == tokens@.len(),
            forall|k: int| 0 <= k < tokens@.len() ==> #[trigger] views[k] == token_view(tokens@[k]),
            re@ == before + tokens_regex(views.take(i as int), opts),
        decreases tokens@.len() - i,
    {
        let ghost done = re@;
        assert(decreases_to!(tokens => tokens@[i as int]));
        token_to_regex(&tokens[i], opts, re);
        proof {
            let t = views[i as int];
            assert(views.take(i + 1).drop_last() =~= views.take(i as int));
            assert((before + tokens_regex(views.take(i as int), opts)) + token_regex(t, opts)
                =~= before + (tokens_regex(views.take(i as int), opts) + token_regex(t, opts)));
        }
        i += 1;
    }
    assert(views.take(views.len() as int) =~= views);
}

/// Appends the expression for an alternation.
fn branches_to_regex(branches: &Vec<Vec<Token>>, opts: GlobOptions, re: &mut String)
    ensures
        final(re)@ == old(re)@ + token_regex(
            TokenView::Alternates(branches_view(branches@)),
            opts,
        ),
    decreases branches,
{
    let ghost before = re@;
    let ghost views = branches_view(branches@);
    proof {
        lemma_branches_view(branches@);
        assert(views.take(0) =~= seq![]);
    }
    let mut found = false;
    let mut i: usize = 0;
    while i < branches.len()
        invariant
            i <= branches@.len(),
            views == branches_view(branches@),
            views.len() == branches@.len(),
            forall|k: int|
                0 <= k < branches@.len() ==> #[trigger] views[k] == tokens_view(branches@[k]@),
            found == (branch_parts(views.take(i as int), opts).len() > 0),
            re@ == before + (if found {
                "(?:"@ + joined_parts(branch_parts(views.take(i as int), opts))
            } else {
                seq![]
            }),
        decreases branches@.len() - i,
    {
        let ghost done = re@;
        let ghost parts = branch_parts(views.take(i as int), opts);
        assert(decreases_to!(branches => branches@[i as int]));
        let mut part = String::new();
        tokens_to_regex(&branches[i], opts, &mut part);
        proof {
            assert(views.take(i + 1).drop_last() =~= views.take(i as int));
            assert(part@ =~= tokens_regex(views[i as int], opts));
        }
        let empty: bool = part.as_str().is_empty();
        assert(empty == (part@.len() == 0)) by {
            lemma_empty_encoding(part@);
        }
        if !empty || opts.empty_alternates {
            if found {
                re.push('|');
            } else {
                re.push_str("(?:");
            }
            re.push_str(part.as_str());
            proof {
                let more = parts.push(part@);
                assert(more.drop_last() =~= parts);
                assert(re@ =~= before + ("(?:"@ + joined_parts(more)));
            }
            found = true;
        }
        i += 1;
    }
    assert(views.take(views.len() as int) =~= views);
    if found {
        re.push(')');
    }
    assert(re@ =~= before + token_regex(TokenView::Alternates(views), opts));
}

/// A text is empty where its encoding is.
proof fn lemma_empty_encoding(s: Seq<char>)
    ensures
        encode_utf8(s).len() == 0 <==> s.len() == 0,
{
    if s.len() > 0 {
        vstd::utf8::encode_utf8_first_scalar(s);
    }
}

/// The regular expression for a pattern.
pub fn to_regex_with(tokens: &Vec<Token>, opts: GlobOptions) -> (r: String)
    ensures
        r@ == glob_regex(tokens_view(tokens@), opts),
{
    let mut re = String::new();
    re.push_str("(?-u)");
    if opts.case_insensitive {
        re.push_str("(?i)");
    }
    re.push('^');
    let ghost head = re@;
    proof {
        lemma_tokens_view(tokens@);
    }
    if tokens.len() == 1 && matches!(tokens[0], Token::RecursivePrefix) {
        re.push_str(".*");
    } else {
        tokens_to_regex(tokens, opts, &mut re);
    }
    re.push('$');
    assert(re@ =~= glob_regex(tokens_view(tokens@), opts));
    re
}

} // verus!
