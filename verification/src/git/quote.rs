//! Paths in double quotes, as C writes strings.
use crate::bytes::{from, pos_of_any, push_all, to_vec};
use crate::git::error::GitError;
use crate::git::number::{to_unsigned_with_radix, unsigned_number};
use crate::git::refs::loose::position_from;
use vstd::prelude::*;

verus! {

/// The bytes that mean something within quotes.
pub open spec fn special() -> Seq<u8> {
    seq!['"' as u8, '\\' as u8]
}

/// The byte that a backslash with `c` stands for, where it is one by itself.
pub open spec fn escaped(c: u8) -> Option<u8> {
    if c == 'n' as u8 {
        Some(0x0au8)
    } else if c == 'r' as u8 {
        Some(0x0du8)
    } else if c == 't' as u8 {
        Some(0x09u8)
    } else if c == 'a' as u8 {
        Some(7u8)
    } else if c == 'b' as u8 {
        Some(8u8)
    } else if c == 'v' as u8 {
        Some(0x0bu8)
    } else if c == 'f' as u8 {
        Some(0x0cu8)
    } else if c == '"' as u8 || c == '\\' as u8 {
        Some(c)
    } else {
        None
    }
}

/// The byte that the escape at the backslash at `p` stands for, with the position after the escape.
pub open spec fn escape_at(s: Seq<u8>, p: int) -> Option<(u8, int)> {
    if p + 1 >= s.len() {
        None
    } else {
        let c = s[p + 1];
        match escaped(c) {
            Some(b) => Some((b, p + 2)),
            None => if '0' as u8 <= c <= '3' as u8 && p + 4 <= s.len() {
                match unsigned_number(s.subrange(p + 1, p + 4), 8, 255) {
                    Some(n) => Some((n as u8, p + 4)),
                    None => None,
                }
            } else {
                None
            },
        }
    }
}

/// What the quoted text from position `i` on says, up to the closing quote or the end, with the position
/// after it.
pub open spec fn unquoted_from(s: Seq<u8>, i: int) -> Option<(Seq<u8>, int)>
    decreases s.len() - i,
{
    let p = pos_of_any(s, special(), i);
    if p >= s.len() || p < i {
        Some((from(s, i), s.len() as int))
    } else if s[p] == '"' as u8 {
        Some((s.subrange(i, p), p + 1))
    } else {
        match escape_at(s, p) {
            None => None,
            Some((b, next)) => if next <= i {
                None
            } else {
                match unquoted_from(s, next) {
                    Some((rest, end)) => Some((s.subrange(i, p).push(b) + rest, end)),
                    None => None,
                }
            },
        }
    }
}

/// What `s` says, where it may be in quotes, with how many bytes say it.
pub open spec fn unquoted(s: Seq<u8>) -> Option<(Seq<u8>, int)> {
    if s.len() == 0 || s[0] != '"' as u8 {
        Some((s, s.len() as int))
    } else if s.len() < 2 {
        None
    } else {
        unquoted_from(s, 1)
    }
}

/// The byte that a backslash with `c` stands for, where it is one by itself.
fn unescape(c: u8) -> (r: Option<u8>)
    ensures
        r == escaped(c),
{
    if c == 'n' as u8 {
        Some(0x0a)
    } else if c == 'r' as u8 {
        Some(0x0d)
    } else if c == 't' as u8 {
        Some(0x09)
    } else if c == 'a' as u8 {
        Some(7)
    } else if c == 'b' as u8 {
        Some(8)
    } else if c == 'v' as u8 {
        Some(0x0b)
    } else if c == 'f' as u8 {
        Some(0x0c)
    } else if c == '"' as u8 || c == '\\' as u8 {
        Some(c)
    } else {
        None
    }
}

/// Reads the escape at the backslash at `p`.
fn read_escape(s: &[u8], p: usize) -> (r: Result<(u8, usize), GitError>)
    requires
        p < s@.len(),
    ensures
        r is Ok <==> escape_at(s@, p as int) is Some,
        r matches Ok(x) ==> escape_at(s@, p as int) == Some((x.0, x.1 as int)) && p < x.1 <= s@.len(),
        r matches Err(e) ==> e is Gen,
{
    let left = s.len() - p;
    if left < 2 {
        return Err(GitError::Gen);
    }
    let c = s[p + 1];
    match unescape(c) {
        Some(b) => Ok((b, p + 2)),
        None => if '0' as u8 <= c && c <= '3' as u8 && left >= 4 {
            let n: Result<u8, GitError> = to_unsigned_with_radix(&s[p + 1..p + 4], 8);
            match n {
                Ok(b) => Ok((b, p + 4)),
                Err(_) => Err(GitError::Gen),
            }
        } else {
            Err(GitError::Gen)
        },
    }
}

/// What `input` says, where it may be in quotes, with how many bytes say it.
pub fn undo(input: &[u8]) -> (r: Result<(Vec<u8>, usize), GitError>)
    ensures
        r is Ok <==> unquoted(input@) is Some,
        r matches Ok(x) ==> unquoted(input@) == Some((x.0@, x.1 as int)),
        r matches Err(e) ==> e is Gen,
{
    if input.len() == 0 || input[0] != '"' as u8 {
        return Ok((to_vec(input), input.len()));
    }
    if input.len() < 2 {
        return Err(GitError::Gen);
    }
    let set: [u8; 2] = ['"' as u8, '\\' as u8];
    assert(set@ =~= special());
    let mut out: Vec<u8> = Vec::new();
    let mut i: usize = 1;
    proof {
        if let Some((rest, end)) = unquoted_from(input@, 1) {
            assert(out@ + rest =~= rest);
        }
    }
    loop
        invariant
            1 <= i <= input@.len(),
            input@.len() >= 2,
            input@[0] == '"' as u8,
            set@ == special(),
            unquoted_from(input@, 1) == (match unquoted_from(input@, i as int) {
                Some((rest, end)) => Some((out@ + rest, end)),
                None => None,
            }),
        decreases input@.len() - i,
    {
        let ghost before = out@;
        let n = input.len();
        proof {
            crate::bytes::lemma_pos_of_any(input@, special(), i as int);
        }
        let p = position_from(input, &set, i);
        push_all(&mut out, &input[i..p]);
        if p >= n {
            assert(out@ == before + from(input@, i as int));
            return Ok((out, n));
        }
        if input[p] == '"' as u8 {
            return Ok((out, p + 1));
        }
        match read_escape(input, p) {
            Err(e) => {
                return Err(e);
            },
            Ok((b, next)) => {
                out.push(b);
                proof {
                    if let Some((rest, end)) = unquoted_from(input@, next as int) {
                        assert(before + (input@.subrange(i as int, p as int).push(b) + rest) =~= out@ + rest);
                    }
                }
                i = next;
            },
        }
    }
}

/// What is not in quotes says itself.
pub proof fn law_plain_text_says_itself(s: Seq<u8>)
    requires
        s.len() == 0 || s[0] != '"' as u8,
    ensures
        unquoted(s) == Some((s, s.len() as int)),
{
}

/// Text without quotes and backslashes says the same in quotes; both quotes are passed over.
pub proof fn law_quoted_plain_text_says_itself(s: Seq<u8>, after: Seq<u8>)
    requires
        forall|i: int| 0 <= i < s.len() ==> !special().contains(#[trigger] s[i]),
    ensures
        unquoted(seq!['"' as u8] + s + seq!['"' as u8] + after) == Some((s, (s.len() + 2) as int)),
{
    let q = seq!['"' as u8] + s + seq!['"' as u8] + after;
    let p = s.len() + 1;
    assert forall|j: int| 1 <= j < p implies !special().contains(#[trigger] q[j]) by {
        assert(q[j] == s[j - 1]);
    }
    assert(q[p as int] == '"' as u8);
    assert(special()[0] == '"' as u8);
    crate::bytes::lemma_pos_of_any_is(q, special(), 1, p as int);
    assert(q.subrange(1, p as int) =~= s);
}

/// What the byte after a backslash stands for between quotes.
pub open spec fn escape_meaning(c: u8) -> u8 {
    if c == 0x6e {
        0x0a
    } else if c == 0x72 {
        0x0d
    } else if c == 0x74 {
        0x09
    } else if c == 0x61 {
        0x07
    } else if c == 0x62 {
        0x08
    } else if c == 0x76 {
        0x0b
    } else if c == 0x66 {
        0x0c
    } else {
        c
    }
}

/// `s` holds neither quotes nor backslashes.
pub open spec fn unescaped(s: Seq<u8>) -> bool {
    forall|i: int| 0 <= i < s.len() ==> (#[trigger] s[i]) != 0x22 && s[i] != 0x5c
}

proof fn lemma_end_of_quoted(s: Seq<u8>, i: int, t: Seq<u8>)
    requires
        0 <= i,
        i + t.len() < s.len(),
        s.subrange(i, i + t.len()) == t,
        s[i + t.len()] == 0x22,
        unescaped(t),
    ensures
        unquoted_from(s, i) == Some((t, i + t.len() + 1)),
{
    let p = i + t.len();
    assert(special()[0] == '"' as u8 && special()[1] == '\\' as u8);
    assert(special().contains(s[p]));
    assert forall|j: int| i <= j < p implies !special().contains(#[trigger] s[j]) by {
        assert(s.subrange(i, p)[j - i] == s[j]);
        assert(t[j - i] != 0x22);
    }
    crate::bytes::lemma_pos_of_any_is(s, special(), i, p);
}

proof fn lemma_escape_in_quotes(before: Seq<u8>, text: Seq<u8>, c: u8, after: Seq<u8>, rest: Seq<u8>)
    requires
        unescaped(before),
        unescaped(after),
        text.len() > 0,
        text[0] == 0x5c,
        escape_at(
            seq![0x22u8] + before + text + after + seq![0x22u8] + rest,
            before.len() as int + 1,
        ) == Some((c, before.len() as int + 1 + text.len())),
    ensures
        unquoted(seq![0x22u8] + before + text + after + seq![0x22u8] + rest) == Some(
            (before + seq![c] + after, before.len() as int + text.len() + after.len() + 2),
        ),
{
    let s = seq![0x22u8] + before + text + after + seq![0x22u8] + rest;
    let p = before.len() as int + 1;
    let next = p + text.len();
    assert(special()[0] == '"' as u8 && special()[1] == '\\' as u8);
    assert(s[p] == text[0]);
    assert(special().contains(s[p]));
    assert forall|j: int| 1 <= j < p implies !special().contains(#[trigger] s[j]) by {
        assert(s[j] == before[j - 1]);
    }
    crate::bytes::lemma_pos_of_any_is(s, special(), 1, p);
    assert(s.subrange(1, p) =~= before);
    assert(s.subrange(next, next + after.len()) =~= after);
    assert(s[next + after.len()] == 0x22);
    lemma_end_of_quoted(s, next, after);
    assert(before.push(c) + after =~= before + seq![c] + after);
}

/// Between quotes a backslash with a letter stands for a control character, and with a quote
/// or a backslash for that byte.
pub proof fn law_escapes_stand_for_bytes(before: Seq<u8>, c: u8, after: Seq<u8>, rest: Seq<u8>)
    requires
        unescaped(before),
        unescaped(after),
        c == 0x6e || c == 0x72 || c == 0x74 || c == 0x61 || c == 0x62 || c == 0x76 || c == 0x66 || c == 0x22
            || c == 0x5c,
    ensures
        unquoted(seq![0x22u8] + before + seq![0x5cu8, c] + after + seq![0x22u8] + rest) == Some(
            (before + seq![escape_meaning(c)] + after, before.len() as int + after.len() + 4),
        ),
{
    let text = seq![0x5cu8, c];
    let s = seq![0x22u8] + before + text + after + seq![0x22u8] + rest;
    assert(s[before.len() as int + 2] == text[1]);
    lemma_escape_in_quotes(before, text, escape_meaning(c), after, rest);
}

/// Between quotes a backslash with three octal digits stands for the byte that they write.
pub proof fn law_octal_escapes_stand_for_bytes(before: Seq<u8>, c: u8, after: Seq<u8>, rest: Seq<u8>)
    requires
        unescaped(before),
        unescaped(after),
    ensures
        unquoted(
            seq![0x22u8] + before + seq![
                0x5cu8,
                (0x30 + c / 64) as u8,
                (0x30 + c / 8 % 8) as u8,
                (0x30 + c % 8) as u8,
            ] + after + seq![0x22u8] + rest,
        ) == Some((before + seq![c] + after, before.len() as int + after.len() + 6)),
{
    let x = (0x30 + c / 64) as u8;
    let y = (0x30 + c / 8 % 8) as u8;
    let z = (0x30 + c % 8) as u8;
    let text = seq![0x5cu8, x, y, z];
    let s = seq![0x22u8] + before + text + after + seq![0x22u8] + rest;
    let p = before.len() as int + 1;
    assert(s[p + 1] == text[1] && s[p + 2] == text[2] && s[p + 3] == text[3]);
    assert(s.subrange(p + 1, p + 4) =~= seq![x, y, z]);
    lemma_three_digits(c, x, y, z);
    lemma_escape_in_quotes(before, text, c, after, rest);
}

proof fn lemma_three_digits(c: u8, x: u8, y: u8, z: u8)
    requires
        x == 0x30 + c / 64,
        y == 0x30 + c / 8 % 8,
        z == 0x30 + c % 8,
    ensures
        unsigned_number(seq![x, y, z], 8, 255) == Some(c as int),
        escaped(x) is None,
        0x30 <= x <= 0x33,
{
    lemma_octal_digits(seq![x, y, z], x, y, z);
    assert(c as int == (c / 64) * 64 + (c / 8 % 8) * 8 + c % 8);
}

proof fn lemma_octal_digits(s: Seq<u8>, x: u8, y: u8, z: u8)
    requires
        s == seq![x, y, z],
        0x30 <= x < 0x38,
        0x30 <= y < 0x38,
        0x30 <= z < 0x38,
    ensures
        crate::git::number::all_digits(s, 8),
        crate::git::number::digits_value(s, 8) == (x - 0x30) * 64 + (y - 0x30) * 8 + (z - 0x30),
{
    let a = seq![x, y];
    let b = seq![x];
    assert(s.drop_last() =~= a);
    assert(a.drop_last() =~= b);
    assert(b.drop_last() =~= Seq::<u8>::empty());
    assert(crate::git::number::digits_value(Seq::<u8>::empty(), 8) == 0);
    assert(crate::git::number::digits_value(b, 8) == x - 0x30);
    assert(crate::git::number::digits_value(a, 8) == (x - 0x30) * 8 + (y - 0x30));
}

} // verus!
