//! Strings of characters.
use vstd::prelude::*;

verus! {

/// `String::push` appends a character.
pub assume_specification[ std::string::String::push ](s: &mut String, c: char)
    ensures
        final(s)@ == old(s)@.push(c),
;

/// `String::push_str` appends the characters of another string.
pub assume_specification[ std::string::String::push_str ](s: &mut String, t: &str)
    ensures
        final(s)@ == old(s)@ + t@,
;

/// The characters of a string.
pub fn chars_of(s: &str) -> (r: Vec<char>)
    ensures
        r@ == s@,
{
    let mut out: Vec<char> = Vec::new();
    for c in it: s.chars()
        invariant
            it.seq() == s@,
            out@ == s@.take(it.index() as int),
    {
        out.push(c);
        assert(out@ =~= s@.take(it.index() + 1));
    }
    assert(s@.take(s@.len() as int) =~= s@);
    out
}

/// The character at position `i`.
pub fn char_at(s: &Vec<char>, i: usize) -> (r: char)
    requires
        i < s@.len(),
    ensures
        r == s@[i as int],
{
    s[i]
}

/// What stands in a string is a character.
pub proof fn lemma_char(s: Seq<char>, i: int) -> (r: char)
    ensures
        r == s[i],
{
    s[i]
}

/// `String::from_utf8` gives the string that the bytes encode, where they are valid UTF-8.
#[verifier::external_body]
pub(crate) fn utf8_string(s: Vec<u8>) -> (r: Option<String>)
    ensures
        r is Some <==> vstd::utf8::valid_utf8(s@),
        r matches Some(t) ==> t@ == vstd::utf8::decode_utf8(s@),
{
    String::from_utf8(s).ok()
}

/// The character is white space.
pub uninterp spec fn white_space(c: char) -> bool;

/// `char::is_whitespace` says whether a character has the Unicode property `White_Space`.
#[verifier::external_body]
pub(crate) fn is_white_space(c: char) -> (r: bool)
    ensures
        r == white_space(c),
{
    c.is_whitespace()
}

/// The character is a letter or a number.
pub uninterp spec fn letter_or_number(c: char) -> bool;

/// `char::is_alphanumeric` says whether a character is alphabetic or numeric.
#[verifier::external_body]
pub(crate) fn is_letter_or_number(c: char) -> (r: bool)
    ensures
        r == letter_or_number(c),
{
    c.is_alphanumeric()
}

/// The number of characters before the white space that ends the first `n`.
pub open spec fn trimmed_len(s: Seq<char>, n: int) -> int
    decreases n,
{
    if n > 0 && white_space(s[n - 1]) {
        trimmed_len(s, n - 1)
    } else {
        n
    }
}

/// The number of characters before the white space that ends the string.
pub fn trim_end(s: &Vec<char>) -> (r: usize)
    ensures
        r == trimmed_len(s@, s@.len() as int),
        r <= s@.len(),
{
    let mut n: usize = s.len();
    while n > 0 && is_white_space(char_at(s, n - 1))
        invariant
            n <= s@.len(),
            trimmed_len(s@, s@.len() as int) == trimmed_len(s@, n as int),
        decreases n,
    {
        n -= 1;
    }
    n
}

/// The characters from `i` to `j` as a string, after those of `head`.
pub fn string_of(s: &Vec<char>, i: usize, j: usize, head: &str) -> (r: String)
    requires
        i <= j <= s@.len(),
    ensures
        r@ == head@ + s@.subrange(i as int, j as int),
{
    let mut out = head.to_owned();
    let mut k: usize = i;
    assert(head@ + s@.subrange(i as int, i as int) =~= head@);
    while k < j
        invariant
            i <= k <= j <= s@.len(),
            out@ == head@ + s@.subrange(i as int, k as int),
        decreases j - k,
    {
        out.push(char_at(s, k));
        assert(head@ + s@.subrange(i as int, k + 1) =~= (head@ + s@.subrange(
            i as int,
            k as int,
        )).push(s@[k as int]));
        k += 1;
    }
    out
}

/// Whether the characters from `i` to `j` hold `c`.
pub fn has_char(s: &Vec<char>, i: usize, j: usize, c: char) -> (r: bool)
    requires
        i <= j <= s@.len(),
    ensures
        r == s@.subrange(i as int, j as int).contains(c),
{
    let ghost part = s@.subrange(i as int, j as int);
    let mut k: usize = i;
    while k < j
        invariant
            i <= k <= j <= s@.len(),
            part == s@.subrange(i as int, j as int),
            forall|x: int| 0 <= x < k - i ==> #[trigger] part[x] != c,
        decreases j - k,
    {
        assert(part[k - i] == s@[k as int]);
        if char_at(s, k) == c {
            return true;
        }
        k += 1;
    }
    false
}

/// The text of bytes in which what is no valid UTF-8 is replaced.
pub uninterp spec fn lossy_text(s: Seq<u8>) -> Seq<char>;

/// `Display` of `bstr::BStr` writes the text of the bytes. Valid UTF-8 is written as it is; of the rest
/// only that it depends on the bytes alone is said here.
#[verifier::external_body]
pub(crate) fn lossy(s: &[u8]) -> (r: String)
    ensures
        r@ == lossy_text(s@),
        vstd::utf8::valid_utf8(s@) ==> r@ == vstd::utf8::decode_utf8(s@),
{
    bstr::BStr::new(s).to_string()
}

} // verus!
