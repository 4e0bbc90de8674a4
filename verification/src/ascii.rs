//! ASCII character classes on bytes.
use vstd::prelude::*;

verus! {

/// `b` is one of `0` to `9`.
pub open spec fn digit(b: u8) -> bool {
    0x30 <= b <= 0x39
}

/// `b` is one of `A` to `Z`.
pub open spec fn upper(b: u8) -> bool {
    0x41 <= b <= 0x5a
}

/// `b` is one of `a` to `z`.
pub open spec fn lower(b: u8) -> bool {
    0x61 <= b <= 0x7a
}

/// `b` is an ASCII letter.
pub open spec fn alphabetic(b: u8) -> bool {
    upper(b) || lower(b)
}

/// `b` is an ASCII letter or digit.
pub open spec fn alphanumeric(b: u8) -> bool {
    alphabetic(b) || digit(b)
}

/// `b` is a hexadecimal digit of either case.
pub open spec fn hex_digit(b: u8) -> bool {
    digit(b) || 0x41 <= b <= 0x46 || 0x61 <= b <= 0x66
}

/// `b` is a space, a tab, a line feed, a form feed or a carriage return.
pub open spec fn whitespace(b: u8) -> bool {
    b == 0x20 || b == 0x09 || b == 0x0a || b == 0x0c || b == 0x0d
}

/// `b` is below the space, or the delete character.
pub open spec fn control(b: u8) -> bool {
    b < 0x20 || b == 0x7f
}

/// `b` is printable and not the space.
pub open spec fn graphic(b: u8) -> bool {
    0x21 <= b <= 0x7e
}

/// `b` is graphic and neither a letter nor a digit.
pub open spec fn punctuation(b: u8) -> bool {
    graphic(b) && !alphanumeric(b)
}

/// `b` with an upper case letter turned to lower case.
pub open spec fn to_lower(b: u8) -> u8 {
    if upper(b) {
        (b + 32) as u8
    } else {
        b
    }
}

/// `b` with a lower case letter turned to upper case.
pub open spec fn to_upper(b: u8) -> u8 {
    if lower(b) {
        (b - 32) as u8
    } else {
        b
    }
}

/// `s` with every letter turned to lower case.
pub open spec fn lowered(s: Seq<u8>) -> Seq<u8> {
    s.map_values(|b: u8| to_lower(b))
}

pub fn is_digit(b: u8) -> (r: bool)
    ensures
        r == digit(b),
{
    0x30 <= b && b <= 0x39
}

pub fn is_upper(b: u8) -> (r: bool)
    ensures
        r == upper(b),
{
    0x41 <= b && b <= 0x5a
}

pub fn is_lower(b: u8) -> (r: bool)
    ensures
        r == lower(b),
{
    0x61 <= b && b <= 0x7a
}

pub fn is_alphabetic(b: u8) -> (r: bool)
    ensures
        r == alphabetic(b),
{
    is_upper(b) || is_lower(b)
}

pub fn is_alphanumeric(b: u8) -> (r: bool)
    ensures
        r == alphanumeric(b),
{
    is_alphabetic(b) || is_digit(b)
}

pub fn is_hex_digit(b: u8) -> (r: bool)
    ensures
        r == hex_digit(b),
{
    is_digit(b) || (0x41 <= b && b <= 0x46) || (0x61 <= b && b <= 0x66)
}

pub fn is_whitespace(b: u8) -> (r: bool)
    ensures
        r == whitespace(b),
{
    b == 0x20 || b == 0x09 || b == 0x0a || b == 0x0c || b == 0x0d
}

pub fn is_control(b: u8) -> (r: bool)
    ensures
        r == control(b),
{
    b < 0x20 || b == 0x7f
}

pub fn is_graphic(b: u8) -> (r: bool)
    ensures
        r == graphic(b),
{
    0x21 <= b && b <= 0x7e
}

pub fn is_punctuation(b: u8) -> (r: bool)
    ensures
        r == punctuation(b),
{
    is_graphic(b) && !is_alphanumeric(b)
}

pub fn lower_byte(b: u8) -> (r: u8)
    ensures
        r == to_lower(b),
{
    if is_upper(b) {
        b + 32
    } else {
        b
    }
}

pub fn upper_byte(b: u8) -> (r: u8)
    ensures
        r == to_upper(b),
{
    if is_lower(b) {
        b - 32
    } else {
        b
    }
}

/// Whether `a` and `b` differ in the case of letters at most.
pub fn eq_ignore_case(a: &[u8], b: &[u8]) -> (r: bool)
    ensures
        r == (lowered(a@) == lowered(b@)),
{
    if a.len() != b.len() {
        assert(lowered(a@).len() != lowered(b@).len());
        return false;
    }
    let mut i: usize = 0;
    while i < a.len()
        invariant
            a@.len() == b@.len(),
            0 <= i <= a@.len(),
            forall|j: int| 0 <= j < i ==> to_lower(a@[j]) == to_lower(b@[j]),
        decreases a@.len() - i,
    {
        if lower_byte(a[i]) != lower_byte(b[i]) {
            assert(lowered(a@)[i as int] != lowered(b@)[i as int]);
            return false;
        }
        i += 1;
    }
    assert(lowered(a@) =~= lowered(b@));
    true
}

} // verus!
