//! Searching and cutting byte strings.
use bstr::ByteSlice;
use vstd::prelude::*;

verus! {

/// The bytes of a string literal.
pub open spec fn lit(s: &str) -> Seq<u8> {
    vstd::utf8::encode_utf8(s@)
}

/// The bytes of an ASCII literal are its characters.
pub proof fn lemma_lit(t: &str, s: Seq<u8>)
    requires
        t@.len() == s.len(),
        vstd::utf8::is_ascii_chars(t@),
        forall|i: int| 0 <= i < s.len() ==> (#[trigger] t@[i]) as u8 == s[i],
    ensures
        lit(t) == s,
{
    vstd::utf8::is_ascii_chars_encode_utf8(t@);
    assert(lit(t) =~= s);
}

/// The first position of `s` at or after `i` that holds `b`, or the length of `s`.
pub open spec fn pos_of(s: Seq<u8>, b: u8, i: int) -> int
    decreases s.len() - i,
{
    if i >= s.len() {
        s.len() as int
    } else if s[i] == b {
        i
    } else {
        pos_of(s, b, i + 1)
    }
}

/// The first position of `s` at or after `i` that holds one of `set`, or the length of `s`.
pub open spec fn pos_of_any(s: Seq<u8>, set: Seq<u8>, i: int) -> int
    decreases s.len() - i,
{
    if i >= s.len() {
        s.len() as int
    } else if set.contains(s[i]) {
        i
    } else {
        pos_of_any(s, set, i + 1)
    }
}

/// `needle` stands in `s` at position `i`.
pub open spec fn stands_at(s: Seq<u8>, needle: Seq<u8>, i: int) -> bool {
    0 <= i && i + needle.len() <= s.len() && s.subrange(i, i + needle.len()) == needle
}

/// `s` begins with `p`.
pub open spec fn begins(s: Seq<u8>, p: Seq<u8>) -> bool {
    s.len() >= p.len() && s.subrange(0, p.len() as int) == p
}

/// `s` ends with `p`.
pub open spec fn ends(s: Seq<u8>, p: Seq<u8>) -> bool {
    s.len() >= p.len() && s.subrange(s.len() - p.len(), s.len() as int) == p
}

/// `s` from position `i` on.
pub open spec fn from(s: Seq<u8>, i: int) -> Seq<u8> {
    s.subrange(i, s.len() as int)
}

pub proof fn lemma_pos_of(s: Seq<u8>, b: u8, i: int)
    requires
        0 <= i <= s.len(),
    ensures
        i <= pos_of(s, b, i) <= s.len(),
        pos_of(s, b, i) < s.len() ==> s[pos_of(s, b, i)] == b,
        forall|j: int| i <= j < pos_of(s, b, i) ==> s[j] != b,
    decreases s.len() - i,
{
    if i < s.len() && s[i] != b {
        lemma_pos_of(s, b, i + 1);
    }
}

pub proof fn lemma_pos_of_is(s: Seq<u8>, b: u8, i: int, p: int)
    requires
        0 <= i <= p <= s.len(),
        p < s.len() ==> s[p] == b,
        forall|j: int| i <= j < p ==> s[j] != b,
    ensures
        pos_of(s, b, i) == p,
    decreases p - i,
{
    if i < p {
        lemma_pos_of_is(s, b, i + 1, p);
    }
}

pub proof fn lemma_pos_of_any(s: Seq<u8>, set: Seq<u8>, i: int)
    requires
        0 <= i <= s.len(),
    ensures
        i <= pos_of_any(s, set, i) <= s.len(),
        pos_of_any(s, set, i) < s.len() ==> set.contains(s[pos_of_any(s, set, i)]),
        forall|j: int| i <= j < pos_of_any(s, set, i) ==> !set.contains(s[j]),
    decreases s.len() - i,
{
    if i < s.len() && !set.contains(s[i]) {
        lemma_pos_of_any(s, set, i + 1);
    }
}

pub proof fn lemma_pos_of_any_is(s: Seq<u8>, set: Seq<u8>, i: int, p: int)
    requires
        0 <= i <= p <= s.len(),
        p < s.len() ==> set.contains(s[p]),
        forall|j: int| i <= j < p ==> !set.contains(s[j]),
    ensures
        pos_of_any(s, set, i) == p,
    decreases p - i,
{
    if i < p {
        lemma_pos_of_any_is(s, set, i + 1, p);
    }
}

/// Calls `bstr::ByteSlice::find_byte`: the first position of `b` in `s`, `None` where `s`
/// does not hold it.
#[verifier::external_body]
pub(crate) fn find_byte_raw(s: &[u8], b: u8) -> (r: Option<usize>)
    ensures
        match r {
            Some(p) => p < s@.len() && s@[p as int] == b && forall|j: int|
                0 <= j < p ==> s@[j] != b,
            None => forall|j: int| 0 <= j < s@.len() ==> s@[j] != b,
        },
{
    s.find_byte(b)
}

/// Calls `bstr::ByteSlice::find_byteset`: the first position of a byte of `set` in `s`.
#[verifier::external_body]
pub(crate) fn find_byteset_raw(s: &[u8], set: &[u8]) -> (r: Option<usize>)
    ensures
        match r {
            Some(p) => p < s@.len() && set@.contains(s@[p as int]) && forall|j: int|
                0 <= j < p ==> !set@.contains(s@[j]),
            None => forall|j: int| 0 <= j < s@.len() ==> !set@.contains(s@[j]),
        },
{
    s.find_byteset(set)
}

/// The first position of `b` in `s`.
pub fn find_byte(s: &[u8], b: u8) -> (r: Option<usize>)
    ensures
        r == (if pos_of(s@, b, 0) < s@.len() {
            Some(pos_of(s@, b, 0) as usize)
        } else {
            None
        }),
{
    let r = find_byte_raw(s, b);
    proof {
        match r {
            Some(p) => lemma_pos_of_is(s@, b, 0, p as int),
            None => lemma_pos_of_is(s@, b, 0, s@.len() as int),
        }
    }
    r
}

/// The first position in `s` of a byte of `set`.
pub fn find_byteset(s: &[u8], set: &[u8]) -> (r: Option<usize>)
    ensures
        r == (if pos_of_any(s@, set@, 0) < s@.len() {
            Some(pos_of_any(s@, set@, 0) as usize)
        } else {
            None
        }),
{
    let r = find_byteset_raw(s, set);
    proof {
        match r {
            Some(p) => lemma_pos_of_any_is(s@, set@, 0, p as int),
            None => lemma_pos_of_any_is(s@, set@, 0, s@.len() as int),
        }
    }
    r
}

/// Whether the bytes of `a` and `b` are the same.
pub fn eq_bytes(a: &[u8], b: &[u8]) -> (r: bool)
    ensures
        r == (a@ == b@),
{
    if a.len() != b.len() {
        return false;
    }
    let mut i: usize = 0;
    while i < a.len()
        invariant
            a@.len() == b@.len(),
            0 <= i <= a@.len(),
            forall|j: int| 0 <= j < i ==> a@[j] == b@[j],
        decreases a@.len() - i,
    {
        if a[i] != b[i] {
            return false;
        }
        i += 1;
    }
    assert(a@ =~= b@);
    true
}

/// Whether `s` begins with `p`.
pub fn starts_with(s: &[u8], p: &[u8]) -> (r: bool)
    ensures
        r == begins(s@, p@),
{
    s.len() >= p.len() && eq_bytes(&s[0..p.len()], p)
}

/// Whether `s` ends with `p`.
pub fn ends_with(s: &[u8], p: &[u8]) -> (r: bool)
    ensures
        r == ends(s@, p@),
{
    s.len() >= p.len() && eq_bytes(&s[s.len() - p.len()..s.len()], p)
}

/// What follows `p` in `s`, where `s` begins with it.
pub fn strip_prefix<'a>(s: &'a [u8], p: &[u8]) -> (r: Option<&'a [u8]>)
    ensures
        r is Some <==> begins(s@, p@),
        r matches Some(rest) ==> rest@ == from(s@, p@.len() as int),
{
    if starts_with(s, p) {
        Some(&s[p.len()..s.len()])
    } else {
        None
    }
}

/// Whether `s` holds the byte `b`.
pub fn contains_byte(s: &[u8], b: u8) -> (r: bool)
    ensures
        r == s@.contains(b),
{
    let mut i: usize = 0;
    while i < s.len()
        invariant
            0 <= i <= s@.len(),
            forall|j: int| 0 <= j < i ==> s@[j] != b,
        decreases s@.len() - i,
    {
        if s[i] == b {
            assert(s@.contains(b));
            return true;
        }
        i += 1;
    }
    false
}

/// A vector that holds the bytes of `s`.
pub fn to_vec(s: &[u8]) -> (r: Vec<u8>)
    ensures
        r@ == s@,
{
    let mut v: Vec<u8> = Vec::new();
    push_all(&mut v, s);
    assert(v@ =~= s@);
    v
}

/// Appends the bytes of `s` to `v`.
pub fn push_all(v: &mut Vec<u8>, s: &[u8])
    ensures
        final(v)@ == old(v)@ + s@,
{
    v.extend_from_slice(s);
    assert(v@ =~= old(v)@ + s@);
}

/// How two byte strings are ordered.
#[derive(Clone, Copy, Debug, PartialEq, Eq, Structural)]
pub enum Order {
    Less,
    Equal,
    Greater,
}

/// `a` from `i` on is before `b` from `i` on in the order of bytes.
pub open spec fn less_from(a: Seq<u8>, b: Seq<u8>, i: int) -> bool
    decreases a.len() - i,
{
    if i >= b.len() {
        false
    } else if i >= a.len() {
        true
    } else if a[i] != b[i] {
        a[i] < b[i]
    } else {
        less_from(a, b, i + 1)
    }
}

/// `a` is before `b` in the order of bytes.
pub open spec fn less(a: Seq<u8>, b: Seq<u8>) -> bool {
    less_from(a, b, 0)
}

pub proof fn lemma_less_irreflexive(a: Seq<u8>, i: int)
    requires
        0 <= i,
    ensures
        !less_from(a, a, i),
    decreases a.len() - i,
{
    if i < a.len() {
        lemma_less_irreflexive(a, i + 1);
    }
}

pub proof fn lemma_less_asymmetric(a: Seq<u8>, b: Seq<u8>, i: int)
    requires
        0 <= i,
        less_from(a, b, i),
    ensures
        !less_from(b, a, i),
    decreases a.len() - i,
{
    if i < a.len() && i < b.len() && a[i] == b[i] {
        lemma_less_asymmetric(a, b, i + 1);
    }
}

pub proof fn lemma_less_transitive(a: Seq<u8>, b: Seq<u8>, c: Seq<u8>, i: int)
    requires
        0 <= i,
        less_from(a, b, i),
        less_from(b, c, i),
    ensures
        less_from(a, c, i),
    decreases a.len() - i,
{
    if i < a.len() && i < b.len() && i < c.len() && a[i] == b[i] && b[i] == c[i] {
        lemma_less_transitive(a, b, c, i + 1);
    }
}

/// How `a` and `b` are ordered.
pub fn compare(a: &[u8], b: &[u8]) -> (r: Order)
    ensures
        r == Order::Less <==> less(a@, b@),
        r == Order::Equal <==> a@ == b@,
        r == Order::Greater <==> less(b@, a@),
{
    let mut i: usize = 0;
    proof {
        lemma_less_irreflexive(a@, 0);
    }
    while i < a.len() && i < b.len()
        invariant
            i <= a@.len(),
            i <= b@.len(),
            forall|j: int| 0 <= j < i ==> a@[j] == b@[j],
            less(a@, b@) == less_from(a@, b@, i as int),
            less(b@, a@) == less_from(b@, a@, i as int),
            a@ == b@ ==> !less(a@, b@),
        decreases a@.len() - i,
    {
        if a[i] < b[i] {
            return Order::Less;
        }
        if a[i] > b[i] {
            return Order::Greater;
        }
        i += 1;
    }
    if i < b.len() {
        return Order::Less;
    }
    if i < a.len() {
        return Order::Greater;
    }
    assert(a@ =~= b@);
    Order::Equal
}

} // verus!
