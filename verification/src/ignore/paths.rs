//! Paths as the rules for ignored files see them.
use crate::bytes::{begins, from};
use vstd::prelude::*;

verus! {

/// The position of the last `b` in the first `n` bytes of `s`, or -1.
pub open spec fn last_byte(s: Seq<u8>, b: u8, n: int) -> int
    decreases n,
{
    if n <= 0 || s[n - 1] == b {
        n - 1
    } else {
        last_byte(s, b, n - 1)
    }
}

pub proof fn lemma_last_byte(s: Seq<u8>, b: u8, n: int)
    requires
        0 <= n <= s.len(),
    ensures
        -1 <= last_byte(s, b, n) < n || n == 0,
        last_byte(s, b, n) >= -1,
        last_byte(s, b, n) >= 0 ==> s[last_byte(s, b, n)] == b,
        forall|i: int| last_byte(s, b, n) < i < n ==> s[i] != b,
    decreases n,
{
    if n > 0 && s[n - 1] != b {
        lemma_last_byte(s, b, n - 1);
    }
}

pub proof fn lemma_last_byte_is(s: Seq<u8>, b: u8, n: int, k: int)
    requires
        -1 <= k < n <= s.len() || (n == 0 && k == -1),
        k >= 0 ==> s[k] == b,
        forall|i: int| k < i < n ==> s[i] != b,
    ensures
        last_byte(s, b, n) == k,
    decreases n,
{
    if n > 0 && s[n - 1] != b {
        lemma_last_byte_is(s, b, n - 1, k);
    }
}

/// `memchr::memchr` gives the position of the first `b` in `s`.
#[verifier::external_body]
fn memchr(b: u8, s: &[u8]) -> (r: Option<usize>)
    ensures
        match r {
            Some(p) => p < s@.len() && s@[p as int] == b && !s@.take(p as int).contains(b),
            None => !s@.contains(b),
        },
{
    memchr::memchr(b, s)
}

/// `memchr::memrchr` gives the position of the last `b` in `s`.
#[verifier::external_body]
fn memrchr(b: u8, s: &[u8]) -> (r: Option<usize>)
    ensures
        match r {
            Some(p) => p < s@.len() && s@[p as int] == b && !s@.skip(p + 1).contains(b),
            None => !s@.contains(b),
        },
{
    memchr::memrchr(b, s)
}

/// Whether the path has only one component.
pub fn has_no_separator(path: &[u8]) -> (r: bool)
    ensures
        r == !path@.contains('/' as u8),
{
    memchr('/' as u8, path).is_none()
}

/// The path without the prefix, byte for byte, where it begins with it.
pub fn strip_path_prefix<'a>(prefix: &[u8], path: &'a [u8]) -> (r: Option<&'a [u8]>)
    ensures
        r is Some <==> begins(path@, prefix@),
        r matches Some(p) ==> p@ == from(path@, prefix@.len() as int),
{
    crate::bytes::strip_prefix(path, prefix)
}

/// The path without the prefix, or the path itself.
pub open spec fn stripped(path: Seq<u8>, prefix: Seq<u8>) -> Seq<u8> {
    if begins(path, prefix) {
        from(path, prefix.len() as int)
    } else {
        path
    }
}

/// The path without the prefix, or the path itself.
pub fn strip_if_is_prefix<'a>(prefix: &[u8], path: &'a [u8]) -> (r: &'a [u8])
    ensures
        r@ == stripped(path@, prefix@),
{
    match strip_path_prefix(prefix, path) {
        Some(p) => p,
        None => path,
    }
}

/// The name of the file at the path. There is none where the path is empty or ends in a dot.
pub open spec fn path_name(path: Seq<u8>) -> Option<Seq<u8>> {
    if path.len() == 0 || path.last() == '.' as u8 {
        None
    } else {
        Some(from(path, last_byte(path, '/' as u8, path.len() as int) + 1))
    }
}

/// The name of the file at the path.
pub fn path_file_name(path: &[u8]) -> (r: Option<&[u8]>)
    ensures
        match path_name(path@) {
            Some(n) => r matches Some(x) && x@ == n,
            None => r is None,
        },
{
    let len: usize = path.len();
    if len == 0 || path[len - 1] == '.' as u8 {
        return None;
    }
    let found = memrchr('/' as u8, path);
    let start: usize = match found {
        Some(i) => i + 1,
        None => 0,
    };
    proof {
        let k = start - 1;
        assert forall|i: int| k < i < len implies path@[i] != '/' as u8 by {
            if found is Some {
                let rest = path@.skip(found->0 + 1);
                if path@[i] == '/' as u8 {
                    assert(rest[i - found->0 - 1] == '/' as u8);
                }
            } else if path@[i] == '/' as u8 {
                assert(path@.contains('/' as u8));
            }
        }
        lemma_last_byte_is(path@, '/' as u8, len as int, k);
    }
    Some(&path[start..len])
}

/// The name begins with a dot.
pub open spec fn hidden_path(path: Seq<u8>) -> bool {
    path_name(path) matches Some(n) && n.len() > 0 && n[0] == '.' as u8
}

/// Whether the name of the file at the path begins with a dot.
pub fn is_hidden(path: &[u8]) -> (r: bool)
    ensures
        r == hidden_path(path@),
{
    match path_file_name(path) {
        Some(name) => name.len() > 0 && name[0] == '.' as u8,
        None => false,
    }
}

/// The name of a file is what follows the last slash of its path. It is hidden where that
/// begins with a dot.
pub proof fn law_name_follows_the_last_slash(dir: Seq<u8>, name: Seq<u8>)
    requires
        dir.len() == 0 || dir.last() == '/' as u8,
        name.len() > 0,
        name.last() != '.' as u8,
        forall|i: int| 0 <= i < name.len() ==> (#[trigger] name[i]) != '/' as u8,
    ensures
        path_name(dir + name) == Some(name),
        hidden_path(dir + name) <==> name[0] == '.' as u8,
{
    let p = dir + name;
    let d = dir.len() as int;
    assert forall|i: int| d - 1 < i < p.len() implies p[i] != '/' as u8 by {
        assert(p[i] == name[i - d]);
    }
    assert(p.last() == name.last());
    lemma_last_byte_is(p, '/' as u8, p.len() as int, d - 1);
    assert(from(p, d) =~= name);
}

} // verus!
