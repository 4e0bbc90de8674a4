//! Paths as byte strings, with `/` between their components.
use crate::bytes::{push_all, to_vec};
use vstd::prelude::*;

verus! {

/// The path is absolute.
pub open spec fn absolute(p: Seq<u8>) -> bool {
    p.len() > 0 && p[0] == '/' as u8
}

/// The path `b` taken from the directory `a`.
pub open spec fn joined(a: Seq<u8>, b: Seq<u8>) -> Seq<u8> {
    if absolute(b) {
        b
    } else if a.len() == 0 || a.last() == '/' as u8 {
        a + b
    } else {
        a + seq!['/' as u8] + b
    }
}

/// Whether the path is absolute.
pub fn is_absolute(p: &[u8]) -> (r: bool)
    ensures
        r == absolute(p@),
{
    p.len() > 0 && p[0] == '/' as u8
}

/// The path `b` taken from the directory `a`.
pub fn join(a: &[u8], b: &[u8]) -> (r: Vec<u8>)
    ensures
        r@ == joined(a@, b@),
{
    if is_absolute(b) {
        return to_vec(b);
    }
    let mut r = to_vec(a);
    if a.len() > 0 && a[a.len() - 1] != '/' as u8 {
        r.push('/' as u8);
    }
    let ghost head = r@;
    push_all(&mut r, b);
    assert(a@.len() == 0 || a@.last() == '/' as u8 ==> head =~= a@);
    assert(!(a@.len() == 0 || a@.last() == '/' as u8) ==> head =~= a@ + seq!['/' as u8]);
    r
}

/// Where the component that ends before `end` begins.
pub open spec fn component_start(p: Seq<u8>, end: int) -> int
    decreases end,
{
    if end <= 0 || p[end - 1] == '/' as u8 {
        end
    } else {
        component_start(p, end - 1)
    }
}

/// `end`, without the separators and the components `.` before it. The separator of the root
/// and a first component `.` stay.
pub open spec fn trimmed(p: Seq<u8>, end: int) -> int
    decreases end,
{
    let st = component_start(p, end);
    if end <= 0 || (end == 1 && p[0] == '/' as u8) {
        end
    } else if p[end - 1] == '/' as u8 {
        trimmed(p, end - 1)
    } else if 0 < st && st == end - 1 && p[st] == '.' as u8 {
        trimmed(p, st)
    } else {
        end
    }
}

/// The path has a last component besides the root.
pub open spec fn has_last(p: Seq<u8>) -> bool {
    let e = trimmed(p, p.len() as int);
    e > 0 && !(e == 1 && p[0] == '/' as u8)
}

/// The last component of the path.
pub open spec fn last_component(p: Seq<u8>) -> Seq<u8> {
    let e = trimmed(p, p.len() as int);
    p.subrange(component_start(p, e), e)
}

/// The path without its last component.
pub open spec fn parent_of(p: Seq<u8>) -> Option<Seq<u8>> {
    if has_last(p) {
        let e = trimmed(p, p.len() as int);
        Some(p.subrange(0, trimmed(p, component_start(p, e))))
    } else {
        None
    }
}

/// The last component, where it names an entry of a directory.
pub open spec fn name_of(p: Seq<u8>) -> Option<Seq<u8>> {
    let c = last_component(p);
    if has_last(p) && c != seq!['.' as u8] && c != seq!['.' as u8, '.' as u8] {
        Some(c)
    } else {
        None
    }
}

pub proof fn lemma_component_start(p: Seq<u8>, end: int)
    requires
        0 <= end <= p.len(),
    ensures
        0 <= component_start(p, end) <= end,
        end > 0 && p[end - 1] != '/' as u8 ==> component_start(p, end) < end,
        component_start(p, end) > 0 ==> p[component_start(p, end) - 1] == '/' as u8,
        forall|i: int| component_start(p, end) <= i < end ==> p[i] != '/' as u8,
    decreases end,
{
    if end > 0 && p[end - 1] != '/' as u8 {
        lemma_component_start(p, end - 1);
    }
}

pub proof fn lemma_trimmed(p: Seq<u8>, end: int)
    requires
        0 <= end <= p.len(),
    ensures
        0 <= trimmed(p, end) <= end,
        end > 0 && p[0] == '/' as u8 ==> trimmed(p, end) > 0,
        trimmed(p, end) > 1 ==> p[trimmed(p, end) - 1] != '/' as u8,
        trimmed(p, end) == 1 && p[0] != '/' as u8 ==> p[trimmed(p, end) - 1] != '/' as u8,
    decreases end,
{
    lemma_component_start(p, end);
    if end <= 0 || (end == 1 && p[0] == '/' as u8) {
    } else if p[end - 1] == '/' as u8 {
        lemma_trimmed(p, end - 1);
    } else if 0 < component_start(p, end) && component_start(p, end) == end - 1
        && p[component_start(p, end)] == '.' as u8 {
        lemma_trimmed(p, component_start(p, end));
    }
}

/// Where the component that ends before `end` begins.
fn find_component_start(p: &[u8], end: usize) -> (r: usize)
    requires
        end <= p@.len(),
    ensures
        r == component_start(p@, end as int),
        r <= end,
{
    let mut i: usize = end;
    while i > 0 && p[i - 1] != '/' as u8
        invariant
            i <= end <= p@.len(),
            component_start(p@, end as int) == component_start(p@, i as int),
        decreases i,
    {
        i -= 1;
    }
    i
}

/// `end`, without the separators and the components `.` before it.
fn trim(p: &[u8], end: usize) -> (r: usize)
    requires
        end <= p@.len(),
    ensures
        r == trimmed(p@, end as int),
        r <= end,
{
    let mut e: usize = end;
    loop
        invariant
            e <= end <= p@.len(),
            trimmed(p@, end as int) == trimmed(p@, e as int),
        decreases e,
    {
        if e == 0 || (e == 1 && p[0] == '/' as u8) {
            return e;
        }
        if p[e - 1] == '/' as u8 {
            e -= 1;
        } else {
            let st: usize = find_component_start(p, e);
            proof {
                lemma_component_start(p@, e as int);
            }
            if 0 < st && st == e - 1 && p[st] == '.' as u8 {
                e = st;
            } else {
                return e;
            }
        }
    }
}

/// The path without its last component.
pub fn parent(p: &[u8]) -> (r: Option<&[u8]>)
    ensures
        match parent_of(p@) {
            Some(d) => r matches Some(x) && x@ == d,
            None => r is None,
        },
{
    let e: usize = trim(p, p.len());
    if e == 0 || (e == 1 && p[0] == '/' as u8) {
        return None;
    }
    let st: usize = find_component_start(p, e);
    Some(&p[0..trim(p, st)])
}

/// The last component, where it names an entry of a directory.
pub fn file_name(p: &[u8]) -> (r: Option<&[u8]>)
    ensures
        match name_of(p@) {
            Some(d) => r matches Some(x) && x@ == d,
            None => r is None,
        },
{
    let e: usize = trim(p, p.len());
    if e == 0 || (e == 1 && p[0] == '/' as u8) {
        return None;
    }
    let st: usize = find_component_start(p, e);
    let c: &[u8] = &p[st..e];
    assert(c@ == last_component(p@));
    if c.len() == 1 && c[0] == '.' as u8 {
        assert(c@ =~= seq!['.' as u8]);
        return None;
    }
    if c.len() == 2 && c[0] == '.' as u8 && c[1] == '.' as u8 {
        assert(c@ =~= seq!['.' as u8, '.' as u8]);
        return None;
    }
    proof {
        assert(c@ != seq!['.' as u8]) by {
            if c@ == seq!['.' as u8] {
                assert(c@[0] == '.' as u8);
            }
        }
        assert(c@ != seq!['.' as u8, '.' as u8]) by {
            if c@ == seq!['.' as u8, '.' as u8] {
                assert(c@[0] == '.' as u8 && c@[1] == '.' as u8);
            }
        }
    }
    Some(c)
}

/// The path is the current directory: nothing but `.`.
pub open spec fn is_here(p: Seq<u8>) -> bool {
    trimmed(p, p.len() as int) == 1 && p[0] == '.' as u8
}

/// Whether the path is the current directory.
pub fn is_current_dir(p: &[u8]) -> (r: bool)
    ensures
        r == is_here(p@),
{
    let e: usize = trim(p, p.len());
    e == 1 && p[0] == '.' as u8
}

/// The directories that the path is below, from its own parent to the outermost.
pub open spec fn parents_of(p: Seq<u8>) -> Seq<Seq<u8>>
    decreases p.len(),
{
    match parent_of(p) {
        None => seq![],
        Some(d) => {
            proof {
                lemma_parent_is_shorter(p);
            }
            seq![d] + parents_of(d)
        },
    }
}

pub proof fn lemma_parent_is_shorter(p: Seq<u8>)
    ensures
        parent_of(p) matches Some(d) ==> d.len() < p.len(),
{
    let n = p.len() as int;
    lemma_trimmed(p, n);
    let e = trimmed(p, n);
    if has_last(p) {
        lemma_component_start(p, e);
        let st = component_start(p, e);
        assert(p[e - 1] != '/' as u8);
        lemma_trimmed(p, st);
    }
}

/// The paths of `v`.
pub open spec fn paths_view(v: Seq<Vec<u8>>) -> Seq<Seq<u8>> {
    v.map_values(|p: Vec<u8>| p@)
}

/// The directories that the path is below, from its own parent to the outermost.
pub fn ancestors(path: &[u8]) -> (r: Vec<Vec<u8>>)
    ensures
        paths_view(r@) == parents_of(path@),
{
    let mut out: Vec<Vec<u8>> = Vec::new();
    let mut cur: &[u8] = path;
    assert(paths_view(out@) + parents_of(path@) =~= parents_of(path@));
    loop
        invariant
            paths_view(out@) + parents_of(cur@) == parents_of(path@),
        decreases cur@.len(),
    {
        proof {
            lemma_parent_is_shorter(cur@);
        }
        match parent(cur) {
            None => {
                assert(paths_view(out@) + Seq::<Seq<u8>>::empty() =~= paths_view(out@));
                return out;
            },
            Some(d) => {
                let ghost before = paths_view(out@);
                out.push(to_vec(d));
                proof {
                    assert(paths_view(out@) =~= before.push(d@));
                    assert(before + (seq![d@] + parents_of(d@)) =~= before.push(d@) + parents_of(
                        d@,
                    ));
                }
                cur = d;
            },
        }
    }
}

/// The last position before `end` and after `start` that holds a dot, or `end`.
pub open spec fn last_dot(p: Seq<u8>, start: int, end: int, k: int) -> int
    decreases k - start,
{
    if k <= start + 1 {
        end
    } else if p[k - 1] == '.' as u8 {
        k - 1
    } else {
        last_dot(p, start, end, k - 1)
    }
}

/// The path with `extension` behind a dot in place of the extension of its last component.
pub open spec fn extension_replaced(p: Seq<u8>, extension: Seq<u8>) -> Seq<u8> {
    if name_of(p) is Some {
        let e = trimmed(p, p.len() as int);
        let st = component_start(p, e);
        p.subrange(0, last_dot(p, st, e, e)) + seq!['.' as u8] + extension
    } else {
        p
    }
}

/// The extension of the last component: what follows its last dot, where that is not its first byte.
pub open spec fn extension_of(p: Seq<u8>) -> Option<Seq<u8>> {
    let e = trimmed(p, p.len() as int);
    let st = component_start(p, e);
    let d = last_dot(p, st, e, e);
    if name_of(p) is Some && d < e {
        Some(p.subrange(d + 1, e))
    } else {
        None
    }
}

/// Where the last dot of a component stands.
fn find_last_dot(p: &[u8], start: usize, end: usize) -> (r: usize)
    requires
        start <= end <= p@.len(),
    ensures
        r == last_dot(p@, start as int, end as int, end as int),
        start <= r <= end,
{
    let mut k: usize = end;
    while k > start && k - 1 > start
        invariant
            start <= k <= end <= p@.len(),
            last_dot(p@, start as int, end as int, end as int) == last_dot(
                p@,
                start as int,
                end as int,
                k as int,
            ),
        decreases k,
    {
        if p[k - 1] == '.' as u8 {
            return k - 1;
        }
        k -= 1;
    }
    end
}

/// The path with `extension` behind a dot in place of the extension of its last component.
pub fn with_extension(p: &[u8], extension: &[u8]) -> (r: Vec<u8>)
    ensures
        r@ == extension_replaced(p@, extension@),
{
    if file_name(p).is_none() {
        return to_vec(p);
    }
    let e: usize = trim(p, p.len());
    let st: usize = find_component_start(p, e);
    let d: usize = find_last_dot(p, st, e);
    let mut r = to_vec(&p[0..d]);
    r.push('.' as u8);
    push_all(&mut r, extension);
    assert(r@ =~= extension_replaced(p@, extension@));
    r
}

/// The extension of the last component.
pub fn extension(p: &[u8]) -> (r: Option<&[u8]>)
    ensures
        match extension_of(p@) {
            Some(x) => r matches Some(y) && y@ == x,
            None => r is None,
        },
{
    if file_name(p).is_none() {
        return None;
    }
    let e: usize = trim(p, p.len());
    let st: usize = find_component_start(p, e);
    let d: usize = find_last_dot(p, st, e);
    if d < e {
        Some(&p[d + 1..e])
    } else {
        None
    }
}

} // verus!
