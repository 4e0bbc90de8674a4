//! The components of paths.
use crate::bytes::{eq_bytes, find_byte, pos_of, to_vec};
use crate::path::{absolute, is_absolute, join, joined, parent, parent_of};
use vstd::prelude::*;

verus! {

/// A component of a path.
#[derive(Debug)]
pub enum Part {
    /// The root.
    Root,
    /// A `.` at the beginning.
    Here,
    /// A `..`.
    Up,
    Name(Vec<u8>),
}

/// What a `Part` stands for.
pub enum PartView {
    Root,
    Here,
    Up,
    Name(Seq<u8>),
}

impl View for Part {
    type V = PartView;

    open spec fn view(&self) -> PartView {
        match *self {
            Part::Root => PartView::Root,
            Part::Here => PartView::Here,
            Part::Up => PartView::Up,
            Part::Name(n) => PartView::Name(n@),
        }
    }
}

/// The components that stand for those of `v`.
pub open spec fn parts_view(v: Seq<Part>) -> Seq<PartView> {
    Seq::new(v.len(), |i: int| v[i]@)
}

/// The components of `p` from position `i` on. Separators next to each other count as one, and a `.` is left out
/// but at the beginning.
pub open spec fn parts_from(p: Seq<u8>, i: int) -> Seq<PartView>
    decreases p.len() - i,
{
    let j = pos_of(p, '/' as u8, i);
    if i >= p.len() || i < 0 {
        Seq::empty()
    } else if p[i] == '/' as u8 {
        parts_from(p, i + 1)
    } else if j <= i || j > p.len() {
        Seq::empty()
    } else {
        let c = p.subrange(i, j);
        let rest = parts_from(p, j);
        if c == seq!['.' as u8] {
            if i == 0 {
                seq![PartView::Here] + rest
            } else {
                rest
            }
        } else if c == seq!['.' as u8, '.' as u8] {
            seq![PartView::Up] + rest
        } else {
            seq![PartView::Name(c)] + rest
        }
    }
}

/// The components of `p`.
pub open spec fn parts(p: Seq<u8>) -> Seq<PartView> {
    if absolute(p) {
        seq![PartView::Root] + parts_from(p, 0)
    } else {
        parts_from(p, 0)
    }
}

/// The path of one component.
pub open spec fn part_path(c: PartView) -> Seq<u8> {
    match c {
        PartView::Root => seq!['/' as u8],
        PartView::Here => seq!['.' as u8],
        PartView::Up => seq!['.' as u8, '.' as u8],
        PartView::Name(n) => n,
    }
}

/// The path `p` with the component `c` behind it.
pub open spec fn pushed(p: Seq<u8>, c: PartView) -> Seq<u8> {
    joined(p, part_path(c))
}

impl Part {
    /// The path of this component.
    pub fn to_path(&self) -> (r: Vec<u8>)
        ensures
            r@ == part_path(self@),
    {
        let mut v: Vec<u8> = Vec::new();
        match self {
            Part::Root => {
                v.push('/' as u8);
            },
            Part::Here => {
                v.push('.' as u8);
            },
            Part::Up => {
                v.push('.' as u8);
                v.push('.' as u8);
            },
            Part::Name(n) => {
                v = to_vec(n.as_slice());
            },
        }
        assert(v@ =~= part_path(self@));
        v
    }

    /// Whether both are the same.
    pub fn same(&self, other: &Part) -> (r: bool)
        ensures
            r == (self@ == other@),
    {
        match (self, other) {
            (Part::Root, Part::Root) => true,
            (Part::Here, Part::Here) => true,
            (Part::Up, Part::Up) => true,
            (Part::Name(a), Part::Name(b)) => eq_bytes(a.as_slice(), b.as_slice()),
            _ => false,
        }
    }
}

/// The path `p` with the component `c` behind it.
pub fn push_part(p: &[u8], c: &Part) -> (r: Vec<u8>)
    ensures
        r@ == pushed(p@, c@),
{
    join(p, c.to_path().as_slice())
}

/// The separator at or after `i`, or the end.
fn separator(p: &[u8], i: usize) -> (r: usize)
    requires
        i <= p@.len(),
    ensures
        r == pos_of(p@, '/' as u8, i as int),
        i <= r <= p@.len(),
        i < p@.len() && p@[i as int] != '/' as u8 ==> i < r,
{
    let n = p.len();
    let rest = &p[i..n];
    let ghost q = pos_of(rest@, '/' as u8, 0);
    proof {
        crate::bytes::lemma_pos_of(rest@, '/' as u8, 0);
        assert forall|j: int| i <= j < i + q implies p@[j] != '/' as u8 by {
            assert(rest@[j - i] == p@[j]);
        }
        assert(q < rest@.len() ==> p@[i + q] == rest@[q]);
        crate::bytes::lemma_pos_of_is(p@, '/' as u8, i as int, i + q);
    }
    match find_byte(rest, '/' as u8) {
        Some(q) => i + q,
        None => n,
    }
}

/// The component that `c` is at position `i`; `None` where it is left out.
fn part_of(c: &[u8], at_start: bool) -> (r: Option<Part>)
    ensures
        match r {
            None => c@ == seq!['.' as u8] && !at_start,
            Some(x) => x@ == (if c@ == seq!['.' as u8] {
                PartView::Here
            } else if c@ == seq!['.' as u8, '.' as u8] {
                PartView::Up
            } else {
                PartView::Name(c@)
            }) && (c@ == seq!['.' as u8] ==> at_start),
        },
{
    let one: [u8; 1] = ['.' as u8];
    let two: [u8; 2] = ['.' as u8, '.' as u8];
    assert(one@ =~= seq!['.' as u8]);
    assert(two@ =~= seq!['.' as u8, '.' as u8]);
    if eq_bytes(c, &one) {
        if at_start {
            Some(Part::Here)
        } else {
            None
        }
    } else if eq_bytes(c, &two) {
        Some(Part::Up)
    } else {
        Some(Part::Name(to_vec(c)))
    }
}

/// The components of a path.
pub fn parts_of(p: &[u8]) -> (r: Vec<Part>)
    ensures
        parts_view(r@) == parts(p@),
{
    let n = p.len();
    let mut out: Vec<Part> = Vec::new();
    if is_absolute(p) {
        out.push(Part::Root);
    }
    let ghost head = parts_view(out@);
    let mut i: usize = 0;
    assert(absolute(p@) ==> head =~= seq![PartView::Root]);
    assert(!absolute(p@) ==> head + parts_from(p@, 0) =~= parts_from(p@, 0));
    while i < n
        invariant
            i <= n,
            n == p@.len(),
            head + parts_from(p@, 0) == parts_view(out@) + parts_from(p@, i as int),
        decreases n - i,
    {
        if p[i] == '/' as u8 {
            i += 1;
        } else {
            let j = separator(p, i);
            let ghost before = parts_view(out@);
            let ghost rest = parts_from(p@, j as int);
            match part_of(&p[i..j], i == 0) {
                None => {},
                Some(c) => {
                    out.push(c);
                    proof {
                        assert(parts_view(out@) =~= before.push(c@));
                        assert(before + (seq![c@] + rest) =~= parts_view(out@) + rest);
                    }
                },
            }
            i = j;
        }
    }
    assert(parts_view(out@) + parts_from(p@, i as int) =~= parts_view(out@));
    out
}

/// Whether both have the same components.
pub fn same_parts(a: &Vec<Part>, b: &Vec<Part>) -> (r: bool)
    ensures
        r == (parts_view(a@) == parts_view(b@)),
{
    let ghost x = parts_view(a@);
    let ghost y = parts_view(b@);
    if a.len() != b.len() {
        assert(x.len() != y.len());
        return false;
    }
    let mut i: usize = 0;
    while i < a.len()
        invariant
            i <= a@.len(),
            a@.len() == b@.len(),
            x == parts_view(a@),
            y == parts_view(b@),
            forall|j: int| 0 <= j < i ==> x[j] == y[j],
        decreases a.len() - i,
    {
        assert(x[i as int] == a@[i as int]@ && y[i as int] == b@[i as int]@);
        if !a[i].same(&b[i]) {
            return false;
        }
        i += 1;
    }
    assert(x =~= y);
    true
}

/// The path goes up somewhere.
pub open spec fn goes_up(v: Seq<PartView>) -> bool {
    exists|k: int| 0 <= k < v.len() && (#[trigger] v[k]) is Up
}

/// The path that the first `k` components come to, with every `..` carried out. Where the path goes up from its
/// beginning, it does so from `cwd`, once.
pub open spec fn carried_out(v: Seq<PartView>, k: int, cwd: Seq<u8>) -> Option<(Seq<u8>, bool)>
    decreases k,
{
    if k <= 0 {
        Some((Seq::empty(), false))
    } else {
        match carried_out(v, k - 1, cwd) {
            None => None,
            Some((p, used)) => if v[k - 1] is Up {
                if p.len() == 0 || parts(p) == seq![PartView::Here] {
                    if used {
                        None
                    } else {
                        match parent_of(joined(p, cwd)) {
                            Some(d) => Some((d, true)),
                            None => None,
                        }
                    }
                } else {
                    match parent_of(p) {
                        Some(d) => Some((d, used)),
                        None => None,
                    }
                }
            } else {
                Some((pushed(p, v[k - 1]), used))
            },
        }
    }
}

/// `path` with every `..` carried out; `.` where a relative path comes to `cwd`.
pub open spec fn normalized(path: Seq<u8>, cwd: Seq<u8>) -> Option<Seq<u8>> {
    let v = parts(path);
    if !goes_up(v) {
        Some(path)
    } else {
        match carried_out(v, v.len() as int, cwd) {
            None => None,
            Some((p, _)) => if (p.len() == 0 || parts(p) == parts(cwd)) && !absolute(path) {
                Some(seq!['.' as u8])
            } else {
                Some(p)
            },
        }
    }
}

/// Whether the path is `.`.
fn is_dot(p: &[u8]) -> (r: bool)
    ensures
        r == (parts(p@) == seq![PartView::Here]),
{
    let v = parts_of(p);
    let ghost x = parts_view(v@);
    if v.len() != 1 {
        assert(x.len() != 1);
        return false;
    }
    assert(x[0] == v@[0]@);
    match &v[0] {
        Part::Here => {
            assert(x =~= seq![PartView::Here]);
            true
        },
        _ => {
            assert(x != seq![PartView::Here]) by {
                if x == seq![PartView::Here] {
                    assert(x[0] == PartView::Here);
                }
            }
            false
        },
    }
}

/// `path` with every `..` carried out.
pub fn normalize(path: &[u8], cwd: &[u8]) -> (r: Option<Vec<u8>>)
    ensures
        r is Some <==> normalized(path@, cwd@) is Some,
        r matches Some(p) ==> normalized(path@, cwd@) == Some(p@),
{
    let v = parts_of(path);
    let ghost x = parts_view(v@);
    let mut k: usize = 0;
    let mut up = false;
    while k < v.len() && !up
        invariant
            k <= v@.len(),
            x == parts_view(v@),
            up ==> goes_up(x),
            !up ==> forall|j: int| 0 <= j < k ==> !((#[trigger] x[j]) is Up),
        decreases v.len() - k + (if up { 0int } else { 1 }),
    {
        assert(x[k as int] == v@[k as int]@);
        match &v[k] {
            Part::Up => {
                up = true;
            },
            _ => {
                k += 1;
            },
        }
    }
    if !up {
        return Some(to_vec(path));
    }
    let mut p: Vec<u8> = Vec::new();
    let mut used = false;
    let mut i: usize = 0;
    assert(p@ =~= Seq::<u8>::empty());
    while i < v.len()
        invariant
            i <= v@.len(),
            x == parts_view(v@),
            goes_up(x),
            x == parts(path@),
            carried_out(x, i as int, cwd@) == Some((p@, used)),
        decreases v.len() - i,
    {
        assert(x[i as int] == v@[i as int]@);
        match &v[i] {
            Part::Up => {
                if p.len() == 0 || is_dot(p.as_slice()) {
                    if used {
                        proof {
                            lemma_carried_out_stops(x, i + 1, x.len() as int, cwd@);
                        }
                        return None;
                    }
                    used = true;
                    p = join(p.as_slice(), cwd);
                }
                match parent(p.as_slice()) {
                    None => {
                        proof {
                            lemma_carried_out_stops(x, i + 1, x.len() as int, cwd@);
                        }
                        return None;
                    },
                    Some(d) => {
                        p = to_vec(d);
                    },
                }
            },
            c => {
                p = push_part(p.as_slice(), c);
            },
        }
        i += 1;
    }
    if !is_absolute(path) && (p.len() == 0 || same_parts(&parts_of(p.as_slice()), &parts_of(cwd))) {
        let mut dot: Vec<u8> = Vec::new();
        dot.push('.' as u8);
        assert(dot@ =~= seq!['.' as u8]);
        return Some(dot);
    }
    Some(p)
}

/// What cannot be carried out in part cannot be carried out.
proof fn lemma_carried_out_stops(v: Seq<PartView>, i: int, k: int, cwd: Seq<u8>)
    requires
        0 <= i <= k,
        carried_out(v, i, cwd) is None,
    ensures
        carried_out(v, k, cwd) is None,
    decreases k,
{
    if i < k {
        lemma_carried_out_stops(v, i, k - 1, cwd);
    }
}

/// A path that does not go up stays as it is.
pub proof fn law_plain_path_stays(path: Seq<u8>, cwd: Seq<u8>)
    requires
        !goes_up(parts(path)),
    ensures
        normalized(path, cwd) == Some(path),
{
}

} // verus!
