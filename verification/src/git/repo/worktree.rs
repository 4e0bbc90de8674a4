//! The path in a worktree that is looked at.
use crate::bytes::{eq_bytes, find_byte, pos_of, to_vec};
use crate::path::{join, joined, paths_view};
use vstd::prelude::*;

verus! {

/// The names between the slashes of `p`, from position `i` on.
pub open spec fn names_from(p: Seq<u8>, i: int) -> Seq<Seq<u8>>
    decreases p.len() - i,
{
    let j = pos_of(p, '/' as u8, i);
    if i >= p.len() || i < 0 {
        Seq::empty()
    } else if p[i] == '/' as u8 {
        names_from(p, i + 1)
    } else if j <= i || j > p.len() {
        Seq::empty()
    } else {
        seq![p.subrange(i, j)] + names_from(p, j)
    }
}

/// Every name is one of an entry of a directory.
pub open spec fn all_normal(v: Seq<Seq<u8>>) -> bool {
    forall|k: int|
        0 <= k < v.len() ==> (#[trigger] v[k]) != seq!['.' as u8] && v[k] != seq!['.' as u8, '.' as u8]
}

/// How many names `a` and `b` have in common at their beginning, from the `k`-th on.
pub open spec fn common_from(a: Seq<Seq<u8>>, b: Seq<Seq<u8>>, k: int) -> int
    decreases a.len() - k,
{
    if k < 0 || k >= a.len() || k >= b.len() || a[k] != b[k] {
        k
    } else {
        common_from(a, b, k + 1)
    }
}

/// `root` with the first `k` names behind it.
pub open spec fn below(root: Seq<u8>, v: Seq<Seq<u8>>, k: int) -> Seq<u8>
    decreases k,
{
    if k <= 0 {
        root
    } else {
        joined(below(root, v, k - 1), v[k - 1])
    }
}

/// The path in the worktree that is looked at.
#[derive(Debug)]
pub struct GixWorktreeGixFsStack {
    pub root: Vec<u8>,
    /// The names of the path below the root.
    pub components: Vec<Vec<u8>>,
    pub current_is_directory: bool,
}

/// The names of a path.
fn names_of(p: &[u8]) -> (r: Vec<Vec<u8>>)
    ensures
        paths_view(r@) == names_from(p@, 0),
{
    let n = p.len();
    let mut out: Vec<Vec<u8>> = Vec::new();
    let mut i: usize = 0;
    assert(paths_view(out@) + names_from(p@, 0) =~= names_from(p@, 0));
    while i < n
        invariant
            i <= n,
            n == p@.len(),
            names_from(p@, 0) == paths_view(out@) + names_from(p@, i as int),
        decreases n - i,
    {
        if p[i] == '/' as u8 {
            i += 1;
        } else {
            let rest = &p[i..n];
            let ghost q = pos_of(rest@, '/' as u8, 0);
            proof {
                crate::bytes::lemma_pos_of(rest@, '/' as u8, 0);
                assert forall|j: int| i <= j < i + q implies p@[j] != '/' as u8 by {
                    assert(rest@[j - i] == p@[j]);
                }
                assert(q < rest@.len() ==> p@[i + q] == rest@[q]);
                assert(rest@[0] == p@[i as int]);
                crate::bytes::lemma_pos_of_is(p@, '/' as u8, i as int, i + q);
            }
            let j = match find_byte(rest, '/' as u8) {
                Some(q) => i + q,
                None => n,
            };
            let ghost before = paths_view(out@);
            out.push(to_vec(&p[i..j]));
            proof {
                let c = p@.subrange(i as int, j as int);
                assert(paths_view(out@) =~= before.push(c));
                assert(before + (seq![c] + names_from(p@, j as int)) =~= paths_view(out@) + names_from(
                    p@,
                    j as int,
                ));
            }
            i = j;
        }
    }
    assert(paths_view(out@) + names_from(p@, i as int) =~= paths_view(out@));
    out
}

impl GixWorktreeGixFsStack {
    /// At the root.
    pub fn new(root: Vec<u8>) -> (r: GixWorktreeGixFsStack)
        ensures
            r.root@ == root@,
            r.components@.len() == 0,
            r.current_is_directory,
    {
        GixWorktreeGixFsStack { root, components: Vec::new(), current_is_directory: true }
    }

    /// Goes to the path `relative` below the root.
    pub fn hx_make_relative_path_current(&mut self, relative: &[u8])
        requires
            all_normal(names_from(relative@, 0)),
        ensures
            final(self).root == old(self).root,
            paths_view(final(self).components@) == names_from(relative@, 0),
            ({
                let was = paths_view(old(self).components@);
                let now = names_from(relative@, 0);
                let same = common_from(was, now, 0);
                final(self).current_is_directory == (if same < now.len() {
                    false
                } else if same < was.len() {
                    true
                } else {
                    old(self).current_is_directory
                })
            }),
    {
        let names = names_of(relative);
        let ghost was = paths_view(self.components@);
        let ghost now = paths_view(names@);
        let mut same: usize = 0;
        while same < self.components.len() && same < names.len() && eq_bytes(
            self.components[same].as_slice(),
            names[same].as_slice(),
        )
            invariant
                same <= self.components@.len(),
                same <= names@.len(),
                *self == *old(self),
                was == paths_view(self.components@),
                now == paths_view(names@),
                common_from(was, now, 0) == common_from(was, now, same as int),
                forall|k: int| 0 <= k < same ==> was[k] == now[k],
            decreases names.len() - same,
        {
            assert(was[same as int] == self.components@[same as int]@);
            assert(now[same as int] == names@[same as int]@);
            same += 1;
        }
        proof {
            if same < was.len() && same < now.len() {
                assert(was[same as int] == self.components@[same as int]@);
                assert(now[same as int] == names@[same as int]@);
            }
        }
        if self.components.len() > same {
            self.current_is_directory = true;
        }
        self.components.truncate(same);
        assert(paths_view(self.components@) =~= now.take(same as int));
        let mut i: usize = same;
        while i < names.len()
            invariant
                same <= i <= names@.len(),
                self.root == old(self).root,
                now == paths_view(names@),
                paths_view(self.components@) == now.take(i as int),
                i == same ==> self.current_is_directory == (if same < was.len() {
                    true
                } else {
                    old(self).current_is_directory
                }),
                i > same ==> self.current_is_directory == (i != names@.len()),
            decreases names.len() - i,
        {
            let ghost before = paths_view(self.components@);
            self.components.push(to_vec(names[i].as_slice()));
            self.current_is_directory = i + 1 != names.len();
            assert(paths_view(self.components@) =~= before.push(now[i as int]));
            assert(paths_view(self.components@) =~= now.take(i + 1));
            i += 1;
        }
        assert(now.take(now.len() as int) =~= now);
    }

    /// The path below the root.
    pub fn hx_current_relative(&self) -> (r: Vec<u8>)
        ensures
            r@ == below(Seq::empty(), paths_view(self.components@), self.components@.len() as int),
    {
        let mut p: Vec<u8> = Vec::new();
        let ghost v = paths_view(self.components@);
        let mut i: usize = 0;
        assert(p@ =~= Seq::<u8>::empty());
        while i < self.components.len()
            invariant
                i <= self.components@.len(),
                v == paths_view(self.components@),
                p@ == below(Seq::empty(), v, i as int),
            decreases self.components.len() - i,
        {
            assert(v[i as int] == self.components@[i as int]@);
            p = join(p.as_slice(), self.components[i].as_slice());
            i += 1;
        }
        p
    }
}

/// The path begins with a name, ends with one, and has one slash between its names.
pub open spec fn one_slash_between(p: Seq<u8>) -> bool {
    &&& p.len() > 0 ==> p[0] != '/' as u8 && p.last() != '/' as u8
    &&& forall|i: int| 0 <= i < p.len() - 1 ==> !(#[trigger] p[i] == '/' as u8 && p[i + 1] == '/' as u8)
}

/// The first of the names can be put behind the root before the others.
proof fn lemma_below_first(root: Seq<u8>, c: Seq<u8>, rest: Seq<Seq<u8>>, k: int)
    requires
        0 <= k <= rest.len(),
    ensures
        below(root, seq![c] + rest, k + 1) == below(joined(root, c), rest, k),
    decreases k,
{
    let v = seq![c] + rest;
    assert(v[0] == c);
    if k > 0 {
        lemma_below_first(root, c, rest, k - 1);
        assert(v[k] == rest[k - 1]);
    } else {
        assert(below(root, v, 0) == root);
    }
}

proof fn lemma_names_make_the_path(p: Seq<u8>, i: int)
    requires
        one_slash_between(p),
        0 <= i < p.len(),
        p[i] != '/' as u8,
        i == 0 || p[i - 1] == '/' as u8,
    ensures
        ({
            let names = names_from(p, i);
            below(
                if i == 0 {
                    Seq::empty()
                } else {
                    p.take(i - 1)
                },
                names,
                names.len() as int,
            ) == p
        }),
    decreases p.len() - i,
{
    let root = if i == 0 {
        Seq::empty()
    } else {
        p.take(i - 1)
    };
    let j = pos_of(p, '/' as u8, i);
    crate::bytes::lemma_pos_of(p, '/' as u8, i);
    let c = p.subrange(i, j);
    let rest = names_from(p, j);
    assert(c[0] == p[i]);
    if i > 0 {
        assert(i >= 2 && p[i - 2] != '/' as u8) by {
            assert(p[0] != '/' as u8);
            assert(!(p[i - 2] == '/' as u8 && p[i - 2 + 1] == '/' as u8));
        }
        assert(root.last() == p[i - 2]);
    }
    assert(joined(root, c) =~= p.take(j));
    lemma_below_first(root, c, rest, rest.len() as int);
    if j < p.len() {
        assert(j + 1 < p.len() && p[j + 1] != '/' as u8) by {
            assert(p.last() != '/' as u8);
            assert(!(p[j] == '/' as u8 && p[j + 1] == '/' as u8));
        }
        assert(names_from(p, j) == names_from(p, j + 1));
        lemma_names_make_the_path(p, j + 1);
    } else {
        assert(p.take(j) =~= p);
        assert(rest.len() == 0);
    }
}

/// The path that is given back is the one that was last gone to, where it has no more slashes than
/// it needs.
pub proof fn law_current_path_is_given_back(relative: Seq<u8>)
    requires
        one_slash_between(relative),
    ensures
        below(Seq::empty(), names_from(relative, 0), names_from(relative, 0).len() as int) == relative,
{
    if relative.len() > 0 {
        lemma_names_make_the_path(relative, 0);
    } else {
        assert(relative =~= Seq::empty());
    }
}

} // verus!
