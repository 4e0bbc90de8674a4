//! What following the links of a path comes to.
use crate::bytes::{lemma_pos_of, lemma_pos_of_is, pos_of};
use crate::components::{part_path, parts, parts_from, pushed, PartView};
use crate::git::repo::realpath::{advanced, Advance, MAX_SYMLINKS, MAX_SYMLINK_CHECKS};
use crate::path::{absolute, component_start, joined, lemma_component_start, parent_of, trimmed};
use vstd::prelude::*;

verus! {

/// What is at a path.
pub enum LinkView {
    NotALink,
    Link(Seq<u8>),
    Failed,
}

/// What following the links comes to from the path `p` on with the components `v`, where `links` says what is at each
/// path and `followed` links were followed and `checks` components looked at. `None` after an error.
pub open spec fn resolved(
    links: spec_fn(Seq<u8>) -> LinkView,
    p: Seq<u8>,
    v: Seq<PartView>,
    followed: int,
    checks: int,
) -> Option<Seq<u8>>
    decreases MAX_SYMLINK_CHECKS - checks,
{
    match advanced(p, v) {
        Advance::Done(q) => Some(q),
        Advance::Fail => None,
        Advance::Ask(q, rest) => match links(q) {
            LinkView::Failed => None,
            LinkView::NotALink => if checks + 1 > MAX_SYMLINK_CHECKS {
                None
            } else {
                resolved(links, q, rest, followed, checks + 1)
            },
            LinkView::Link(dest) => if followed >= MAX_SYMLINKS || checks + 1 > MAX_SYMLINK_CHECKS {
                None
            } else {
                resolved(
                    links,
                    if absolute(dest) || parent_of(q) is None {
                        q
                    } else {
                        parent_of(q)->0
                    },
                    parts(dest) + rest,
                    followed + 1,
                    checks + 1,
                )
            },
        },
    }
}

/// What following the links of `path` comes to, from `cwd` where it is relative.
pub open spec fn real_path_of(links: spec_fn(Seq<u8>) -> LinkView, path: Seq<u8>, cwd: Seq<u8>) -> Option<Seq<u8>> {
    if path.len() == 0 {
        None
    } else {
        resolved(
            links,
            if absolute(path) {
                Seq::empty()
            } else {
                cwd
            },
            parts(path),
            0,
            0,
        )
    }
}

/// The name is one of an entry of a directory.
pub open spec fn plain_name(n: Seq<u8>) -> bool {
    &&& n.len() > 0
    &&& !n.contains('/' as u8)
    &&& n != seq!['.' as u8]
    &&& n != seq!['.' as u8, '.' as u8]
}

/// The names behind the root, with a slash between each two.
pub open spec fn slashed(v: Seq<Seq<u8>>) -> Seq<u8>
    decreases v.len(),
{
    if v.len() == 0 {
        seq!['/' as u8]
    } else {
        pushed(slashed(v.drop_last()), PartView::Name(v.last()))
    }
}

/// The path is absolute, made of these names, and has no link in it.
pub open spec fn is_real_with(links: spec_fn(Seq<u8>) -> LinkView, p: Seq<u8>, v: Seq<Seq<u8>>) -> bool {
    &&& p == slashed(v)
    &&& forall|i: int| 0 <= i < v.len() ==> plain_name(#[trigger] v[i])
    &&& forall|k: int| 1 <= k <= v.len() ==> links(slashed(#[trigger] v.take(k))) is NotALink
}

/// The path is absolute, has no `.` and no `..`, no more slashes than it needs, and no link in it.
pub open spec fn is_real(links: spec_fn(Seq<u8>) -> LinkView, p: Seq<u8>) -> bool {
    exists|v: Seq<Seq<u8>>| is_real_with(links, p, v)
}

/// As `is_real`, with `n` names at most.
spec fn real_within(links: spec_fn(Seq<u8>) -> LinkView, p: Seq<u8>, n: int) -> bool {
    exists|v: Seq<Seq<u8>>| is_real_with(links, p, v) && v.len() <= n
}

/// The path has no link in it but for its last name, and `n` names at most.
spec fn real_but_last(links: spec_fn(Seq<u8>) -> LinkView, p: Seq<u8>, n: int) -> bool {
    exists|v: Seq<Seq<u8>>| #[trigger] last_open(links, p, v) && v.len() <= n
}

spec fn last_open(links: spec_fn(Seq<u8>) -> LinkView, p: Seq<u8>, v: Seq<Seq<u8>>) -> bool {
    &&& v.len() > 0
    &&& p == slashed(v)
    &&& plain_name(v.last())
    &&& is_real_with(links, slashed(v.drop_last()), v.drop_last())
}

/// The names among the components are names of entries of directories.
spec fn plain_parts(v: Seq<PartView>) -> bool {
    forall|i: int| 0 <= i < v.len() ==> ((#[trigger] v[i]) matches PartView::Name(n) ==> plain_name(n))
}

/// The names as components.
pub open spec fn name_parts(v: Seq<Seq<u8>>) -> Seq<PartView> {
    v.map_values(|n: Seq<u8>| PartView::Name(n))
}

proof fn lemma_slashed(v: Seq<Seq<u8>>)
    requires
        forall|i: int| 0 <= i < v.len() ==> plain_name(#[trigger] v[i]),
    ensures
        absolute(slashed(v)),
        v.len() > 0 ==> slashed(v).last() != '/' as u8,
        v.len() == 1 ==> slashed(v) == seq!['/' as u8] + v[0],
        v.len() > 1 ==> slashed(v) == slashed(v.drop_last()) + seq!['/' as u8] + v.last(),
    decreases v.len(),
{
    if v.len() > 0 {
        let w = v.drop_last();
        let n = v.last();
        assert(plain_name(v[v.len() - 1]));
        assert forall|i: int| 0 <= i < w.len() implies plain_name(#[trigger] w[i]) by {
            assert(plain_name(v[i]));
        }
        lemma_slashed(w);
        assert(n.contains(n[0]));
        assert(!absolute(n));
        assert(n.contains(n.last()));
        let p = slashed(w);
        assert(slashed(v) == joined(p, n));
        assert(slashed(v).last() == n.last());
        assert(slashed(v)[0] == p[0]);
        if v.len() == 1 {
            assert(w =~= Seq::empty());
        }
    }
}

/// The components of a path with a name behind it.
proof fn lemma_parts_behind(p: Seq<u8>, n: Seq<u8>, i: int)
    requires
        p.len() > 0,
        plain_name(n),
        0 <= i <= p.len(),
    ensures
        parts_from(p + seq!['/' as u8] + n, i) == parts_from(p, i).push(PartView::Name(n)),
    decreases p.len() - i,
{
    let q = p + seq!['/' as u8] + n;
    let m = p.len() as int;
    if i == m {
        assert(q[m] == '/' as u8);
        assert(q[m + 1] == n[0]);
        assert(n.contains(n[0]));
        assert forall|j: int| m + 1 <= j < q.len() implies q[j] != '/' as u8 by {
            assert(q[j] == n[j - m - 1]);
            assert(n.contains(n[j - m - 1]));
        }
        lemma_pos_of_is(q, '/' as u8, m + 1, q.len() as int);
        assert(q.subrange(m + 1, q.len() as int) =~= n);
        assert(parts_from(q, q.len() as int) =~= Seq::empty());
        assert(parts_from(q, m + 1) =~= seq![PartView::Name(n)]);
        assert(parts_from(q, m) == parts_from(q, m + 1));
        assert(parts_from(p, i) =~= Seq::empty());
        assert(parts_from(p, i).push(PartView::Name(n)) =~= seq![PartView::Name(n)]);
    } else if p[i] == '/' as u8 {
        assert(q[i] == p[i]);
        lemma_parts_behind(p, n, i + 1);
    } else {
        assert(q[i] == p[i]);
        let j = pos_of(p, '/' as u8, i);
        lemma_pos_of(p, '/' as u8, i);
        assert forall|x: int| i <= x < j implies q[x] != '/' as u8 by {
            assert(q[x] == p[x]);
        }
        assert(q[j] == '/' as u8);
        lemma_pos_of_is(q, '/' as u8, i, j);
        assert(q.subrange(i, j) =~= p.subrange(i, j));
        lemma_parts_behind(p, n, j);
        let c = p.subrange(i, j);
        let rest = parts_from(p, j);
        assert((seq![PartView::Here] + rest).push(PartView::Name(n)) =~= seq![PartView::Here] + rest.push(
            PartView::Name(n),
        ));
        assert((seq![PartView::Up] + rest).push(PartView::Name(n)) =~= seq![PartView::Up] + rest.push(
            PartView::Name(n),
        ));
        assert((seq![PartView::Name(c)] + rest).push(PartView::Name(n)) =~= seq![PartView::Name(c)] + rest.push(
            PartView::Name(n),
        ));
    }
}

/// The components of a path that was made of names are the root and these names.
proof fn lemma_parts_of_slashed(v: Seq<Seq<u8>>)
    requires
        forall|i: int| 0 <= i < v.len() ==> plain_name(#[trigger] v[i]),
    ensures
        parts(slashed(v)) == seq![PartView::Root] + name_parts(v),
        parts_from(slashed(v), 0) == name_parts(v),
    decreases v.len(),
{
    let p = slashed(v);
    lemma_slashed(v);
    if v.len() == 0 {
        assert(parts_from(p, 1) =~= Seq::empty());
        assert(parts_from(p, 0) == parts_from(p, 1));
        assert(name_parts(v) =~= Seq::empty());
    } else {
        let w = v.drop_last();
        let n = v.last();
        assert(plain_name(v[v.len() - 1]));
        assert forall|i: int| 0 <= i < w.len() implies plain_name(#[trigger] w[i]) by {
            assert(plain_name(v[i]));
        }
        lemma_parts_of_slashed(w);
        assert(name_parts(v) =~= name_parts(w).push(PartView::Name(n)));
        if v.len() == 1 {
            assert(p[0] == '/' as u8);
            assert(p[1] == n[0]);
            assert(n.contains(n[0]));
            assert forall|j: int| 1 <= j < p.len() implies p[j] != '/' as u8 by {
                assert(p[j] == n[j - 1]);
                assert(n.contains(n[j - 1]));
            }
            lemma_pos_of_is(p, '/' as u8, 1, p.len() as int);
            assert(p.subrange(1, p.len() as int) =~= n);
            assert(parts_from(p, p.len() as int) =~= Seq::empty());
            assert(parts_from(p, 1) =~= seq![PartView::Name(n)]);
            assert(parts_from(p, 0) == parts_from(p, 1));
            assert(name_parts(w) =~= Seq::empty());
        } else {
            lemma_slashed(w);
            lemma_parts_behind(slashed(w), n, 0);
        }
    }
}

/// Where the last name begins.
proof fn lemma_last_start(p: Seq<u8>, st: int, end: int)
    requires
        0 <= st <= end <= p.len(),
        st == 0 || p[st - 1] == '/' as u8,
        forall|i: int| st <= i < end ==> p[i] != '/' as u8,
    ensures
        component_start(p, end) == st,
    decreases end - st,
{
    if st < end {
        lemma_last_start(p, st, end - 1);
    }
}

/// A path that was made of names ends with the last of them.
proof fn lemma_slashed_end(v: Seq<Seq<u8>>, q: Seq<u8>)
    requires
        v.len() > 0,
        forall|i: int| 0 <= i < v.len() ==> plain_name(#[trigger] v[i]),
        q.len() >= slashed(v).len(),
        q.take(slashed(v).len() as int) == slashed(v),
    ensures
        component_start(q, slashed(v).len() as int) == slashed(v).len() - v.last().len(),
        trimmed(q, slashed(v).len() as int) == slashed(v).len(),
{
    let p = slashed(v);
    let n = v.last();
    let e = p.len() as int;
    let st = e - n.len();
    lemma_slashed(v);
    assert(plain_name(v[v.len() - 1]));
    assert forall|i: int| 0 <= i < e implies #[trigger] q[i] == p[i] by {
        assert(q.take(e)[i] == q[i]);
    }
    assert forall|i: int| st <= i < e implies q[i] != '/' as u8 by {
        assert(p[i] == n[i - st]);
        assert(n.contains(n[i - st]));
    }
    assert(p[st - 1] == '/' as u8);
    lemma_last_start(q, st, e);
    if st == e - 1 && q[st] == '.' as u8 {
        assert(n[0] == p[st]);
        assert(n =~= seq!['.' as u8]);
    }
}

/// The directory of a path that was made of names is made of all but the last.
proof fn lemma_parent_of_slashed(v: Seq<Seq<u8>>)
    requires
        v.len() > 0,
        forall|i: int| 0 <= i < v.len() ==> plain_name(#[trigger] v[i]),
    ensures
        parent_of(slashed(v)) == Some(slashed(v.drop_last())),
{
    let p = slashed(v);
    let w = v.drop_last();
    let e = p.len() as int;
    let st = e - v.last().len();
    lemma_slashed(v);
    assert(p.take(e) =~= p);
    lemma_slashed_end(v, p);
    assert(plain_name(v[v.len() - 1]));
    assert forall|i: int| 0 <= i < w.len() implies plain_name(#[trigger] w[i]) by {
        assert(plain_name(v[i]));
    }
    if w.len() == 0 {
        assert(st == 1);
        assert(p.subrange(0, 1) =~= slashed(w));
    } else {
        let m = slashed(w).len() as int;
        assert(p.take(m) =~= slashed(w));
        lemma_slashed(w);
        lemma_slashed_end(w, p);
        assert(st == m + 1 && p[m] == '/' as u8);
        assert(m > 1) by {
            assert(plain_name(w[w.len() - 1]));
            lemma_component_start(p, m);
        }
        assert(trimmed(p, st) == trimmed(p, m));
        assert(p.subrange(0, m) =~= slashed(w));
    }
}

proof fn lemma_no_parent_of_root()
    ensures
        parent_of(seq!['/' as u8]) is None,
{
}

/// The names among the components of a path are names of entries of directories.
proof fn lemma_plain_parts(p: Seq<u8>, i: int)
    requires
        0 <= i,
    ensures
        plain_parts(parts_from(p, i)),
    decreases p.len() - i,
{
    if i < p.len() {
        if p[i] == '/' as u8 {
            lemma_plain_parts(p, i + 1);
        } else {
            let j = pos_of(p, '/' as u8, i);
            lemma_pos_of(p, '/' as u8, i);
            let c = p.subrange(i, j);
            lemma_plain_parts(p, j);
            if c.contains('/' as u8) {
                let x = choose|x: int| 0 <= x < c.len() && c[x] == '/' as u8;
                assert(p[i + x] == '/' as u8);
            }
            let rest = parts_from(p, j);
            let all = parts_from(p, i);
            assert forall|k: int| 0 <= k < all.len() implies ((#[trigger] all[k]) matches PartView::Name(n)
                ==> plain_name(n)) by {
                if all != rest && k > 0 {
                    assert(all[k] == rest[k - 1]);
                } else if all == rest {
                    assert(all[k] == rest[k]);
                }
            }
        }
    }
}

proof fn lemma_plain_parts_of(p: Seq<u8>)
    ensures
        plain_parts(parts(p)),
{
    lemma_plain_parts(p, 0);
    let v = parts(p);
    assert forall|k: int| 0 <= k < v.len() implies ((#[trigger] v[k]) matches PartView::Name(n) ==> plain_name(
        n,
    )) by {
        if absolute(p) && k > 0 {
            assert(v[k] == parts_from(p, 0)[k - 1]);
        } else if !absolute(p) {
            assert(v[k] == parts_from(p, 0)[k]);
        }
    }
}

proof fn lemma_plain_rest(v: Seq<PartView>)
    requires
        v.len() > 0,
        plain_parts(v),
    ensures
        plain_parts(v.drop_first()),
{
    assert forall|k: int| 0 <= k < v.drop_first().len() implies ((#[trigger] v.drop_first()[k]) matches PartView::Name(
        n,
    ) ==> plain_name(n)) by {
        assert(v.drop_first()[k] == v[k + 1]);
    }
}

/// Going on from a path without links, or from the root, comes to such a path, or to one that lacks only a look at its
/// last name.
proof fn lemma_advanced(links: spec_fn(Seq<u8>) -> LinkView, p: Seq<u8>, v: Seq<PartView>, n: int)
    requires
        0 <= n,
        real_within(links, p, n) || (v.len() > 0 && v[0] is Root),
        plain_parts(v),
    ensures
        match advanced(p, v) {
            Advance::Done(q) => real_within(links, q, n),
            Advance::Fail => true,
            Advance::Ask(q, rest) => real_but_last(links, q, n + 1) && plain_parts(rest),
        },
    decreases v.len(),
{
    if v.len() > 0 {
        let rest = v.drop_first();
        lemma_plain_rest(v);
        match v[0] {
            PartView::Root => {
                let none: Seq<Seq<u8>> = Seq::empty();
                assert(absolute(part_path(PartView::Root)));
                assert(pushed(p, PartView::Root) == slashed(none));
                assert(is_real_with(links, slashed(none), none));
                lemma_advanced(links, slashed(none), rest, n);
            },
            PartView::Here => {
                lemma_advanced(links, p, rest, n);
            },
            PartView::Up => {
                let w = choose|w: Seq<Seq<u8>>| is_real_with(links, p, w) && w.len() <= n;
                if w.len() > 0 {
                    lemma_parent_of_slashed(w);
                    lemma_without_last(links, w);
                    lemma_advanced(links, slashed(w.drop_last()), rest, n);
                } else {
                    lemma_no_parent_of_root();
                }
            },
            PartView::Name(c) => {
                let w = choose|w: Seq<Seq<u8>>| is_real_with(links, p, w) && w.len() <= n;
                let x = w.push(c);
                assert(plain_name(c));
                assert(x.drop_last() =~= w);
                assert(last_open(links, pushed(p, PartView::Name(c)), x));
            },
        }
    }
}

proof fn lemma_without_last(links: spec_fn(Seq<u8>) -> LinkView, v: Seq<Seq<u8>>)
    requires
        v.len() > 0,
        is_real_with(links, slashed(v), v),
    ensures
        is_real_with(links, slashed(v.drop_last()), v.drop_last()),
{
    let w = v.drop_last();
    assert forall|i: int| 0 <= i < w.len() implies plain_name(#[trigger] w[i]) by {
        assert(plain_name(v[i]));
    }
    assert forall|k: int| 1 <= k <= w.len() implies links(slashed(#[trigger] w.take(k))) is NotALink by {
        assert(w.take(k) =~= v.take(k));
    }
}

proof fn lemma_with_last(links: spec_fn(Seq<u8>) -> LinkView, p: Seq<u8>, v: Seq<Seq<u8>>)
    requires
        last_open(links, p, v),
        links(p) is NotALink,
    ensures
        is_real_with(links, p, v),
{
    let w = v.drop_last();
    assert forall|i: int| 0 <= i < v.len() implies plain_name(#[trigger] v[i]) by {
        if i < w.len() {
            assert(plain_name(w[i]));
        }
    }
    assert forall|k: int| 1 <= k <= v.len() implies links(slashed(#[trigger] v.take(k))) is NotALink by {
        if k <= w.len() {
            assert(v.take(k) =~= w.take(k));
        } else {
            assert(v.take(k) =~= v);
        }
    }
}

/// What following links comes to has no links.
proof fn lemma_resolved(
    links: spec_fn(Seq<u8>) -> LinkView,
    p: Seq<u8>,
    v: Seq<PartView>,
    followed: int,
    checks: int,
    base: int,
)
    requires
        0 <= checks <= MAX_SYMLINK_CHECKS,
        0 <= base,
        real_within(links, p, base + checks) || (v.len() > 0 && v[0] is Root),
        plain_parts(v),
    ensures
        resolved(links, p, v, followed, checks) matches Some(q) ==> real_within(
            links,
            q,
            base + MAX_SYMLINK_CHECKS,
        ),
    decreases MAX_SYMLINK_CHECKS - checks,
{
    let n = base + checks;
    lemma_advanced(links, p, v, n);
    match advanced(p, v) {
        Advance::Done(q) => {
            let w = choose|w: Seq<Seq<u8>>| is_real_with(links, q, w) && w.len() <= n;
            assert(is_real_with(links, q, w) && w.len() <= base + MAX_SYMLINK_CHECKS);
        },
        Advance::Fail => {},
        Advance::Ask(q, rest) => {
            let w = choose|w: Seq<Seq<u8>>| #[trigger] last_open(links, q, w) && w.len() <= n + 1;
            if checks + 1 <= MAX_SYMLINK_CHECKS {
                match links(q) {
                    LinkView::Failed => {},
                    LinkView::NotALink => {
                        lemma_with_last(links, q, w);
                        lemma_resolved(links, q, rest, followed, checks + 1, base);
                    },
                    LinkView::Link(dest) => {
                        let more = parts(dest) + rest;
                        lemma_plain_parts_of(dest);
                        assert forall|k: int| 0 <= k < more.len() implies ((
                        #[trigger] more[k]) matches PartView::Name(n) ==> plain_name(n)) by {
                            if k < parts(dest).len() {
                                assert(more[k] == parts(dest)[k]);
                            } else {
                                assert(more[k] == rest[k - parts(dest).len()]);
                            }
                        }
                        assert forall|i: int| 0 <= i < w.len() implies plain_name(#[trigger] w[i]) by {
                            if i < w.len() - 1 {
                                assert(plain_name(w.drop_last()[i]));
                            }
                        }
                        lemma_parent_of_slashed(w);
                        if followed < MAX_SYMLINKS {
                            if absolute(dest) {
                                assert(more[0] is Root);
                                lemma_resolved(links, q, more, followed + 1, checks + 1, base);
                            } else {
                                lemma_resolved(
                                    links,
                                    slashed(w.drop_last()),
                                    more,
                                    followed + 1,
                                    checks + 1,
                                    base,
                                );
                            }
                        }
                    },
                }
            }
        },
    }
}

/// A path without links is gone along to its end.
proof fn lemma_goes_along(links: spec_fn(Seq<u8>) -> LinkView, v: Seq<Seq<u8>>, k: int)
    requires
        is_real_with(links, slashed(v), v),
        0 <= k <= v.len() <= MAX_SYMLINK_CHECKS,
    ensures
        resolved(links, slashed(v.take(k)), name_parts(v.skip(k)), 0, k) == Some(slashed(v)),
    decreases v.len() - k,
{
    let rest = name_parts(v.skip(k));
    if k == v.len() {
        assert(v.take(k) =~= v);
        assert(rest =~= Seq::empty());
    } else {
        assert(rest[0] == PartView::Name(v[k]));
        assert(rest.drop_first() =~= name_parts(v.skip(k + 1)));
        assert(v.take(k + 1).drop_last() =~= v.take(k));
        assert(v.take(k + 1).last() == v[k]);
        assert(slashed(v.take(k + 1)) == pushed(slashed(v.take(k)), PartView::Name(v[k])));
        assert(links(slashed(v.take(k + 1))) is NotALink);
        lemma_goes_along(links, v, k + 1);
    }
}

/// What following the links of a path comes to is absolute, has no `.` and no `..`, and no link in it, as long as the
/// current directory is such a path or the path is absolute.
pub proof fn law_real_path_has_no_links(links: spec_fn(Seq<u8>) -> LinkView, path: Seq<u8>, cwd: Seq<u8>)
    requires
        absolute(path) || is_real(links, cwd),
    ensures
        real_path_of(links, path, cwd) matches Some(q) ==> {
            &&& is_real(links, q)
            &&& absolute(q)
            &&& forall|i: int| 1 <= i < parts(q).len() ==> (#[trigger] parts(q)[i]) is Name
        },
{
    if let Some(q) = real_path_of(links, path, cwd) {
        lemma_real(links, path, cwd);
        let v = choose|v: Seq<Seq<u8>>| is_real_with(links, q, v);
        lemma_slashed(v);
        lemma_parts_of_slashed(v);
        assert forall|i: int| 1 <= i < parts(q).len() implies (#[trigger] parts(q)[i]) is Name by {
            assert(parts(q)[i] == name_parts(v)[i - 1]);
        }
    }
}

proof fn lemma_real(links: spec_fn(Seq<u8>) -> LinkView, path: Seq<u8>, cwd: Seq<u8>)
    requires
        absolute(path) || is_real(links, cwd),
    ensures
        real_path_of(links, path, cwd) matches Some(q) ==> is_real(links, q) && (absolute(path) ==> real_within(
            links,
            q,
            MAX_SYMLINK_CHECKS as int,
        )),
{
    if let Some(q) = real_path_of(links, path, cwd) {
        lemma_plain_parts_of(path);
        if absolute(path) {
            assert(parts(path)[0] is Root);
            lemma_resolved(links, Seq::empty(), parts(path), 0, 0, 0);
            let v = choose|v: Seq<Seq<u8>>| is_real_with(links, q, v) && v.len() <= MAX_SYMLINK_CHECKS as int;
            assert(is_real_with(links, q, v));
        } else {
            let w = choose|w: Seq<Seq<u8>>| is_real_with(links, cwd, w);
            let base = w.len() as int;
            assert(is_real_with(links, cwd, w) && w.len() <= base);
            lemma_resolved(links, cwd, parts(path), 0, 0, base);
            let v = choose|v: Seq<Seq<u8>>| is_real_with(links, q, v) && v.len() <= base + MAX_SYMLINK_CHECKS;
            assert(is_real_with(links, q, v));
        }
    }
}

/// Following the links of what following links came to leads to the same path, unless it has too many components to be
/// looked at, which only a long current directory can bring about.
pub proof fn law_real_path_stays(links: spec_fn(Seq<u8>) -> LinkView, path: Seq<u8>, cwd: Seq<u8>, other: Seq<u8>)
    requires
        absolute(path) || is_real(links, cwd),
        real_path_of(links, path, cwd) is Some,
        absolute(path) || parts(real_path_of(links, path, cwd)->0).len() <= MAX_SYMLINK_CHECKS + 1,
    ensures
        real_path_of(links, real_path_of(links, path, cwd)->0, other) == real_path_of(links, path, cwd),
{
    let q = real_path_of(links, path, cwd)->0;
    lemma_real(links, path, cwd);
    let v = if absolute(path) {
        choose|v: Seq<Seq<u8>>| is_real_with(links, q, v) && v.len() <= MAX_SYMLINK_CHECKS as int
    } else {
        choose|v: Seq<Seq<u8>>| is_real_with(links, q, v)
    };
    lemma_slashed(v);
    lemma_parts_of_slashed(v);
    assert(v.len() <= MAX_SYMLINK_CHECKS) by {
        assert(parts(q).len() == 1 + v.len());
    }
    let all = parts(q);
    assert(all[0] is Root);
    assert(all.drop_first() =~= name_parts(v));
    assert(v.skip(0) =~= v);
    assert(v.take(0) =~= Seq::empty());
    assert(absolute(part_path(PartView::Root)));
    assert(pushed(Seq::empty(), PartView::Root) == slashed(v.take(0)));
    assert(advanced(Seq::empty(), all) == advanced(slashed(v.take(0)), name_parts(v)));
    lemma_goes_along(links, v, 0);
}

} // verus!
