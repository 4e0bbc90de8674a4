//! What the names in a path are.
use crate::bytes::lemma_pos_of_is;
use crate::components::{carried_out, goes_up, normalized, parts, parts_from, PartView};
use crate::path::{absolute, component_start, extension_of, joined, last_dot, lemma_component_start, name_of, parent_of, trimmed};
use vstd::prelude::*;

verus! {

/// `s` is one part of a path.
pub open spec fn piece(s: Seq<u8>) -> bool {
    s.len() > 0 && s != seq![0x2eu8] && forall|i: int| 0 <= i < s.len() ==> (#[trigger] s[i]) != 0x2f
}

/// `s` is the name of a file or a directory.
pub open spec fn file_name(s: Seq<u8>) -> bool {
    piece(s) && s != seq![0x2eu8, 0x2eu8]
}

/// `d` is a path that ends with a name.
pub open spec fn ends_with_name(d: Seq<u8>) -> bool {
    d.len() > 0 && d.last() != 0x2f && !(d.len() >= 2 && d.last() == 0x2e && d[d.len() - 2] == 0x2f)
}

proof fn lemma_start(p: Seq<u8>, s: int, e: int)
    requires
        0 <= s <= e <= p.len(),
        s == 0 || p[s - 1] == 0x2f,
        forall|i: int| s <= i < e ==> p[i] != 0x2f,
    ensures
        component_start(p, e) == s,
    decreases e - s,
{
    if s < e {
        lemma_start(p, s, e - 1);
    }
}

proof fn lemma_last_name(p: Seq<u8>, s: int, n: Seq<u8>)
    requires
        piece(n),
        0 <= s,
        p.len() == s + n.len(),
        s == 0 || p[s - 1] == 0x2f,
        p.subrange(s, p.len() as int) == n,
    ensures
        component_start(p, p.len() as int) == s,
        trimmed(p, p.len() as int) == p.len(),
{
    let e = p.len() as int;
    assert forall|i: int| s <= i < e implies p[i] != 0x2f by {
        assert(p.subrange(s, e)[i - s] == p[i]);
        assert(n[i - s] != 0x2f);
    }
    lemma_start(p, s, e);
    if s == e - 1 && p[s] == 0x2e {
        assert(n =~= seq![0x2eu8]) by {
            assert(p.subrange(s, e)[0] == p[s]);
        }
    }
}

/// A name below a directory is the name of the path, and the directory is its parent.
pub proof fn law_name_below_a_directory(d: Seq<u8>, n: Seq<u8>)
    requires
        ends_with_name(d),
        piece(n),
    ensures
        joined(d, n) == d + seq![0x2fu8] + n,
        parent_of(d + seq![0x2fu8] + n) == Some(d),
        file_name(n) ==> name_of(d + seq![0x2fu8] + n) == Some(n),
{
    let p = d + seq![0x2fu8] + n;
    let s = d.len() as int + 1;
    assert(n[0] != 0x2f);
    assert(p[s - 1] == 0x2f);
    assert(p.subrange(s, p.len() as int) =~= n);
    lemma_last_name(p, s, n);
    assert(p[s - 2] == d.last());
    lemma_component_start(p, s - 1);
    let c = component_start(p, s - 1);
    if 0 < c && c == s - 2 && p[c] == 0x2e {
        assert(p[c - 1] == d[d.len() - 2]);
    }
    assert(trimmed(p, s - 1) == s - 1);
    assert(trimmed(p, s) == s - 1);
    assert(p.subrange(0, s - 1) =~= d);
}

/// A name below the root, and a name alone.
pub proof fn law_name_at_the_top(n: Seq<u8>)
    requires
        piece(n),
    ensures
        parent_of(seq![0x2fu8] + n) == Some(seq![0x2fu8]),
        parent_of(n) == Some(Seq::<u8>::empty()),
        file_name(n) ==> name_of(seq![0x2fu8] + n) == Some(n),
        file_name(n) ==> name_of(n) == Some(n),
{
    let p = seq![0x2fu8] + n;
    assert(p.subrange(1, p.len() as int) =~= n);
    lemma_last_name(p, 1, n);
    assert(p.subrange(0, 1) =~= seq![0x2fu8]);
    assert(n[0] != 0x2f);
    assert(n.subrange(0, n.len() as int) =~= n);
    lemma_last_name(n, 0, n);
    assert(n.subrange(0, 0) =~= Seq::<u8>::empty());
}

proof fn lemma_last_dot(p: Seq<u8>, start: int, end: int, k: int, d: int)
    requires
        start < d < k <= end <= p.len(),
        0 <= start,
        p[d] == 0x2e,
        forall|i: int| d < i < k ==> p[i] != 0x2e,
    ensures
        last_dot(p, start, end, k) == d,
    decreases k - d,
{
    if k - 1 > d {
        lemma_last_dot(p, start, end, k - 1, d);
    }
}

/// The extension of a file is what follows the last dot of its name, where something is before
/// that dot.
pub proof fn law_extension_follows_the_last_dot(d: Seq<u8>, stem: Seq<u8>, extension: Seq<u8>)
    requires
        d.len() == 0 || d.last() == 0x2f,
        stem.len() > 0,
        stem != seq![0x2eu8] || extension.len() > 0,
        forall|i: int| 0 <= i < stem.len() ==> (#[trigger] stem[i]) != 0x2f,
        forall|i: int| 0 <= i < extension.len() ==> (#[trigger] extension[i]) != 0x2f && extension[i] != 0x2e,
    ensures
        extension_of(d + stem + seq![0x2eu8] + extension) == Some(extension),
{
    let n = stem + seq![0x2eu8] + extension;
    let p = d + stem + seq![0x2eu8] + extension;
    let s = d.len() as int;
    let e = p.len() as int;
    let dot = s + stem.len();
    assert(p.subrange(s, e) =~= n);
    assert(n.len() >= 2);
    assert(n[stem.len() as int] == 0x2e);
    assert forall|i: int| 0 <= i < n.len() implies (#[trigger] n[i]) != 0x2f by {
        if i < stem.len() {
            assert(n[i] == stem[i]);
        } else if i > stem.len() {
            assert(n[i] == extension[i - stem.len() - 1]);
        }
    }
    if n == seq![0x2eu8, 0x2eu8] {
        assert(n[0] == stem[0] && n[0] == 0x2e);
        assert(stem =~= seq![0x2eu8]);
    }
    if s > 0 {
        assert(p[s - 1] == d.last());
    }
    lemma_last_name(p, s, n);
    assert(p[dot] == 0x2e);
    assert forall|i: int| dot < i < e implies p[i] != 0x2e by {
        assert(p[i] == extension[i - dot - 1]);
    }
    lemma_last_dot(p, s, e, e, dot);
    assert(p.subrange(dot + 1, e) =~= extension);
}

/// The names, with a slash before each.
pub open spec fn slashed(names: Seq<Seq<u8>>) -> Seq<u8>
    decreases names.len(),
{
    if names.len() == 0 {
        seq![]
    } else {
        slashed(names.drop_last()) + seq![0x2fu8] + names.last()
    }
}

/// The absolute path with these names.
pub open spec fn path_with(names: Seq<Seq<u8>>) -> Seq<u8> {
    if names.len() == 0 {
        seq![0x2fu8]
    } else {
        slashed(names)
    }
}

pub open spec fn part_named(n: Seq<u8>) -> PartView {
    if n == seq![0x2eu8, 0x2eu8] {
        PartView::Up
    } else {
        PartView::Name(n)
    }
}

/// The text from `i` on is these names, with a slash before each.
spec fn rest_is(p: Seq<u8>, i: int, names: Seq<Seq<u8>>) -> bool
    decreases names.len(),
{
    if names.len() == 0 {
        i == p.len()
    } else {
        let e = i + 1 + names[0].len();
        &&& 0 <= i
        &&& e <= p.len()
        &&& p[i] == 0x2f
        &&& p.subrange(i + 1, e) == names[0]
        &&& rest_is(p, e, names.drop_first())
    }
}

proof fn lemma_one_more(p: Seq<u8>, n: Seq<u8>, i: int, names: Seq<Seq<u8>>)
    requires
        0 <= i <= p.len(),
        rest_is(p, i, names),
    ensures
        rest_is(p + seq![0x2fu8] + n, i, names.push(n)),
    decreases names.len(),
{
    let q = p + seq![0x2fu8] + n;
    let all = names.push(n);
    if names.len() == 0 {
        assert(q.subrange(i + 1, i + 1 + n.len()) =~= n);
        assert(all.drop_first() =~= seq![]);
        assert(rest_is(q, q.len() as int, all.drop_first()));
    } else {
        let e = i + 1 + names[0].len();
        lemma_one_more(p, n, e, names.drop_first());
        assert(all.drop_first() =~= names.drop_first().push(n));
        assert(q.subrange(i + 1, e) =~= p.subrange(i + 1, e));
    }
}

proof fn lemma_rest_is(names: Seq<Seq<u8>>)
    ensures
        rest_is(slashed(names), 0, names),
    decreases names.len(),
{
    if names.len() > 0 {
        lemma_rest_is(names.drop_last());
        lemma_one_more(slashed(names.drop_last()), names.last(), 0, names.drop_last());
        assert(names.drop_last().push(names.last()) =~= names);
    }
}

proof fn lemma_parts(p: Seq<u8>, i: int, names: Seq<Seq<u8>>)
    requires
        0 <= i <= p.len(),
        rest_is(p, i, names),
        forall|k: int| 0 <= k < names.len() ==> piece(#[trigger] names[k]),
    ensures
        parts_from(p, i) == names.map_values(|n: Seq<u8>| part_named(n)),
    decreases names.len(),
{
    let r = names.map_values(|n: Seq<u8>| part_named(n));
    if names.len() == 0 {
        assert(r =~= seq![]);
    } else {
        let n = names[0];
        let rest = names.drop_first();
        let e = i + 1 + n.len();
        assert(piece(n));
        assert forall|k: int| i + 1 <= k < e implies p[k] != 0x2f by {
            assert(p.subrange(i + 1, e)[k - i - 1] == p[k]);
            assert(n[k - i - 1] != 0x2f);
        }
        assert(rest_is(p, e, rest));
        if rest.len() == 0 {
            assert(e == p.len());
        } else {
            assert(p[e] == 0x2f);
        }
        lemma_pos_of_is(p, '/' as u8, i + 1, e);
        assert forall|k: int| 0 <= k < rest.len() implies piece(#[trigger] rest[k]) by {
            assert(rest[k] == names[k + 1]);
        }
        lemma_parts(p, e, rest);
        let more = rest.map_values(|n: Seq<u8>| part_named(n));
        assert(r =~= seq![part_named(n)] + more);
        assert(parts_from(p, i + 1) == seq![part_named(n)] + more);
    }
}

/// The parts of an absolute path are the root and the names between its slashes.
pub proof fn law_parts_of_an_absolute_path(names: Seq<Seq<u8>>)
    requires
        forall|k: int| 0 <= k < names.len() ==> piece(#[trigger] names[k]),
    ensures
        parts(path_with(names)) == seq![PartView::Root] + names.map_values(|n: Seq<u8>| part_named(n)),
{
    let p = path_with(names);
    if names.len() == 0 {
        assert(parts_from(p, 1) =~= seq![]);
        assert(parts_from(p, 0) =~= names.map_values(|n: Seq<u8>| part_named(n)));
    } else {
        lemma_rest_is(names);
        assert(p[0] == 0x2f);
        lemma_parts(p, 0, names);
    }
}

pub proof fn lemma_push(names: Seq<Seq<u8>>, n: Seq<u8>)
    requires
        forall|k: int| 0 <= k < names.len() ==> piece(#[trigger] names[k]),
        piece(n),
    ensures
        joined(path_with(names), n) == path_with(names.push(n)),
        parent_of(path_with(names.push(n))) == Some(path_with(names)),
        path_with(names).len() > 0 && path_with(names)[0] == 0x2f,
{
    let d = path_with(names);
    let all = names.push(n);
    assert(all.drop_last() =~= names);
    assert(n[0] != 0x2f);
    if names.len() == 0 {
        assert(slashed(names) =~= seq![]);
        assert(path_with(all) =~= seq![0x2fu8] + n);
        assert(joined(d, n) =~= seq![0x2fu8] + n);
        law_name_at_the_top(n);
    } else {
        let l = names.last();
        let m = names.drop_last();
        assert(piece(l));
        assert(d == slashed(m) + seq![0x2fu8] + l);
        assert(d.last() == l.last());
        assert(l[l.len() - 1] != 0x2f);
        if d.last() == 0x2e && d[d.len() - 2] == 0x2f {
            if l.len() == 1 {
                assert(l =~= seq![0x2eu8]);
            } else {
                assert(d[d.len() - 2] == l[l.len() - 2]);
            }
        }
        assert(ends_with_name(d));
        law_name_below_a_directory(d, n);
        lemma_rest_is(names);
        assert(path_with(all) == d + seq![0x2fu8] + n);
    }
}

/// What is left of the path after the first `k` parts.
proof fn lemma_carried(
    before: Seq<Seq<u8>>,
    n: Seq<u8>,
    after: Seq<Seq<u8>>,
    k: int,
    cwd: Seq<u8>,
)
    requires
        forall|i: int| 0 <= i < before.len() ==> file_name(#[trigger] before[i]),
        forall|i: int| 0 <= i < after.len() ==> file_name(#[trigger] after[i]),
        file_name(n),
        0 <= k <= before.len() + 2 + after.len(),
    ensures
        ({
            let names = before + seq![n, seq![0x2eu8, 0x2eu8]] + after;
            let v = seq![PartView::Root] + names.map_values(|n: Seq<u8>| part_named(n));
            let left = if k <= before.len() {
                before.take(k)
            } else if k == before.len() + 1 {
                before.push(n)
            } else {
                before + after.take(k - before.len() - 2)
            };
            carried_out(v, k + 1, cwd) == Some((path_with(left), false))
        }),
    decreases k,
{
    let up = seq![0x2eu8, 0x2eu8];
    let names = before + seq![n, up] + after;
    let v = seq![PartView::Root] + names.map_values(|n: Seq<u8>| part_named(n));
    let b = before.len() as int;
    if k == 0 {
        assert(carried_out(v, 0, cwd) == Some((Seq::<u8>::empty(), false)));
        assert(v[0] == PartView::Root);
        assert(joined(Seq::<u8>::empty(), seq![0x2fu8]) =~= seq![0x2fu8]);
        assert(before.take(0) =~= seq![]);
    } else {
        lemma_carried(before, n, after, k - 1, cwd);
        assert(v[k] == part_named(names[k - 1]));
        if k <= b {
            let x = before[k - 1];
            assert(names[k - 1] == x);
            lemma_all_pieces(before.take(k - 1));
            lemma_push(before.take(k - 1), x);
            assert(before.take(k - 1).push(x) =~= before.take(k));
        } else if k == b + 1 {
            assert(names[k - 1] == n);
            lemma_all_pieces(before);
            lemma_push(before, n);
            assert(before.take(b) =~= before);
        } else if k == b + 2 {
            assert(names[k - 1] == up);
            assert(v[k] is Up);
            lemma_all_pieces(before);
            lemma_push(before, n);
            lemma_all_pieces(before.push(n));
            let p = path_with(before.push(n));
            law_parts_of_an_absolute_path(before.push(n));
            assert(parts(p)[0] == PartView::Root);
            assert(seq![PartView::Here][0] == PartView::Here);
            assert(p.len() > 0) by {
                assert(before.push(n).len() > 0);
            }
            assert(before + after.take(0) =~= before);
        } else {
            let j = k - b - 3;
            let x = after[j];
            let left = before + after.take(j);
            assert(names[k - 1] == x);
            assert forall|i: int| 0 <= i < left.len() implies file_name(#[trigger] left[i]) by {
                if i >= b {
                    assert(left[i] == after[i - b]);
                }
            }
            lemma_all_pieces(left);
            lemma_push(left, x);
            assert(left.push(x) =~= before + after.take(j + 1));
        }
    }
}

proof fn lemma_all_pieces(names: Seq<Seq<u8>>)
    requires
        forall|i: int| 0 <= i < names.len() ==> file_name(#[trigger] names[i]),
    ensures
        forall|i: int| 0 <= i < names.len() ==> piece(#[trigger] names[i]),
{
    assert forall|i: int| 0 <= i < names.len() implies piece(#[trigger] names[i]) by {
        assert(file_name(names[i]));
    }
}

/// Two dots take away the name before them.
pub proof fn law_two_dots_take_a_name_away(
    before: Seq<Seq<u8>>,
    n: Seq<u8>,
    after: Seq<Seq<u8>>,
    cwd: Seq<u8>,
)
    requires
        forall|i: int| 0 <= i < before.len() ==> file_name(#[trigger] before[i]),
        forall|i: int| 0 <= i < after.len() ==> file_name(#[trigger] after[i]),
        file_name(n),
    ensures
        normalized(path_with(before + seq![n, seq![0x2eu8, 0x2eu8]] + after), cwd) == Some(
            path_with(before + after),
        ),
{
    let up = seq![0x2eu8, 0x2eu8];
    let names = before + seq![n, up] + after;
    let b = before.len() as int;
    assert forall|i: int| 0 <= i < names.len() implies piece(#[trigger] names[i]) by {
        if i < b {
            assert(names[i] == before[i]);
        } else if i == b {
            assert(names[i] == n);
        } else if i == b + 1 {
            assert(names[i] == up);
            assert(up[0] == 0x2e && up[1] == 0x2e);
            assert(up.len() != seq![0x2eu8].len());
        } else {
            assert(names[i] == after[i - b - 2]);
        }
    }
    law_parts_of_an_absolute_path(names);
    let v = parts(path_with(names));
    assert(names[b + 1] == up);
    assert(v[b + 2] is Up);
    assert(goes_up(v));
    lemma_carried(before, n, after, b + 2 + after.len(), cwd);
    assert(v.len() == b + 3 + after.len());
    assert(after.take(after.len() as int) =~= after);
    lemma_rest_is(names);
    assert(absolute(path_with(names)));
    let left = before + after;
    if left.len() > 0 {
        lemma_rest_is(left);
    }
}

} // verus!
