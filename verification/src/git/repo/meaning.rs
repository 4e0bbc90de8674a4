//! Where repositories are.
use crate::bytes::{lemma_lit, lit};
use crate::components::{law_plain_path_stays, part_path, parts, PartView};
use crate::git::repo::discover::{below_dot_git, kind_by_path, path_kind, repository_at, GitRepositoryPathKind, KindView, PlaceView};
use crate::names::{file_name, law_extension_follows_the_last_dot, law_name_at_the_top, law_name_below_a_directory, law_parts_of_an_absolute_path, lemma_push, part_named, path_with, piece, slashed};
use crate::path::{component_start, extension_of, last_dot, lemma_component_start, lemma_trimmed, name_of, parent_of, trimmed};
use vstd::prelude::*;

verus! {

/// `.git`.
pub open spec fn dot_git() -> Seq<u8> {
    seq![0x2eu8, 0x67u8, 0x69u8, 0x74u8]
}

proof fn lemma_dot_git()
    ensures
        lit(".git") == dot_git(),
        file_name(dot_git()),
{
    reveal_strlit(".git");
    lemma_lit(".git", dot_git());
    let g = dot_git();
    assert(g[0] == 0x2e && g[1] == 0x67 && g[2] == 0x69 && g[3] == 0x74);
    assert(g.len() != seq![0x2eu8].len());
    assert(g.len() != seq![0x2eu8, 0x2eu8].len());
}

/// All of these are names.
pub open spec fn all_names(names: Seq<Seq<u8>>) -> bool {
    forall|i: int| 0 <= i < names.len() ==> file_name(#[trigger] names[i])
}

proof fn lemma_named(names: Seq<Seq<u8>>, n: Seq<u8>)
    requires
        all_names(names),
        file_name(n),
    ensures
        name_of(path_with(names.push(n))) == Some(n),
        parent_of(path_with(names.push(n))) == Some(path_with(names)),
        parts(path_with(names.push(n))).len() == names.len() + 2,
        parts(path_with(names.push(n)))[0] == PartView::Root,
        forall|i: int|
            0 <= i < names.len() ==> #[trigger] parts(path_with(names.push(n)))[i + 1] == PartView::Name(names[i]),
        parts(path_with(names.push(n))).last() == PartView::Name(n),
{
    let all = names.push(n);
    assert forall|i: int| 0 <= i < all.len() implies piece(#[trigger] all[i]) && part_named(all[i])
        == PartView::Name(all[i]) by {
        if i < names.len() {
            assert(file_name(names[i]));
        }
    }
    assert forall|i: int| 0 <= i < names.len() implies piece(#[trigger] names[i]) by {
        assert(file_name(names[i]));
    }
    lemma_push(names, n);
    law_parts_of_an_absolute_path(all);
    assert(all.drop_last() =~= names);
    let v = parts(path_with(all));
    assert forall|i: int| 0 <= i < names.len() implies #[trigger] v[i + 1] == PartView::Name(names[i]) by {
        assert(v[i + 1] == part_named(all[i]));
        assert(piece(all[i]));
    }
    assert(piece(all[names.len() as int]));
    assert(v.last() == part_named(all[names.len() as int]));
    if names.len() == 0 {
        assert(slashed(names) =~= seq![]);
        assert(path_with(all) =~= seq![0x2fu8] + n);
        law_name_at_the_top(n);
    } else {
        let d = path_with(names);
        let l = names.last();
        assert(file_name(l));
        assert(d == slashed(names.drop_last()) + seq![0x2fu8] + l);
        assert(d.last() == l.last());
        assert(l[l.len() - 1] != 0x2f);
        if d.last() == 0x2e && d[d.len() - 2] == 0x2f {
            if l.len() == 1 {
                assert(l =~= seq![0x2eu8]);
            } else {
                assert(d[d.len() - 2] == l[l.len() - 2]);
            }
        }
        law_name_below_a_directory(d, n);
        assert(path_with(all) == d + seq![0x2fu8] + n);
    }
}

proof fn lemma_no_dot(p: Seq<u8>, start: int, end: int, k: int)
    requires
        0 <= start,
        k <= end <= p.len(),
        forall|i: int| start < i < k ==> p[i] != 0x2e,
    ensures
        last_dot(p, start, end, k) == end,
    decreases k - start,
{
    if k > start + 1 {
        lemma_no_dot(p, start, end, k - 1);
    }
}

proof fn lemma_no_extension(p: Seq<u8>)
    requires
        name_of(p) == Some(dot_git()),
    ensures
        extension_of(p) is None,
{
    let g = dot_git();
    let e = trimmed(p, p.len() as int);
    let st = component_start(p, e);
    lemma_trimmed(p, p.len() as int);
    lemma_component_start(p, e);
    assert(g[1] != 0x2e && g[2] != 0x2e && g[3] != 0x2e);
    assert(p.subrange(st, e) == g);
    assert(g.len() == 4 && e - st == 4);
    assert forall|i: int| st < i < e implies p[i] != 0x2e by {
        assert(p.subrange(st, e)[i - st] == p[i]);
        assert(i - st == 1 || i - st == 2 || i - st == 3);
    }
    lemma_no_dot(p, st, e, e);
}

/// A directory `.git` belongs to the worktree that it is in, by its path and by its kind.
pub proof fn law_dot_git_is_in_its_worktree(names: Seq<Seq<u8>>, cwd: Seq<u8>, index_exists: bool)
    requires
        all_names(names),
    ensures
        ({
            let p = path_with(names.push(dot_git()));
            &&& path_kind(p) == Some(GitRepositoryPathKind::Common)
            &&& kind_by_path(p, index_exists) == KindView::WorkTree(None)
            &&& repository_at(p, KindView::WorkTree(None), cwd) == Some(PlaceView::WorkTree(path_with(names)))
        }),
{
    let p = path_with(names.push(dot_git()));
    lemma_dot_git();
    lemma_named(names, dot_git());
    assert(parts(p).last() == PartView::Name(dot_git()));
    assert(path_with(names).len() > 0) by {
        if names.len() > 0 {
            assert(slashed(names).len() > 0);
        }
    }
    lemma_no_extension(p);
}

/// The repository of a linked worktree is where the file `.git` says; the worktree is where
/// that file is.
pub proof fn law_linked_worktree_is_where_its_file_is(names: Seq<Seq<u8>>, git_dir: Seq<u8>, cwd: Seq<u8>)
    requires
        all_names(names),
    ensures
        ({
            let p = path_with(names.push(dot_git()));
            let place = PlaceView::LinkedWorkTree { work_dir: path_with(names), git_dir };
            &&& repository_at(p, KindView::WorkTree(Some(git_dir)), cwd) == Some(place)
            &&& !crate::components::goes_up(parts(git_dir)) ==> repository_at(
                p,
                KindView::Submodule(git_dir),
                cwd,
            ) == Some(place)
        }),
{
    lemma_dot_git();
    lemma_named(names, dot_git());
    if !crate::components::goes_up(parts(git_dir)) {
        law_plain_path_stays(git_dir, cwd);
    }
}

/// A directory whose name ends with `.git`, after something, may be a repository by itself;
/// so may one without an index that is not called `.git`.
pub proof fn law_bare_repositories(d: Seq<u8>, stem: Seq<u8>, path: Seq<u8>, index_exists: bool)
    requires
        d.len() == 0 || d.last() == 0x2f,
        stem.len() > 0,
        forall|i: int| 0 <= i < stem.len() ==> (#[trigger] stem[i]) != 0x2f,
        name_of(path) != Some(dot_git()),
    ensures
        kind_by_path(d + stem + dot_git(), index_exists) is PossiblyBare,
        kind_by_path(path, false) is PossiblyBare,
{
    lemma_dot_git();
    reveal_strlit("git");
    let g = seq![0x67u8, 0x69u8, 0x74u8];
    lemma_lit("git", g);
    assert(g[0] == 0x67 && g[1] == 0x69 && g[2] == 0x74);
    law_extension_follows_the_last_dot(d, stem, g);
    assert(d + stem + seq![0x2eu8] + g =~= d + stem + dot_git());
}

proof fn lemma_below(v: Seq<PartView>, k: int, g: int, last: Option<Seq<u8>>)
    requires
        0 <= g < k <= v.len(),
        part_path(v[g]) == dot_git(),
        forall|i: int| g < i < k ==> part_path(#[trigger] v[i]) != dot_git(),
        lit(".git") == dot_git(),
    ensures
        below_dot_git(v, k, last) == if g + 1 < k {
            Some(part_path(v[g + 1]))
        } else {
            last
        },
    decreases k,
{
    if k - 1 > g {
        assert(part_path(v[k - 1]) != dot_git());
        lemma_below(v, k - 1, g, Some(part_path(v[k - 1])));
    }
}

/// A path below `.git/modules` is that of a submodule, and one below `.git/worktrees` that of
/// a linked worktree.
pub proof fn law_paths_below_dot_git(before: Seq<Seq<u8>>, x: Seq<u8>, after: Seq<Seq<u8>>, n: Seq<u8>)
    requires
        all_names(before),
        all_names(after),
        file_name(x),
        file_name(n),
        x != dot_git(),
        n != dot_git(),
        forall|i: int| 0 <= i < after.len() ==> (#[trigger] after[i]) != dot_git(),
    ensures
        path_kind(path_with((before + seq![dot_git(), x] + after).push(n))) == (if x == seq![0x6du8, 0x6fu8, 0x64u8, 0x75u8, 0x6cu8, 0x65u8, 0x73u8] {
            Some(GitRepositoryPathKind::Submodule)
        } else if x == seq![0x77u8, 0x6fu8, 0x72u8, 0x6bu8, 0x74u8, 0x72u8, 0x65u8, 0x65u8, 0x73u8] {
            Some(GitRepositoryPathKind::LinkedWorktree)
        } else {
            None
        }),
{
    lemma_dot_git();
    reveal_strlit("modules");
    reveal_strlit("worktrees");
    lemma_lit("modules", seq![0x6du8, 0x6fu8, 0x64u8, 0x75u8, 0x6cu8, 0x65u8, 0x73u8]);
    lemma_lit("worktrees", seq![0x77u8, 0x6fu8, 0x72u8, 0x6bu8, 0x74u8, 0x72u8, 0x65u8, 0x65u8, 0x73u8]);
    let names = before + seq![dot_git(), x] + after;
    let b = before.len() as int;
    assert forall|i: int| 0 <= i < names.len() implies file_name(#[trigger] names[i]) by {
        if i < b {
            assert(names[i] == before[i]);
        } else if i >= b + 2 {
            assert(names[i] == after[i - b - 2]);
        }
    }
    lemma_named(names, n);
    let p = path_with(names.push(n));
    let v = parts(p);
    assert(names[b] == dot_git() && names[b + 1] == x);
    assert(v[b + 1] == PartView::Name(names[b]));
    assert(v[(b + 1) + 1] == PartView::Name(names[b + 1]));
    assert forall|i: int| b + 1 < i < v.len() - 1 implies part_path(#[trigger] v[i]) != dot_git() by {
        assert(v[(i - 1) + 1] == PartView::Name(names[i - 1]));
        if i > b + 2 {
            assert(names[i - 1] == after[i - b - 3]);
        }
    }
    lemma_below(v, v.len() - 1, b + 1, None);
}

} // verus!
