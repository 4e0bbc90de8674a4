//! Which files a configuration file names, and when.
use crate::bytes::{begins, ends, from, lemma_lit, lemma_pos_of_is, lit};
use crate::git::config::follow::{anchored, condition_of, dir_pattern, path_value, written_condition, ConditionView};
use crate::git::config::inclusion::Inclusion;
use crate::git::config::parse::SectionHeaderView;
use crate::git::config::source::{location, Environment, Source};
use crate::git::config::value::{interpolated, InterpolationView};
use crate::git::depths::{is_in, law_two_stars_match_any_depth, law_two_stars_match_what_is_below};
use crate::git::pattern::{folded_seq, law_literal_matches_itself_only, literal};
use crate::git::wildmatch::{wild_matches, WildmatchMode, SLASH, STAR};
use crate::path::{absolute, joined, parent_of};
use vstd::prelude::*;

verus! {

/// The conditions that are known: the directory of the repository, with letters as they are
/// or in either case.
pub proof fn law_conditions_are_on_the_directory(pattern: Seq<u8>)
    ensures
        written_condition(seq![0x67u8, 0x69u8, 0x74u8, 0x64u8, 0x69u8, 0x72u8, 0x3au8] + pattern) == (ConditionView::GitDir { pattern, ignore_case: false }),
        written_condition(seq![0x67u8, 0x69u8, 0x74u8, 0x64u8, 0x69u8, 0x72u8, 0x2fu8, 0x69u8, 0x3au8] + pattern) == (ConditionView::GitDir { pattern, ignore_case: true }),
{
    reveal_strlit("gitdir");
    reveal_strlit("gitdir/i");
    let a = seq![0x67u8, 0x69u8, 0x74u8, 0x64u8, 0x69u8, 0x72u8];
    let b = seq![0x67u8, 0x69u8, 0x74u8, 0x64u8, 0x69u8, 0x72u8, 0x2fu8, 0x69u8];
    lemma_lit("gitdir", a);
    lemma_lit("gitdir/i", b);
    let s = seq![0x67u8, 0x69u8, 0x74u8, 0x64u8, 0x69u8, 0x72u8, 0x3au8] + pattern;
    let t = seq![0x67u8, 0x69u8, 0x74u8, 0x64u8, 0x69u8, 0x72u8, 0x2fu8, 0x69u8, 0x3au8] + pattern;
    assert(s.subrange(0, 6) =~= a);
    assert(s[6] == 0x3a);
    assert forall|i: int| 0 <= i < 6 implies s[i] != 0x3a by {
        assert(s[i] == a[i]);
    }
    lemma_pos_of_is(s, ':' as u8, 0, 6);
    assert(from(s, 7) =~= pattern);
    assert(t.subrange(0, 8) =~= b);
    assert(t[8] == 0x3a);
    assert forall|i: int| 0 <= i < 8 implies t[i] != 0x3a by {
        assert(t[i] == b[i]);
    }
    lemma_pos_of_is(t, ':' as u8, 0, 8);
    assert(from(t, 9) =~= pattern);
    assert(a.len() != b.len());
}

/// The sections that name files are `include` and, on a condition, `includeIf`.
pub proof fn law_sections_that_name_files(h: SectionHeaderView)
    ensures
        h.name == seq![0x69u8, 0x6eu8, 0x63u8, 0x6cu8, 0x75u8, 0x64u8, 0x65u8] && h.subsection_name is None ==> condition_of(h) is Always,
        h.name == seq![0x69u8, 0x6eu8, 0x63u8, 0x6cu8, 0x75u8, 0x64u8, 0x65u8, 0x49u8, 0x66u8] ==> (h.subsection_name matches Some(s) ==> condition_of(h)
            == written_condition(s)),
        h.name != seq![0x69u8, 0x6eu8, 0x63u8, 0x6cu8, 0x75u8, 0x64u8, 0x65u8] && h.name != seq![0x69u8, 0x6eu8, 0x63u8, 0x6cu8, 0x75u8, 0x64u8, 0x65u8, 0x49u8, 0x66u8] ==> condition_of(h) is Never,
{
    reveal_strlit("include");
    reveal_strlit("includeIf");
    lemma_lit("include", seq![0x69u8, 0x6eu8, 0x63u8, 0x6cu8, 0x75u8, 0x64u8, 0x65u8]);
    lemma_lit("includeIf", seq![0x69u8, 0x6eu8, 0x63u8, 0x6cu8, 0x75u8, 0x64u8, 0x65u8, 0x49u8, 0x66u8]);
    assert(seq![0x69u8, 0x6eu8, 0x63u8, 0x6cu8, 0x75u8, 0x64u8, 0x65u8].len() != seq![0x69u8, 0x6eu8, 0x63u8, 0x6cu8, 0x75u8, 0x64u8, 0x65u8, 0x49u8, 0x66u8].len());
}

proof fn lemma_words()
    ensures
        lit("./") == seq![0x2eu8, 0x2fu8],
        lit("**/") == seq![STAR, STAR, SLASH],
        lit("**") == seq![STAR, STAR],
        lit("/") == seq![SLASH],
{
    reveal_strlit("./");
    reveal_strlit("**/");
    reveal_strlit("**");
    reveal_strlit("/");
    lemma_lit("./", seq![0x2eu8, 0x2fu8]);
    lemma_lit("**/", seq![STAR, STAR, SLASH]);
    lemma_lit("**", seq![STAR, STAR]);
    lemma_lit("/", seq![SLASH]);
}

/// The pattern begins with `./`.
pub open spec fn from_the_file(path: Seq<u8>) -> bool {
    path.len() >= 2 && path[0] == 0x2e && path[1] == 0x2f
}

proof fn lemma_from_the_file(path: Seq<u8>)
    ensures
        begins(path, lit("./")) <==> from_the_file(path),
        ends(path, lit("/")) <==> path.len() > 0 && path.last() == SLASH,
{
    lemma_words();
    let w = seq![0x2eu8, 0x2fu8];
    if from_the_file(path) {
        assert(path.subrange(0, 2) =~= w);
    }
    if path.len() >= 2 && path.subrange(0, 2) == w {
        assert(path.subrange(0, 2)[0] == w[0] && path.subrange(0, 2)[1] == w[1]);
    }
    if path.len() > 0 {
        let e = path.subrange(path.len() - 1, path.len() as int);
        assert(e[0] == path.last());
        if path.last() == SLASH {
            assert(e =~= seq![SLASH]);
        }
    }
}

/// A condition on an absolute directory holds of that directory; with a slash at its end, of
/// all that is below it.
pub proof fn law_absolute_conditions(path: Seq<u8>, file: Option<Seq<u8>>, dir: Seq<u8>, m: WildmatchMode)
    requires
        m.no_match_slash_literal,
        literal(path),
        absolute(path),
    ensures
        wild_matches(dir_pattern(path, file), dir, m) <==> if path.last() == SLASH {
            is_in(m, dir, path)
        } else {
            folded_seq(m, path) == folded_seq(m, dir)
        },
{
    lemma_words();
    lemma_from_the_file(path);
    if path.last() == SLASH {
        law_two_stars_match_what_is_below(path, dir, m);
    } else {
        law_literal_matches_itself_only(path, dir, m);
    }
}

/// A condition on a relative directory holds wherever that directory is.
pub proof fn law_relative_conditions(path: Seq<u8>, file: Option<Seq<u8>>, dir: Seq<u8>, m: WildmatchMode)
    requires
        m.no_match_slash_literal,
        literal(path),
        path.len() > 0,
        !absolute(path),
        !from_the_file(path),
    ensures
        path.last() == SLASH ==> dir_pattern(path, file) == seq![STAR, STAR, SLASH] + path + seq![STAR, STAR],
        path.last() != SLASH ==> (wild_matches(dir_pattern(path, file), dir, m) <==> ({
            let s = dir.len() - path.len();
            s >= 0 && folded_seq(m, from(dir, s)) == folded_seq(m, path) && (s == 0 || dir[s - 1] == SLASH)
        })),
{
    lemma_words();
    lemma_from_the_file(path);
    let q = seq![STAR, STAR, SLASH] + path;
    lemma_from_the_file(q);
    assert(q.last() == path.last());
    if path.last() != SLASH {
        let none = Seq::<u8>::empty();
        assert(none + seq![STAR, STAR, SLASH] + path =~= q);
        law_two_stars_match_any_depth(none, path, dir, m);
        assert(folded_seq(m, dir.subrange(0, 0)) =~= folded_seq(m, none));
    }
}

/// A condition that begins with `./` is on a directory beside the file.
pub proof fn law_conditions_beside_the_file(rest: Seq<u8>, file: Seq<u8>)
    requires
        parent_of(file) matches Some(d) && absolute(d),
        rest.len() > 0,
    ensures
        dir_pattern(seq![0x2eu8, 0x2fu8] + rest, Some(file)) == parent_of(file)->0 + seq![SLASH] + rest + (if rest.last() == SLASH {
            seq![STAR, STAR]
        } else {
            seq![]
        }),
{
    lemma_words();
    let path = seq![0x2eu8, 0x2fu8] + rest;
    lemma_from_the_file(path);
    assert(from(path, 2) =~= rest);
    let q = parent_of(file)->0 + seq![SLASH] + rest;
    assert(anchored(path, Some(file)) == q);
    assert(q[0] == SLASH);
    lemma_from_the_file(q);
    assert(q.last() == rest.last());
    assert(q + seq![] =~= q);
}

proof fn lemma_prefixes()
    ensures
        lit("%(prefix)/") == seq![0x25u8, 0x28u8, 0x70u8, 0x72u8, 0x65u8, 0x66u8, 0x69u8, 0x78u8, 0x29u8, 0x2fu8],
        lit("~/") == seq![0x7eu8, 0x2fu8],
        lit(":(optional)") == seq![0x3au8, 0x28u8, 0x6fu8, 0x70u8, 0x74u8, 0x69u8, 0x6fu8, 0x6eu8, 0x61u8, 0x6cu8, 0x29u8],
{
    reveal_strlit("%(prefix)/");
    reveal_strlit("~/");
    reveal_strlit(":(optional)");
    lemma_lit("%(prefix)/", seq![0x25u8, 0x28u8, 0x70u8, 0x72u8, 0x65u8, 0x66u8, 0x69u8, 0x78u8, 0x29u8, 0x2fu8]);
    lemma_lit("~/", seq![0x7eu8, 0x2fu8]);
    lemma_lit(":(optional)", seq![0x3au8, 0x28u8, 0x6fu8, 0x70u8, 0x74u8, 0x69u8, 0x6fu8, 0x6eu8, 0x61u8, 0x6cu8, 0x29u8]);
}

proof fn lemma_begins(a: Seq<u8>, b: Seq<u8>, p: Seq<u8>)
    ensures
        begins(p + a, p),
        from(p + a, p.len() as int) == a,
        b.len() > 0 && p.len() > 0 && b[0] != p[0] ==> !begins(b, p),
{
    assert((p + a).subrange(0, p.len() as int) =~= p);
    assert(from(p + a, p.len() as int) =~= a);
    if begins(b, p) && p.len() > 0 {
        assert(b.subrange(0, p.len() as int)[0] == p[0]);
    }
}

/// A path may begin with the user's home, with another user's home, or with where git is
/// installed; another path is as it is.
pub proof fn law_paths_are_completed(rest: Seq<u8>, name: Seq<u8>, install: Seq<u8>, home: Seq<u8>)
    requires
        name.len() > 0,
        forall|i: int| 0 <= i < name.len() ==> (#[trigger] name[i]) != 0x2f,
        vstd::utf8::valid_utf8(name),
    ensures
        interpolated(seq![0x7eu8, 0x2fu8] + rest, Some(install), Some(home), true) == Some(
            InterpolationView::Path(joined(home, rest)),
        ),
        interpolated(seq![0x25u8, 0x28u8, 0x70u8, 0x72u8, 0x65u8, 0x66u8, 0x69u8, 0x78u8, 0x29u8, 0x2fu8] + rest, Some(install), Some(home), true) == Some(
            InterpolationView::Path(joined(install, rest)),
        ),
        interpolated(seq![0x7eu8] + name + seq![0x2fu8] + rest, Some(install), Some(home), true) == Some(
            InterpolationView::InHomeOf { name, rest },
        ),
        rest.len() > 0 && rest[0] != 0x7e && rest[0] != 0x25 ==> interpolated(
            rest,
            Some(install),
            Some(home),
            true,
        ) == Some(InterpolationView::Path(rest)),
{
    lemma_prefixes();
    let a = seq![0x7eu8, 0x2fu8] + rest;
    let b = seq![0x25u8, 0x28u8, 0x70u8, 0x72u8, 0x65u8, 0x66u8, 0x69u8, 0x78u8, 0x29u8, 0x2fu8] + rest;
    let c = seq![0x7eu8] + name + seq![0x2fu8] + rest;
    assert(a[0] == 0x7e && b[0] == 0x25 && c[0] == 0x7e);
    lemma_begins(rest, a, seq![0x25u8, 0x28u8, 0x70u8, 0x72u8, 0x65u8, 0x66u8, 0x69u8, 0x78u8, 0x29u8, 0x2fu8]);
    lemma_begins(rest, c, seq![0x25u8, 0x28u8, 0x70u8, 0x72u8, 0x65u8, 0x66u8, 0x69u8, 0x78u8, 0x29u8, 0x2fu8]);
    lemma_begins(rest, rest, seq![0x25u8, 0x28u8, 0x70u8, 0x72u8, 0x65u8, 0x66u8, 0x69u8, 0x78u8, 0x29u8, 0x2fu8]);
    lemma_begins(rest, rest, seq![0x7eu8, 0x2fu8]);
    assert(name[0] != 0x2f);
    assert(c[1] == name[0]);
    assert(!begins(c, seq![0x7eu8, 0x2fu8])) by {
        if begins(c, seq![0x7eu8, 0x2fu8]) {
            assert(c.subrange(0, 2)[1] == seq![0x7eu8, 0x2fu8][1]);
        }
    }
    let s = 1 + name.len() as int;
    assert(c[s] == 0x2f);
    assert(c.contains(c[s]));
    assert forall|i: int| 1 <= i < s implies c[i] != 0x2f by {
        assert(c[i] == name[i - 1]);
    }
    lemma_pos_of_is(c, '/' as u8, 1, s);
    assert(c.subrange(1, s) =~= name);
    assert(from(c, s + 1) =~= rest);
}

/// A file that another names without its directory is beside that one.
pub proof fn law_named_files_are_beside_the_file(inc: Inclusion, v: Seq<u8>, file: Seq<u8>)
    requires
        v.len() > 0,
        v[0] != 0x7e,
        v[0] != 0x25,
        v[0] != 0x3a,
        parent_of(file) is Some,
    ensures
        inc.place(v, Some(file)) == Ok::<Option<Seq<u8>>, crate::git::config::inclusion::StopView>(
            Some(
                if v[0] == 0x2f {
                    v
                } else {
                    joined(parent_of(file)->0, v)
                },
            ),
        ),
        path_value(seq![0x3au8, 0x28u8, 0x6fu8, 0x70u8, 0x74u8, 0x69u8, 0x6fu8, 0x6eu8, 0x61u8, 0x6cu8, 0x29u8] + v) == (v, true),
{
    lemma_prefixes();
    lemma_begins(v, v, seq![0x3au8, 0x28u8, 0x6fu8, 0x70u8, 0x74u8, 0x69u8, 0x6fu8, 0x6eu8, 0x61u8, 0x6cu8, 0x29u8]);
    lemma_begins(v, v, seq![0x25u8, 0x28u8, 0x70u8, 0x72u8, 0x65u8, 0x66u8, 0x69u8, 0x78u8, 0x29u8, 0x2fu8]);
    lemma_begins(v, v, seq![0x7eu8, 0x2fu8]);
}

/// Where configuration files are, where the environment names none.
pub proof fn law_places_of_configuration_files(e: Environment, home: Seq<u8>)
    requires
        e.git_config_nosystem is None,
        e.git_config_system is None,
        e.git_config_global is None,
        e.xdg_config_home is None,
        e.home matches Some(h) && h@ == home,
        home.len() > 0,
        home.last() != 0x2f,
    ensures
        location(Source::System, e) == Some(seq![0x2fu8, 0x65u8, 0x74u8, 0x63u8, 0x2fu8, 0x67u8, 0x69u8, 0x74u8, 0x63u8, 0x6fu8, 0x6eu8, 0x66u8, 0x69u8, 0x67u8]),
        location(Source::User, e) == Some(home + seq![0x2fu8, 0x2eu8, 0x67u8, 0x69u8, 0x74u8, 0x63u8, 0x6fu8, 0x6eu8, 0x66u8, 0x69u8, 0x67u8]),
        location(Source::Git, e) == Some(home + seq![0x2fu8, 0x2eu8, 0x63u8, 0x6fu8, 0x6eu8, 0x66u8, 0x69u8, 0x67u8, 0x2fu8, 0x67u8, 0x69u8, 0x74u8, 0x2fu8, 0x63u8, 0x6fu8, 0x6eu8, 0x66u8, 0x69u8, 0x67u8]),
{
    reveal_strlit("/");
    reveal_strlit("etc/gitconfig");
    reveal_strlit(".gitconfig");
    reveal_strlit(".config");
    reveal_strlit("git");
    reveal_strlit("config");
    lemma_lit("/", seq![0x2fu8]);
    lemma_lit("etc/gitconfig", seq![0x65u8, 0x74u8, 0x63u8, 0x2fu8, 0x67u8, 0x69u8, 0x74u8, 0x63u8, 0x6fu8, 0x6eu8, 0x66u8, 0x69u8, 0x67u8]);
    lemma_lit(".gitconfig", seq![0x2eu8, 0x67u8, 0x69u8, 0x74u8, 0x63u8, 0x6fu8, 0x6eu8, 0x66u8, 0x69u8, 0x67u8]);
    lemma_lit(".config", seq![0x2eu8, 0x63u8, 0x6fu8, 0x6eu8, 0x66u8, 0x69u8, 0x67u8]);
    lemma_lit("git", seq![0x67u8, 0x69u8, 0x74u8]);
    lemma_lit("config", seq![0x63u8, 0x6fu8, 0x6eu8, 0x66u8, 0x69u8, 0x67u8]);
    assert(joined(seq![0x2fu8], seq![0x65u8, 0x74u8, 0x63u8, 0x2fu8, 0x67u8, 0x69u8, 0x74u8, 0x63u8, 0x6fu8, 0x6eu8, 0x66u8, 0x69u8, 0x67u8]) =~= seq![0x2fu8, 0x65u8, 0x74u8, 0x63u8, 0x2fu8, 0x67u8, 0x69u8, 0x74u8, 0x63u8, 0x6fu8, 0x6eu8, 0x66u8, 0x69u8, 0x67u8]);
    assert(joined(home, seq![0x2eu8, 0x67u8, 0x69u8, 0x74u8, 0x63u8, 0x6fu8, 0x6eu8, 0x66u8, 0x69u8, 0x67u8]) =~= home + seq![0x2fu8, 0x2eu8, 0x67u8, 0x69u8, 0x74u8, 0x63u8, 0x6fu8, 0x6eu8, 0x66u8, 0x69u8, 0x67u8]);
    let a = joined(home, seq![0x2eu8, 0x63u8, 0x6fu8, 0x6eu8, 0x66u8, 0x69u8, 0x67u8]);
    assert(a =~= home + seq![0x2fu8, 0x2eu8, 0x63u8, 0x6fu8, 0x6eu8, 0x66u8, 0x69u8, 0x67u8]);
    let b = joined(a, seq![0x67u8, 0x69u8, 0x74u8]);
    assert(a.last() == 0x67);
    assert(b =~= home + seq![0x2fu8, 0x2eu8, 0x63u8, 0x6fu8, 0x6eu8, 0x66u8, 0x69u8, 0x67u8, 0x2fu8, 0x67u8, 0x69u8, 0x74u8]);
    assert(b.last() == 0x74);
    assert(joined(b, seq![0x63u8, 0x6fu8, 0x6eu8, 0x66u8, 0x69u8, 0x67u8]) =~= home + seq![0x2fu8, 0x2eu8, 0x63u8, 0x6fu8, 0x6eu8, 0x66u8, 0x69u8, 0x67u8, 0x2fu8, 0x67u8, 0x69u8, 0x74u8, 0x2fu8, 0x63u8, 0x6fu8, 0x6eu8, 0x66u8, 0x69u8, 0x67u8]);
}

/// Where configuration files are, where the environment names them.
pub proof fn law_environment_names_configuration_files(e: Environment)
    ensures
        e.git_config_global matches Some(g) ==> location(Source::User, e) == Some(g@) && location(
            Source::Git,
            e,
        ) == Some(g@),
        e.git_config_nosystem is None ==> (e.git_config_system matches Some(s) ==> location(Source::System, e)
            == Some(s@)),
        e.installation matches Some(f) ==> location(Source::GitInstallation, e) == Some(f@),
{
}

} // verus!
