//! What the files and names of references mean.
use crate::ascii::hex_digit;
use crate::bytes::{begins, from, lemma_pos_of_any_is, lemma_pos_of_is, lit};
use crate::git::oid::{hex, law_hex_read_back};
use crate::git::refs::follow::MAX_REF_DEPTH;
use crate::git::refs::loose::{ends_of_target, past_spaces, target_of, TargetView};
use crate::git::refs::name::{category_of, expanded, forbidden, forbidden_pair, linked, lock_before, looks_full, pseudo_ref, valid_complete, valid_partial, CategoryView};
use crate::git::refs::packed::{line_ends, reference_at, PackedView};
use crate::git::refs::store::{base_dir, candidates, lookup, LookupView, RefFile};
use vstd::prelude::*;

verus! {

/// So many spaces.
pub open spec fn spaces(n: nat) -> Seq<u8> {
    Seq::new(n, |i: int| 32u8)
}

proof fn lemma_past_spaces_is(s: Seq<u8>, i: int, j: int)
    requires
        0 <= i <= j <= s.len(),
        forall|k: int| i <= k < j ==> #[trigger] s[k] == 32,
        j < s.len() ==> s[j] != 32,
    ensures
        past_spaces(s, i) == j,
    decreases j - i,
{
    if i < j {
        lemma_past_spaces_is(s, i + 1, j);
    }
}

/// A symbolic reference points to the name that was written, whatever ends the line.
pub proof fn law_symbolic_reference_read_back(name: Seq<u8>, n: nat, rest: Seq<u8>)
    requires
        valid_complete(name),
        rest.len() == 0 || rest[0] == 10 || (rest.len() >= 2 && rest[0] == 13 && rest[1] == 10),
    ensures
        target_of(lit("ref: ") + spaces(n) + name + rest) == Some(TargetView::Symbolic(name)),
{
    let head = lit("ref: ");
    let s = head + spaces(n) + name + rest;
    let i = (head.len() + n) as int;
    let e = i + name.len();
    assert(s.subrange(0, head.len() as int) =~= head);
    assert(!forbidden(name[0]));
    assert(s[i] == name[0]);
    lemma_past_spaces_is(s, head.len() as int, i);
    assert forall|k: int| i <= k < e implies !ends_of_target().contains(#[trigger] s[k]) by {
        assert(s[k] == name[k - i]);
        assert(!forbidden(name[k - i]));
    }
    if e < s.len() {
        assert(s[e] == rest[0]);
        assert(ends_of_target()[1] == 13 && ends_of_target()[2] == 10);
    }
    lemma_pos_of_any_is(s, ends_of_target(), i, e);
    assert(s.subrange(i, e) =~= name);
}

/// A reference points to the object whose id was written, whatever follows that is no digit.
pub proof fn law_object_reference_read_back(id: Seq<u8>, rest: Seq<u8>)
    requires
        id.len() == 20,
        rest.len() > 0 ==> rest[0] < '0' as u8 || ('9' as u8) < rest[0] < 'A' as u8 || ('F' as u8) < rest[0] < 'a' as u8
            || rest[0] > 'f' as u8,
    ensures
        target_of(hex(id) + rest) == Some(TargetView::Object(id)),
{
    let s = hex(id) + rest;
    law_hex_read_back(id);
    assert(s.subrange(0, 40) =~= hex(id));
    assert(rest.len() > 0 ==> s[40] == rest[0]);
    reveal_strlit("ref: ");
    vstd::utf8::is_ascii_chars_encode_utf8("ref: "@);
    assert(lit("ref: ")[0] == 'r' as u8);
    assert(hex_digit(hex(id)[0]));
    if begins(s, lit("ref: ")) {
        assert(s.subrange(0, 5)[0] == 'r' as u8);
    }
}

/// The byte is not allowed in the name of a reference: a control character, a space, or one of those that have another
/// meaning.
pub open spec fn unusable(b: u8) -> bool {
    b < 33 || b == 127 || b == '~' as u8 || b == '^' as u8 || b == ':' as u8 || b == '?' as u8 || b == '*' as u8 || b
        == '[' as u8 || b == '\\' as u8
}

/// `part` stands somewhere in `s`.
pub open spec fn holds_part(s: Seq<u8>, part: Seq<u8>) -> bool {
    exists|i: int| 0 <= i && i + part.len() <= s.len() && #[trigger] s.subrange(i, i + part.len()) == part
}

proof fn lemma_pair(s: Seq<u8>, a: u8, b: u8)
    ensures
        holds_part(s, seq![a, b]) <==> exists|i: int| 0 < i < s.len() && s[i - 1] == a && #[trigger] s[i] == b,
{
    let p = seq![a, b];
    if holds_part(s, p) {
        let i = choose|i: int| 0 <= i && i + p.len() <= s.len() && #[trigger] s.subrange(i, i + p.len()) == p;
        assert(s.subrange(i, i + 2)[0] == a && s.subrange(i, i + 2)[1] == b);
        assert(s[(i + 1) - 1] == a && s[i + 1] == b);
    }
    if exists|i: int| 0 < i < s.len() && s[i - 1] == a && #[trigger] s[i] == b {
        let i = choose|i: int| 0 < i < s.len() && s[i - 1] == a && #[trigger] s[i] == b;
        assert(s.subrange(i - 1, i - 1 + p.len()) =~= p);
    }
}

/// A name is one of a reference, or part of one, where it holds nothing that is not allowed: no byte of those that are
/// not, no two dots or separators in a row, no `@{`, no part that begins with a dot after a separator or ends in `.lock`,
/// and no separator at either end.
pub proof fn law_names_that_are_valid(s: Seq<u8>)
    ensures
        valid_partial(s) <==> {
            &&& s.len() > 0 && s[0] != '/' as u8 && s.last() != '/' as u8
            &&& forall|i: int| 0 <= i < s.len() ==> !unusable(#[trigger] s[i])
            &&& !holds_part(s, seq!['.' as u8, '.' as u8])
            &&& !holds_part(s, seq!['/' as u8, '/' as u8])
            &&& !holds_part(s, seq!['/' as u8, '.' as u8])
            &&& !holds_part(s, seq!['@' as u8, '{' as u8])
            &&& !holds_part(s, lit(".lock/"))
            &&& !(s.len() >= 5 && s.skip(s.len() - 5) == lit(".lock"))
        },
        valid_complete(s) <==> valid_partial(s) && (s.contains('/' as u8) || forall|i: int|
            0 <= i < s.len() ==> ('A' as u8 <= #[trigger] s[i] && s[i] <= 'Z' as u8) || s[i] == '_' as u8),
{
    reveal_strlit(".lock/");
    reveal_strlit(".lock");
    vstd::utf8::is_ascii_chars_encode_utf8(".lock/"@);
    vstd::utf8::is_ascii_chars_encode_utf8(".lock"@);
    let lock = lit(".lock");
    let part = lit(".lock/");
    assert(lock =~= seq!['.' as u8, 'l' as u8, 'o' as u8, 'c' as u8, 'k' as u8]);
    assert(part =~= seq!['.' as u8, 'l' as u8, 'o' as u8, 'c' as u8, 'k' as u8, '/' as u8]);
    lemma_pair(s, '.' as u8, '.' as u8);
    lemma_pair(s, '/' as u8, '/' as u8);
    lemma_pair(s, '/' as u8, '.' as u8);
    lemma_pair(s, '@' as u8, '{' as u8);
    assert forall|b: u8| #[trigger] unusable(b) == forbidden(b) by {}
    assert((forall|i: int| 0 <= i < s.len() ==> !unusable(#[trigger] s[i])) <==> (forall|i: int|
        0 <= i < s.len() ==> !forbidden(#[trigger] s[i]))) by {
        assert forall|i: int| 0 <= i < s.len() implies unusable(#[trigger] s[i]) == forbidden(s[i]) by {}
    }
    let pairs = forall|i: int| 0 < i < s.len() ==> !forbidden_pair(s[i - 1], #[trigger] s[i]);
    let none = !holds_part(s, seq!['.' as u8, '.' as u8]) && !holds_part(s, seq!['/' as u8, '/' as u8]) && !holds_part(
        s,
        seq!['/' as u8, '.' as u8],
    ) && !holds_part(s, seq!['@' as u8, '{' as u8]);
    assert(pairs <==> none);
    assert(holds_part(s, part) <==> exists|i: int| 0 <= i < s.len() && #[trigger] s[i] == '/' as u8 && lock_before(s, i)) by {
        if holds_part(s, part) {
            let i = choose|i: int| 0 <= i && i + part.len() <= s.len() && #[trigger] s.subrange(i, i + part.len()) == part;
            let w = s.subrange(i, i + 6);
            assert(w[0] == s[i] && w[1] == s[i + 1] && w[2] == s[i + 2] && w[3] == s[i + 3] && w[4] == s[i + 4] && w[5]
                == s[i + 5]);
            assert(s[i + 5] == '/' as u8 && lock_before(s, i + 5));
        }
        if exists|i: int| 0 <= i < s.len() && #[trigger] s[i] == '/' as u8 && lock_before(s, i) {
            let i = choose|i: int| 0 <= i < s.len() && #[trigger] s[i] == '/' as u8 && lock_before(s, i);
            assert(s.subrange(i - 5, i - 5 + part.len()) =~= part);
        }
    }
    assert(lock_before(s, s.len() as int) <==> s.len() >= 5 && s.skip(s.len() - 5) == lock) by {
        if s.len() >= 5 {
            let w = s.skip(s.len() - 5);
            let n = s.len() as int;
            assert(w[0] == s[n - 5] && w[1] == s[n - 4] && w[2] == s[n - 3] && w[3] == s[n - 2] && w[4] == s[n - 1]);
            if lock_before(s, n) {
                assert(w =~= lock);
            }
        }
    }
}

/// A line of packed references is read as it was written: the id, a space, and the name.
pub proof fn law_packed_line_read_back(id: Seq<u8>, name: Seq<u8>, rest: Seq<u8>)
    requires
        id.len() == 20,
        valid_complete(name),
        rest.len() > 0 ==> rest[0] != '^' as u8,
    ensures
        ({
            let line = hex(id) + seq![32u8] + name + seq![10u8];
            reference_at(line + rest, 0) == Some(
                (PackedView { target: hex(id), name, object: None }, line.len() as int),
            )
        }),
{
    let line = hex(id) + seq![32u8] + name + seq![10u8];
    let s = line + rest;
    let e = 41 + name.len() as int;
    law_hex_read_back(id);
    assert(s.subrange(0, 40) =~= hex(id));
    assert(s.subrange(41, e) =~= name);
    assert(s[40] == 32);
    assert(s[e] == 10);
    assert forall|k: int| 41 <= k < e implies !line_ends().contains(#[trigger] s[k]) by {
        assert(s[k] == name[k - 41]);
        assert(!forbidden(name[k - 41]));
    }
    assert(line_ends()[0] == 13 || line_ends()[1] == 13);
    assert(line_ends()[0] == 10 || line_ends()[1] == 10);
    lemma_pos_of_any_is(s, line_ends(), 41, e);
    assert(rest.len() > 0 ==> s[e + 1] == rest[0]);
}

/// A line with the id of the object that a tag names is read with the line before it.
pub proof fn law_peeled_line_read_back(id: Seq<u8>, name: Seq<u8>, object: Seq<u8>, rest: Seq<u8>)
    requires
        id.len() == 20,
        object.len() == 20,
        valid_complete(name),
    ensures
        ({
            let line = hex(id) + seq![32u8] + name + seq![10u8] + seq!['^' as u8] + hex(object) + seq![10u8];
            reference_at(line + rest, 0) == Some(
                (PackedView { target: hex(id), name, object: Some(hex(object)) }, line.len() as int),
            )
        }),
{
    let line = hex(id) + seq![32u8] + name + seq![10u8] + seq!['^' as u8] + hex(object) + seq![10u8];
    let s = line + rest;
    let e = 41 + name.len() as int;
    law_hex_read_back(id);
    law_hex_read_back(object);
    assert(s.subrange(0, 40) =~= hex(id));
    assert(s.subrange(41, e) =~= name);
    assert(s.subrange(e + 2, e + 42) =~= hex(object));
    assert(s[40] == 32);
    assert(s[e] == 10 && s[e + 1] == '^' as u8 && s[e + 42] == 10);
    assert forall|k: int| 41 <= k < e implies !line_ends().contains(#[trigger] s[k]) by {
        assert(s[k] == name[k - 41]);
        assert(!forbidden(name[k - 41]));
    }
    assert(line_ends()[0] == 10 || line_ends()[1] == 10);
    lemma_pos_of_any_is(s, line_ends(), 41, e);
}

proof fn lemma_words()
    ensures
        lit("refs/") == seq!['r' as u8, 'e' as u8, 'f' as u8, 's' as u8, '/' as u8],
        lit("refs/tags/") == seq!['r' as u8, 'e' as u8, 'f' as u8, 's' as u8, '/' as u8, 't' as u8, 'a' as u8, 'g' as u8, 's' as u8, '/' as u8],
        lit("refs/heads/") == seq!['r' as u8, 'e' as u8, 'f' as u8, 's' as u8, '/' as u8, 'h' as u8, 'e' as u8, 'a' as u8, 'd' as u8, 's' as u8, '/' as u8],
        lit("refs/remotes/") == seq!['r' as u8, 'e' as u8, 'f' as u8, 's' as u8, '/' as u8, 'r' as u8, 'e' as u8, 'm' as u8, 'o' as u8, 't' as u8, 'e' as u8, 's' as u8, '/' as u8],
        lit("refs/notes/") == seq!['r' as u8, 'e' as u8, 'f' as u8, 's' as u8, '/' as u8, 'n' as u8, 'o' as u8, 't' as u8, 'e' as u8, 's' as u8, '/' as u8],
        lit("refs/bisect/") == seq!['r' as u8, 'e' as u8, 'f' as u8, 's' as u8, '/' as u8, 'b' as u8, 'i' as u8, 's' as u8, 'e' as u8, 'c' as u8, 't' as u8, '/' as u8],
        lit("refs/worktree/") == seq!['r' as u8, 'e' as u8, 'f' as u8, 's' as u8, '/' as u8, 'w' as u8, 'o' as u8, 'r' as u8, 'k' as u8, 't' as u8, 'r' as u8, 'e' as u8, 'e' as u8, '/' as u8],
        lit("refs/rewritten/") == seq!['r' as u8, 'e' as u8, 'f' as u8, 's' as u8, '/' as u8, 'r' as u8, 'e' as u8, 'w' as u8, 'r' as u8, 'i' as u8, 't' as u8, 't' as u8, 'e' as u8, 'n' as u8, '/' as u8],
        lit("main-worktree/") == seq!['m' as u8, 'a' as u8, 'i' as u8, 'n' as u8, '-' as u8, 'w' as u8, 'o' as u8, 'r' as u8, 'k' as u8, 't' as u8, 'r' as u8, 'e' as u8, 'e' as u8, '/' as u8],
        lit("worktrees/") == seq!['w' as u8, 'o' as u8, 'r' as u8, 'k' as u8, 't' as u8, 'r' as u8, 'e' as u8, 'e' as u8, 's' as u8, '/' as u8],
        lit("tags") == seq!['t' as u8, 'a' as u8, 'g' as u8, 's' as u8],
        lit("heads") == seq!['h' as u8, 'e' as u8, 'a' as u8, 'd' as u8, 's' as u8],
        lit("remotes") == seq!['r' as u8, 'e' as u8, 'm' as u8, 'o' as u8, 't' as u8, 'e' as u8, 's' as u8],
        lit("") == Seq::<u8>::empty(),
        lit("HEAD") == seq!['H' as u8, 'E' as u8, 'A' as u8, 'D' as u8],
        lit("/HEAD") == seq!['/' as u8, 'H' as u8, 'E' as u8, 'A' as u8, 'D' as u8],
{
    reveal_strlit("refs/");
    vstd::utf8::is_ascii_chars_encode_utf8("refs/"@);
    reveal_strlit("refs/tags/");
    vstd::utf8::is_ascii_chars_encode_utf8("refs/tags/"@);
    reveal_strlit("refs/heads/");
    vstd::utf8::is_ascii_chars_encode_utf8("refs/heads/"@);
    reveal_strlit("refs/remotes/");
    vstd::utf8::is_ascii_chars_encode_utf8("refs/remotes/"@);
    reveal_strlit("refs/notes/");
    vstd::utf8::is_ascii_chars_encode_utf8("refs/notes/"@);
    reveal_strlit("refs/bisect/");
    vstd::utf8::is_ascii_chars_encode_utf8("refs/bisect/"@);
    reveal_strlit("refs/worktree/");
    vstd::utf8::is_ascii_chars_encode_utf8("refs/worktree/"@);
    reveal_strlit("refs/rewritten/");
    vstd::utf8::is_ascii_chars_encode_utf8("refs/rewritten/"@);
    reveal_strlit("main-worktree/");
    vstd::utf8::is_ascii_chars_encode_utf8("main-worktree/"@);
    reveal_strlit("worktrees/");
    vstd::utf8::is_ascii_chars_encode_utf8("worktrees/"@);
    reveal_strlit("tags");
    vstd::utf8::is_ascii_chars_encode_utf8("tags"@);
    reveal_strlit("heads");
    vstd::utf8::is_ascii_chars_encode_utf8("heads"@);
    reveal_strlit("remotes");
    vstd::utf8::is_ascii_chars_encode_utf8("remotes"@);
    reveal_strlit("");
    vstd::utf8::is_ascii_chars_encode_utf8(""@);
    reveal_strlit("HEAD");
    vstd::utf8::is_ascii_chars_encode_utf8("HEAD"@);
    reveal_strlit("/HEAD");
    vstd::utf8::is_ascii_chars_encode_utf8("/HEAD"@);
    assert(lit("refs/") =~= seq!['r' as u8, 'e' as u8, 'f' as u8, 's' as u8, '/' as u8]);
    assert(lit("refs/tags/") =~= seq!['r' as u8, 'e' as u8, 'f' as u8, 's' as u8, '/' as u8, 't' as u8, 'a' as u8, 'g' as u8, 's' as u8, '/' as u8]);
    assert(lit("refs/heads/") =~= seq!['r' as u8, 'e' as u8, 'f' as u8, 's' as u8, '/' as u8, 'h' as u8, 'e' as u8, 'a' as u8, 'd' as u8, 's' as u8, '/' as u8]);
    assert(lit("refs/remotes/") =~= seq!['r' as u8, 'e' as u8, 'f' as u8, 's' as u8, '/' as u8, 'r' as u8, 'e' as u8, 'm' as u8, 'o' as u8, 't' as u8, 'e' as u8, 's' as u8, '/' as u8]);
    assert(lit("refs/notes/") =~= seq!['r' as u8, 'e' as u8, 'f' as u8, 's' as u8, '/' as u8, 'n' as u8, 'o' as u8, 't' as u8, 'e' as u8, 's' as u8, '/' as u8]);
    assert(lit("refs/bisect/") =~= seq!['r' as u8, 'e' as u8, 'f' as u8, 's' as u8, '/' as u8, 'b' as u8, 'i' as u8, 's' as u8, 'e' as u8, 'c' as u8, 't' as u8, '/' as u8]);
    assert(lit("refs/worktree/") =~= seq!['r' as u8, 'e' as u8, 'f' as u8, 's' as u8, '/' as u8, 'w' as u8, 'o' as u8, 'r' as u8, 'k' as u8, 't' as u8, 'r' as u8, 'e' as u8, 'e' as u8, '/' as u8]);
    assert(lit("refs/rewritten/") =~= seq!['r' as u8, 'e' as u8, 'f' as u8, 's' as u8, '/' as u8, 'r' as u8, 'e' as u8, 'w' as u8, 'r' as u8, 'i' as u8, 't' as u8, 't' as u8, 'e' as u8, 'n' as u8, '/' as u8]);
    assert(lit("main-worktree/") =~= seq!['m' as u8, 'a' as u8, 'i' as u8, 'n' as u8, '-' as u8, 'w' as u8, 'o' as u8, 'r' as u8, 'k' as u8, 't' as u8, 'r' as u8, 'e' as u8, 'e' as u8, '/' as u8]);
    assert(lit("worktrees/") =~= seq!['w' as u8, 'o' as u8, 'r' as u8, 'k' as u8, 't' as u8, 'r' as u8, 'e' as u8, 'e' as u8, 's' as u8, '/' as u8]);
    assert(lit("tags") =~= seq!['t' as u8, 'a' as u8, 'g' as u8, 's' as u8]);
    assert(lit("heads") =~= seq!['h' as u8, 'e' as u8, 'a' as u8, 'd' as u8, 's' as u8]);
    assert(lit("remotes") =~= seq!['r' as u8, 'e' as u8, 'm' as u8, 'o' as u8, 't' as u8, 'e' as u8, 's' as u8]);
    assert(lit("") =~= Seq::<u8>::empty());
    assert(lit("HEAD") =~= seq!['H' as u8, 'E' as u8, 'A' as u8, 'D' as u8]);
    assert(lit("/HEAD") =~= seq!['/' as u8, 'H' as u8, 'E' as u8, 'A' as u8, 'D' as u8]);
}

/// `a` and `b` differ within what both begin with.
proof fn lemma_other_beginning(a: Seq<u8>, rest: Seq<u8>, b: Seq<u8>, k: int)
    requires
        0 <= k < a.len(),
        k < b.len(),
        a[k] != b[k],
    ensures
        !begins(a + rest, b),
{
    let s = a + rest;
    if begins(s, b) {
        assert(s.subrange(0, b.len() as int)[k] == s[k]);
        assert(s[k] == a[k]);
    }
}

proof fn lemma_own_beginning(a: Seq<u8>, rest: Seq<u8>)
    ensures
        begins(a + rest, a),
        from(a + rest, a.len() as int) == rest,
{
    assert((a + rest).subrange(0, a.len() as int) =~= a);
    assert(from(a + rest, a.len() as int) =~= rest);
}

/// Branches, tags and branches of remotes are named by what follows `refs/heads/`, `refs/tags/` and `refs/remotes/`, and
/// their files are in the directory that all worktrees share, under their own names.
pub proof fn law_shared_references(rest: Seq<u8>, git_dir: Seq<u8>, common: Seq<u8>, is_reflog: bool)
    ensures
        category_of(lit("refs/heads/") + rest) == Some((CategoryView::LocalBranch, rest)),
        category_of(lit("refs/tags/") + rest) == Some((CategoryView::Tag, rest)),
        category_of(lit("refs/remotes/") + rest) == Some((CategoryView::RemoteBranch, rest)),
        base_dir(git_dir, common, lit("refs/heads/") + rest, is_reflog) == (common, lit("refs/heads/") + rest),
        base_dir(git_dir, common, lit("refs/tags/") + rest, is_reflog) == (common, lit("refs/tags/") + rest),
        base_dir(git_dir, common, lit("refs/remotes/") + rest, is_reflog) == (common, lit("refs/remotes/") + rest),
        base_dir(git_dir, common, lit("refs/notes/") + rest, is_reflog) == (common, lit("refs/notes/") + rest),
{
    lemma_words();
    lemma_own_beginning(lit("refs/heads/"), rest);
    lemma_own_beginning(lit("refs/tags/"), rest);
    lemma_own_beginning(lit("refs/remotes/"), rest);
    lemma_own_beginning(lit("refs/notes/"), rest);
    lemma_other_beginning(lit("refs/heads/"), rest, lit("refs/tags/"), 5);
    lemma_other_beginning(lit("refs/remotes/"), rest, lit("refs/tags/"), 5);
    lemma_other_beginning(lit("refs/remotes/"), rest, lit("refs/heads/"), 5);
    lemma_other_beginning(lit("refs/notes/"), rest, lit("refs/tags/"), 5);
    lemma_other_beginning(lit("refs/notes/"), rest, lit("refs/heads/"), 5);
    lemma_other_beginning(lit("refs/notes/"), rest, lit("refs/remotes/"), 5);
}

/// The name is made of upper case letters and `_` alone, as `HEAD` is.
pub open spec fn all_upper(name: Seq<u8>) -> bool {
    forall|i: int| 0 <= i < name.len() ==> ('A' as u8 <= #[trigger] name[i] && name[i] <= 'Z' as u8) || name[i]
        == '_' as u8
}

/// `HEAD` and other names of that kind, and what is under `refs/bisect/`, `refs/worktree/` and `refs/rewritten/`, belong to
/// one worktree: their files are in its own directory.
pub proof fn law_private_references(rest: Seq<u8>, git_dir: Seq<u8>, common: Seq<u8>, is_reflog: bool)
    ensures
        all_upper(rest) && rest.len() > 0 ==> base_dir(git_dir, common, rest, is_reflog) == (git_dir, rest),
        base_dir(git_dir, common, lit("refs/bisect/") + rest, is_reflog) == (git_dir, lit("refs/bisect/") + rest),
        base_dir(git_dir, common, lit("refs/worktree/") + rest, is_reflog) == (git_dir, lit("refs/worktree/") + rest),
        base_dir(git_dir, common, lit("refs/rewritten/") + rest, is_reflog) == (git_dir, lit("refs/rewritten/") + rest),
{
    lemma_words();
    if all_upper(rest) && rest.len() > 0 {
        assert(pseudo_ref(rest));
        assert forall|p: Seq<u8>| p.len() > 0 && p[0] >= 'a' as u8 implies !#[trigger] begins(rest, p) by {
            if begins(rest, p) {
                assert(rest.subrange(0, p.len() as int)[0] == rest[0]);
            }
        }
        assert(lit("refs/tags/")[0] == 'r' as u8 && lit("refs/heads/")[0] == 'r' as u8 && lit("refs/remotes/")[0]
            == 'r' as u8 && lit("refs/notes/")[0] == 'r' as u8 && lit("refs/bisect/")[0] == 'r' as u8
            && lit("refs/worktree/")[0] == 'r' as u8 && lit("refs/rewritten/")[0] == 'r' as u8);
    }
    lemma_own_beginning(lit("refs/bisect/"), rest);
    lemma_own_beginning(lit("refs/worktree/"), rest);
    lemma_own_beginning(lit("refs/rewritten/"), rest);
    lemma_other_beginning(lit("refs/bisect/"), rest, lit("refs/tags/"), 5);
    lemma_other_beginning(lit("refs/bisect/"), rest, lit("refs/heads/"), 5);
    lemma_other_beginning(lit("refs/bisect/"), rest, lit("refs/remotes/"), 5);
    lemma_other_beginning(lit("refs/bisect/"), rest, lit("refs/notes/"), 5);
    lemma_other_beginning(lit("refs/worktree/"), rest, lit("refs/tags/"), 5);
    lemma_other_beginning(lit("refs/worktree/"), rest, lit("refs/heads/"), 5);
    lemma_other_beginning(lit("refs/worktree/"), rest, lit("refs/remotes/"), 5);
    lemma_other_beginning(lit("refs/worktree/"), rest, lit("refs/notes/"), 5);
    lemma_other_beginning(lit("refs/worktree/"), rest, lit("refs/bisect/"), 5);
    lemma_other_beginning(lit("refs/rewritten/"), rest, lit("refs/tags/"), 5);
    lemma_other_beginning(lit("refs/rewritten/"), rest, lit("refs/heads/"), 5);
    lemma_other_beginning(lit("refs/rewritten/"), rest, lit("refs/remotes/"), 7);
    lemma_other_beginning(lit("refs/rewritten/"), rest, lit("refs/notes/"), 5);
    lemma_other_beginning(lit("refs/rewritten/"), rest, lit("refs/bisect/"), 5);
    lemma_other_beginning(lit("refs/rewritten/"), rest, lit("refs/worktree/"), 5);
}

/// A name that begins with `main-worktree/` means the reference of the main worktree: its file is in the directory that
/// all worktrees share, under what follows.
pub proof fn law_references_of_the_main_worktree(rest: Seq<u8>, git_dir: Seq<u8>, common: Seq<u8>, is_reflog: bool)
    requires
        (all_upper(rest) && rest.len() > 0) || begins(rest, lit("refs/")),
    ensures
        base_dir(git_dir, common, lit("main-worktree/") + rest, is_reflog) == (common, rest),
{
    lemma_words();
    let a = lit("main-worktree/");
    lemma_own_beginning(a, rest);
    lemma_other_beginning(a, rest, lit("refs/tags/"), 0);
    lemma_other_beginning(a, rest, lit("refs/heads/"), 0);
    lemma_other_beginning(a, rest, lit("refs/remotes/"), 0);
    lemma_other_beginning(a, rest, lit("refs/notes/"), 0);
    lemma_other_beginning(a, rest, lit("refs/bisect/"), 0);
    lemma_other_beginning(a, rest, lit("refs/worktree/"), 0);
    lemma_other_beginning(a, rest, lit("refs/rewritten/"), 0);
    assert((a + rest)[0] == 'm' as u8);
    assert(!pseudo_ref(a + rest));
    if all_upper(rest) && rest.len() > 0 {
        assert(pseudo_ref(rest));
        if begins(rest, lit("refs/")) {
            assert(rest.subrange(0, 5)[0] == rest[0]);
        }
    }
}

/// A reference of a linked worktree that worktrees share is in the directory that they share, under what follows the
/// worktree's name, and one of the worktree's own is below that, under its whole name.
pub proof fn law_references_of_a_worktree(
    name: Seq<u8>,
    worktree: Seq<u8>,
    short: Seq<u8>,
    git_dir: Seq<u8>,
    common: Seq<u8>,
)
    requires
        category_of(name) == Some((CategoryView::LinkedRef(worktree), short)) || category_of(name) == Some(
            (CategoryView::LinkedPseudoRef(worktree), short),
        ),
    ensures
        (category_of(name)->0).0 is LinkedPseudoRef ==> base_dir(git_dir, common, name, false) == (common, name),
        (category_of(name)->0).0 is LinkedRef && category_of(short) is None ==> base_dir(git_dir, common, name, false) == (
            common,
            short,
        ),
        (category_of(name)->0).0 is LinkedRef ==> (category_of(short) matches Some((c, _)) ==> {
            &&& c is Tag || c is LocalBranch || c is RemoteBranch || c is Note ==> base_dir(git_dir, common, name, false)
                == (common, short)
            &&& c is Bisect || c is Rewritten || c is WorktreePrivate || c is PseudoRef ==> base_dir(
                git_dir,
                common,
                name,
                false,
            ) == (common, name)
        }),
{
}

/// A name that begins with `worktrees/` and the name of a worktree means what follows, as that worktree sees it.
pub proof fn law_names_of_a_worktree(worktree: Seq<u8>, rest: Seq<u8>)
    requires
        !worktree.contains('/' as u8),
        rest.len() > 0,
    ensures
        begins(rest, lit("refs/")) ==> category_of(lit("worktrees/") + worktree + seq!['/' as u8] + rest) == Some(
            (CategoryView::LinkedRef(worktree), rest),
        ),
        all_upper(rest) ==> category_of(lit("worktrees/") + worktree + seq!['/' as u8] + rest) == Some(
            (CategoryView::LinkedPseudoRef(worktree), rest),
        ),
{
    let whole = category_of(lit("worktrees/") + worktree + seq!['/' as u8] + rest);
    assert(whole == linked(worktree, rest)) by {
        lemma_in_worktree(worktree, rest);
    }
    lemma_linked_is(whole, worktree, rest);
}

proof fn lemma_linked_is(whole: Option<(CategoryView, Seq<u8>)>, worktree: Seq<u8>, rest: Seq<u8>)
    requires
        whole == linked(worktree, rest),
        rest.len() > 0,
    ensures
        begins(rest, lit("refs/")) ==> whole == Some((CategoryView::LinkedRef(worktree), rest)),
        all_upper(rest) ==> whole == Some((CategoryView::LinkedPseudoRef(worktree), rest)),
{
    if all_upper(rest) {
        assert(pseudo_ref(rest));
        lemma_upper_is_no_path(rest);
    }
}

proof fn lemma_upper_is_no_path(rest: Seq<u8>)
    requires
        all_upper(rest),
        rest.len() > 0,
    ensures
        !begins(rest, lit("refs/")),
{
    reveal_strlit("refs/");
    vstd::utf8::is_ascii_chars_encode_utf8("refs/"@);
    if begins(rest, lit("refs/")) {
        assert(rest.subrange(0, 5)[0] == rest[0]);
    }
}

proof fn lemma_in_worktree(worktree: Seq<u8>, rest: Seq<u8>)
    requires
        !worktree.contains('/' as u8),
    ensures
        category_of(lit("worktrees/") + worktree + seq!['/' as u8] + rest) == linked(worktree, rest),
{
    lemma_words();
    let a = lit("worktrees/");
    let tail = worktree + seq!['/' as u8] + rest;
    let name = lit("worktrees/") + worktree + seq!['/' as u8] + rest;
    assert(name =~= a + tail);
    lemma_own_beginning(a, tail);
    lemma_other_beginning(a, tail, lit("refs/tags/"), 0);
    lemma_other_beginning(a, tail, lit("refs/heads/"), 0);
    lemma_other_beginning(a, tail, lit("refs/remotes/"), 0);
    lemma_other_beginning(a, tail, lit("refs/notes/"), 0);
    lemma_other_beginning(a, tail, lit("refs/bisect/"), 0);
    lemma_other_beginning(a, tail, lit("refs/worktree/"), 0);
    lemma_other_beginning(a, tail, lit("refs/rewritten/"), 0);
    lemma_other_beginning(a, tail, lit("main-worktree/"), 0);
    assert(name[0] == 'w' as u8);
    assert(!pseudo_ref(name));
    let n = worktree.len() as int;
    assert(tail[n] == '/' as u8);
    assert forall|k: int| 0 <= k < n implies #[trigger] tail[k] != '/' as u8 by {
        assert(tail[k] == worktree[k]);
        assert(worktree.contains(worktree[k]));
    }
    lemma_pos_of_is(tail, '/' as u8, 0, n);
    assert(tail.subrange(0, n) =~= worktree);
    assert(from(tail, n + 1) =~= rest);
}

/// The name is short: with what follows a separator it begins with nothing that a complete name begins with.
pub open spec fn is_short(name: Seq<u8>) -> bool {
    let dir = name.push('/' as u8);
    !begins(dir, lit("refs/")) && !begins(dir, lit("main-worktree/")) && !begins(dir, lit("worktrees/"))
}

/// A short name is looked up under `refs/`, then among the tags, the branches and the branches of remotes, and then as the
/// name of a remote. One like `HEAD` is looked up as it is before that.
pub proof fn law_short_names_are_completed(name: Seq<u8>)
    requires
        is_short(name),
        name != lit("HEAD"),
    ensures
        candidates(name) == (if all_upper(name) {
            seq![name]
        } else {
            seq![]
        }) + seq![
            lit("refs/") + name,
            lit("refs/tags/") + name,
            lit("refs/heads/") + name,
            lit("refs/remotes/") + name,
            lit("refs/remotes/") + name + lit("/HEAD"),
        ],
{
    assert(pseudo_ref(name) == all_upper(name));
    let longer = name + lit("/HEAD");
    let p = !pseudo_ref(name);
    lemma_separator_last();
    lemma_still_short(name, lit("refs/"));
    lemma_still_short(name, lit("main-worktree/"));
    lemma_still_short(name, lit("worktrees/"));
    assert(!looks_full(longer, true)) by {
        assert(longer[name.len() as int] == lit("/HEAD")[0]);
    }
    lemma_expanded(name, p);
    lemma_expanded(longer, true);
    assert(lit("refs/remotes/") + longer =~= lit("refs/remotes/") + name + lit("/HEAD"));
    assert(pseudo_ref(name) ==> looks_full(name, true));
    assert(pseudo_ref(name) ==> expanded(name, lit(""), true) == name) by {
        if pseudo_ref(name) {
            lemma_expanded_full(name);
        }
    }
    let five = seq![
        lit("refs/") + name,
        lit("refs/tags/") + name,
        lit("refs/heads/") + name,
        lit("refs/remotes/") + name,
        lit("refs/remotes/") + name + lit("/HEAD"),
    ];
    if pseudo_ref(name) {
        assert(candidates(name) =~= seq![name] + five);
    } else {
        assert(candidates(name) =~= Seq::<Seq<u8>>::empty() + five);
    }
}

proof fn lemma_expanded_full(name: Seq<u8>)
    requires
        looks_full(name, true),
    ensures
        expanded(name, lit(""), true) == name,
{
    reveal_strlit("");
    vstd::utf8::is_ascii_chars_encode_utf8(""@);
    assert(expanded(name, lit(""), true) =~= name);
}

proof fn lemma_expanded(name: Seq<u8>, consider_pseudo: bool)
    requires
        !looks_full(name, consider_pseudo),
    ensures
        expanded(name, lit(""), consider_pseudo) == lit("refs/") + name,
        expanded(name, lit("tags"), consider_pseudo) == lit("refs/tags/") + name,
        expanded(name, lit("heads"), consider_pseudo) == lit("refs/heads/") + name,
        expanded(name, lit("remotes"), consider_pseudo) == lit("refs/remotes/") + name,
{
    reveal_strlit("");
    reveal_strlit("refs/");
    reveal_strlit("tags");
    reveal_strlit("heads");
    reveal_strlit("remotes");
    reveal_strlit("refs/tags/");
    reveal_strlit("refs/heads/");
    reveal_strlit("refs/remotes/");
    vstd::utf8::is_ascii_chars_encode_utf8(""@);
    vstd::utf8::is_ascii_chars_encode_utf8("refs/"@);
    vstd::utf8::is_ascii_chars_encode_utf8("tags"@);
    vstd::utf8::is_ascii_chars_encode_utf8("heads"@);
    vstd::utf8::is_ascii_chars_encode_utf8("remotes"@);
    vstd::utf8::is_ascii_chars_encode_utf8("refs/tags/"@);
    vstd::utf8::is_ascii_chars_encode_utf8("refs/heads/"@);
    vstd::utf8::is_ascii_chars_encode_utf8("refs/remotes/"@);
    assert(expanded(name, lit(""), consider_pseudo) =~= lit("refs/") + name);
    assert(expanded(name, lit("tags"), consider_pseudo) =~= lit("refs/tags/") + name);
    assert(expanded(name, lit("heads"), consider_pseudo) =~= lit("refs/heads/") + name);
    assert(expanded(name, lit("remotes"), consider_pseudo) =~= lit("refs/remotes/") + name);
}

/// What complete names begin with has a separator at its end and nowhere else.
proof fn lemma_separator_last()
    ensures
        lit("refs/").len() > 0 && forall|i: int| 0 <= i < lit("refs/").len() - 1 ==> #[trigger] lit("refs/")[i] != '/' as u8,
        lit("main-worktree/").len() > 0 && forall|i: int|
            0 <= i < lit("main-worktree/").len() - 1 ==> #[trigger] lit("main-worktree/")[i] != '/' as u8,
        lit("worktrees/").len() > 0 && forall|i: int|
            0 <= i < lit("worktrees/").len() - 1 ==> #[trigger] lit("worktrees/")[i] != '/' as u8,
        lit("/HEAD").len() > 0 && lit("/HEAD")[0] == '/' as u8,
{
    lemma_words();
}

/// A name that is no beginning of a complete one is none once `/HEAD` follows.
proof fn lemma_still_short(name: Seq<u8>, p: Seq<u8>)
    requires
        !begins(name.push('/' as u8), p),
        p.len() > 0,
        forall|i: int| 0 <= i < p.len() - 1 ==> #[trigger] p[i] != '/' as u8,
    ensures
        !begins(name + lit("/HEAD"), p),
        !begins(name, p),
{
    lemma_separator_last();
    let s = name + lit("/HEAD");
    let dir = name.push('/' as u8);
    let n = name.len() as int;
    assert(s[n] == '/' as u8);
    if begins(s, p) {
        let w = s.subrange(0, p.len() as int);
        if p.len() <= n + 1 {
            assert(dir.subrange(0, p.len() as int) =~= w);
        } else {
            assert(w[n] == p[n]);
        }
    }
    if begins(name, p) {
        assert(dir.subrange(0, p.len() as int) =~= name.subrange(0, p.len() as int));
    }
}

/// Of the names that a name may mean, the first whose file is there is found; where none is, nothing is.
pub proof fn law_first_file_is_found(names: Seq<Seq<u8>>, files: Seq<RefFile>, i: int, k: int)
    requires
        0 <= i <= k <= names.len(),
        names.len() == files.len(),
        forall|j: int| i <= j < k ==> (#[trigger] files[j]) is Missing || files[j] is NotADirectory,
    ensures
        k == names.len() ==> lookup(names, files, i) is NotFound,
        k < names.len() ==> (files[k] matches RefFile::Contents(s) ==> (target_of(s@) matches Some(t) ==> lookup(
            names,
            files,
            i,
        ) == LookupView::Found(names[k], t))),
    decreases k - i,
{
    if i < k {
        assert(files[i] is Missing || files[i] is NotADirectory);
        law_first_file_is_found(names, files, i + 1, k);
    }
}

/// Four references in a row can be followed.
pub proof fn law_four_references_can_be_followed(seen: Seq<Seq<u8>>, next: Seq<u8>)
    requires
        seen.no_duplicates(),
        seen.len() < 4,
        !seen.contains(next),
    ensures
        seen.push(next).len() < MAX_REF_DEPTH,
{
}

} // verus!
