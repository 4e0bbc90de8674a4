//! What the bytes of objects mean.
use crate::bytes::{begins, from, lemma_lit, lemma_pos_of_any_is, lemma_pos_of_is, pos_of};
use crate::git::alternates::{line_path, paths_from};
use crate::git::commit::{commit_tree, continued, header_name_end, header_value, id_header, identity_read, last_pos, multi_line_header, past_time, run_before, run_from, signature_read, single_line_header, time_byte, token_of, unfolded, CommitState, SignatureView, TokenView};
use crate::git::number::{decimal, digits_value, law_decimal_read_back, signed_number};
use crate::git::object::{law_loose_header_read_back, loose_header_read, loose_header_spec, kind_name, ObjectKind};
use crate::git::odb::find::{first_pack, IndexLookup};
use crate::git::odb::loose::loose_path;
use crate::git::oid::{hex, law_hex_read_back};
use crate::git::pack::index::found_at;
use crate::git::quote::law_plain_text_says_itself;
use crate::git::tree::{entry_named, entry_read, law_mode_has_its_kind, mode_of_kind, mode_read, octal, EntryKind, EntryMode, TreeEntryView};
use vstd::prelude::*;

verus! {

/// The number that a hexadecimal digit in lower case writes.
pub open spec fn lower_digit(c: u8) -> int {
    if c <= 0x39 {
        c - 0x30
    } else {
        c - 0x57
    }
}

/// An id is written with two digits in lower case for each byte, the higher one first.
pub proof fn law_hex_digits(s: Seq<u8>, i: int)
    requires
        0 <= i < s.len(),
    ensures
        hex(s).len() == 2 * s.len(),
        0x30 <= hex(s)[2 * i] <= 0x39 || 0x61 <= hex(s)[2 * i] <= 0x66,
        0x30 <= hex(s)[2 * i + 1] <= 0x39 || 0x61 <= hex(s)[2 * i + 1] <= 0x66,
        s[i] == 16 * lower_digit(hex(s)[2 * i]) + lower_digit(hex(s)[2 * i + 1]),
{
}

/// A digit at the end of a number counts once, and what is before it ten times.
pub proof fn law_one_more_digit(s: Seq<u8>, c: u8)
    requires
        0x30 <= c <= 0x39,
    ensures
        digits_value(seq![], 10) == 0,
        digits_value(s.push(c), 10) == 10 * digits_value(s, 10) + (c - 0x30),
{
    assert(s.push(c).drop_last() =~= s);
}

/// A number may have a sign.
pub proof fn law_numbers_have_signs(n: nat, lo: int, hi: int)
    requires
        n <= hi,
        n <= -lo,
    ensures
        signed_number(decimal(n), 10, lo, hi) == Some(n as int),
        signed_number(seq![0x2bu8] + decimal(n), 10, lo, hi) == Some(n as int),
        signed_number(seq![0x2du8] + decimal(n), 10, lo, hi) == Some(-(n as int)),
{
    let d = decimal(n);
    law_decimal_read_back(n);
    assert(d[0] >= 0x30);
    assert(from(seq![0x2bu8] + d, 1) =~= d);
    assert(from(seq![0x2du8] + d, 1) =~= d);
}

/// The names that kinds of objects have.
pub proof fn law_names_of_kinds()
    ensures
        kind_name(ObjectKind::Tree) == seq![0x74u8, 0x72u8, 0x65u8, 0x65u8],
        kind_name(ObjectKind::Blob) == seq![0x62u8, 0x6cu8, 0x6fu8, 0x62u8],
        kind_name(ObjectKind::Commit) == seq![0x63u8, 0x6fu8, 0x6du8, 0x6du8, 0x69u8, 0x74u8],
{
    reveal_strlit("tree");
    reveal_strlit("blob");
    reveal_strlit("commit");
    lemma_lit("tree", seq![0x74u8, 0x72u8, 0x65u8, 0x65u8]);
    lemma_lit("blob", seq![0x62u8, 0x6cu8, 0x6fu8, 0x62u8]);
    lemma_lit("commit", seq![0x63u8, 0x6fu8, 0x6du8, 0x6du8, 0x69u8, 0x74u8]);
}

/// A loose object begins with the name of its kind, a space, its size in decimal and a zero
/// byte; what follows is what it holds.
pub proof fn law_loose_object_begins_with_its_header(kind: ObjectKind, size: u64, body: Seq<u8>)
    requires
        kind_name(kind).len() + decimal(size as nat).len() + 2 <= usize::MAX,
    ensures
        ({
            let head = kind_name(kind) + seq![0x20u8] + decimal(size as nat) + seq![0u8];
            &&& loose_header_spec(kind, size as nat) == head
            &&& loose_header_read(head + body) == Some((kind, size, head.len() as usize))
            &&& from(head + body, head.len() as int) == body
        }),
{
    let head = kind_name(kind) + seq![0x20u8] + decimal(size as nat) + seq![0u8];
    assert(loose_header_spec(kind, size as nat) =~= head);
    law_loose_header_read_back(kind, size, body);
    assert(from(head + body, head.len() as int) =~= body);
}

/// A loose object is in a directory named by the first byte of its id, in a file named by the
/// rest of it.
pub proof fn law_place_of_a_loose_object(id: Seq<u8>, root: Seq<u8>)
    requires
        id.len() == 20,
        root.len() > 0,
        root.last() != 0x2f,
    ensures
        loose_path(id, root) == root + seq![0x2fu8] + hex(id.subrange(0, 1)) + seq![0x2fu8] + hex(
            id.subrange(1, 20),
        ),
{
    let a = hex(id).subrange(0, 2);
    let b = hex(id).subrange(2, 40);
    assert(a =~= hex(id.subrange(0, 1)));
    assert(b =~= hex(id.subrange(1, 20)));
    law_hex_digits(id, 0);
    law_hex_digits(id, 1);
    assert(a[0] != 0x2f && a[1] != 0x2f && b[0] != 0x2f);
    let p = crate::path::joined(root, a);
    assert(p == root + seq![0x2fu8] + a);
    assert(p.last() == a[1]);
}

/// An object is looked for in the first pack that has it, and in none where none has it.
pub proof fn law_first_pack_has_it(v: Seq<IndexLookup>, id: Seq<u8>, k: int)
    requires
        0 <= k <= v.len(),
    ensures
        ({
            let i = first_pack(v, id, k);
            &&& k <= i <= v.len()
            &&& i < v.len() ==> found_at(v[i].index@, id) is Some
            &&& forall|j: int| k <= j < i ==> found_at((#[trigger] v[j]).index@, id) is None
        }),
    decreases v.len() - k,
{
    if k < v.len() && found_at(v[k].index@, id) is None {
        law_first_pack_has_it(v, id, k + 1);
    }
}

/// What writes the mode of a tree's entry.
pub open spec fn octal_mode(kind: EntryKind) -> Seq<u8> {
    match kind {
        EntryKind::Tree => seq![0x34u8, 0x30u8, 0x30u8, 0x30u8, 0x30u8],
        EntryKind::Blob => seq![0x31u8, 0x30u8, 0x30u8, 0x36u8, 0x34u8, 0x34u8],
        EntryKind::BlobExecutable => seq![0x31u8, 0x30u8, 0x30u8, 0x37u8, 0x35u8, 0x35u8],
        EntryKind::Link => seq![0x31u8, 0x32u8, 0x30u8, 0x30u8, 0x30u8, 0x30u8],
        EntryKind::Commit => seq![0x31u8, 0x36u8, 0x30u8, 0x30u8, 0x30u8, 0x30u8],
    }
}

/// The modes that entries have.
pub proof fn law_modes_of_entries(kind: EntryKind, after: Seq<u8>)
    ensures
        mode_read(octal_mode(kind) + seq![0x20u8] + after) matches Some((m, next)) && m.kind_of() == kind
            && next == octal_mode(kind).len() + 1,
{
    lemma_mode(kind, after);
    law_mode_has_its_kind(kind);
}

proof fn lemma_mode(kind: EntryKind, after: Seq<u8>)
    ensures
        mode_read(octal_mode(kind) + seq![0x20u8] + after) == Some(
            (EntryMode { internal: mode_of_kind(kind) }, octal_mode(kind).len() as int + 1),
        ),
{
    let m = octal_mode(kind);
    let n = m.len() as int;
    let s = m + seq![0x20u8] + after;
    assert forall|i: int| 0 <= i < n implies #[trigger] s[i] == m[i] by {}
    assert(s[n] == 0x20);
    assert(s[0] == m[0] && s[1] == m[1] && s[2] == m[2] && s[3] == m[3] && s[4] == m[4]);
    assert(n == 6 ==> s[5] == m[5]);
    lemma_pos_of_is(s, 0x20, 0, n);
    reveal_with_fuel(octal, 7);
}

/// An entry of a tree.
pub struct WrittenEntry {
    pub kind: EntryKind,
    pub name: Seq<u8>,
    pub id: Seq<u8>,
}

impl WrittenEntry {
    pub open spec fn valid(self) -> bool {
        self.id.len() == 20 && forall|i: int| 0 <= i < self.name.len() ==> (#[trigger] self.name[i]) != 0
    }

    /// The mode, a space, the name, a zero byte and the id.
    pub open spec fn text(self) -> Seq<u8> {
        octal_mode(self.kind) + seq![0x20u8] + self.name + seq![0u8] + self.id
    }

    pub open spec fn entry(self) -> TreeEntryView {
        TreeEntryView {
            mode: EntryMode { internal: mode_of_kind(self.kind) },
            filename: self.name,
            oid: self.id,
        }
    }
}

pub open spec fn tree_text(entries: Seq<WrittenEntry>) -> Seq<u8>
    decreases entries.len(),
{
    if entries.len() == 0 {
        seq![]
    } else {
        entries[0].text() + tree_text(entries.drop_first())
    }
}

proof fn lemma_entry(e: WrittenEntry, rest: Seq<u8>)
    requires
        e.valid(),
    ensures
        entry_read(e.text() + rest) == Some((e.entry(), e.text().len() as int)),
{
    let m = octal_mode(e.kind);
    let s = e.text() + rest;
    let start = m.len() as int + 1;
    let end = start + e.name.len();
    assert(s =~= m + seq![0x20u8] + (e.name + seq![0u8] + e.id + rest));
    lemma_mode(e.kind, e.name + seq![0u8] + e.id + rest);
    assert forall|i: int| start <= i < end implies s[i] != 0 by {
        assert(s[i] == e.name[i - start]);
    }
    assert(s[end] == 0);
    lemma_pos_of_is(s, 0, start, end);
    assert(s.subrange(start, end) =~= e.name);
    assert(s.subrange(end + 1, end + 21) =~= e.id);
}

proof fn lemma_entry_named(s: Seq<u8>, i: int, entries: Seq<WrittenEntry>, name: Seq<u8>, k: int)
    requires
        0 <= i <= s.len(),
        from(s, i) == tree_text(entries),
        forall|j: int| 0 <= j < entries.len() ==> (#[trigger] entries[j]).valid(),
        0 <= k <= entries.len(),
        k < entries.len() ==> entries[k].name == name,
        forall|j: int| 0 <= j < k ==> (#[trigger] entries[j]).name != name,
    ensures
        entry_named(s, i, name) == if k < entries.len() {
            Some(entries[k].entry())
        } else {
            None
        },
    decreases entries.len(),
{
    if entries.len() > 0 {
        let e = entries[0];
        let rest = entries.drop_first();
        lemma_entry(e, tree_text(rest));
        let n = e.text().len() as int;
        assert(from(s, i).len() == s.len() - i);
        assert(from(s, i + n) =~= tree_text(rest)) by {
            assert(from(from(s, i), n) =~= tree_text(rest));
            assert(from(from(s, i), n) =~= from(s, i + n));
        }
        if k > 0 {
            assert forall|j: int| 0 <= j < rest.len() implies (#[trigger] rest[j]).valid() by {
                assert(rest[j] == entries[j + 1]);
            }
            assert forall|j: int| 0 <= j < k - 1 implies (#[trigger] rest[j]).name != name by {
                assert(rest[j] == entries[j + 1]);
            }
            lemma_entry_named(s, i + n, rest, name, k - 1);
        }
    }
}

/// A tree has the first of its entries with a name under that name, whatever comes before it
/// and after it; and nothing under another name.
pub proof fn law_entries_are_found_by_name(entries: Seq<WrittenEntry>, name: Seq<u8>, k: int)
    requires
        forall|j: int| 0 <= j < entries.len() ==> (#[trigger] entries[j]).valid(),
        0 <= k <= entries.len(),
        k < entries.len() ==> entries[k].name == name,
        forall|j: int| 0 <= j < k ==> (#[trigger] entries[j]).name != name,
    ensures
        k == entries.len() ==> entry_named(tree_text(entries), 0, name) is None,
        k < entries.len() ==> (entry_named(tree_text(entries), 0, name) matches Some(e) && e.filename == name
            && e.oid == entries[k].id && e.mode.kind_of() == entries[k].kind),
{
    let s = tree_text(entries);
    assert(from(s, 0) =~= s);
    lemma_entry_named(s, 0, entries, name, k);
    if k < entries.len() {
        law_mode_has_its_kind(entries[k].kind);
    }
}

/// `s` holds no line end.
pub open spec fn one_line(s: Seq<u8>) -> bool {
    forall|i: int| 0 <= i < s.len() ==> (#[trigger] s[i]) != 0x0a
}

proof fn lemma_header_value(name: Seq<u8>, value: Seq<u8>, rest: Seq<u8>)
    requires
        one_line(value),
    ensures
        header_value(name + seq![0x20u8] + value + seq![0x0au8] + rest, name) == Some(
            (value, name.len() as int + value.len() + 2),
        ),
{
    let s = name + seq![0x20u8] + value + seq![0x0au8] + rest;
    let start = name.len() as int + 1;
    let nl = start + value.len();
    assert(s.subrange(0, name.len() as int) =~= name);
    assert(s[start - 1] == 0x20);
    assert forall|i: int| start <= i < nl implies s[i] != 0x0a by {
        assert(s[i] == value[i - start]);
    }
    assert(s[nl] == 0x0a);
    lemma_pos_of_is(s, 0x0a, start, nl);
    assert(s.subrange(start, nl) =~= value);
}

proof fn lemma_id_header(name: Seq<u8>, id: Seq<u8>, rest: Seq<u8>)
    requires
        id.len() == 20,
    ensures
        id_header(name + seq![0x20u8] + hex(id) + seq![0x0au8] + rest, name) == Some(
            (id, name.len() as int + 42),
        ),
{
    law_hex_read_back(id);
    let v = hex(id);
    assert forall|i: int| 0 <= i < v.len() implies (#[trigger] v[i]) != 0x0a by {
        assert(crate::ascii::hex_digit(v[i]));
    }
    lemma_header_value(name, v, rest);
}

/// A commit begins with the id of its tree.
pub proof fn law_commit_begins_with_its_tree(id: Seq<u8>, rest: Seq<u8>)
    requires
        id.len() == 20,
    ensures
        commit_tree(seq![0x74u8, 0x72u8, 0x65u8, 0x65u8, 0x20u8] + hex(id) + seq![0x0au8] + rest) == Some(id),
        token_of(seq![0x74u8, 0x72u8, 0x65u8, 0x65u8, 0x20u8] + hex(id) + seq![0x0au8] + rest, CommitState::Tree) == Some(
            (TokenView::Tree(id), 46int, CommitState::Parents),
        ),
{
    reveal_strlit("tree");
    let name = seq![0x74u8, 0x72u8, 0x65u8, 0x65u8];
    lemma_lit("tree", name);
    assert(seq![0x74u8, 0x72u8, 0x65u8, 0x65u8, 0x20u8] =~= name + seq![0x20u8]);
    lemma_id_header(name, id, rest);
}

/// Each parent of a commit has a line.
pub proof fn law_parents_have_lines(id: Seq<u8>, rest: Seq<u8>)
    requires
        id.len() == 20,
    ensures
        token_of(seq![0x70u8, 0x61u8, 0x72u8, 0x65u8, 0x6eu8, 0x74u8, 0x20u8] + hex(id) + seq![0x0au8] + rest, CommitState::Parents) == Some(
            (TokenView::Parent(id), 48int, CommitState::Parents),
        ),
{
    reveal_strlit("parent");
    reveal_strlit("parent ");
    let name = seq![0x70u8, 0x61u8, 0x72u8, 0x65u8, 0x6eu8, 0x74u8];
    lemma_lit("parent", name);
    lemma_lit("parent ", seq![0x70u8, 0x61u8, 0x72u8, 0x65u8, 0x6eu8, 0x74u8, 0x20u8]);
    assert(seq![0x70u8, 0x61u8, 0x72u8, 0x65u8, 0x6eu8, 0x74u8, 0x20u8] =~= name + seq![0x20u8]);
    lemma_id_header(name, id, rest);
    let s = seq![0x70u8, 0x61u8, 0x72u8, 0x65u8, 0x6eu8, 0x74u8, 0x20u8] + hex(id) + seq![0x0au8] + rest;
    assert(s.subrange(0, 7) =~= seq![0x70u8, 0x61u8, 0x72u8, 0x65u8, 0x6eu8, 0x74u8, 0x20u8]);
}

/// `s` holds neither a line end nor an angle bracket.
pub open spec fn no_angle(s: Seq<u8>) -> bool {
    forall|i: int| 0 <= i < s.len() ==> (#[trigger] s[i]) != 0x0a && s[i] != 0x3c && s[i] != 0x3e
}

/// `s` is made of digits, signs and spaces.
pub open spec fn a_time(s: Seq<u8>) -> bool {
    forall|i: int|
        0 <= i < s.len() ==> 0x30 <= (#[trigger] s[i]) <= 0x39 || s[i] == 0x2b || s[i] == 0x2d || s[i] == 0x20
}

/// Who made a commit, and when.
pub open spec fn signature_text(name: Seq<u8>, email: Seq<u8>, time: Seq<u8>) -> Seq<u8> {
    name + seq![0x20u8, 0x3cu8] + email + seq![0x3eu8, 0x20u8] + time
}

proof fn lemma_last_pos(s: Seq<u8>, b: u8, k: int, p: int)
    requires
        0 <= p < k <= s.len(),
        s[p] == b,
        forall|j: int| p < j < k ==> s[j] != b,
    ensures
        last_pos(s, b, k) == p,
    decreases k,
{
    if k - 1 > p {
        lemma_last_pos(s, b, k - 1, p);
    }
}

proof fn lemma_past_time(s: Seq<u8>, i: int)
    requires
        0 <= i <= s.len(),
        forall|k: int| i <= k < s.len() ==> time_byte(#[trigger] s[k]),
    ensures
        past_time(s, i) == s.len(),
    decreases s.len() - i,
{
    if i < s.len() {
        lemma_past_time(s, i + 1);
    }
}

/// A signature is read back: the name before the address, the address between the angle
/// brackets, and the time after them.
pub proof fn law_signature_read_back(name: Seq<u8>, email: Seq<u8>, time: Seq<u8>)
    requires
        no_angle(name),
        no_angle(email),
        a_time(time),
    ensures
        signature_read(signature_text(name, email, time)) == Some(SignatureView { name, email, time }),
{
    let s = signature_text(name, email, time);
    let left = name.len() as int + 1;
    let right = left + 1 + email.len();
    let start = right + 2;
    assert forall|i: int| 0 <= i < left implies s[i] != 0x0a && s[i] != 0x3c && s[i] != 0x3e by {
        if i < name.len() {
            assert(s[i] == name[i]);
        } else {
            assert(s[i] == 0x20);
        }
    }
    assert forall|i: int| left < i < right implies s[i] != 0x0a && s[i] != 0x3c && s[i] != 0x3e by {
        assert(s[i] == email[i - left - 1]);
    }
    assert forall|i: int| start <= i < s.len() implies time_byte(#[trigger] s[i]) by {
        assert(s[i] == time[i - start]);
    }
    assert(s[left] == 0x3c && s[right] == 0x3e && s[right + 1] == 0x20);
    assert(s.len() == start + time.len());
    assert forall|i: int| 0 <= i < s.len() implies s[i] != 0x0a by {
        if i >= start {
            assert(time_byte(s[i]));
        }
    }
    lemma_pos_of_is(s, 0x0a, 0, s.len() as int);
    assert forall|i: int| right < i < s.len() implies s[i] != 0x3e by {
        if i >= start {
            assert(time_byte(s[i]));
        }
    }
    lemma_last_pos(s, '>' as u8, s.len() as int, right);
    lemma_pos_of_is(s.take(right), '<' as u8, 0, left);
    assert(run_from(s, '<' as u8, left + 1) == 0);
    assert(run_from(s, '<' as u8, left) == 1);
    assert(run_before(s, '>' as u8, right) == 0);
    assert(s.subrange(0, left).drop_last() =~= name);
    assert(s.subrange(left + 1, right) =~= email);
    assert(identity_read(s) == Some((name, email, right + 1)));
    lemma_past_time(s, start);
    assert(from(s, start) =~= time);
}

/// After the parents comes the author, and then the committer.
pub proof fn law_author_and_committer_have_lines(
    name: Seq<u8>,
    email: Seq<u8>,
    time: Seq<u8>,
    rest: Seq<u8>,
)
    requires
        no_angle(name),
        no_angle(email),
        a_time(time),
    ensures
        ({
            let sig = signature_text(name, email, time);
            let author = token_of(seq![0x61u8, 0x75u8, 0x74u8, 0x68u8, 0x6fu8, 0x72u8, 0x20u8] + sig + seq![0x0au8] + rest, CommitState::Parents);
            let committer = token_of(seq![0x63u8, 0x6fu8, 0x6du8, 0x6du8, 0x69u8, 0x74u8, 0x74u8, 0x65u8, 0x72u8, 0x20u8] + sig + seq![0x0au8] + rest, CommitState::Committer);
            &&& author == Some((TokenView::Author, sig.len() as int + 8, CommitState::Committer))
            &&& committer == Some((TokenView::Committer, sig.len() as int + 11, CommitState::Encoding))
        }),
{
    reveal_strlit("author");
    reveal_strlit("committer");
    reveal_strlit("parent ");
    let a = seq![0x61u8, 0x75u8, 0x74u8, 0x68u8, 0x6fu8, 0x72u8];
    let c = seq![0x63u8, 0x6fu8, 0x6du8, 0x6du8, 0x69u8, 0x74u8, 0x74u8, 0x65u8, 0x72u8];
    lemma_lit("author", a);
    lemma_lit("committer", c);
    lemma_lit("parent ", seq![0x70u8, 0x61u8, 0x72u8, 0x65u8, 0x6eu8, 0x74u8, 0x20u8]);
    assert(seq![0x61u8, 0x75u8, 0x74u8, 0x68u8, 0x6fu8, 0x72u8, 0x20u8] =~= a + seq![0x20u8]);
    assert(seq![0x63u8, 0x6fu8, 0x6du8, 0x6du8, 0x69u8, 0x74u8, 0x74u8, 0x65u8, 0x72u8, 0x20u8] =~= c + seq![0x20u8]);
    let sig = signature_text(name, email, time);
    law_signature_read_back(name, email, time);
    assert forall|i: int| 0 <= i < sig.len() implies (#[trigger] sig[i]) != 0x0a by {
        let n = name.len();
        let m = n + 2 + email.len();
        if i < n {
            assert(sig[i] == name[i]);
        } else if n + 2 <= i < m {
            assert(sig[i] == email[i - n - 2]);
        } else if i >= m + 2 {
            assert(sig[i] == time[i - m - 2]);
        }
    }
    lemma_header_value(a, sig, rest);
    lemma_header_value(c, sig, rest);
    let s = seq![0x61u8, 0x75u8, 0x74u8, 0x68u8, 0x6fu8, 0x72u8, 0x20u8] + sig + seq![0x0au8] + rest;
    assert(!begins(s, seq![0x70u8, 0x61u8, 0x72u8, 0x65u8, 0x6eu8, 0x74u8, 0x20u8])) by {
        if begins(s, seq![0x70u8, 0x61u8, 0x72u8, 0x65u8, 0x6eu8, 0x74u8, 0x20u8]) {
            assert(s.subrange(0, 7)[0] == 0x70);
        }
    }
    assert(token_of(s, CommitState::Author) == Some(
        (TokenView::Author, sig.len() as int + 8, CommitState::Committer),
    ));
}

/// `s` can be the name of a header.
pub open spec fn header_word(s: Seq<u8>) -> bool {
    s.len() > 0 && forall|i: int| 0 <= i < s.len() ==> (#[trigger] s[i]) != 0x0a && s[i] != 0x20
}

/// A header is a name and what follows it in its line; a line that begins with a space goes
/// on with the one before it, without that space.
pub proof fn law_headers_may_have_more_lines(name: Seq<u8>, first: Seq<u8>, second: Seq<u8>, rest: Seq<u8>)
    requires
        header_word(name),
        one_line(first),
        one_line(second),
        rest.len() > 0 ==> rest[0] != 0x20,
    ensures
        ({
            let one = name + seq![0x20u8] + first + seq![0x0au8];
            let two = one + seq![0x20u8] + second + seq![0x0au8];
            &&& multi_line_header(one + rest) is None
            &&& single_line_header(one + rest) == Some((name, first, one.len() as int))
            &&& multi_line_header(two + rest) == Some(
                (name, first + seq![0x0au8] + second + seq![0x0au8], two.len() as int),
            )
        }),
{
    let one = name + seq![0x20u8] + first + seq![0x0au8];
    let two = one + seq![0x20u8] + second + seq![0x0au8];
    let s = one + rest;
    let t = two + rest;
    let n = one.len() as int;
    let m = two.len() as int;
    lemma_first_line(name, first, rest);
    if rest.len() > 0 {
        assert(s[n] == rest[0]);
    }
    assert(continued(s, n) == Some(n));
    let more = seq![0x20u8] + second + seq![0x0au8] + rest;
    assert(t =~= one + more);
    lemma_first_line(name, first, more);
    assert(t[n] == 0x20);
    assert forall|i: int| n <= i < m - 1 implies t[i] != 0x0a by {
        if i > n {
            assert(t[i] == second[i - n - 1]);
        }
    }
    assert(t[m - 1] == 0x0a);
    lemma_pos_of_is(t, 0x0a, n, m - 1);
    if rest.len() > 0 {
        assert(t[m] == rest[0]);
    }
    assert(continued(t, m) == Some(m));
    assert(continued(t, n) == Some(m));
    assert(unfolded(t, m, m) =~= seq![]);
    assert(unfolded(t, n, m) =~= second + seq![0x0au8]);
    let e = name.len() as int;
    assert(t.subrange(e + 1, n) + unfolded(t, n, m) =~= first + seq![0x0au8] + second + seq![0x0au8]);
}

proof fn lemma_first_line(name: Seq<u8>, first: Seq<u8>, rest: Seq<u8>)
    requires
        header_word(name),
        one_line(first),
    ensures
        ({
            let one = name + seq![0x20u8] + first + seq![0x0au8];
            let s = one + rest;
            &&& header_name_end(s) == name.len()
            &&& s.subrange(0, name.len() as int) == name
            &&& s.subrange(name.len() as int + 1, one.len() - 1) == first
            &&& s.subrange(name.len() as int + 1, one.len() as int) == first + seq![0x0au8]
            &&& pos_of(s, 0x0a, name.len() as int + 1) == one.len() - 1
        }),
{
    let one = name + seq![0x20u8] + first + seq![0x0au8];
    let s = one + rest;
    let e = name.len() as int;
    let n = one.len() as int;
    let set = seq![0x20u8, 0x0a];
    assert(set[0] == 0x20u8 && set[1] == 0x0au8);
    assert(s[e] == 0x20);
    assert(set.contains(s[e]));
    assert forall|i: int| 0 <= i < e implies !set.contains(s[i]) by {
        assert(s[i] == name[i]);
    }
    lemma_pos_of_any_is(s, set, 0, e);
    assert forall|i: int| e + 1 <= i < n - 1 implies s[i] != 0x0a by {
        assert(s[i] == first[i - e - 1]);
    }
    assert(s[n - 1] == 0x0a);
    lemma_pos_of_is(s, 0x0a, e + 1, n - 1);
    assert(s.subrange(0, e) =~= name);
    assert(s.subrange(e + 1, n - 1) =~= first);
    assert(s.subrange(e + 1, n) =~= first + seq![0x0au8]);
}

/// `s` is a path that can be written as it is.
pub open spec fn plain_path(s: Seq<u8>) -> bool {
    s.len() > 0 && s[0] != 0x22 && s[0] != 0x23 && one_line(s)
}

pub open spec fn lines_text(lines: Seq<Seq<u8>>) -> Seq<u8>
    decreases lines.len(),
{
    if lines.len() == 0 {
        seq![]
    } else {
        lines[0] + seq![0x0au8] + lines_text(lines.drop_first())
    }
}

/// The lines that are paths: those that are neither empty nor comments.
pub open spec fn paths_among(lines: Seq<Seq<u8>>) -> Seq<Seq<u8>>
    decreases lines.len(),
{
    if lines.len() == 0 {
        seq![]
    } else if plain_path(lines[0]) {
        seq![lines[0]] + paths_among(lines.drop_first())
    } else {
        paths_among(lines.drop_first())
    }
}

proof fn lemma_paths(s: Seq<u8>, i: int, lines: Seq<Seq<u8>>)
    requires
        0 <= i <= s.len(),
        from(s, i) == lines_text(lines),
        forall|k: int|
            0 <= k < lines.len() ==> one_line(#[trigger] lines[k]) && (lines[k].len() > 0 ==> lines[k][0] != 0x22),
    ensures
        paths_from(s, i) == Some(paths_among(lines)),
    decreases lines.len(),
{
    if lines.len() == 0 {
        assert(from(s, i).len() == s.len() - i);
        assert(s.subrange(i, i).len() == 0);
    } else {
        let line = lines[0];
        let rest = lines.drop_first();
        let t = from(s, i);
        let p = i + line.len();
        assert(one_line(line));
        assert(t.len() == s.len() - i);
        assert(t.len() == line.len() + 1 + lines_text(rest).len());
        assert forall|k: int| i <= k < p implies s[k] != 0x0a by {
            assert(s[k] == t[k - i]);
            assert(t[k - i] == line[k - i]);
        }
        assert(s[p] == t[p - i]);
        assert(t[p - i] == 0x0a);
        lemma_pos_of_is(s, 0x0a, i, p);
        assert(s.subrange(i, p) =~= line) by {
            assert forall|k: int| 0 <= k < line.len() implies s.subrange(i, p)[k] == line[k] by {
                assert(t[k] == line[k]);
            }
        }
        assert(from(s, p + 1) =~= lines_text(rest)) by {
            assert(from(t, p + 1 - i) =~= lines_text(rest));
            assert(from(t, p + 1 - i) =~= from(s, p + 1));
        }
        assert forall|k: int| 0 <= k < rest.len() implies one_line(#[trigger] rest[k]) && (rest[k].len() > 0
            ==> rest[k][0] != 0x22) by {
            assert(rest[k] == lines[k + 1]);
        }
        lemma_paths(s, p + 1, rest);
        if line.len() > 0 {
            law_plain_text_says_itself(line);
        }
        assert(line_path(line) == if plain_path(line) {
            Some(Ok::<Seq<u8>, ()>(line))
        } else {
            None
        });
    }
}

/// The other directories of objects are those that the lines name, in their order. Empty
/// lines and comments name none.
pub proof fn law_lines_name_directories(lines: Seq<Seq<u8>>)
    requires
        forall|k: int|
            0 <= k < lines.len() ==> one_line(#[trigger] lines[k]) && (lines[k].len() > 0 ==> lines[k][0] != 0x22),
    ensures
        paths_from(lines_text(lines), 0) == Some(paths_among(lines)),
{
    let s = lines_text(lines);
    assert(from(s, 0) =~= s);
    lemma_paths(s, 0, lines);
}

} // verus!
