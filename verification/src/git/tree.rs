//! Trees: the entries of directories.
use crate::bytes::{eq_bytes, find_byte, from, less, pos_of, to_vec, Order};
use crate::git::error::GitError;
use crate::git::object::ObjectKind;
use crate::git::oid::{oid, ObjectId};
use vstd::prelude::*;

verus! {

/// What an entry of a tree is.
#[derive(Debug, Clone, Copy, PartialEq, Eq, Structural)]
pub enum EntryKind {
    Tree,
    Blob,
    BlobExecutable,
    Link,
    Commit,
}

/// The mode of an entry of a tree.
#[derive(Debug, Clone, Copy, PartialEq, Eq, Structural)]
pub struct EntryMode {
    pub internal: u16,
}

/// The part of a mode that says what an entry is.
pub const IFMT: u16 = 0xf000;

/// The mode that trees have when they are written with six digits.
pub const PADDED_TREE: u16 = 0xc000;

/// The mode of trees.
pub const TREE_MODE: u16 = 0x4000;

impl EntryMode {
    /// The mode, with the padding of trees left out.
    pub open spec fn plain(self) -> u16 {
        if self.internal & IFMT == PADDED_TREE {
            TREE_MODE
        } else {
            self.internal
        }
    }

    /// What the entry is.
    pub open spec fn kind_of(self) -> EntryKind {
        let v = self.plain();
        if v & IFMT == 0x8000 {
            if v & 0x40 == 0x40 {
                EntryKind::BlobExecutable
            } else {
                EntryKind::Blob
            }
        } else if v & IFMT == 0xa000 {
            EntryKind::Link
        } else if v & IFMT == TREE_MODE {
            EntryKind::Tree
        } else {
            EntryKind::Commit
        }
    }

    /// The mode, with the padding of trees left out.
    pub fn value(self) -> (r: u16)
        ensures
            r == self.plain(),
    {
        if self.internal & IFMT == PADDED_TREE {
            TREE_MODE
        } else {
            self.internal
        }
    }

    /// What the entry is.
    pub fn kind(&self) -> (r: EntryKind)
        ensures
            r == self.kind_of(),
    {
        let v = self.value();
        let etype = v & IFMT;
        if etype == 0x8000 {
            if v & 0x40 == 0x40 {
                EntryKind::BlobExecutable
            } else {
                EntryKind::Blob
            }
        } else if etype == 0xa000 {
            EntryKind::Link
        } else if etype == TREE_MODE {
            EntryKind::Tree
        } else {
            EntryKind::Commit
        }
    }

    /// Whether the entry is a tree.
    pub fn is_tree(&self) -> (r: bool)
        ensures
            r == (self.plain() & IFMT == TREE_MODE),
    {
        self.value() & IFMT == TREE_MODE
    }

    /// The mode `mode`, where it is that of a tree, a link, a commit or a blob.
    pub fn hx_try_from(mode: u32) -> (r: Result<EntryMode, GitError>)
        ensures
            r is Ok <==> mode == 0x4000 || mode == 0xa000 || mode == 0xe000 || mode & 0x8000u32 == 0x8000u32,
            r matches Ok(m) ==> m.internal == mode as u16,
            r matches Err(e) ==> e is Gen,
    {
        if mode == 0x4000 || mode == 0xa000 || mode == 0xe000 || mode & 0x8000u32 == 0x8000u32 {
            Ok(EntryMode { internal: mode as u16 })
        } else {
            Err(GitError::Gen)
        }
    }
}

/// The mode of entries of a kind.
pub open spec fn mode_of_kind(kind: EntryKind) -> u16 {
    match kind {
        EntryKind::Tree => 0x4000u16,
        EntryKind::Blob => 0x81a4u16,
        EntryKind::BlobExecutable => 0x81edu16,
        EntryKind::Link => 0xa000u16,
        EntryKind::Commit => 0xe000u16,
    }
}

impl EntryKind {
    /// The mode of entries of this kind.
    pub fn to_mode(self) -> (r: EntryMode)
        ensures
            r.internal == mode_of_kind(self),
    {
        let internal: u16 = match self {
            EntryKind::Tree => 0x4000,
            EntryKind::Blob => 0x81a4,
            EntryKind::BlobExecutable => 0x81ed,
            EntryKind::Link => 0xa000,
            EntryKind::Commit => 0xe000,
        };
        EntryMode { internal }
    }
}

/// The mode of a kind is of that kind.
pub proof fn law_mode_has_its_kind(kind: EntryKind)
    ensures
        (EntryMode { internal: mode_of_kind(kind) }).kind_of() == kind,
{
    assert(0x4000u16 & 0xf000u16 == 0x4000u16) by (bit_vector);
    assert(0x81a4u16 & 0xf000u16 == 0x8000u16) by (bit_vector);
    assert(0x81edu16 & 0xf000u16 == 0x8000u16) by (bit_vector);
    assert(0xa000u16 & 0xf000u16 == 0xa000u16) by (bit_vector);
    assert(0xe000u16 & 0xf000u16 == 0xe000u16) by (bit_vector);
    assert(0x81a4u16 & 0x40u16 == 0u16) by (bit_vector);
    assert(0x81edu16 & 0x40u16 == 0x40u16) by (bit_vector);
}

/// `b` is one of `0` to `7`.
pub open spec fn octal_digit(b: u8) -> bool {
    0x30 <= b <= 0x37
}

/// The number that the first `k` digits of `s` write in base 8.
pub open spec fn octal(s: Seq<u8>, k: int) -> int
    decreases k,
{
    if k <= 0 {
        0
    } else {
        octal(s, k - 1) * 8 + (s[k - 1] - 0x30)
    }
}

/// The first `k` bytes of `s` are digits of base 8.
pub open spec fn octal_prefix(s: Seq<u8>, k: int) -> bool {
    forall|i: int| 0 <= i < k ==> octal_digit(#[trigger] s[i])
}

/// How many digits the mode has that `s` begins with, and where what follows it begins. Where no space follows the
/// digits, what follows begins at the second byte.
pub open spec fn mode_extent(s: Seq<u8>) -> Option<(int, int)> {
    let p = pos_of(s, 0x20, 0);
    if s.len() == 0 {
        None
    } else if s.len() > 6 && s[6] == 0x20 && s[5] != 0x20 {
        if octal_prefix(s, 6) {
            Some((6, 7))
        } else {
            None
        }
    } else if p <= 7 && octal_prefix(s, p) {
        if p < s.len() {
            Some((p, p + 1))
        } else {
            Some((p, 1))
        }
    } else {
        None
    }
}

/// The mode that the first `k` digits of `s` write. Trees that are written with a leading zero are marked.
pub open spec fn mode_written(s: Seq<u8>, k: int) -> u16 {
    let v = octal(s, k) % 65536;
    if v == 0x4000 && s[0] == 0x30 {
        0xc000u16
    } else {
        v as u16
    }
}

/// The mode that `s` begins with, and where what follows it begins.
pub open spec fn mode_read(s: Seq<u8>) -> Option<(EntryMode, int)> {
    match mode_extent(s) {
        None => None,
        Some((k, next)) => Some((EntryMode { internal: mode_written(s, k) }, next)),
    }
}

proof fn lemma_octal_bound(s: Seq<u8>, k: int)
    requires
        octal_prefix(s, k),
    ensures
        octal(s, k) >= 0,
    decreases k,
{
    if k > 0 {
        assert(octal_digit(s[k - 1]));
        lemma_octal_bound(s, k - 1);
    }
}

impl EntryMode {
    /// Reads the mode that `i` begins with; with it comes where what follows it begins.
    pub fn extract_from_bytes(i: &[u8]) -> (r: Option<(EntryMode, usize)>)
        ensures
            r is Some <==> mode_read(i@) is Some,
            r matches Some(x) ==> mode_read(i@) == Some((x.0, x.1 as int)) && 0 < x.1 <= i@.len(),
    {
        let n = i.len();
        if n == 0 {
            return None;
        }
        proof {
            crate::bytes::lemma_pos_of(i@, 0x20, 0);
        }
        let six = n > 6 && i[6] == 0x20 && i[5] != 0x20;
        let mut mode: u16 = 0;
        let mut k: usize = 0;
        let mut spaced = false;
        while k < n && !spaced
            invariant
                k <= n,
                k <= 7,
                n == i@.len(),
                n > 0,
                six == (n > 6 && i@[6] == 0x20 && i@[5] != 0x20),
                octal_prefix(i@, k as int),
                mode == octal(i@, k as int) % 65536,
                six ==> k <= 6,
                six && spaced ==> k == 6,
                spaced ==> k < n && i@[k as int] == 0x20,
            decreases n - k + (if spaced { 0int } else { 1 }),
        {
            let b = i[k];
            if b == 0x20 {
                if six && k != 6 {
                    assert(!octal_digit(i@[k as int]));
                    return None;
                }
                spaced = true;
            } else {
                if b < 0x30 || b > 0x37 {
                    assert(!octal_digit(i@[k as int]));
                    proof {
                        crate::bytes::lemma_pos_of(i@, 0x20, 0);
                        lemma_no_mode(i@, k as int);
                    }
                    return None;
                }
                if k > 6 {
                    proof {
                        lemma_no_mode(i@, k as int);
                    }
                    return None;
                }
                proof {
                    lemma_octal_bound(i@, k as int);
                    let o = octal(i@, k as int);
                    assert((o * 8 + (b - 0x30)) % 65536 == ((o % 65536) % 8192) * 8 + (b - 0x30)) by (nonlinear_arith)
                        requires
                            o >= 0,
                            0x30 <= b <= 0x37,
                    ;
                }
                mode = (mode % 8192) * 8 + (b - 0x30) as u16;
                k += 1;
            }
        }
        proof {
            if spaced {
                assert forall|j: int| 0 <= j < k implies i@[j] != 0x20 by {
                    assert(octal_digit(i@[j]));
                }
                crate::bytes::lemma_pos_of_is(i@, 0x20, 0, k as int);
            } else {
                assert forall|j: int| 0 <= j < n implies i@[j] != 0x20 by {
                    assert(octal_digit(i@[j]));
                }
                crate::bytes::lemma_pos_of_is(i@, 0x20, 0, n as int);
            }
        }
        let next = if spaced {
            k + 1
        } else {
            1
        };
        if mode == 0x4000 && i[0] == 0x30 {
            mode = 0xc000;
        }
        Some((EntryMode { internal: mode }, next))
    }
}

/// Where a byte at `k` is neither a digit nor a space, or one too many, there is no mode.
proof fn lemma_no_mode(s: Seq<u8>, k: int)
    requires
        0 <= k < s.len(),
        octal_prefix(s, k),
        s[k] != 0x20,
        !octal_digit(s[k]) || k > 6,
        s.len() > 6 && s[6] == 0x20 && s[5] != 0x20 ==> k <= 6,
    ensures
        mode_read(s) is None,
{
    let p = pos_of(s, 0x20, 0);
    crate::bytes::lemma_pos_of(s, 0x20, 0);
    assert forall|j: int| 0 <= j <= k implies s[j] != 0x20 by {
        if j < k {
            assert(octal_digit(s[j]));
        }
    }
    assert(p > k);
}

/// The digit of the mode `v` at position `k` of six.
pub open spec fn mode_digit(v: u16, k: int) -> u8 {
    (0x30 + (if k == 0 {
        v as int / 32768
    } else if k == 1 {
        (v as int / 4096) % 8
    } else if k == 2 {
        (v as int / 512) % 8
    } else if k == 3 {
        (v as int / 64) % 8
    } else if k == 4 {
        (v as int / 8) % 8
    } else {
        v as int % 8
    })) as u8
}

/// The six digits of the mode `v`.
pub open spec fn mode_digits(v: u16) -> Seq<u8> {
    seq![
        mode_digit(v, 0),
        mode_digit(v, 1),
        mode_digit(v, 2),
        mode_digit(v, 3),
        mode_digit(v, 4),
        mode_digit(v, 5),
    ]
}

/// How the mode `v` is written.
pub open spec fn mode_text(v: u16) -> Seq<u8> {
    let d = mode_digits(v);
    if v == 0 {
        seq![0x30u8]
    } else if d[1] == 0x34 {
        if d[0] == 0x31 {
            seq![0x30u8] + from(d, 1)
        } else {
            from(d, 1)
        }
    } else {
        d
    }
}

impl EntryMode {
    /// How the mode is written.
    pub fn as_bytes(&self) -> (r: Vec<u8>)
        ensures
            r@ == mode_text(self.internal),
    {
        let v = self.internal;
        let mut out: Vec<u8> = Vec::new();
        if v == 0 {
            out.push(0x30);
            assert(out@ =~= mode_text(0));
            return out;
        }
        let first: u8 = 0x30 + (v / 32768) as u8;
        let second: u8 = 0x30 + ((v / 4096) % 8) as u8;
        if second == 0x34 {
            if first == 0x31 {
                out.push(0x30);
            }
        } else {
            out.push(first);
        }
        out.push(second);
        out.push(0x30 + ((v / 512) % 8) as u8);
        out.push(0x30 + ((v / 64) % 8) as u8);
        out.push(0x30 + ((v / 8) % 8) as u8);
        out.push(0x30 + (v % 8) as u8);
        assert(out@ =~= mode_text(v));
        out
    }
}

/// What the first digits say.
proof fn lemma_octal(s: Seq<u8>)
    ensures
        s.len() >= 1 ==> octal(s, 1) == s[0] - 0x30,
        s.len() >= 5 ==> octal(s, 5) == (s[0] - 0x30) * 4096 + (s[1] - 0x30) * 512 + (s[2] - 0x30) * 64 + (s[3]
            - 0x30) * 8 + (s[4] - 0x30),
        s.len() >= 6 ==> octal(s, 6) == (s[0] - 0x30) * 32768 + (s[1] - 0x30) * 4096 + (s[2] - 0x30) * 512 + (s[3]
            - 0x30) * 64 + (s[4] - 0x30) * 8 + (s[5] - 0x30),
{
    reveal_with_fuel(octal, 7);
}

/// The digits of a mode say what it is.
proof fn lemma_mode_digits(v: u16)
    ensures
        0 <= v as int / 32768 < 2,
        v as int == (v as int / 32768) * 32768 + ((v as int / 4096) % 8) * 4096 + ((v as int / 512) % 8) * 512 + ((
        v as int / 64) % 8) * 64 + ((v as int / 8) % 8) * 8 + v as int % 8,
        v as int / 4096 == (v as int / 32768) * 8 + (v as int / 4096) % 8,
{
    let x = v as int;
    assert(x / 32768 == (x / 4096) / 8);
    assert(x / 4096 == (x / 512) / 8);
    assert(x / 512 == (x / 64) / 8);
    assert(x / 64 == (x / 8) / 8);
}

/// What the text of a mode says.
proof fn lemma_mode_text(v: u16)
    requires
        v / 4096 == 12 ==> v == PADDED_TREE,
    ensures
        ({
            let t = mode_text(v);
            &&& t.len() == 1 || t.len() == 5 || t.len() == 6
            &&& t.len() == 1 <==> v == 0
            &&& forall|i: int| 0 <= i < t.len() ==> octal_digit(#[trigger] t[i])
            &&& v == PADDED_TREE ==> octal(t, 6) == 16384 && t.len() == 6
            &&& v != PADDED_TREE ==> octal(t, t.len() as int) == v as int
        }),
{
    lemma_mode_digits(v);
    let d = mode_digits(v);
    let d0 = v as int / 32768;
    let d1 = (v as int / 4096) % 8;
    let d2 = (v as int / 512) % 8;
    let d3 = (v as int / 64) % 8;
    let d4 = (v as int / 8) % 8;
    let d5 = v as int % 8;
    assert(d[0] == 0x30 + d0 && d[1] == 0x30 + d1 && d[2] == 0x30 + d2);
    assert(d[3] == 0x30 + d3 && d[4] == 0x30 + d4 && d[5] == 0x30 + d5);
    lemma_mode_text_of(v, d, d0, d1, d2, d3, d4, d5);
}

/// What the text of a mode with the given digits says.
proof fn lemma_mode_text_of(v: u16, d: Seq<u8>, d0: int, d1: int, d2: int, d3: int, d4: int, d5: int)
    requires
        d == mode_digits(v),
        d[0] == 0x30 + d0 && d[1] == 0x30 + d1 && d[2] == 0x30 + d2,
        d[3] == 0x30 + d3 && d[4] == 0x30 + d4 && d[5] == 0x30 + d5,
        0 <= d0 < 2 && 0 <= d1 < 8 && 0 <= d2 < 8 && 0 <= d3 < 8 && 0 <= d4 < 8 && 0 <= d5 < 8,
        v as int == d0 * 32768 + d1 * 4096 + d2 * 512 + d3 * 64 + d4 * 8 + d5,
        d0 == 1 && d1 == 4 ==> v == PADDED_TREE,
    ensures
        ({
            let t = mode_text(v);
            &&& t.len() == 1 || t.len() == 5 || t.len() == 6
            &&& t.len() == 1 <==> v == 0
            &&& forall|i: int| 0 <= i < t.len() ==> octal_digit(#[trigger] t[i])
            &&& v == PADDED_TREE ==> octal(t, 6) == 16384 && t.len() == 6
            &&& v != PADDED_TREE ==> octal(t, t.len() as int) == v as int
        }),
{
    let t = mode_text(v);
    lemma_octal(t);
    if v == 0 {
        assert(t == seq![0x30u8]);
    } else if d1 == 4 && d0 == 1 {
        assert(d2 == 0 && d3 == 0 && d4 == 0 && d5 == 0);
        assert(t =~= seq![0x30u8, d[1], d[2], d[3], d[4], d[5]]);
    } else if d1 == 4 {
        assert(t =~= seq![d[1], d[2], d[3], d[4], d[5]]);
    } else {
        assert(t =~= seq![d[0], d[1], d[2], d[3], d[4], d[5]]);
    }
}

/// Digits say the same before something else.
proof fn lemma_octal_front(t: Seq<u8>, s: Seq<u8>, k: int)
    requires
        0 <= k <= t.len() <= s.len(),
        forall|i: int| 0 <= i < k ==> s[i] == #[trigger] t[i],
    ensures
        octal(s, k) == octal(t, k),
    decreases k,
{
    if k > 0 {
        lemma_octal_front(t, s, k - 1);
        assert(s[k - 1] == t[k - 1]);
    }
}

/// A mode that is written, with a space behind it, is read back. Left out are modes that begin like those of padded
/// trees and have more digits than these, and the mode 0 before what looks like the end of six digits.
pub proof fn law_mode_read_back(v: u16, after: Seq<u8>)
    requires
        v / 4096 == 12 ==> v == PADDED_TREE,
        v == 0 ==> !(after.len() > 4 && after[4] == 0x20 && after[3] != 0x20),
    ensures
        mode_read(mode_text(v) + seq![0x20u8] + after) matches Some((m, next)) && m.internal == v && next
            == mode_text(v).len() + 1,
{
    let t = mode_text(v);
    let s = t + seq![0x20u8] + after;
    let n = t.len() as int;
    lemma_mode_text(v);
    assert forall|i: int| 0 <= i < n implies s[i] == #[trigger] t[i] && octal_digit(s[i]) by {
        assert(octal_digit(t[i]));
    }
    assert(s[n] == 0x20);
    crate::bytes::lemma_pos_of_is(s, 0x20, 0, n);
    lemma_octal_front(t, s, n);
}

/// An entry of a tree, in parts of the tree.
#[derive(Clone, Copy, Debug)]
pub struct EntryRef<'a> {
    pub mode: EntryMode,
    pub filename: &'a [u8],
    pub oid: oid<'a>,
}

/// An entry of a tree.
#[derive(Debug)]
pub struct TreeEntry {
    pub mode: EntryMode,
    pub filename: Vec<u8>,
    pub oid: ObjectId,
}

/// What an entry of a tree stands for.
pub struct TreeEntryView {
    pub mode: EntryMode,
    pub filename: Seq<u8>,
    pub oid: Seq<u8>,
}

impl<'a> View for EntryRef<'a> {
    type V = TreeEntryView;

    open spec fn view(&self) -> TreeEntryView {
        TreeEntryView { mode: self.mode, filename: self.filename@, oid: self.oid@ }
    }
}

impl View for TreeEntry {
    type V = TreeEntryView;

    open spec fn view(&self) -> TreeEntryView {
        TreeEntryView { mode: self.mode, filename: self.filename@, oid: self.oid@ }
    }
}

/// An entry of a repository.
#[derive(Debug)]
pub struct GitRepoEntry {
    pub inner: TreeEntry,
}

/// The entry that `s` begins with, and where what follows it begins.
pub open spec fn entry_read(s: Seq<u8>) -> Option<(TreeEntryView, int)> {
    match mode_read(s) {
        None => None,
        Some((mode, start)) => {
            let end = pos_of(s, 0, start);
            if end < s.len() && end + 21 <= s.len() {
                Some(
                    (
                        TreeEntryView {
                            mode,
                            filename: s.subrange(start, end),
                            oid: s.subrange(end + 1, end + 21),
                        },
                        end + 21,
                    ),
                )
            } else {
                None
            }
        },
    }
}

/// Reads the entry that `i` begins with; with it comes where what follows it begins.
pub fn tree_decode_fast_entry(i: &[u8]) -> (r: Option<(EntryRef<'_>, usize)>)
    ensures
        r is Some <==> entry_read(i@) is Some,
        r matches Some(x) ==> entry_read(i@) == Some((x.0@, x.1 as int)) && 0 < x.1 <= i@.len()
            && x.0.oid.wf(),
{
    let n = i.len();
    let (mode, start) = match EntryMode::extract_from_bytes(i) {
        None => {
            return None;
        },
        Some(x) => x,
    };
    let rest = &i[start..n];
    let ghost p = pos_of(rest@, 0, 0);
    proof {
        crate::bytes::lemma_pos_of(rest@, 0, 0);
        assert forall|j: int| start <= j < start + p implies i@[j] != 0 by {
            assert(rest@[j - start] == i@[j]);
        }
        assert(p < rest@.len() ==> i@[start + p] == rest@[p]);
        crate::bytes::lemma_pos_of_is(i@, 0, start as int, start + p);
    }
    let len = match find_byte(rest, 0) {
        None => {
            return None;
        },
        Some(p) => p,
    };
    let end = start + len;
    if n - end < 21 {
        return None;
    }
    let id = match oid::try_from_bytes(&i[end + 1..end + 21]) {
        Err(_) => {
            return None;
        },
        Ok(id) => id,
    };
    Some((EntryRef { mode, filename: &i[start..end], oid: id }, end + 21))
}

/// The first entry of the tree `s`, from position `i` on, with the given name. What comes after an entry that cannot
/// be read is not looked at.
pub open spec fn entry_named(s: Seq<u8>, i: int, name: Seq<u8>) -> Option<TreeEntryView>
    decreases s.len() - i,
{
    if i >= s.len() || i < 0 {
        None
    } else {
        match entry_read(from(s, i)) {
            None => None,
            Some((e, n)) => if e.filename == name {
                Some(e)
            } else if n <= 0 {
                None
            } else {
                entry_named(s, i + n, name)
            },
        }
    }
}

/// Goes through the entries of a tree.
#[derive(Clone, Copy, Debug)]
pub struct TreeRefIter<'a> {
    pub data: &'a [u8],
}

impl<'a> TreeRefIter<'a> {
    /// The entries of the tree `data`.
    pub fn from_bytes(data: &'a [u8]) -> (r: TreeRefIter<'a>)
        ensures
            r.data@ == data@,
    {
        TreeRefIter { data }
    }

    /// The next entry. One that cannot be read is an error, and the last.
    pub fn next(&mut self) -> (r: Option<Result<EntryRef<'a>, GitError>>)
        ensures
            old(self).data@.len() == 0 ==> r is None && final(self).data@ == old(self).data@,
            old(self).data@.len() > 0 ==> match entry_read(old(self).data@) {
                None => (r matches Some(Err(e)) && e is Gen) && final(self).data@.len() == 0,
                Some((e, n)) => (r matches Some(Ok(x)) && x@ == e && x.oid.wf()) && final(self).data@
                    == from(old(self).data@, n) && 0 < n <= old(self).data@.len(),
            },
    {
        if self.data.len() == 0 {
            return None;
        }
        match tree_decode_fast_entry(self.data) {
            Some((e, n)) => {
                self.data = &self.data[n..self.data.len()];
                Some(Ok(e))
            },
            None => {
                self.data = &self.data[0..0];
                Some(Err(GitError::Gen))
            },
        }
    }
}

/// Where the search for an entry by its path goes.
#[derive(Debug)]
pub enum Descent {
    /// There is no such entry.
    Missing,
    Found(TreeEntry),
    /// The search goes on in this object.
    Into(ObjectId),
}

/// Looks for the component `components[k]` in the object `data` of the kind `kind`.
pub fn next_entry(components: &Vec<Vec<u8>>, k: usize, kind: ObjectKind, data: &[u8]) -> (r: Descent)
    ensures
        match (if kind is Tree && k < components@.len() {
            entry_named(data@, 0, components@[k as int]@)
        } else {
            None
        }) {
            None => r is Missing,
            Some(e) => if k + 1 == components@.len() {
                r matches Descent::Found(x) && x@ == e
            } else {
                r matches Descent::Into(id) && id@ == e.oid
            },
        },
{
    if !kind.is_tree() {
        return Descent::Missing;
    }
    if k >= components.len() {
        return Descent::Missing;
    }
    let name = components[k].as_slice();
    let last = k == components.len() - 1;
    let n = data.len();
    let mut i: usize = 0;
    while i < n
        invariant
            i <= n,
            n == data@.len(),
            k < components@.len(),
            last == (k + 1 == components@.len()),
            kind is Tree,
            name@ == components@[k as int]@,
            entry_named(data@, 0, name@) == entry_named(data@, i as int, name@),
        decreases n - i,
    {
        let rest = &data[i..n];
        match tree_decode_fast_entry(rest) {
            None => {
                return Descent::Missing;
            },
            Some((e, len)) => {
                if eq_bytes(e.filename, name) {
                    return if last {
                        Descent::Found(
                            TreeEntry {
                                mode: e.mode,
                                filename: to_vec(e.filename),
                                oid: e.oid.to_owned(),
                            },
                        )
                    } else {
                        Descent::Into(e.oid.to_owned())
                    };
                }
                i = i + len;
            },
        }
    }
    Descent::Missing
}

/// The byte at position `k` of an entry's name, behind which trees have a slash.
pub open spec fn name_byte_at(e: TreeEntryView, k: int) -> Option<u8> {
    if k < e.filename.len() {
        Some(e.filename[k])
    } else if e.mode.plain() & IFMT == TREE_MODE {
        Some('/' as u8)
    } else {
        None
    }
}

/// `a` comes before `b` in a tree: byte by byte over their common length, then by the next byte, where trees are
/// taken to end with a slash.
pub open spec fn entry_before(a: TreeEntryView, b: TreeEntryView) -> bool {
    let common = if a.filename.len() < b.filename.len() {
        a.filename.len() as int
    } else {
        b.filename.len() as int
    };
    let x = a.filename.subrange(0, common);
    let y = b.filename.subrange(0, common);
    if x != y {
        less(x, y)
    } else {
        match (name_byte_at(a, common), name_byte_at(b, common)) {
            (None, Some(_)) => true,
            (Some(p), Some(q)) => p < q,
            _ => false,
        }
    }
}

/// The byte at position `k` of an entry's name, behind which trees have a slash.
fn byte_at(name: &[u8], mode: EntryMode, k: usize) -> (r: Option<u8>)
    ensures
        r == name_byte_at(TreeEntryView { mode, filename: name@, oid: Seq::empty() }, k as int),
{
    if k < name.len() {
        Some(name[k])
    } else if mode.is_tree() {
        Some('/' as u8)
    } else {
        None
    }
}

/// How two entries of a tree are ordered.
pub fn order_entries(a: &TreeEntry, b: &TreeEntry) -> (r: Order)
    ensures
        r is Less <==> entry_before(a@, b@),
        r is Greater <==> entry_before(b@, a@),
        r is Equal <==> !entry_before(a@, b@) && !entry_before(b@, a@),
{
    let x = a.filename.as_slice();
    let y = b.filename.as_slice();
    let common = if x.len() < y.len() {
        x.len()
    } else {
        y.len()
    };
    let p = &x[0..common];
    let q = &y[0..common];
    proof {
        crate::bytes::lemma_less_irreflexive(p@, 0);
        if less(p@, q@) {
            crate::bytes::lemma_less_asymmetric(p@, q@, 0);
        }
        if less(q@, p@) {
            crate::bytes::lemma_less_asymmetric(q@, p@, 0);
        }
    }
    match crate::bytes::compare(p, q) {
        Order::Less => Order::Less,
        Order::Greater => Order::Greater,
        Order::Equal => match (byte_at(x, a.mode, common), byte_at(y, b.mode, common)) {
            (None, None) => Order::Equal,
            (None, Some(_)) => Order::Less,
            (Some(_), None) => Order::Greater,
            (Some(s), Some(t)) => if s < t {
                Order::Less
            } else if s > t {
                Order::Greater
            } else {
                Order::Equal
            },
        },
    }
}

} // verus!
