//! Kinds of objects, the header of a loose object, and the hash of an object.
use crate::bytes::{eq_bytes, find_byte, from, lemma_pos_of, lit, pos_of, push_all, to_vec};
use crate::git::error::GitError;
use crate::git::number::{decimal, format_decimal, law_decimal_read_back, signed_number, to_signed, MinNumTraits};
use crate::git::oid::ObjectId;
use sha1_checked::Digest;
use vstd::prelude::*;

verus! {

/// What an object is.
#[derive(Clone, Copy, Debug, PartialEq, Eq, Hash, Structural)]
pub enum ObjectKind {
    Tree,
    Blob,
    Commit,
}

/// The name of a kind.
pub open spec fn kind_name(kind: ObjectKind) -> Seq<u8> {
    match kind {
        ObjectKind::Tree => lit("tree"),
        ObjectKind::Blob => lit("blob"),
        ObjectKind::Commit => lit("commit"),
    }
}

proof fn lemma_kind_name(kind: ObjectKind)
    ensures
        kind_name(kind) == (match kind {
            ObjectKind::Tree => seq!['t' as u8, 'r' as u8, 'e' as u8, 'e' as u8],
            ObjectKind::Blob => seq!['b' as u8, 'l' as u8, 'o' as u8, 'b' as u8],
            ObjectKind::Commit => seq![
                'c' as u8,
                'o' as u8,
                'm' as u8,
                'm' as u8,
                'i' as u8,
                't' as u8,
            ],
        }),
        forall|i: int| 0 <= i < kind_name(kind).len() ==> #[trigger] kind_name(kind)[i] >= 0x61,
{
    reveal_strlit("tree");
    reveal_strlit("blob");
    reveal_strlit("commit");
    vstd::utf8::is_ascii_chars_encode_utf8("tree"@);
    vstd::utf8::is_ascii_chars_encode_utf8("blob"@);
    vstd::utf8::is_ascii_chars_encode_utf8("commit"@);
    match kind {
        ObjectKind::Tree => {
            assert(kind_name(kind) =~= seq!['t' as u8, 'r' as u8, 'e' as u8, 'e' as u8]);
        },
        ObjectKind::Blob => {
            assert(kind_name(kind) =~= seq!['b' as u8, 'l' as u8, 'o' as u8, 'b' as u8]);
        },
        ObjectKind::Commit => {
            assert(kind_name(kind) =~= seq![
                'c' as u8,
                'o' as u8,
                'm' as u8,
                'm' as u8,
                'i' as u8,
                't' as u8,
            ]);
        },
    }
}

/// The kind that `s` names.
pub open spec fn kind_named(s: Seq<u8>) -> Option<ObjectKind> {
    if s == lit("tree") {
        Some(ObjectKind::Tree)
    } else if s == lit("blob") {
        Some(ObjectKind::Blob)
    } else if s == lit("commit") {
        Some(ObjectKind::Commit)
    } else {
        None
    }
}

/// A kind is named by its name.
pub proof fn law_kind_named_by_its_name(kind: ObjectKind)
    ensures
        kind_named(kind_name(kind)) == Some(kind),
{
    lemma_kind_name(ObjectKind::Tree);
    lemma_kind_name(ObjectKind::Blob);
    lemma_kind_name(ObjectKind::Commit);
    assert(kind_name(ObjectKind::Tree)[0] != kind_name(ObjectKind::Blob)[0]);
    assert(kind_name(ObjectKind::Tree)[0] != kind_name(ObjectKind::Commit)[0]);
    assert(kind_name(ObjectKind::Blob)[0] != kind_name(ObjectKind::Commit)[0]);
}

impl ObjectKind {
    /// The kind that `s` names.
    pub fn from_bytes(s: &[u8]) -> (r: Result<ObjectKind, GitError>)
        ensures
            r is Ok <==> kind_named(s@) is Some,
            r matches Ok(k) ==> kind_named(s@) == Some(k),
            r matches Err(e) ==> e is Gen,
    {
        if eq_bytes(s, "tree".as_bytes()) {
            Ok(ObjectKind::Tree)
        } else if eq_bytes(s, "blob".as_bytes()) {
            Ok(ObjectKind::Blob)
        } else if eq_bytes(s, "commit".as_bytes()) {
            Ok(ObjectKind::Commit)
        } else {
            Err(GitError::Gen)
        }
    }

    /// The name of the kind.
    pub fn as_bytes(&self) -> (r: &'static [u8])
        ensures
            r@ == kind_name(*self),
    {
        match self {
            ObjectKind::Tree => "tree".as_bytes(),
            ObjectKind::Commit => "commit".as_bytes(),
            ObjectKind::Blob => "blob".as_bytes(),
        }
    }

    /// Whether this is the kind of trees.
    pub fn is_tree(&self) -> (r: bool)
        ensures
            r == (*self == ObjectKind::Tree),
    {
        matches!(self, ObjectKind::Tree)
    }
}

/// The header of a loose object: its kind, a space, its size and a zero byte.
pub open spec fn loose_header_spec(kind: ObjectKind, size: nat) -> Seq<u8> {
    kind_name(kind).push(0x20) + decimal(size).push(0)
}

/// The header of a loose object.
pub fn loose_header(kind: ObjectKind, size: u64) -> (r: Vec<u8>)
    ensures
        r@ == loose_header_spec(kind, size as nat),
{
    let mut v = to_vec(kind.as_bytes());
    v.push(0x20);
    let mut digits = format_decimal(size);
    digits.push(0);
    push_all(&mut v, digits.as_slice());
    v
}

/// The kind and the size that the header of a loose object gives, and the length of the
/// header.
pub open spec fn loose_header_read(input: Seq<u8>) -> Option<(ObjectKind, u64, usize)> {
    let kind_end = pos_of(input, 0x20, 0);
    let size_end = pos_of(input, 0, 0);
    if kind_end < size_end < input.len() {
        match (
            kind_named(input.subrange(0, kind_end)),
            signed_number(input.subrange(kind_end + 1, size_end), 10, 0, u64::MAX as int),
        ) {
            (Some(kind), Some(size)) => Some((kind, size as u64, (size_end + 1) as usize)),
            _ => None,
        }
    } else {
        None
    }
}

/// A loose object's header holds a space and a zero byte in the wrong order.
pub open spec fn zero_before_space(input: Seq<u8>) -> bool {
    pos_of(input, 0, 0) < pos_of(input, 0x20, 0) < input.len() && kind_named(
        input.subrange(0, pos_of(input, 0x20, 0)),
    ) is Some
}

proof fn lemma_zero_after_space(input: Seq<u8>)
    ensures
        !zero_before_space(input),
{
    lemma_kind_name(ObjectKind::Tree);
    lemma_kind_name(ObjectKind::Blob);
    lemma_kind_name(ObjectKind::Commit);
    lemma_pos_of(input, 0, 0);
    lemma_pos_of(input, 0x20, 0);
    let e = pos_of(input, 0x20, 0);
    let z = pos_of(input, 0, 0);
    if zero_before_space(input) {
        let name = input.subrange(0, e);
        assert(name[z] == 0);
        assert(kind_name(kind_named(name)->0)[z] == 0);
    }
}

/// Reads the header of a loose object.
pub fn decode_loose_header(input: &[u8]) -> (r: Result<(ObjectKind, u64, usize), GitError>)
    ensures
        r is Ok <==> loose_header_read(input@) is Some,
        r matches Ok(h) ==> loose_header_read(input@) == Some(h),
        r matches Err(e) ==> e is Gen,
{
    proof {
        lemma_pos_of(input@, 0x20, 0);
        lemma_pos_of(input@, 0, 0);
        lemma_zero_after_space(input@);
    }
    let len: usize = input.len();
    let kind_end: usize = match find_byte(input, 0x20) {
        Some(p) => p,
        None => {
            return Err(GitError::Gen);
        },
    };
    let kind = match ObjectKind::from_bytes(&input[0..kind_end]) {
        Ok(kind) => kind,
        Err(e) => {
            return Err(e);
        },
    };
    let size_end: usize = match find_byte(input, 0) {
        Some(p) => p,
        None => {
            return Err(GitError::Gen);
        },
    };
    let size: u64 = match to_signed(&input[kind_end + 1..size_end]) {
        Ok(size) => size,
        Err(_) => {
            return Err(GitError::Gen);
        },
    };
    Ok((kind, size, size_end + 1))
}

/// Reading the header of a loose object gives back what was written, whatever follows it.
pub proof fn law_loose_header_read_back(kind: ObjectKind, size: u64, body: Seq<u8>)
    requires
        loose_header_spec(kind, size as nat).len() <= usize::MAX,
    ensures
        loose_header_read(loose_header_spec(kind, size as nat) + body) == Some(
            (kind, size, loose_header_spec(kind, size as nat).len() as usize),
        ),
{
    let name = kind_name(kind);
    let digits = decimal(size as nat);
    let h = loose_header_spec(kind, size as nat);
    let all = h + body;
    lemma_kind_name(kind);
    law_kind_named_by_its_name(kind);
    law_decimal_read_back(size as nat);
    let e = name.len() as int;
    let z = h.len() - 1;
    assert forall|i: int| 0 <= i < e implies all[i] != 0x20 && all[i] != 0 by {
        assert(all[i] == name[i]);
    }
    assert(all[e] == 0x20);
    crate::bytes::lemma_pos_of_is(all, 0x20, 0, e);
    assert forall|i: int| e < i < z implies all[i] != 0 by {
        assert(all[i] == digits[i - e - 1]);
    }
    assert(all[z] == 0);
    crate::bytes::lemma_pos_of_is(all, 0, 0, z);
    assert(all.subrange(0, e) =~= name);
    assert(all.subrange(e + 1, z) =~= digits);
    assert(digits[0] != '+' as u8 && digits[0] != '-' as u8);
}

/// The SHA-1 digest of `data`, `None` where the data carries the marks of a collision attack.
pub uninterp spec fn sha1_digest(data: Seq<u8>) -> Option<Seq<u8>>;

/// Calls `sha1_checked::Sha1`, set not to replace the digest where it finds a collision: the
/// digest of `head` followed by `tail`.
#[verifier::external_body]
fn sha1_checked_digest(head: &[u8], tail: &[u8]) -> (r: Option<[u8; 20]>)
    ensures
        r is Some <==> sha1_digest(head@ + tail@) is Some,
        r matches Some(d) ==> sha1_digest(head@ + tail@) == Some(d@),
{
    let mut hasher = sha1_checked::Builder::default().safe_hash(false).build();
    hasher.update(head);
    hasher.update(tail);
    match hasher.try_finalize() {
        sha1_checked::CollisionResult::Ok(digest) => Some(digest.into()),
        sha1_checked::CollisionResult::Mitigated(_) => None,
        sha1_checked::CollisionResult::Collision(_) => None,
    }
}

/// The id of an object of the kind `object_kind` that holds `data`: the digest of its loose
/// header and the data. An error where the data carries the marks of a collision attack.
pub fn hx_compute_hash(object_kind: ObjectKind, data: &[u8]) -> (r: Result<ObjectId, GitError>)
    ensures
        r is Ok <==> sha1_digest(loose_header_spec(object_kind, data@.len()) + data@) is Some,
        r matches Ok(id) ==> sha1_digest(loose_header_spec(object_kind, data@.len()) + data@)
            == Some(id@),
        r matches Err(e) ==> e is Gen,
{
    let header = loose_header(object_kind, data.len() as u64);
    match sha1_checked_digest(header.as_slice(), data) {
        Some(digest) => Ok(ObjectId::Sha1(digest)),
        None => Err(GitError::Gen),
    }
}

} // verus!
