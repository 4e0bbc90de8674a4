//! The contents of a file that holds one reference.
use crate::ascii::hex_digit;
use crate::bytes::{begins, find_byteset, lit, pos_of_any, to_vec};
use crate::git::error::GitError;
use crate::git::oid::{all_hex, unhex, ObjectId};
use crate::git::refs::name::{valid_complete, FullName};
use vstd::prelude::*;

verus! {

/// What a reference points to.
#[derive(Debug)]
pub enum Target {
    Object(ObjectId),
    Symbolic(FullName),
}

/// What a `Target` stands for.
pub enum TargetView {
    Object(Seq<u8>),
    Symbolic(Seq<u8>),
}

impl View for Target {
    type V = TargetView;

    open spec fn view(&self) -> TargetView {
        match *self {
            Target::Object(id) => TargetView::Object(id@),
            Target::Symbolic(name) => TargetView::Symbolic(name@),
        }
    }
}

impl Target {
    /// The id, where the target is an object.
    pub fn try_id(&self) -> (r: Option<ObjectId>)
        ensures
            r is Some <==> self@ is Object,
            r matches Some(id) ==> self@ == TargetView::Object(id@),
    {
        match self {
            Target::Symbolic(_) => None,
            Target::Object(id) => Some(*id),
        }
    }
}

/// The first position at or after `i` that holds no space.
pub open spec fn past_spaces(s: Seq<u8>, i: int) -> int
    decreases s.len() - i,
{
    if 0 <= i < s.len() && s[i] == ' ' as u8 {
        past_spaces(s, i + 1)
    } else {
        i
    }
}

/// The bytes that end a symbolic target.
pub open spec fn ends_of_target() -> Seq<u8> {
    seq![0u8, 0x0d, 0x0a]
}

/// The name that a symbolic reference with the contents `s` points to.
pub open spec fn symbolic_name(s: Seq<u8>) -> Seq<u8> {
    let i = past_spaces(s, lit("ref: ").len() as int);
    s.subrange(i, pos_of_any(s, ends_of_target(), i))
}

/// What the contents `s` of a reference's file point to.
pub open spec fn target_of(s: Seq<u8>) -> Option<TargetView> {
    if begins(s, lit("ref: ")) {
        if valid_complete(symbolic_name(s)) {
            Some(TargetView::Symbolic(symbolic_name(s)))
        } else {
            None
        }
    } else if s.len() >= 40 && all_hex(s.subrange(0, 40)) && (s.len() == 40 || !hex_digit(s[40])) {
        Some(TargetView::Object(unhex(s.subrange(0, 40))))
    } else {
        None
    }
}

pub proof fn lemma_past_spaces(s: Seq<u8>, i: int)
    requires
        0 <= i <= s.len(),
    ensures
        i <= past_spaces(s, i) <= s.len(),
    decreases s.len() - i,
{
    if i < s.len() && s[i] == ' ' as u8 {
        lemma_past_spaces(s, i + 1);
    }
}

/// Whether `b` is a hexadecimal digit.
pub fn is_hex_digit(b: u8) -> (r: bool)
    ensures
        r == hex_digit(b),
{
    (0x30 <= b && b <= 0x39) || (0x41 <= b && b <= 0x46) || (0x61 <= b && b <= 0x66)
}

/// Where `set` first occurs at or after `i`.
pub fn position_from(s: &[u8], set: &[u8], i: usize) -> (r: usize)
    requires
        i <= s@.len(),
    ensures
        r == pos_of_any(s@, set@, i as int),
        i <= r <= s@.len(),
{
    let rest = &s[i..s.len()];
    let ghost p = pos_of_any(rest@, set@, 0);
    proof {
        crate::bytes::lemma_pos_of_any(rest@, set@, 0);
        assert forall|j: int| i <= j < i + p implies !set@.contains(#[trigger] s@[j]) by {
            assert(rest@[j - i] == s@[j]);
        }
        assert(p < rest@.len() ==> s@[i + p] == rest@[p]);
        crate::bytes::lemma_pos_of_any_is(s@, set@, i as int, i + p);
    }
    match find_byteset(rest, set) {
        Some(p) => i + p,
        None => s.len(),
    }
}

/// Reads what the contents of a reference's file point to.
pub fn parse(contents: &[u8]) -> (r: Result<Target, GitError>)
    ensures
        r is Ok <==> target_of(contents@) is Some,
        r matches Ok(t) ==> target_of(contents@) == Some(t@),
        r matches Err(e) ==> e is Gen,
{
    let head = "ref: ".as_bytes();
    if crate::bytes::starts_with(contents, head) {
        let mut i: usize = head.len();
        proof {
            lemma_past_spaces(contents@, i as int);
        }
        while i < contents.len() && contents[i] == ' ' as u8
            invariant
                i <= contents@.len(),
                past_spaces(contents@, i as int) == past_spaces(
                    contents@,
                    lit("ref: ").len() as int,
                ),
            decreases contents.len() - i,
        {
            i += 1;
        }
        let ends: [u8; 3] = [0, 0x0d, 0x0a];
        assert(ends@ =~= ends_of_target());
        let end = position_from(contents, &ends, i);
        let name = to_vec(&contents[i..end]);
        assert(name@ == symbolic_name(contents@));
        match FullName::hx_try_from(name) {
            Ok(name) => Ok(Target::Symbolic(name)),
            Err(_) => Err(GitError::Gen),
        }
    } else {
        if contents.len() < 40 {
            return Err(GitError::Gen);
        }
        match ObjectId::hx_from_hex(&contents[0..40]) {
            Err(_) => Err(GitError::Gen),
            Ok(id) => if contents.len() > 40 && is_hex_digit(contents[40]) {
                Err(GitError::Gen)
            } else {
                Ok(Target::Object(id))
            },
        }
    }
}

} // verus!
