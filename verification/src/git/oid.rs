//! Object ids.
use crate::ascii::{hex_digit, to_lower};
use crate::bytes::eq_bytes;
use crate::git::error::GitError;
use crate::git::number::digit_value;
use crate::text::utf8_string;
use vstd::prelude::*;

verus! {

/// How many bytes an id has.
pub const HASH_LEN: usize = 20;

/// The id of an object.
#[derive(Clone, Copy, Debug)]
pub enum ObjectId {
    Sha1([u8; 20]),
}

impl View for ObjectId {
    type V = Seq<u8>;

    open spec fn view(&self) -> Seq<u8> {
        match self {
            ObjectId::Sha1(b) => b@,
        }
    }
}

/// The id of the tree without entries.
pub open spec fn empty_tree_id() -> Seq<u8> {
    seq![
        0x4bu8,
        0x82u8,
        0x5du8,
        0xc6u8,
        0x42u8,
        0xcbu8,
        0x6eu8,
        0xb9u8,
        0xa0u8,
        0x60u8,
        0xe5u8,
        0x4bu8,
        0xf8u8,
        0xd6u8,
        0x92u8,
        0x88u8,
        0xfbu8,
        0xeeu8,
        0x49u8,
        0x04u8,
    ]
}

/// The digit that writes `n` in hexadecimal.
pub open spec fn hex_char(n: int) -> u8 {
    if n < 10 {
        (0x30 + n) as u8
    } else {
        (0x61 + n - 10) as u8
    }
}

/// The bytes of `s` in hexadecimal, two digits each.
pub open spec fn hex(s: Seq<u8>) -> Seq<u8> {
    Seq::new(
        2 * s.len(),
        |i: int|
            if i % 2 == 0 {
                hex_char(s[i / 2] as int / 16)
            } else {
                hex_char(s[i / 2] as int % 16)
            },
    )
}

/// Every byte of `s` is a hexadecimal digit.
pub open spec fn all_hex(s: Seq<u8>) -> bool {
    forall|i: int| 0 <= i < s.len() ==> hex_digit(#[trigger] s[i])
}

/// The bytes that the digits of `s` write, two digits each.
pub open spec fn unhex(s: Seq<u8>) -> Seq<u8> {
    Seq::new(
        s.len() / 2,
        |i: int| (digit_value(s[2 * i]) * 16 + digit_value(s[2 * i + 1])) as u8,
    )
}

/// Writing bytes in hexadecimal and reading the digits gives the bytes back.
pub proof fn law_hex_read_back(s: Seq<u8>)
    ensures
        all_hex(hex(s)),
        unhex(hex(s)) == s,
{
    assert(unhex(hex(s)) =~= s);
}

/// Reading hexadecimal digits and writing the bytes gives the digits back, in lower case.
pub proof fn law_hex_written_back(s: Seq<u8>)
    requires
        s.len() % 2 == 0,
        all_hex(s),
    ensures
        hex(unhex(s)) == s.map_values(|b: u8| to_lower(b)),
{
    let t = s.map_values(|b: u8| to_lower(b));
    assert forall|i: int| 0 <= i < s.len() implies hex(unhex(s))[i] == #[trigger] t[i] by {
        let k = i / 2;
        assert(hex_digit(s[2 * k]) && hex_digit(s[2 * k + 1]));
        let b = unhex(s)[k];
        assert(b as int == digit_value(s[2 * k]) * 16 + digit_value(s[2 * k + 1]));
        assert(b as int / 16 == digit_value(s[2 * k]));
        assert(b as int % 16 == digit_value(s[2 * k + 1]));
        if i % 2 == 0 {
            assert(i == 2 * k);
        } else {
            assert(i == 2 * k + 1);
        }
    }
    assert(hex(unhex(s)) =~= t);
}

/// Calls `faster_hex::hex_encode`: the bytes of `s` in lower case hexadecimal.
#[verifier::external_body]
pub(crate) fn hex_encode(s: &[u8]) -> (r: Vec<u8>)
    requires
        2 * s@.len() <= usize::MAX,
    ensures
        r@ == hex(s@),
{
    let mut buf: Vec<u8> = vec![0; s.len() * 2];
    let _ = faster_hex::hex_encode(s, &mut buf);
    buf
}

/// Calls `faster_hex::hex_decode` on 40 digits of either case: the bytes that they write,
/// `None` where one of them is no hexadecimal digit.
#[verifier::external_body]
fn hex_decode_40(s: &[u8]) -> (r: Option<[u8; 20]>)
    requires
        s@.len() == 40,
    ensures
        r is Some <==> all_hex(s@),
        r matches Some(b) ==> b@ == unhex(s@),
{
    let mut buf = [0u8; 20];
    match faster_hex::hex_decode(s, &mut buf) {
        Ok(_) => Some(buf),
        Err(_) => None,
    }
}

/// The 20 bytes of `s`.
fn to_20(s: &[u8]) -> (r: [u8; 20])
    requires
        s@.len() == 20,
    ensures
        r@ == s@,
{
    let mut id: [u8; 20] = [0; 20];
    let mut i: usize = 0;
    while i < 20
        invariant
            i <= 20,
            s@.len() == 20,
            forall|j: int| 0 <= j < i ==> id@[j] == s@[j],
        decreases 20 - i,
    {
        id[i] = s[i];
        i += 1;
    }
    assert(id@ =~= s@);
    id
}

impl ObjectId {
    /// Reads an id from 40 hexadecimal digits.
    pub fn hx_from_hex(buffer: &[u8]) -> (r: Result<ObjectId, GitError>)
        ensures
            r is Ok <==> buffer@.len() == 40 && all_hex(buffer@),
            r matches Ok(id) ==> id@ == unhex(buffer@),
            r matches Err(e) ==> e is Gen,
    {
        if buffer.len() != 40 {
            return Err(GitError::Gen);
        }
        match hex_decode_40(buffer) {
            Some(b) => Ok(ObjectId::Sha1(b)),
            None => Err(GitError::Gen),
        }
    }

    /// The bytes of the id.
    pub fn as_slice(&self) -> (r: &[u8])
        ensures
            r@ == self@,
            r@.len() == 20,
    {
        match self {
            ObjectId::Sha1(b) => b.as_slice(),
        }
    }

    /// The id of the tree without entries.
    pub fn empty_tree() -> (r: ObjectId)
        ensures
            r@ == empty_tree_id(),
    {
        let b: [u8; 20] = [
            0x4b,
            0x82,
            0x5d,
            0xc6,
            0x42,
            0xcb,
            0x6e,
            0xb9,
            0xa0,
            0x60,
            0xe5,
            0x4b,
            0xf8,
            0xd6,
            0x92,
            0x88,
            0xfb,
            0xee,
            0x49,
            0x04,
        ];
        ObjectId::Sha1(b)
    }

    /// The id with the 20 bytes of `b`.
    pub fn from_20_bytes(b: &[u8]) -> (r: ObjectId)
        requires
            b@.len() == 20,
        ensures
            r@ == b@,
    {
        ObjectId::Sha1(to_20(b))
    }

    /// The id with the 20 bytes of `bytes`.
    pub fn from_bytes_or_panic(bytes: &[u8]) -> (r: ObjectId)
        requires
            bytes@.len() == 20,
        ensures
            r@ == bytes@,
    {
        ObjectId::from_20_bytes(bytes)
    }

    /// The id as a borrowed one.
    pub fn as_oid(&self) -> (r: oid<'_>)
        ensures
            r@ == self@,
            r.wf(),
    {
        oid { bytes: self.as_slice() }
    }

    /// Whether the two ids are the same.
    pub fn same(&self, other: &ObjectId) -> (r: bool)
        ensures
            r == (self@ == other@),
    {
        eq_bytes(self.as_slice(), other.as_slice())
    }
}

/// A borrowed id.
#[allow(non_camel_case_types)]
#[derive(Clone, Copy, Debug)]
pub struct oid<'a> {
    bytes: &'a [u8],
}

impl<'a> View for oid<'a> {
    type V = Seq<u8>;

    closed spec fn view(&self) -> Seq<u8> {
        self.bytes@
    }
}

/// The first `n` characters that the bytes of `s` write in hexadecimal.
pub open spec fn hex_prefix(s: Seq<u8>, n: int) -> Seq<char> {
    Seq::new(n as nat, |i: int| hex(s)[i] as char)
}

/// The string with the characters `s`, which are ASCII.
fn ascii_string(s: Vec<u8>) -> (r: String)
    requires
        forall|i: int| 0 <= i < s@.len() ==> #[trigger] s@[i] < 128,
    ensures
        r@ == Seq::new(s@.len(), |i: int| s@[i] as char),
{
    let ghost bytes = s@;
    let ghost chars = Seq::new(bytes.len(), |i: int| bytes[i] as char);
    proof {
        vstd::utf8::is_ascii_chars_encode_utf8(chars);
        vstd::utf8::encode_utf8_valid_utf8(chars);
        vstd::utf8::encode_utf8_decode_utf8(chars);
        assert(vstd::utf8::encode_utf8(chars) =~= bytes) by {
            assert forall|i: int| 0 <= i < bytes.len() implies vstd::utf8::encode_utf8(chars)[i]
                == bytes[i] by {
                assert(chars[i] as u8 == bytes[i]);
            }
        }
    }
    match utf8_string(s) {
        Some(text) => text,
        None => String::new(),
    }
}

impl<'a> oid<'a> {
    /// The id has 20 bytes.
    pub open spec fn wf(&self) -> bool {
        self@.len() == 20
    }

    /// The id with the bytes `digest`, where they are 20.
    pub fn try_from_bytes(digest: &'a [u8]) -> (r: Result<oid<'a>, GitError>)
        ensures
            r is Ok <==> digest@.len() == 20,
            r matches Ok(id) ==> id@ == digest@ && id.wf(),
            r matches Err(e) ==> e is Gen,
    {
        if digest.len() == 20 {
            Ok(oid { bytes: digest })
        } else {
            Err(GitError::Gen)
        }
    }

    /// The id with the bytes `value`.
    pub fn from_bytes_unchecked(value: &'a [u8]) -> (r: oid<'a>)
        ensures
            r@ == value@,
    {
        oid { bytes: value }
    }

    /// The first byte.
    pub fn first_byte(&self) -> (r: u8)
        requires
            self.wf(),
        ensures
            r == self@[0],
    {
        self.bytes[0]
    }

    /// The bytes.
    pub fn as_bytes(&self) -> (r: &'a [u8])
        ensures
            r@ == self@,
    {
        self.bytes
    }

    /// The owned id with the same bytes.
    pub fn to_owned(&self) -> (r: ObjectId)
        requires
            self.wf(),
        ensures
            r@ == self@,
    {
        ObjectId::from_20_bytes(self.bytes)
    }

    /// The first 8 hexadecimal digits.
    pub fn helix_to_hex_with_len(&self) -> (r: String)
        requires
            self.wf(),
        ensures
            r@ == hex_prefix(self@, 8),
    {
        self.hex_with_len(8)
    }

    /// The first `hex_len` hexadecimal digits, or all of them where there are fewer.
    fn hex_with_len(&self, hex_len: usize) -> (r: String)
        requires
            self.wf(),
        ensures
            r@ == hex_prefix(
                self@,
                if hex_len < 40 {
                    hex_len as int
                } else {
                    40
                },
            ),
    {
        let mut digits = self.hex_to_vec();
        let n: usize = if hex_len < 40 {
            hex_len
        } else {
            40
        };
        digits.truncate(n);
        proof {
            law_hex_read_back(self@);
        }
        assert forall|i: int| 0 <= i < digits@.len() implies #[trigger] digits@[i] < 128 by {
            assert(hex_digit(hex(self@)[i]));
        }
        let r = ascii_string(digits);
        assert(r@ =~= hex_prefix(self@, n as int));
        r
    }

    /// All 40 hexadecimal digits.
    pub fn to_hex(&self) -> (r: String)
        requires
            self.wf(),
        ensures
            r@ == hex_prefix(self@, 40),
    {
        self.hex_with_len(40)
    }

    /// The hexadecimal digits as bytes.
    pub fn hex_to_vec(&self) -> (r: Vec<u8>)
        requires
            self.wf(),
        ensures
            r@ == hex(self@),
            r@.len() == 40,
    {
        hex_encode(self.bytes)
    }

    /// Appends the hexadecimal digits to `out`.
    pub fn write_hex_to(&self, out: &mut Vec<u8>)
        requires
            self.wf(),
        ensures
            final(out)@ == old(out)@ + hex(self@),
    {
        let digits = self.hex_to_vec();
        crate::bytes::push_all(out, digits.as_slice());
    }
}

} // verus!
