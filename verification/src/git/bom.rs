//! Byte order marks.
use crate::bytes::begins;
use vstd::prelude::*;

verus! {

/// How long the byte order mark is that `s` begins with.
pub open spec fn bom_len(s: Seq<u8>) -> int {
    if begins(s, seq![0x00u8, 0x00u8, 0xfeu8, 0xffu8]) || begins(
        s,
        seq![0x84u8, 0x31u8, 0x95u8, 0x33u8],
    ) || begins(s, seq![0xddu8, 0x73u8, 0x66u8, 0x73u8]) || begins(
        s,
        seq![0xffu8, 0xfeu8, 0x00u8, 0x00u8],
    ) || begins(s, seq![0x2bu8, 0x2fu8, 0x76u8, 0x38u8]) || begins(
        s,
        seq![0x2bu8, 0x2fu8, 0x76u8, 0x39u8],
    ) || begins(s, seq![0x2bu8, 0x2fu8, 0x76u8, 0x2bu8]) || begins(
        s,
        seq![0x2bu8, 0x2fu8, 0x76u8, 0x2fu8],
    ) {
        4
    } else if begins(s, seq![0x0eu8, 0xfeu8, 0xffu8]) || begins(s, seq![0xefu8, 0xbbu8, 0xbfu8])
        || begins(s, seq![0xf7u8, 0x64u8, 0x4cu8]) || begins(s, seq![0xfbu8, 0xeeu8, 0x28u8]) {
        3
    } else if begins(s, seq![0xfeu8, 0xffu8]) || begins(s, seq![0xffu8, 0xfeu8]) {
        2
    } else {
        0
    }
}

/// Calls `unicode_bom::Bom::from` and `unicode_bom::Bom::len`: how long the byte order mark
/// is that `s` begins with.
#[verifier::external_body]
pub(crate) fn bom_length(s: &[u8]) -> (r: usize)
    ensures
        r == bom_len(s@),
        r <= s@.len(),
{
    unicode_bom::Bom::from(s).len()
}

} // verus!
