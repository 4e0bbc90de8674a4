//! Composed and decomposed forms of text.
use vstd::prelude::*;

verus! {

/// The text in normalization form C.
pub uninterp spec fn composed(s: Seq<char>) -> Seq<char>;

/// The text in normalization form D.
pub uninterp spec fn decomposed(s: Seq<char>) -> Seq<char>;

/// `unicode_normalization::UnicodeNormalization::nfc` gives the characters of a text in normalization form C.
#[verifier::external_body]
fn nfc(s: &str) -> (r: String)
    ensures
        r@ == composed(s@),
{
    unicode_normalization::UnicodeNormalization::nfc(s).collect()
}

/// `unicode_normalization::UnicodeNormalization::nfd` gives the characters of a text in normalization form D.
#[verifier::external_body]
fn nfd(s: &str) -> (r: String)
    ensures
        r@ == decomposed(s@),
{
    unicode_normalization::UnicodeNormalization::nfd(s).collect()
}

/// The text with its characters composed.
pub fn str_precompose(s: &str) -> (r: String)
    ensures
        r@ == composed(s@),
{
    nfc(s)
}

/// The text with its characters decomposed.
pub fn str_decompose(s: &str) -> (r: String)
    ensures
        r@ == decomposed(s@),
{
    nfd(s)
}

} // verus!
