//! Unicode conversions of the standard library that the decision logic uses.
//! Their exact results take the Unicode tables to state, so each result is
//! named by a function of its argument alone.
use vstd::prelude::*;
use crate::text::{is_ascii_text, lower_ascii, upper_ascii};

verus! {

/// What `str::to_lowercase` returns for a string with these characters.
pub uninterp spec fn spec_to_lowercase(s: Seq<char>) -> Seq<char>;

/// What `str::to_uppercase` returns for a string with these characters.
pub uninterp spec fn spec_to_uppercase(s: Seq<char>) -> Seq<char>;

/// What `String::from_utf8_lossy` returns for these bytes.
pub uninterp spec fn spec_utf8_lossy(bytes: Seq<u8>) -> Seq<char>;

/// Calls `str::to_lowercase`.
/// Trusted: its result is `spec_to_lowercase` of the argument's characters,
/// and on ASCII text, where the Unicode mapping only turns `A`..`Z` into
/// `a`..`z`, it is the ASCII lower case; nothing more is claimed of the
/// Unicode mapping.
#[verifier::external_body]
pub fn to_lowercase(s: &str) -> (res: String)
    ensures
        res@ == spec_to_lowercase(s@),
        is_ascii_text(s@) ==> res@ == lower_ascii(s@),
{
    s.to_lowercase()
}

/// Calls `str::to_uppercase`.
/// Trusted: its result is `spec_to_uppercase` of the argument's characters,
/// and on ASCII text, where the Unicode mapping only turns `a`..`z` into
/// `A`..`Z`, it is the ASCII upper case; nothing more is claimed of the
/// Unicode mapping.
#[verifier::external_body]
pub fn to_uppercase(s: &str) -> (res: String)
    ensures
        res@ == spec_to_uppercase(s@),
        is_ascii_text(s@) ==> res@ == upper_ascii(s@),
{
    s.to_uppercase()
}

/// Calls `String::from_utf8_lossy`.
/// Trusted: its result is `spec_utf8_lossy` of the bytes, and, as the
/// documentation says, bytes that are valid UTF-8 decode to their own text.
#[verifier::external_body]
pub fn utf8_lossy(bytes: &[u8]) -> (res: String)
    ensures
        res@ == spec_utf8_lossy(bytes@),
        vstd::utf8::valid_utf8(bytes@) ==> res@ == vstd::utf8::decode_utf8(bytes@),
{
    String::from_utf8_lossy(bytes).into_owned()
}

} // verus!
