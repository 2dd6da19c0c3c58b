//! The functions outside the library that its logic calls.

use vstd::prelude::*;
use vstd::utf8;
use crate::path::SkillPath;

verus! {

/// Calls `std::str::from_utf8`, which reads a byte slice as text: it succeeds exactly on valid
/// UTF-8, and the text it gives is the one those bytes encode.
#[verifier::external_body]
pub(crate) fn utf8_text(bytes: &[u8]) -> (r: Option<String>)
    ensures
        r is Some <==> utf8::valid_utf8(bytes@),
        r matches Some(s) ==> s@ == utf8::decode_utf8(bytes@),
{
    match std::str::from_utf8(bytes) {
        Ok(s) => Some(s.to_string()),
        Err(_) => None,
    }
}

/// The text that `String::from_utf8_lossy` makes of bytes.
pub uninterp spec fn lossy_text(bytes: Seq<u8>) -> Seq<char>;

/// Calls `String::from_utf8_lossy`, which reads a byte slice as text and puts a replacement
/// character for what is not valid UTF-8. Its result is named `lossy_text`; on valid UTF-8 it is
/// the text that the bytes encode.
#[verifier::external_body]
pub(crate) fn utf8_lossy(bytes: &[u8]) -> (r: String)
    ensures
        r@ == lossy_text(bytes@),
        utf8::valid_utf8(bytes@) ==> r@ == utf8::decode_utf8(bytes@),
{
    String::from_utf8_lossy(bytes).into_owned()
}

/// Calls `dirs::home_dir`, which gives the home directory of the user. It reads the environment
/// and the user database of the machine, and what it promises differs between systems, so nothing
/// is claimed of what it gives.
#[verifier::external_body]
pub(crate) fn home_dir() -> Option<SkillPath> {
    match dirs::home_dir() {
        Some(p) => Some(SkillPath { bytes: p.into_os_string().into_encoded_bytes() }),
        None => None,
    }
}

/// Calls `dirs::cache_dir`, which gives the directory in which the user's caches are kept. It
/// reads the environment and the user database of the machine, and what it promises differs
/// between systems, so nothing is claimed of what it gives.
#[verifier::external_body]
pub(crate) fn cache_dir() -> Option<SkillPath> {
    match dirs::cache_dir() {
        Some(p) => Some(SkillPath { bytes: p.into_os_string().into_encoded_bytes() }),
        None => None,
    }
}

} // verus!
