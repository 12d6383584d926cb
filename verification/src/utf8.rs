//! Checked conversions between bytes and text.

use vstd::prelude::*;
use vstd::string::StringSliceAdditionalSpecFns;
use vstd::utf8::valid_utf8;

verus! {

/// The text that `bytes` spell, if they are valid UTF-8.
///
/// Calls `core::str::from_utf8`. The contract says what the standard
/// library documents of it: the call succeeds exactly on valid UTF-8, and the
/// text it returns consists of the very bytes that were passed in.
#[verifier::external_body]
pub(crate) fn text_of<'a>(bytes: &'a [u8]) -> (r: Option<&'a str>)
    ensures
        r.is_some() == valid_utf8(bytes@),
        r matches Some(s) ==> s.spec_bytes() == bytes@,
{
    match core::str::from_utf8(bytes) {
        Ok(s) => Some(s),
        Err(_) => None,
    }
}

/// The text that the standard library makes of a byte string for display:
/// the bytes read as UTF-8, with the replacement character standing for
/// each invalid sequence.
pub uninterp spec fn lossy_of(bytes: Seq<u8>) -> Seq<char>;

/// Text for display: the bytes read as UTF-8, with the replacement character
/// standing for each invalid sequence.
///
/// Calls `String::from_utf8_lossy`. The text is a function of the bytes
/// alone; the contract gives it the name `lossy_of`, and says of it only
/// what the standard library documents for valid input: the text then
/// consists of the bytes themselves.
#[verifier::external_body]
pub(crate) fn lossy_text(bytes: &[u8]) -> (r: String)
    ensures
        r@ == lossy_of(bytes@),
        valid_utf8(bytes@) ==> r@ == vstd::utf8::decode_utf8(bytes@),
{
    String::from_utf8_lossy(bytes).into_owned()
}

} // verus!
