//! UTF-8 checking through the standard library.
use vstd::prelude::*;
use vstd::utf8::valid_utf8;
use vstd::string::StringSliceAdditionalSpecFns;

verus! {

/// Reads `bytes` as text with `core::str::from_utf8`, which accepts exactly
/// the well-formed UTF-8 sequences and then views the same bytes as a `str`.
/// Trusted: that the standard library's notion of well-formed UTF-8 is
/// `vstd::utf8::valid_utf8`.
#[verifier::external_body]
pub(crate) fn utf8_str(bytes: &[u8]) -> (r: Option<&str>)
    ensures
        r is Some <==> valid_utf8(bytes@),
        r matches Some(s) ==> s.spec_bytes() == bytes@,
{
    match core::str::from_utf8(bytes) {
        Ok(s) => Some(s),
        Err(_) => None,
    }
}

} // verus!
