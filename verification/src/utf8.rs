//! Telling text from other bytes.

use vstd::prelude::*;
use vstd::utf8::valid_utf8;

verus! {

/// Calls `core::str::from_utf8` on `bytes` and reports whether it succeeded.
/// Trusted: it succeeds exactly on well-formed UTF-8.
#[verifier::external_body]
pub(crate) fn utf8_check(bytes: &[u8]) -> (res: bool)
    ensures
        res == valid_utf8(bytes@),
{
    core::str::from_utf8(bytes).is_ok()
}

/// Tells whether `bytes` is well-formed UTF-8 text.
pub fn is_text(bytes: &[u8]) -> (res: bool)
    ensures
        res == valid_utf8(bytes@),
{
    utf8_check(bytes)
}

} // verus!
