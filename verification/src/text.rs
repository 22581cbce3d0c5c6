//! Text as UTF-8: what the library assumes of the standard library's decoder.

use vstd::prelude::*;
use vstd::string::StringSliceAdditionalSpecFns;
use vstd::utf8::valid_utf8;

verus! {

/// The error of `core::str::from_utf8`. Nothing is read from it.
#[verifier::external_type_specification]
#[verifier::external_body]
pub struct ExUtf8Error(core::str::Utf8Error);

/// `core::str::from_utf8` succeeds on exactly the byte slices that are
/// well-formed UTF-8, and the string slice it then returns is made of those
/// same bytes. This is taken from the function's documentation, not proved.
pub assume_specification[ core::str::from_utf8 ](v: &[u8]) -> (checked: Result<
    &str,
    core::str::Utf8Error,
>)
    ensures
        checked is Ok <==> valid_utf8(v@),
        checked matches Ok(text) ==> text.spec_bytes() == v@,
;

} // verus!
