//! Random 128-bit identifiers in hyphenated text form.

use vstd::prelude::*;

use crate::jsonfmt::is_digit;
use crate::strutil::bytes_of_str;

verus! {

/// A byte of a bare lowercase hex identifier.
pub open spec fn is_uuid_byte(b: u8) -> bool {
    is_digit(b) || (97 <= b <= 102)
}

/// The text shape of a 128-bit identifier: 32 lowercase hex characters.
pub open spec fn uuid_text(s: Seq<char>) -> bool {
    s.len() == 32 && bytes_of_str(s).len() == 32 && forall|i: int|
        0 <= i < 32 ==> is_uuid_byte(#[trigger] bytes_of_str(s)[i])
}

/// Relies on `uuid::Uuid::new_v4` and its simple-format `Display`: a fresh
/// random identifier rendered as 32 characters of lowercase hex.
#[verifier::external_body]
pub fn new_uuid() -> (r: String)
    ensures
        uuid_text(r@),
{
    uuid::Uuid::new_v4().simple().to_string()
}

} // verus!
