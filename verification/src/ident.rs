//! Identifiers of entries.

use vstd::prelude::*;

verus! {

/// A hexadecimal digit with small letters.
pub open spec fn is_small_hex(c: char) -> bool {
    ('0' <= c && c <= '9') || ('a' <= c && c <= 'f')
}

/// The form of a version 4 UUID: 36 characters, hyphens after 8, 12, 16 and 20
/// of the 32 hexadecimal digits, the version `4`, and a variant digit from `8` to
/// `b`.
pub open spec fn is_uuid(s: Seq<char>) -> bool {
    &&& s.len() == 36
    &&& s[8] == '-' && s[13] == '-' && s[18] == '-' && s[23] == '-'
    &&& s[14] == '4'
    &&& s[19] == '8' || s[19] == '9' || s[19] == 'a' || s[19] == 'b'
    &&& forall|i: int|
        0 <= i < 36 && i != 8 && i != 13 && i != 18 && i != 23 ==> is_small_hex(#[trigger] s[i])
}

/// `Uuid::new_v4` of `uuid`, as text. The identifier is random; what is
/// claimed is its form. That two calls give different identifiers is likely
/// and not claimed.
#[verifier::external_body]
pub(crate) fn new_id() -> (r: String)
    ensures
        is_uuid(r@),
{
    uuid::Uuid::new_v4().to_string()
}

} // verus!
