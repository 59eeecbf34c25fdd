//! The text of a request read from a client.

use vstd::prelude::*;
use vstd::string::*;
use vstd::utf8::{decode_utf8, valid_utf8};

verus! {

/// Calls `String::from_utf8`, which gives the string that `bytes` encode when they
/// are valid UTF-8, and an error otherwise.
#[verifier::external_body]
fn string_from_utf8(bytes: Vec<u8>) -> (r: Option<String>)
    ensures
        r is Some <==> valid_utf8(bytes@),
        r matches Some(s) ==> s@ == decode_utf8(bytes@),
{
    String::from_utf8(bytes).ok()
}

/// The text of the request that a client sent into `buffer`: the decoded bytes of
/// the whole buffer when they are valid UTF-8, else `"Invalid UTF-8"`.
pub fn decode_request(buffer: &[u8]) -> (r: String)
    ensures
        valid_utf8(buffer@) ==> r@ == decode_utf8(buffer@),
        !valid_utf8(buffer@) ==> r@ == "Invalid UTF-8"@,
{
    match string_from_utf8(vstd::slice::slice_to_vec(buffer)) {
        Some(request) => request,
        None => String::from_str("Invalid UTF-8"),
    }
}

} // verus!
