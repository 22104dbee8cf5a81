//! Reading the stored API key back from the bytes the keychain holds.

use vstd::prelude::*;
use vstd::utf8::{decode_utf8, valid_utf8};

verus! {

/// `String::from_utf8`, with the error dropped: a string exactly when the
/// bytes are valid UTF-8, holding the characters they encode.
#[verifier::external_body]
fn string_from_utf8(bytes: Vec<u8>) -> (r: Option<String>)
    ensures
        r is Some <==> valid_utf8(bytes@),
        r matches Some(s) ==> s@ == decode_utf8(bytes@),
{
    String::from_utf8(bytes).ok()
}

/// The API key held by a keychain lookup: none when nothing was found or
/// the stored bytes are not valid UTF-8.
pub fn decode_api_key(found: Option<Vec<u8>>) -> (r: Option<String>)
    ensures
        match found {
            None => r is None,
            Some(bytes) => (r is Some <==> valid_utf8(bytes@)) && (r matches Some(s) ==> s@
                == decode_utf8(bytes@)),
        },
{
    match found {
        Some(bytes) => string_from_utf8(bytes),
        None => None,
    }
}

} // verus!
