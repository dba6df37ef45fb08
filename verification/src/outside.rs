//! What the library takes from the world outside: fresh identifiers, the
//! time of day, and the reading of bytes as text.

use vstd::prelude::*;
use vstd::utf8::{decode_utf8, valid_utf8};

verus! {

/// Calls `uuid::Uuid::new_v4` and writes the result in its hyphenated form.
///
/// Trusted: nothing. The identifier is random; no two calls need agree.
#[verifier::external_body]
pub(crate) fn fresh_uuid() -> (uuid: String) {
    uuid::Uuid::new_v4().to_string()
}

/// Calls `chrono::Utc::now` and takes its `timestamp_millis`.
///
/// Trusted: nothing. The result is the time of the call.
#[verifier::external_body]
pub(crate) fn now_millis() -> (millis: i64) {
    chrono::Utc::now().timestamp_millis()
}

/// Calls `String::from_utf8`.
///
/// Trusted: the bytes are accepted exactly when they are valid UTF-8, and
/// the text is then what they encode.
#[verifier::external_body]
pub(crate) fn text_from_bytes(bytes: Vec<u8>) -> (text: Option<String>)
    ensures
        text is Some <==> valid_utf8(bytes@),
        text matches Some(s) ==> s@ == decode_utf8(bytes@),
{
    match String::from_utf8(bytes) {
        Ok(s) => Some(s),
        Err(_) => None,
    }
}

} // verus!
