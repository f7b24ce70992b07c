//! Decoding a line of bytes into text.
//!
//! Decoding is the one operation that can fail: a line whose bytes are not a
//! valid UTF-8 encoding yields a [`DecodingError`], and the whole counting
//! operation aborts on it.

use vstd::prelude::*;
use vstd::utf8::{decode_utf8, valid_utf8};

verus! {

/// The sole error of this library: a line of the input is not valid UTF-8.
#[derive(Debug, Clone, Copy, PartialEq, Eq, Structural)]
pub struct DecodingError;

/// The error type of `String::from_utf8`, declared so that the result of that
/// call can be named; nothing inside it is relied on.
#[verifier::external_type_specification]
#[verifier::external_body]
pub struct ExFromUtf8Error(std::string::FromUtf8Error);

/// Relies on `String::from_utf8`: it returns `Ok` exactly when the bytes are
/// a valid UTF-8 encoding, and the string then holds the characters they
/// encode. `valid_utf8` and `decode_utf8` are vstd's specification of that
/// encoding.
pub assume_specification[ String::from_utf8 ](bytes: Vec<u8>) -> (r: Result<
    String,
    std::string::FromUtf8Error,
>)
    ensures
        r is Ok <==> valid_utf8(bytes@),
        r matches Ok(s) ==> s@ == decode_utf8(bytes@),
;

/// Decodes one line of bytes, mapping a failure to [`DecodingError`].
pub fn decode_line(bytes: Vec<u8>) -> (r: Result<String, DecodingError>)
    ensures
        r is Ok <==> valid_utf8(bytes@),
        r matches Ok(s) ==> s@ == decode_utf8(bytes@),
{
    match String::from_utf8(bytes) {
        Ok(s) => Ok(s),
        Err(_) => Err(DecodingError),
    }
}

} // verus!
