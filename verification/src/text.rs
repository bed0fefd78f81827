//! Text and bytes: the one place where bytes are taken for UTF-8 text.

use vstd::prelude::*;
use vstd::utf8::{encode_utf8, valid_utf8};

verus! {

/// `String::from_utf8`: the text whose UTF-8 encoding is `bytes`, or nothing
/// where `bytes` are not valid UTF-8.
///
/// Not proved: that the standard library accepts exactly the byte sequences
/// that `valid_utf8` describes, and that the string it returns is made of
/// the bytes it was given.
#[verifier::external_body]
pub(crate) fn text_of(bytes: Vec<u8>) -> (text: Option<String>)
    ensures
        text is Some <==> valid_utf8(bytes@),
        text matches Some(s) ==> encode_utf8(s@) == bytes@,
{
    match String::from_utf8(bytes) {
        Ok(s) => Some(s),
        Err(_) => None,
    }
}

} // verus!
