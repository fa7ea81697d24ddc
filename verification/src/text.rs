//! Decoding parsed bytes as UTF-8 text.

use vstd::prelude::*;

verus! {

/// The text named by a byte string: `Some` of its characters exactly
/// when the bytes are valid UTF-8, `None` otherwise. The result is a
/// function of the bytes alone.
pub uninterp spec fn utf8_chars(bytes: Seq<u8>) -> Option<Seq<char>>;

/// Relies on `String::from_utf8`: it returns `Ok` exactly when the
/// bytes are valid UTF-8, and then the string holds the text those
/// bytes encode.
#[verifier::external_body]
pub(crate) fn bytes_to_string(v: Vec<u8>) -> (r: Option<String>)
    ensures
        match r {
            Some(s) => utf8_chars(v@) == Some(s@),
            None => utf8_chars(v@) is None,
        },
{
    match String::from_utf8(v) {
        Ok(s) => Some(s),
        Err(_) => None,
    }
}

} // verus!
