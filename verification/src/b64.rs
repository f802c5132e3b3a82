//! Textual transport of key and ciphertext buffers through the `base64`
//! crate's standard alphabet.
//!
//! What the engine produces is named, not spelled out: `b64_encoding` is the
//! standard base64 text of a byte buffer, `b64_decoding` the bytes a text
//! decodes to, `None` where the text is not valid base64.  The one fact taken
//! from the crate's documentation is that decoding inverts encoding.

use vstd::prelude::*;

verus! {

pub uninterp spec fn b64_encoding(b: Seq<u8>) -> Seq<char>;

pub uninterp spec fn b64_decoding(s: Seq<char>) -> Option<Seq<u8>>;

/// Relies on base64::Engine::encode with the standard engine: the text is a
/// function of the input bytes alone, decodes back to them, and is empty
/// exactly on empty input.
#[verifier::external_body]
pub(crate) fn b64_encode(b: &Vec<u8>) -> (r: String)
    ensures
        r@ == b64_encoding(b@),
        b64_decoding(r@) == Some(b@),
        b@.len() == 0 <==> r@.len() == 0,
{
    base64::Engine::encode(&base64::prelude::BASE64_STANDARD, b)
}

/// Relies on base64::Engine::decode with the standard engine: it returns the
/// decoded bytes exactly when the text is valid standard base64, and empty
/// text decodes to no bytes.
#[verifier::external_body]
pub(crate) fn b64_decode(s: &str) -> (r: Option<Vec<u8>>)
    ensures
        b64_decoding(s@) == (match r {
            Some(v) => Some(v@),
            None => None::<Seq<u8>>,
        }),
        s@.len() == 0 ==> r is Some,
        s@.len() == 0 ==> r->Some_0@.len() == 0,
{
    match base64::Engine::decode(&base64::prelude::BASE64_STANDARD, s) {
        Ok(v) => Some(v),
        Err(_) => None,
    }
}

} // verus!
