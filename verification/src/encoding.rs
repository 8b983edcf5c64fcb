//! Base64 encoding of artifact bytes.
//!
//! A hosting application receives artifact bytes as base64 text instead
//! of reading the file a second time itself. The encoding is done by the
//! `base64` crate; what it produces for a given byte sequence is a pure
//! function of those bytes, named here as `base64_of`.

use vstd::prelude::*;

verus! {

/// The base64 text (standard alphabet, padded) of a byte sequence.
pub uninterp spec fn base64_of(bytes: Seq<u8>) -> Seq<char>;

/// Relies on base64's `Engine::encode` with the `STANDARD` engine: the
/// result is a pure function of the input bytes, and its length is
/// `encoded_len` with padding, four output characters for every (begun)
/// three input bytes. `encode` panics when that length overflows `usize`,
/// so such inputs are excluded here.
#[verifier::external_body]
fn base64_encode_raw(bytes: &Vec<u8>) -> (r: String)
    requires
        4 * ((bytes@.len() + 2) / 3) <= usize::MAX,
    ensures
        r@ == base64_of(bytes@),
        r@.len() == 4 * ((bytes@.len() + 2) / 3),
{
    base64::Engine::encode(&base64::engine::general_purpose::STANDARD, bytes.as_slice())
}

/// Encodes artifact bytes as base64 text for a presentation layer.
pub fn encode_bytes_as_base64(bytes: &Vec<u8>) -> (r: String)
    requires
        4 * ((bytes@.len() + 2) / 3) <= usize::MAX,
    ensures
        r@ == base64_of(bytes@),
        r@.len() == 4 * ((bytes@.len() + 2) / 3),
        bytes@.len() == 0 ==> r@.len() == 0,
{
    base64_encode_raw(bytes)
}

} // verus!
