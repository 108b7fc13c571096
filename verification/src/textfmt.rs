//! Text rendering of raw bytes for error messages, and UTF-8 validation.
//! The rendering functions call into the standard library and the buffer
//! crate; each call's result is given a name that the error contracts use.
use vstd::prelude::*;

verus! {

/// The text that lossy UTF-8 conversion yields for these bytes: valid
/// sequences pass through, invalid ones become replacement characters.
pub uninterp spec fn lossy_text(b: Seq<u8>) -> Seq<char>;

/// Relies on `String::from_utf8_lossy`: the result is a pure function of
/// the input bytes.
#[verifier::external_body]
pub fn lossy_string(b: &[u8]) -> (r: String)
    ensures
        r@ == lossy_text(b@),
{
    String::from_utf8_lossy(b).into_owned()
}

/// The text that the byte-buffer debug rendering yields for these bytes:
/// a quoted byte-string literal with escapes.
pub uninterp spec fn bytes_debug_text(b: Seq<u8>) -> Seq<char>;

/// Relies on the `Debug` rendering of `bytes::BytesMut`, which prints the
/// buffer's contents as a quoted byte string: a pure function of the bytes.
#[verifier::external_body]
pub fn debug_string(b: &[u8]) -> (r: String)
    ensures
        r@ == bytes_debug_text(b@),
{
    format!("{:?}", bytes::BytesMut::from(b))
}

/// Relies on `str::from_utf8`: it accepts exactly the valid UTF-8 byte
/// sequences (the same predicate the verifier's own UTF-8 model defines).
#[verifier::external_body]
pub fn is_utf8(b: &[u8]) -> (r: bool)
    ensures
        r == vstd::utf8::valid_utf8(b@),
{
    core::str::from_utf8(b).is_ok()
}

/// Relies on `String::from_utf8`: accepts exactly valid UTF-8 and yields
/// the text those bytes encode (the verifier's own UTF-8 model names both).
#[verifier::external_body]
pub fn string_from_bytes(v: Vec<u8>) -> (r: Option<String>)
    ensures
        r is Some <==> vstd::utf8::valid_utf8(v@),
        r matches Some(s) ==> s@ == vstd::utf8::decode_utf8(v@),
{
    String::from_utf8(v).ok()
}

} // verus!
