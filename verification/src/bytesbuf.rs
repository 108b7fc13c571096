//! The inbound byte buffer: the connection-facing codec reads from and
//! splits a growable byte buffer of the `bytes` crate. The buffer type is
//! opaque to the verifier; its contents are named by `bm_contents`, and the
//! three operations the codec needs are trusted against the crate's
//! documented behavior.
use vstd::prelude::*;

verus! {

#[verifier::external_type_specification]
#[verifier::external_body]
pub struct ExBytesMut(bytes::BytesMut);

/// The bytes the buffer currently holds, front to back.
pub uninterp spec fn bm_contents(b: bytes::BytesMut) -> Seq<u8>;

/// Relies on `BytesMut`'s deref to a byte slice: the slice of all bytes
/// the buffer holds.
#[verifier::external_body]
pub fn bm_slice(b: &bytes::BytesMut) -> (r: &[u8])
    ensures
        r@ == bm_contents(*b),
{
    b.as_ref()
}

/// Relies on `BytesMut::split_to`: the first `n` bytes move into the
/// returned buffer, the rest stay. Panics when `n` exceeds the length, so
/// that case is excluded here.
#[verifier::external_body]
pub fn bm_split_to(b: &mut bytes::BytesMut, n: usize) -> (r: bytes::BytesMut)
    requires
        n <= bm_contents(*old(b)).len(),
    ensures
        bm_contents(r) == bm_contents(*old(b)).take(n as int),
        bm_contents(*final (b)) == bm_contents(*old(b)).skip(n as int),
{
    b.split_to(n)
}

/// Relies on `BytesMut::extend_from_slice`: appends the bytes at the back.
#[verifier::external_body]
pub fn bm_extend(b: &mut bytes::BytesMut, s: &[u8])
    ensures
        bm_contents(*final (b)) == bm_contents(*old(b)) + s@,
{
    b.extend_from_slice(s)
}

} // verus!
