//! Trusted view of `bytes::BytesMut`, the working buffer the transport
//! layer shares with the codec.
//!
//! Verus does not read the `bytes` crate, so the buffer type is declared
//! opaque, its contents are given the name `buf_bytes`, and each method the
//! codec calls gets a small wrapper whose contract states, over that name,
//! what the crate documents the method to do.

use vstd::prelude::*;
use bytes::BytesMut;

verus! {

#[verifier::external_type_specification]
#[verifier::external_body]
pub struct ExBytesMut(BytesMut);

/// The bytes a `bytes::BytesMut` holds, in order.
pub uninterp spec fn buf_bytes(b: BytesMut) -> Seq<u8>;

/// Relies on `BytesMut::len`: the number of bytes in the buffer.
#[verifier::external_body]
pub(crate) fn buf_len(b: &BytesMut) -> (n: usize)
    ensures
        n == buf_bytes(*b).len(),
{
    b.len()
}

/// Relies on `BytesMut`'s `Deref` to `[u8]`: indexing yields the byte at
/// that position.
#[verifier::external_body]
pub(crate) fn buf_byte_at(b: &BytesMut, i: usize) -> (r: u8)
    requires
        i < buf_bytes(*b).len(),
    ensures
        r == buf_bytes(*b)[i as int],
{
    b[i]
}

/// Relies on `BytesMut::split_to`: afterwards the buffer holds the bytes
/// from `at` on, and the returned buffer holds the first `at` bytes.
#[verifier::external_body]
pub(crate) fn buf_split_to(b: &mut BytesMut, at: usize) -> (r: BytesMut)
    requires
        at <= buf_bytes(*old(b)).len(),
    ensures
        buf_bytes(*final(b)) == buf_bytes(*old(b)).skip(at as int),
        buf_bytes(r) == buf_bytes(*old(b)).take(at as int),
{
    b.split_to(at)
}

/// Relies on `BytesMut::extend_from_slice`: appends the slice's bytes at
/// the end of the buffer.
#[verifier::external_body]
pub(crate) fn buf_extend(b: &mut BytesMut, s: &[u8])
    ensures
        buf_bytes(*final(b)) == buf_bytes(*old(b)) + s@,
{
    b.extend_from_slice(s)
}

} // verus!
