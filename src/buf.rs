//! The byte containers of the `bytes` crate, as the library sees them: a
//! `Bytes` handle and a `BytesMut` buffer each stand for a sequence of bytes.

use bytes::{Buf, Bytes, BytesMut};
use vstd::prelude::*;

verus! {

#[verifier::external_type_specification]
#[verifier::external_body]
pub struct ExBytes(Bytes);

#[verifier::external_type_specification]
#[verifier::external_body]
pub struct ExBytesMut(BytesMut);

/// The bytes that a `Bytes` handle refers to.
pub uninterp spec fn bytes_of(b: Bytes) -> Seq<u8>;

/// The bytes that a `BytesMut` buffer holds.
pub uninterp spec fn buffer_of(b: BytesMut) -> Seq<u8>;

/// Relies on `Bytes::copy_from_slice`: a new handle to a copy of `data`.
#[verifier::external_body]
pub(crate) fn copy_bytes(data: &[u8]) -> (r: Bytes)
    ensures
        bytes_of(r) == data@,
{
    Bytes::copy_from_slice(data)
}

/// Relies on `Deref for Bytes`: the bytes that the handle refers to.
#[verifier::external_body]
pub(crate) fn bytes_slice(b: &Bytes) -> (r: &[u8])
    ensures
        r@ == bytes_of(*b),
{
    b
}

/// Relies on `Clone for Bytes`: a second handle to the same bytes.
#[verifier::external_body]
pub(crate) fn clone_bytes(b: &Bytes) -> (r: Bytes)
    ensures
        bytes_of(r) == bytes_of(*b),
{
    b.clone()
}

/// Relies on `BytesMut::with_capacity`: an empty buffer.
#[verifier::external_body]
pub(crate) fn new_buffer(capacity: usize) -> (r: BytesMut)
    ensures
        buffer_of(r) == Seq::<u8>::empty(),
{
    BytesMut::with_capacity(capacity)
}

/// Relies on `BytesMut::extend_from_slice`: `data` is appended at the end.
#[verifier::external_body]
pub(crate) fn extend_buffer(b: &mut BytesMut, data: &[u8])
    ensures
        buffer_of(*final(b)) == buffer_of(*old(b)) + data@,
{
    b.extend_from_slice(data)
}

/// Relies on `Buf::advance for BytesMut`: the first `cnt` bytes are dropped.
/// It panics when `cnt` exceeds the length.
#[verifier::external_body]
pub(crate) fn advance_buffer(b: &mut BytesMut, cnt: usize)
    requires
        cnt <= buffer_of(*old(b)).len(),
    ensures
        buffer_of(*final(b)) == buffer_of(*old(b)).subrange(cnt as int, buffer_of(*old(b)).len() as int),
{
    b.advance(cnt)
}

/// Relies on `Deref for BytesMut`: the bytes that the buffer holds.
#[verifier::external_body]
pub(crate) fn buffer_slice(b: &BytesMut) -> (r: &[u8])
    ensures
        r@ == buffer_of(*b),
{
    b
}

} // verus!
