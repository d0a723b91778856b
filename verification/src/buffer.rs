//! The accumulation buffer of a connection: a `bytes::BytesMut`, seen as the
//! sequence of the bytes that it holds.

use vstd::prelude::*;

verus! {

/// `bytes::BytesMut`, taken as it is: nothing of its inside is seen here.
#[verifier::external_type_specification]
#[verifier::external_body]
pub struct ExBytesMut(bytes::BytesMut);

/// The bytes that a buffer holds, first to last.
pub uninterp spec fn buffer_bytes(buf: bytes::BytesMut) -> Seq<u8>;

/// `BytesMut::with_capacity`: a buffer that holds no bytes yet, with room
/// for `capacity` of them.
#[verifier::external_body]
pub(crate) fn buffer_with_capacity(capacity: usize) -> (buf: bytes::BytesMut)
    requires
        capacity <= isize::MAX,
    ensures
        buffer_bytes(buf) == Seq::<u8>::empty(),
{
    bytes::BytesMut::with_capacity(capacity)
}

/// `BytesMut::extend_from_slice`: the bytes of `data` are added behind those
/// that the buffer holds. It panics where the room that it asks for passes
/// what one allocation can have, so the call is kept to total lengths within
/// that. The room asked for also counts bytes that left at the front since
/// the buffer last moved; with them the limit is passed only from an
/// allocation of about that size, which no machine grants.
#[verifier::external_body]
pub(crate) fn buffer_extend(buf: &mut bytes::BytesMut, data: &[u8])
    requires
        buffer_bytes(*old(buf)).len() + data@.len() <= isize::MAX,
    ensures
        buffer_bytes(*final(buf)) == buffer_bytes(*old(buf)) + data@,
{
    buf.extend_from_slice(data)
}

/// `BytesMut`'s `as_ref`: the bytes that the buffer holds, as a slice.
#[verifier::external_body]
pub(crate) fn buffer_as_slice(buf: &bytes::BytesMut) -> (bytes: &[u8])
    ensures
        bytes@ == buffer_bytes(*buf),
{
    buf.as_ref()
}

/// `Buf::advance` on a `BytesMut`: the first `count` bytes leave the buffer,
/// the others stay in order. It panics where `count` is more than the buffer
/// holds, so that is left out.
#[verifier::external_body]
pub(crate) fn buffer_advance(buf: &mut bytes::BytesMut, count: usize)
    requires
        count <= buffer_bytes(*old(buf)).len(),
    ensures
        buffer_bytes(*final(buf)) == buffer_bytes(*old(buf)).skip(count as int),
{
    bytes::Buf::advance(buf, count)
}

} // verus!
