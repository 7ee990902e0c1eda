//! The shared byte buffers that packets and application data are held in.
//!
//! [`Bytes`] is a cheaply clonable, sliceable piece of memory, and [`BytesMut`] is the
//! growing buffer that one is made of. Both are opaque to the verifier: what they hold
//! is spoken of as [`held`] and [`gathered`], and the functions here, one for each
//! operation that the library makes use of, say what the operation does in these terms.

use vstd::prelude::*;

use bytes::{BufMut, Bytes, BytesMut};

use crate::wire::be_bytes;

verus! {

/// The type of shared, immutable byte buffers.
#[verifier::external_type_specification]
#[verifier::external_body]
pub struct ExBytes(bytes::Bytes);

/// The type of growing byte buffers.
#[verifier::external_type_specification]
#[verifier::external_body]
pub struct ExBytesMut(bytes::BytesMut);

/// The bytes that a shared buffer holds.
pub uninterp spec fn held(b: Bytes) -> Seq<u8>;

/// The bytes that have been gathered in a growing buffer.
pub uninterp spec fn gathered(b: BytesMut) -> Seq<u8>;

/// The bytes of each of a list of shared buffers.
pub open spec fn held_each(list: Seq<Bytes>) -> Seq<Seq<u8>> {
    Seq::new(list.len(), |i: int| held(list[i]))
}

/// Calls `Bytes::from(Vec<u8>)`: the buffer holds the bytes of the vector.
#[verifier::external_body]
pub(crate) fn bytes_from_vec(v: Vec<u8>) -> (b: Bytes)
    ensures
        held(b) == v@,
{
    Bytes::from(v)
}

/// Calls `Bytes::copy_from_slice`: the buffer holds a copy of the slice.
#[verifier::external_body]
pub(crate) fn bytes_copied(s: &[u8]) -> (b: Bytes)
    ensures
        held(b) == s@,
{
    Bytes::copy_from_slice(s)
}

/// Calls `Bytes::slice` with the range from `start` up to `end`: the new buffer holds
/// the bytes in that range, which must lie within the buffer.
#[verifier::external_body]
pub(crate) fn bytes_slice(b: &Bytes, start: usize, end: usize) -> (part: Bytes)
    requires
        start <= end <= held(*b).len(),
    ensures
        held(part) == held(*b).subrange(start as int, end as int),
{
    b.slice(start..end)
}

/// Calls `Bytes::clone`: both buffers hold the same bytes.
#[verifier::external_body]
pub(crate) fn bytes_clone(b: &Bytes) -> (copy: Bytes)
    ensures
        held(copy) == held(*b),
{
    b.clone()
}

/// Calls `Bytes::as_ref`: the slice has the bytes that the buffer holds.
#[verifier::external_body]
pub(crate) fn bytes_ref(b: &Bytes) -> (s: &[u8])
    ensures
        s@ == held(*b),
{
    b.as_ref()
}

/// Calls `BytesMut::with_capacity`: the buffer is empty. The capacity must be one that
/// can be allocated, at most `isize::MAX`.
#[verifier::external_body]
pub(crate) fn buffer_with_capacity(capacity: usize) -> (b: BytesMut)
    requires
        capacity <= isize::MAX,
    ensures
        gathered(b) == Seq::<u8>::empty(),
{
    BytesMut::with_capacity(capacity)
}

/// Calls `BytesMut::put_u8`, which adds one byte. The buffer cannot outgrow `isize::MAX`.
#[verifier::external_body]
pub(crate) fn buffer_put_u8(b: &mut BytesMut, value: u8)
    requires
        gathered(*old(b)).len() + 1 <= isize::MAX,
    ensures
        gathered(*final(b)) == gathered(*old(b)).push(value),
{
    b.put_u8(value)
}

/// Calls `BytesMut::put_u16`, which adds two bytes, the most significant one first. The
/// buffer cannot outgrow `isize::MAX`.
#[verifier::external_body]
pub(crate) fn buffer_put_u16(b: &mut BytesMut, value: u16)
    requires
        gathered(*old(b)).len() + 2 <= isize::MAX,
    ensures
        gathered(*final(b)) == gathered(*old(b)) + be_bytes(value as nat, 2),
{
    b.put_u16(value)
}

/// Calls `BytesMut::put_u32`, which adds four bytes, the most significant one first. The
/// buffer cannot outgrow `isize::MAX`.
#[verifier::external_body]
pub(crate) fn buffer_put_u32(b: &mut BytesMut, value: u32)
    requires
        gathered(*old(b)).len() + 4 <= isize::MAX,
    ensures
        gathered(*final(b)) == gathered(*old(b)) + be_bytes(value as nat, 4),
{
    b.put_u32(value)
}

/// Calls `BytesMut::extend_from_slice`, which adds the bytes of the slice. The buffer
/// cannot outgrow `isize::MAX`.
#[verifier::external_body]
pub(crate) fn buffer_extend(b: &mut BytesMut, s: &[u8])
    requires
        gathered(*old(b)).len() + s@.len() <= isize::MAX,
    ensures
        gathered(*final(b)) == gathered(*old(b)) + s@,
{
    b.extend_from_slice(s)
}

/// Indexes a `BytesMut` mutably with the range from `start` on: what is written through
/// the slice is written to that part of the buffer, and the rest stays as it is.
#[verifier::external_body]
pub(crate) fn buffer_tail(b: &mut BytesMut, start: usize) -> (tail: &mut [u8])
    requires
        start <= gathered(*old(b)).len(),
    ensures
        tail@ == gathered(*old(b)).skip(start as int),
        gathered(*final(b)) == gathered(*old(b)).take(start as int) + final(tail)@,
{
    &mut b[start..]
}

/// Calls `BytesMut::freeze`: the shared buffer holds what has been gathered.
#[verifier::external_body]
pub(crate) fn buffer_freeze(b: BytesMut) -> (frozen: Bytes)
    ensures
        held(frozen) == gathered(b),
{
    b.freeze()
}

} // verus!
