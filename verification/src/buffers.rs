//! Trusted declarations for the byte containers of the `bytes` crate.
//!
//! `Bytes` carries bulk payloads and `BytesMut` holds the bytes a connection
//! has read but not yet consumed. Verus sees neither inside; what each holds
//! is named by `bytes_content` and `buffer_content`, and every operation the
//! library performs on them goes through one of the wrappers below.

use vstd::prelude::*;
use bytes::{Buf, Bytes, BytesMut};

verus! {

#[verifier::external_type_specification]
#[verifier::external_body]
pub struct ExBytes(Bytes);

#[verifier::external_type_specification]
#[verifier::external_body]
pub struct ExBytesMut(BytesMut);

/// The bytes that a `Bytes` value holds.
pub uninterp spec fn bytes_content(b: Bytes) -> Seq<u8>;

/// The bytes that a `BytesMut` buffer holds (its length, not its capacity).
pub uninterp spec fn buffer_content(b: BytesMut) -> Seq<u8>;

/// `Bytes::copy_from_slice`: a new `Bytes` holding a copy of `data`.
#[verifier::external_body]
pub(crate) fn bytes_copy_from_slice(data: &[u8]) -> (r: Bytes)
    ensures
        bytes_content(r) == data@,
{
    Bytes::copy_from_slice(data)
}

/// `<Bytes as AsRef<[u8]>>::as_ref`: the slice of the bytes held.
#[verifier::external_body]
pub(crate) fn bytes_as_slice(b: &Bytes) -> (r: &[u8])
    ensures
        r@ == bytes_content(*b),
{
    b.as_ref()
}

/// `<Bytes as Clone>::clone`: another handle on the same bytes.
#[verifier::external_body]
pub(crate) fn bytes_clone(b: &Bytes) -> (r: Bytes)
    ensures
        bytes_content(r) == bytes_content(*b),
{
    b.clone()
}

/// `<Bytes as From<Vec<u8>>>::from`: takes over the vector's bytes.
#[verifier::external_body]
pub(crate) fn bytes_from_vec(v: Vec<u8>) -> (r: Bytes)
    ensures
        bytes_content(r) == v@,
{
    Bytes::from(v)
}

/// `BytesMut::with_capacity`: an empty buffer.
#[verifier::external_body]
pub(crate) fn buffer_with_capacity(capacity: usize) -> (r: BytesMut)
    ensures
        buffer_content(r) == Seq::<u8>::empty(),
{
    BytesMut::with_capacity(capacity)
}

/// `<BytesMut as Deref>::deref`: the slice of the bytes held.
#[verifier::external_body]
pub(crate) fn buffer_as_slice(b: &BytesMut) -> (r: &[u8])
    ensures
        r@ == buffer_content(*b),
{
    &b[..]
}

/// `<BytesMut as Buf>::advance`: drops the first `count` bytes.
/// The crate panics when `count` exceeds the length, which `requires` excludes.
#[verifier::external_body]
pub(crate) fn buffer_advance(b: &mut BytesMut, count: usize)
    requires
        count <= buffer_content(*old(b)).len(),
    ensures
        buffer_content(*final(b)) == buffer_content(*old(b)).skip(count as int),
{
    b.advance(count)
}

} // verus!
