//! Byte buffers of the `bytes` crate, and what the rest of the library knows of them.

use bytes::{Bytes, BytesMut};
use vstd::prelude::*;

verus! {

/// `bytes::Bytes`: a shared, immutable run of bytes that is cheap to clone.
#[verifier::external_type_specification]
#[verifier::external_body]
pub struct ExBytes(Bytes);

/// `bytes::BytesMut`: a growing buffer.
#[verifier::external_type_specification]
#[verifier::external_body]
pub struct ExBytesMut(BytesMut);

/// The bytes that a `Bytes` holds.
pub uninterp spec fn bytes_of(b: Bytes) -> Seq<u8>;

/// The bytes that a `BytesMut` holds.
pub uninterp spec fn buffered_bytes(b: BytesMut) -> Seq<u8>;

/// `Bytes::len`: the number of bytes held.
pub assume_specification[ Bytes::len ](b: &Bytes) -> (r: usize)
    ensures
        r == bytes_of(*b).len(),
;

/// `Clone` for `Bytes`: the clone holds the same bytes.
pub assume_specification[ <Bytes as Clone>::clone ](b: &Bytes) -> (r: Bytes)
    ensures
        bytes_of(r) == bytes_of(*b),
;

/// `From<Vec<u8>>` for `Bytes`: the bytes of the vector, in order.
#[verifier::external_body]
pub(crate) fn bytes_from_vec(v: Vec<u8>) -> (r: Bytes)
    ensures
        bytes_of(r) == v@,
{
    Bytes::from(v)
}

/// `AsRef<[u8]>` for `Bytes`: the bytes held, in order.
#[verifier::external_body]
pub(crate) fn bytes_as_slice(b: &Bytes) -> (r: &[u8])
    ensures
        r@ == bytes_of(*b),
{
    b.as_ref()
}

/// `BytesMut::with_capacity`: an empty buffer.
#[verifier::external_body]
pub(crate) fn buffer_with_capacity(capacity: usize) -> (r: BytesMut)
    requires
        capacity <= isize::MAX,
    ensures
        buffered_bytes(r) == Seq::<u8>::empty(),
{
    BytesMut::with_capacity(capacity)
}

/// `BytesMut::extend_from_slice`: appends the given bytes. The sum of two lengths in memory fits in
/// a `usize`; running out of memory is left out of account, as it is for a `Vec`.
#[verifier::external_body]
pub(crate) fn buffer_extend(buffer: &mut BytesMut, bytes: &[u8])
    ensures
        buffered_bytes(*final(buffer)) == buffered_bytes(*old(buffer)) + bytes@,
{
    buffer.extend_from_slice(bytes)
}

/// `BytesMut::len`: the number of bytes held.
#[verifier::external_body]
pub(crate) fn buffer_len(buffer: &BytesMut) -> (r: usize)
    ensures
        r == buffered_bytes(*buffer).len(),
{
    buffer.len()
}

/// `BytesMut::freeze`: the bytes held, made immutable.
#[verifier::external_body]
pub(crate) fn buffer_freeze(buffer: BytesMut) -> (r: Bytes)
    ensures
        bytes_of(r) == buffered_bytes(buffer),
{
    buffer.freeze()
}

} // verus!
