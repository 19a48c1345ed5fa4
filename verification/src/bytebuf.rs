//! Boundary to the `bytes` crate: the growable `BytesMut` buffer that lines
//! are assembled and re-serialized into, and the frozen `Bytes` buffer that
//! is handed onward. Both are opaque here; their contents are named by two
//! spec functions, and each operation the library uses carries the contract
//! that the crate documents for it.

use vstd::prelude::*;
use bytes::BufMut;

verus! {

#[verifier::external_type_specification]
#[verifier::external_body]
pub struct ExBytesMut(bytes::BytesMut);

#[verifier::external_type_specification]
#[verifier::external_body]
pub struct ExBytes(bytes::Bytes);

/// The byte contents of a growable buffer, in order.
pub uninterp spec fn bytes_mut_data(b: bytes::BytesMut) -> Seq<u8>;

/// The byte contents of a frozen buffer, in order.
pub uninterp spec fn bytes_data(b: bytes::Bytes) -> Seq<u8>;

/// Relies on bytes::BytesMut::with_capacity: the new buffer has length 0.
#[verifier::external_body]
pub(crate) fn buf_with_capacity(cap: usize) -> (b: bytes::BytesMut)
    ensures
        bytes_mut_data(b) == Seq::<u8>::empty(),
{
    bytes::BytesMut::with_capacity(cap)
}

/// Relies on bytes::BytesMut::extend_from_slice: appends the slice's bytes
/// to the end of the buffer.
#[verifier::external_body]
pub(crate) fn buf_extend(b: &mut bytes::BytesMut, s: &[u8])
    ensures
        bytes_mut_data(*final(b)) == bytes_mut_data(*old(b)) + s@,
{
    b.extend_from_slice(s)
}

/// Relies on bytes::buf::BufMut::put_u8: appends one byte.
#[verifier::external_body]
pub(crate) fn buf_put_u8(b: &mut bytes::BytesMut, x: u8)
    ensures
        bytes_mut_data(*final(b)) == bytes_mut_data(*old(b)).push(x),
{
    b.put_u8(x)
}

/// Relies on bytes::BytesMut::freeze: the frozen buffer holds exactly the
/// bytes the growable one held.
#[verifier::external_body]
pub(crate) fn buf_freeze(b: bytes::BytesMut) -> (r: bytes::Bytes)
    ensures
        bytes_data(r) == bytes_mut_data(b),
{
    b.freeze()
}

/// Relies on <bytes::Bytes as AsRef<[u8]>>::as_ref: a view of the very
/// contents.
#[verifier::external_body]
pub(crate) fn bytes_as_slice(b: &bytes::Bytes) -> (r: &[u8])
    ensures
        r@ == bytes_data(*b),
{
    b.as_ref()
}

} // verus!
