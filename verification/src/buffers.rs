//! The byte buffers of the `bytes` crate, as sequences of bytes.
use bytes::{Buf, BufMut, Bytes, BytesMut, TryGetError};
use vstd::prelude::*;

use crate::endian;

verus! {

/// `bytes::Bytes`, a cheaply cloned, immutable run of bytes.
#[verifier::external_type_specification]
#[verifier::external_body]
pub struct ExBytes(Bytes);

/// `bytes::BytesMut`, a growable run of bytes.
#[verifier::external_type_specification]
#[verifier::external_body]
pub struct ExBytesMut(BytesMut);

/// `bytes::TryGetError`, which a read past the end gives.
#[verifier::external_type_specification]
#[verifier::external_body]
pub struct ExTryGetError(TryGetError);

/// What a `Bytes` holds.
pub uninterp spec fn bytes_of(b: Bytes) -> Seq<u8>;

/// What a `BytesMut` holds.
pub uninterp spec fn buf_of(b: BytesMut) -> Seq<u8>;

/// `Bytes::clone` gives another handle on the same bytes.
pub assume_specification[ <Bytes as Clone>::clone ](b: &Bytes) -> (r: Bytes)
    ensures
        bytes_of(r) == bytes_of(*b),
;

/// `Bytes::len` counts the bytes.
pub assume_specification[ Bytes::len ](b: &Bytes) -> (r: usize)
    ensures
        r == bytes_of(*b).len(),
;

/// `Bytes::copy_from_slice` holds a copy of the slice.
pub assume_specification[ Bytes::copy_from_slice ](data: &[u8]) -> (r: Bytes)
    ensures
        bytes_of(r) == data@,
;

/// `Bytes::split_to` hands out the first `at` bytes and keeps the rest; it panics past the end.
pub assume_specification[ Bytes::split_to ](b: &mut Bytes, at: usize) -> (r:
    Bytes)
    requires
        at <= bytes_of(*old(b)).len(),
    ensures
        bytes_of(r) == bytes_of(*old(b)).take(at as int),
        bytes_of(*final(b)) == bytes_of(*old(b)).skip(at as int),
;

/// `BytesMut::new` is empty.
pub assume_specification[ BytesMut::new ]() -> (r: BytesMut)
    ensures
        buf_of(r) == Seq::<u8>::empty(),
;

/// `BytesMut::len` counts the bytes.
pub assume_specification[ BytesMut::len ](b: &BytesMut) -> (r: usize)
    ensures
        r == buf_of(*b).len(),
;

/// `BytesMut::extend_from_slice` appends the slice.
pub assume_specification[ BytesMut::extend_from_slice ](b: &mut BytesMut, data: &[u8])
    ensures
        buf_of(*final(b)) == buf_of(*old(b)) + data@,
;

/// `BytesMut::split_to` hands out the first `at` bytes and keeps the rest; it panics past the end.
pub assume_specification[ BytesMut::split_to ](b: &mut BytesMut, at: usize) -> (r:
    BytesMut)
    requires
        at <= buf_of(*old(b)).len(),
    ensures
        buf_of(r) == buf_of(*old(b)).take(at as int),
        buf_of(*final(b)) == buf_of(*old(b)).skip(at as int),
;

/// `BytesMut::freeze` keeps the bytes.
pub assume_specification[ BytesMut::freeze ](b: BytesMut) -> (r: Bytes)
    ensures
        bytes_of(r) == buf_of(b),
;

/// `<Bytes as AsRef<[u8]>>::as_ref` shows the bytes as a slice.
#[verifier::external_body]
pub(crate) fn as_slice(b: &Bytes) -> (r: &[u8])
    ensures
        r@ == bytes_of(*b),
{
    b.as_ref()
}

/// `BufMut::put_u64` appends the number in big-endian order.
#[verifier::external_body]
pub(crate) fn put_u64(b: &mut BytesMut, n: u64)
    ensures
        buf_of(*final(b)) == buf_of(*old(b)) + endian::be_bytes(n as nat, 8),
{
    b.put_u64(n)
}

/// `Buf::try_get_u64` takes eight bytes off the front and reads them in big-endian order; with
/// fewer than eight it fails and takes nothing.
#[verifier::external_body]
pub(crate) fn try_get_u64(b: &mut Bytes) -> (r: Result<u64, TryGetError>)
    ensures
        r is Ok <==> bytes_of(*old(b)).len() >= 8,
        r matches Ok(n) ==> n as nat == endian::be_value(bytes_of(*old(b)).take(8)) && bytes_of(
            *final(b),
        ) == bytes_of(*old(b)).skip(8),
        r is Err ==> bytes_of(*final(b)) == bytes_of(*old(b)),
{
    b.try_get_u64()
}

} // verus!
