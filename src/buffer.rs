//! The shared, immutable byte buffers of the `bytes` crate, as the rest of
//! the library sees them.

use vstd::prelude::*;
use bytes::{Bytes, BytesMut};

verus! {

#[verifier::external_type_specification]
#[verifier::external_body]
pub struct ExBytes(Bytes);

/// The bytes that a `Bytes` handle gives access to, in order.
pub uninterp spec fn bytes_content(b: Bytes) -> Seq<u8>;

/// Relies on `Bytes::new`: a handle to no bytes at all.
#[verifier::external_body]
pub(crate) fn empty_bytes() -> (r: Bytes)
    ensures
        bytes_content(r) == Seq::<u8>::empty(),
{
    Bytes::new()
}

/// Relies on `Bytes::from(Vec<u8>)`: the handle owns exactly the vector's bytes.
#[verifier::external_body]
pub(crate) fn bytes_from_vec(v: Vec<u8>) -> (r: Bytes)
    ensures
        bytes_content(r) == v@,
{
    Bytes::from(v)
}

/// Relies on `Bytes::slice`: a handle to bytes `lo..hi` of `b`, sharing its
/// memory. It panics unless `lo <= hi <= len`.
#[verifier::external_body]
pub(crate) fn bytes_slice(b: &Bytes, lo: usize, hi: usize) -> (r: Bytes)
    requires
        lo <= hi <= bytes_content(*b).len(),
    ensures
        bytes_content(r) == bytes_content(*b).subrange(lo as int, hi as int),
{
    b.slice(lo..hi)
}

/// Relies on `Bytes`'s `Deref` to `[u8]`: the slice holds the handle's bytes.
#[verifier::external_body]
pub(crate) fn bytes_as_slice(b: &Bytes) -> (r: &[u8])
    ensures
        r@ == bytes_content(*b),
{
    b
}

#[verifier::external_type_specification]
#[verifier::external_body]
pub struct ExBytesMut(BytesMut);

/// The bytes that a `BytesMut` buffer holds, in order.
pub uninterp spec fn bytes_mut_content(b: BytesMut) -> Seq<u8>;

/// Relies on `BytesMut::new`: an empty buffer.
#[verifier::external_body]
pub(crate) fn bytes_mut_new() -> (r: BytesMut)
    ensures
        bytes_mut_content(r) == Seq::<u8>::empty(),
{
    BytesMut::new()
}

/// Relies on `BytesMut::clear`: the buffer is left empty.
#[verifier::external_body]
pub(crate) fn bytes_mut_clear(b: &mut BytesMut)
    ensures
        bytes_mut_content(*final(b)) == Seq::<u8>::empty(),
{
    b.clear()
}

/// Relies on `BytesMut::truncate`: keeps the first `len` bytes, and changes
/// nothing when the buffer is no longer than that.
#[verifier::external_body]
pub(crate) fn bytes_mut_truncate(b: &mut BytesMut, len: usize)
    ensures
        len <= bytes_mut_content(*old(b)).len() ==> bytes_mut_content(*final(b))
            == bytes_mut_content(*old(b)).take(len as int),
        len > bytes_mut_content(*old(b)).len() ==> bytes_mut_content(*final(b))
            == bytes_mut_content(*old(b)),
{
    b.truncate(len)
}

/// Relies on `BytesMut::extend_from_slice`: appends `src[lo..hi]`.
#[verifier::external_body]
pub(crate) fn bytes_mut_extend(b: &mut BytesMut, src: &[u8], lo: usize, hi: usize)
    requires
        lo <= hi <= src@.len(),
    ensures
        bytes_mut_content(*final(b)) == bytes_mut_content(*old(b)) + src@.subrange(
            lo as int,
            hi as int,
        ),
{
    b.extend_from_slice(&src[lo..hi])
}

/// Relies on `BytesMut`'s `Deref` to `[u8]`: the slice holds the buffer's bytes.
#[verifier::external_body]
pub(crate) fn bytes_mut_as_slice(b: &BytesMut) -> (r: &[u8])
    ensures
        r@ == bytes_mut_content(*b),
{
    b
}

} // verus!
