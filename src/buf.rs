//! The read buffer that the codecs drain: tokio-core's `EasyBuf`.
use tokio_core::io::EasyBuf;
use vstd::prelude::*;

verus! {

/// tokio-core's `EasyBuf`, a reference-counted byte buffer whose head can be
/// split off cheaply; its contents are seen through [`buf_bytes`].
#[verifier::external_type_specification]
#[verifier::external_body]
pub struct ExEasyBuf(EasyBuf);

/// The bytes that a read buffer holds, from its head to its tail.
pub uninterp spec fn buf_bytes(b: EasyBuf) -> Seq<u8>;

/// Relies on `EasyBuf::len`: the number of bytes between head and tail.
pub assume_specification[ EasyBuf::len ](b: &EasyBuf) -> (r: usize)
    ensures
        r == buf_bytes(*b).len(),
;

/// Relies on `EasyBuf::as_slice`: a view of the bytes between head and tail.
pub assume_specification[ EasyBuf::as_slice ](b: &EasyBuf) -> (r: &[u8])
    ensures
        r@ == buf_bytes(*b),
;

/// Relies on `EasyBuf::drain_to`: the first `at` bytes move to the returned
/// buffer and the buffer now starts after them; it panics when `at` exceeds
/// the length.
pub assume_specification[ EasyBuf::drain_to ](b: &mut EasyBuf, at: usize) -> (r: EasyBuf)
    requires
        at <= buf_bytes(*old(b)).len(),
    ensures
        buf_bytes(r) == buf_bytes(*old(b)).take(at as int),
        buf_bytes(*final(b)) == buf_bytes(*old(b)).skip(at as int),
;

/// Copies the bytes of a read buffer into a vector.
pub fn buf_to_vec(b: &EasyBuf) -> (r: Vec<u8>)
    ensures
        r@ == buf_bytes(*b),
{
    vstd::slice::slice_to_vec(b.as_slice())
}

/// Removes the first `n` bytes of `buf` and returns them as a vector.
pub fn drain_vec(buf: &mut EasyBuf, n: usize) -> (r: Vec<u8>)
    requires
        n <= buf_bytes(*old(buf)).len(),
    ensures
        r@ == buf_bytes(*old(buf)).take(n as int),
        buf_bytes(*final(buf)) == buf_bytes(*old(buf)).skip(n as int),
{
    let head = buf.drain_to(n);
    buf_to_vec(&head)
}

} // verus!
