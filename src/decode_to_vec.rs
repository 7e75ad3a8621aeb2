//! Turns the shared-buffer frames of an inner protocol into owned vectors.
use crate::buf::{buf_bytes, buf_to_vec};
use core::marker::PhantomData;
use tokio_core::io::EasyBuf;
use vstd::prelude::*;

verus! {

/// A wrapper around a protocol whose requests are `EasyBuf`s that hands them
/// out as `Vec<u8>`s.
pub struct DecodeToVecProto<P> {
    inner: P,
}

impl<P> DecodeToVecProto<P> {
    pub fn new(inner: P) -> (r: Self)
        ensures
            r.spec_inner() == inner,
    {
        DecodeToVecProto { inner: inner }
    }

    pub closed spec fn spec_inner(&self) -> P {
        self.inner
    }

    /// The wrapped protocol.
    pub fn inner(&self) -> (r: &P)
        ensures
            *r == self.spec_inner(),
    {
        &self.inner
    }
}

/// The binding of a [`DecodeToVecProto`]: the future of the inner transport.
pub struct DecodeToVecBind<F, Kind> {
    fut: F,
    _kind: PhantomData<Kind>,
}

impl<F, Kind> DecodeToVecBind<F, Kind> {
    pub fn new(fut: F) -> (r: Self)
        ensures
            r.spec_fut() == fut,
    {
        DecodeToVecBind { fut: fut, _kind: PhantomData }
    }

    pub closed spec fn spec_fut(&self) -> F {
        self.fut
    }

    /// The inner future, to be polled.
    pub fn get_mut(&mut self) -> (r: &mut F)
        ensures
            *r == old(self).spec_fut(),
            final(self).spec_fut() == *final(r),
    {
        &mut self.fut
    }
}

/// The transport of [`DecodeToVecProto`].
pub struct DecodeToVecTransport<T, Kind> {
    inner: T,
    _kind: PhantomData<Kind>,
}

impl<T, Kind> DecodeToVecTransport<T, Kind> {
    pub fn new(inner: T) -> (r: Self)
        ensures
            r.spec_inner() == inner,
    {
        DecodeToVecTransport { inner: inner, _kind: PhantomData }
    }

    pub closed spec fn spec_inner(&self) -> T {
        self.inner
    }

    /// The inner transport, to be polled or sent to.
    pub fn get_mut(&mut self) -> (r: &mut T)
        ensures
            *r == old(self).spec_inner(),
            final(self).spec_inner() == *final(r),
    {
        &mut self.inner
    }

    /// A request of a pipelined transport, as an owned vector.
    pub fn to_vec(item: EasyBuf) -> (r: Vec<u8>)
        ensures
            r@ == buf_bytes(item),
    {
        buf_to_vec(&item)
    }

    /// A request of a multiplexed transport, as an owned vector under the
    /// same request id.
    pub fn to_vec_multiplexed(item: (u64, EasyBuf)) -> (r: (u64, Vec<u8>))
        ensures
            r.0 == item.0,
            r.1@ == buf_bytes(item.1),
    {
        let (id, b) = item;
        (id, buf_to_vec(&b))
    }
}

} // verus!
