//! Tags every decoded message with the remote address of its connection.
use crate::codec::{
    behaves_like, chunk_result_ok, decodes_cleanly, encode_all, flatten, idles_on_empty,
    is_chunked_run, is_decode_run, lemma_chunked, lemma_stream, resumes, waits_for, Codec,
    DecodeError, EncodeError,
};
use tokio_core::io::EasyBuf;
use vstd::prelude::*;

verus! {

/// A wrapper around another protocol that provides the remote address of the
/// connection with every request.
#[derive(Debug, Clone)]
pub struct RemoteAddrProto<Proto> {
    inner: Proto,
}

impl<Proto> RemoteAddrProto<Proto> {
    /// Creates a new `RemoteAddrProto` based on a protocol `inner`.
    pub fn new(inner: Proto) -> (r: Self)
        ensures
            r.spec_inner() == inner,
    {
        RemoteAddrProto { inner: inner }
    }

    pub closed spec fn spec_inner(&self) -> Proto {
        self.inner
    }

    /// The wrapped protocol.
    pub fn inner(&self) -> (r: &Proto)
        ensures
            *r == self.spec_inner(),
    {
        &self.inner
    }
}

/// The transport of [`RemoteAddrProto`]: the inner transport and the peer
/// address, captured once when the connection was bound.
pub struct RemoteAddrTransport<Transport, Addr> {
    inner: Transport,
    peer_addr: Addr,
}

impl<Transport, Addr: Copy> RemoteAddrTransport<Transport, Addr> {
    /// Creates a new `RemoteAddrTransport` based on a transport `inner`.
    pub fn new(inner: Transport, peer_addr: Addr) -> (r: Self)
        ensures
            r.spec_inner() == inner,
            r.spec_peer_addr() == peer_addr,
    {
        RemoteAddrTransport { inner: inner, peer_addr: peer_addr }
    }

    pub closed spec fn spec_inner(&self) -> Transport {
        self.inner
    }

    pub closed spec fn spec_peer_addr(&self) -> Addr {
        self.peer_addr
    }

    /// The address of the peer.
    pub fn peer_addr(&self) -> (r: Addr)
        ensures
            r == self.spec_peer_addr(),
    {
        self.peer_addr
    }

    /// The inner transport, to be polled; the peer address stays as it is.
    pub fn get_mut(&mut self) -> (r: &mut Transport)
        ensures
            *r == old(self).spec_inner(),
            final(self).spec_inner() == *final(r),
            final(self).spec_peer_addr() == old(self).spec_peer_addr(),
    {
        &mut self.inner
    }

    /// A message of a pipelined transport, paired with the peer address.
    pub fn tag<T>(&self, item: T) -> (r: (Addr, T))
        ensures
            r == (self.spec_peer_addr(), item),
    {
        (self.peer_addr, item)
    }

    /// A message of a multiplexed transport: the peer address goes beside the
    /// message, under the same request id.
    pub fn tag_multiplexed<T>(&self, item: (u64, T)) -> (r: (u64, (Addr, T)))
        ensures
            r == (item.0, (self.spec_peer_addr(), item.1)),
    {
        let (id, msg) = item;
        (id, (self.peer_addr, msg))
    }
}

/// What polling the inner transport's future gave.
pub enum InnerPoll<T, E> {
    NotReady,
    Ready(T),
    Failed(E),
}

/// What polling the binding gives.
pub enum BindPoll<T, A, E> {
    NotReady,
    Ready(RemoteAddrTransport<T, A>),
    Failed(E),
}

/// The binding of a [`RemoteAddrProto`]: pending while the inner transport is
/// being built, with the peer address (or the error of looking it up).
pub struct NewRemoteAddrTransport<F, A, E> {
    payload: Option<(F, Result<A, E>)>,
}

impl<F, A: Copy, E> NewRemoteAddrTransport<F, A, E> {
    pub fn new(transport: F, peer_addr: Result<A, E>) -> (r: Self)
        ensures
            r.payload() == Some((transport, peer_addr)),
    {
        NewRemoteAddrTransport { payload: Some((transport, peer_addr)) }
    }

    /// The inner future and the peer address, while the binding is pending.
    pub closed spec fn payload(&self) -> Option<(F, Result<A, E>)> {
        self.payload
    }

    /// Whether the binding is still pending; polling it once it is done is a
    /// programming error.
    pub fn is_pending(&self) -> (r: bool)
        ensures
            r == self.payload() is Some,
    {
        self.payload.is_some()
    }

    /// Takes out the inner future and the peer address, to poll the future.
    pub fn take(&mut self) -> (r: (F, Result<A, E>))
        requires
            old(self).payload() is Some,
        ensures
            Some(r) == old(self).payload(),
            final(self).payload() is None,
    {
        self.payload.take().unwrap()
    }

    /// Decides what one poll gives, from what polling the inner future gave:
    /// while the inner transport is not ready the binding stays pending with
    /// the same future and address; once it is, the binding yields the
    /// transport tagged with the peer address, or the error of looking the
    /// address up; an error of the inner future is passed on.
    pub fn step<T>(&mut self, transport: F, peer_addr: Result<A, E>, inner: InnerPoll<T, E>) -> (r:
        BindPoll<T, A, E>)
        requires
            old(self).payload() is None,
        ensures
            match inner {
                InnerPoll::NotReady => r is NotReady && final(self).payload() == Some(
                    (transport, peer_addr),
                ),
                InnerPoll::Ready(t) => final(self).payload() is None && match peer_addr {
                    Ok(a) => r matches BindPoll::Ready(tr) && tr.spec_inner() == t
                        && tr.spec_peer_addr() == a,
                    Err(e) => r == BindPoll::<T, A, E>::Failed(e),
                },
                InnerPoll::Failed(e) => final(self).payload() is None && r == BindPoll::<
                    T,
                    A,
                    E,
                >::Failed(e),
            },
    {
        match inner {
            InnerPoll::NotReady => {
                self.payload = Some((transport, peer_addr));
                BindPoll::NotReady
            },
            InnerPoll::Ready(t) => match peer_addr {
                Ok(a) => BindPoll::Ready(RemoteAddrTransport::new(t, a)),
                Err(e) => BindPoll::Failed(e),
            },
            InnerPoll::Failed(e) => BindPoll::Failed(e),
        }
    }
}

/// A codec that pairs every frame of a pipelined inner codec with the peer
/// address; frames to encode pass through untouched.
pub struct RemoteAddrCodec<C, A> {
    inner: C,
    peer_addr: A,
}

impl<C: Codec, A: Copy> RemoteAddrCodec<C, A> {
    pub fn new(inner: C, peer_addr: A) -> (r: Self)
        ensures
            r.spec_inner() == inner,
            r.spec_peer_addr() == peer_addr,
    {
        RemoteAddrCodec { inner: inner, peer_addr: peer_addr }
    }

    pub closed spec fn spec_inner(&self) -> C {
        self.inner
    }

    pub closed spec fn spec_peer_addr(&self) -> A {
        self.peer_addr
    }
}

/// What the inner codec returned, given what the tagging codec returned.
pub open spec fn untagged<A, I>(r: Result<Option<(A, I)>, DecodeError>) -> Result<
    Option<I>,
    DecodeError,
> {
    match r {
        Ok(Some((_, m))) => Ok(Some(m)),
        Ok(None) => Ok(None),
        Err(e) => Err(e),
    }
}

impl<C: Codec, A: Copy> Codec for RemoteAddrCodec<C, A> {
    type In = (A, C::In);

    type Out = C::Out;

    open spec fn well_formed(&self) -> bool {
        self.spec_inner().well_formed()
    }

    /// Exactly the inner codec's step, with each frame paired with the peer
    /// address, which never changes.
    open spec fn decode_step(
        self,
        buf: Seq<u8>,
        next: Self,
        rest: Seq<u8>,
        r: Result<Option<(A, C::In)>, DecodeError>,
    ) -> bool {
        &&& self.spec_inner().decode_step(buf, next.spec_inner(), rest, untagged(r))
        &&& next.spec_peer_addr() == self.spec_peer_addr()
        &&& r matches Ok(Some((a, _))) ==> a == self.spec_peer_addr()
    }

    open spec fn decodes_to(&self, v: (A, C::In), item: C::Out) -> bool {
        v.0 == self.spec_peer_addr() && self.spec_inner().decodes_to(v.1, item)
    }

    open spec fn encodable(&self, item: C::Out) -> bool {
        self.spec_inner().encodable(item)
    }

    open spec fn encoding(&self, item: C::Out) -> Seq<u8> {
        self.spec_inner().encoding(item)
    }

    fn decode(&mut self, buf: &mut EasyBuf) -> (r: Result<Option<(A, C::In)>, DecodeError>) {
        match self.inner.decode(buf) {
            Ok(Some(m)) => Ok(Some((self.peer_addr, m))),
            Ok(None) => Ok(None),
            Err(e) => Err(e),
        }
    }

    fn encode(&mut self, item: C::Out, buf: &mut Vec<u8>) -> (r: Result<(), EncodeError>) {
        self.inner.encode(item, buf)
    }
}

/// A message that decodes cleanly through the inner codec decodes cleanly
/// through the tagging codec too, paired with the peer address.
pub proof fn lemma_remote_addr_round_trip<C: Codec, A: Copy>(c: RemoteAddrCodec<C, A>, x: C::Out)
    requires
        decodes_cleanly(c.spec_inner(), x),
    ensures
        decodes_cleanly(c, x),
{
    let inner = c.spec_inner();
    assert forall|t: Seq<u8>, next: RemoteAddrCodec<C, A>, rest: Seq<u8>, r: Result<Option<(A, C::In)>, DecodeError>|
        #[trigger] c.decode_step(c.encoding(x) + t, next, rest, r) implies {
            &&& next == c
            &&& rest == t
            &&& r matches Ok(Some(v)) && c.decodes_to(v, x)
        } by {
        assert(inner.decode_step(inner.encoding(x) + t, next.spec_inner(), rest, untagged(r)));
    }
}

/// The tagging codec gives nothing on an empty buffer when the inner codec
/// does.
pub proof fn lemma_remote_addr_idles<C: Codec, A: Copy>(c: RemoteAddrCodec<C, A>)
    requires
        idles_on_empty(c.spec_inner()),
    ensures
        idles_on_empty(c),
{
    let inner = c.spec_inner();
    assert forall|next: RemoteAddrCodec<C, A>, rest: Seq<u8>, r: Result<Option<(A, C::In)>, DecodeError>|
        #[trigger] c.decode_step(seq![], next, rest, r) implies r == Ok::<
            Option<(A, C::In)>,
            DecodeError,
        >(None) && rest == Seq::<u8>::empty() && next == c by {
        assert(inner.decode_step(seq![], next.spec_inner(), rest, untagged(r)));
    }
}

/// Messages that decode cleanly through the inner codec, encoded in order
/// into one buffer, decode back to the same messages, in order and each with
/// the connection's peer address; then decoding gives nothing and the buffer
/// is empty, when the inner codec gives nothing on an empty buffer.
pub proof fn lemma_remote_addr_stream<C: Codec, A: Copy>(
    c: RemoteAddrCodec<C, A>,
    items: Seq<C::Out>,
    states: Seq<RemoteAddrCodec<C, A>>,
    bufs: Seq<Seq<u8>>,
    results: Seq<Result<Option<(A, C::In)>, DecodeError>>,
)
    requires
        forall|j: int| 0 <= j < items.len() ==> decodes_cleanly(c.spec_inner(), #[trigger] items[j]),
        idles_on_empty(c.spec_inner()),
        is_decode_run(states, bufs, results),
        results.len() == items.len() + 1,
        states[0] == c,
        bufs[0] == encode_all(c, items),
    ensures
        forall|j: int|
            0 <= j < items.len() ==> (#[trigger] results[j] matches Ok(Some(v)) && v.0
                == c.spec_peer_addr() && c.spec_inner().decodes_to(v.1, items[j])),
        results[items.len() as int] == Ok::<Option<(A, C::In)>, DecodeError>(None),
        bufs[items.len() as int + 1] == Seq::<u8>::empty(),
{
    assert forall|j: int| 0 <= j < items.len() implies decodes_cleanly(c, #[trigger] items[j]) by {
        lemma_remote_addr_round_trip(c, items[j]);
    }
    lemma_remote_addr_idles(c);
    lemma_stream(c, items, states, bufs, results);
}

/// The tagging codec gives nothing on proper prefixes of a message when the
/// inner codec does.
pub proof fn lemma_remote_addr_waits<C: Codec, A: Copy>(c: RemoteAddrCodec<C, A>, x: C::Out)
    requires
        waits_for(c.spec_inner(), x),
    ensures
        waits_for(c, x),
{
    let inner = c.spec_inner();
    assert forall|k: int, next: RemoteAddrCodec<C, A>, rest: Seq<u8>, r: Result<Option<(A, C::In)>, DecodeError>|
        0 <= k < c.encoding(x).len() && #[trigger] c.decode_step(c.encoding(x).take(k), next, rest, r)
        implies r == Ok::<Option<(A, C::In)>, DecodeError>(None) by {
        assert(inner.decode_step(inner.encoding(x).take(k), next.spec_inner(), rest, untagged(r)));
    }
}

/// A call that gives nothing consumes nothing that later bytes would notice,
/// when the same holds of the inner codec.
pub proof fn lemma_remote_addr_resumes<C: Codec, A: Copy>(c: RemoteAddrCodec<C, A>)
    requires
        resumes(c.spec_inner()),
    ensures
        resumes(c),
{
    let inner = c.spec_inner();
    assert forall|buf: Seq<u8>, next: RemoteAddrCodec<C, A>, rest: Seq<u8>|
        #[trigger] c.decode_step(buf, next, rest, Ok(None)) implies behaves_like(
            next,
            rest,
            c,
            buf,
        ) by {
        assert(inner.decode_step(buf, next.spec_inner(), rest, Ok(None)));
        assert(behaves_like(next.spec_inner(), rest, inner, buf));
        assert forall|more: Seq<u8>, n: RemoteAddrCodec<C, A>, r2: Seq<u8>, res: Result<Option<(A, C::In)>, DecodeError>|
            #[trigger] next.decode_step(rest + more, n, r2, res) implies (res is Ok
            ==> c.decode_step(buf + more, n, r2, res)) && (res is Err ==> exists|
            n2: RemoteAddrCodec<C, A>,
            rest2: Seq<u8>,
        | c.decode_step(buf + more, n2, rest2, res)) by {
            assert(next.spec_inner().decode_step(rest + more, n.spec_inner(), r2, untagged(res)));
            if res is Err {
                let (ni, ri) = choose|ni: C, ri: Seq<u8>|
                    inner.decode_step(buf + more, ni, ri, untagged(res));
                let n2 = RemoteAddrCodec::<C, A> { inner: ni, peer_addr: c.peer_addr };
                assert(c.decode_step(buf + more, n2, ri, res));
            }
        }
    }
}

/// Messages whose bytes arrive in arbitrary chunks with a call of `decode`
/// after each come back in order, each with the peer address and as soon as
/// all of its bytes have arrived, when the inner codec decodes each message
/// cleanly, gives nothing on its proper prefixes and on an empty buffer, and
/// consumes nothing that later bytes would notice.
pub proof fn lemma_remote_addr_chunked<C: Codec, A: Copy>(
    c: RemoteAddrCodec<C, A>,
    items: Seq<C::Out>,
    states: Seq<RemoteAddrCodec<C, A>>,
    bufs: Seq<Seq<u8>>,
    chunks: Seq<Seq<u8>>,
    results: Seq<Result<Option<(A, C::In)>, DecodeError>>,
)
    requires
        forall|j: int|
            0 <= j < items.len() ==> decodes_cleanly(c.spec_inner(), #[trigger] items[j])
                && waits_for(c.spec_inner(), items[j]),
        idles_on_empty(c.spec_inner()),
        resumes(c.spec_inner()),
        is_chunked_run(states, bufs, chunks, results),
        states[0] == c,
        encode_all(c, items).len() >= flatten(chunks).len(),
        flatten(chunks) == encode_all(c, items).take(flatten(chunks).len() as int),
    ensures
        forall|j: int|
            0 <= j < results.len() ==> #[trigger] chunk_result_ok(c, items, chunks, results, j),
{
    assert forall|j: int| 0 <= j < items.len() implies decodes_cleanly(c, #[trigger] items[j])
        && waits_for(c, items[j]) by {
        lemma_remote_addr_round_trip(c, items[j]);
        lemma_remote_addr_waits(c, items[j]);
    }
    lemma_remote_addr_idles(c);
    lemma_remote_addr_resumes(c);
    lemma_chunked(c, items, states, bufs, chunks, results);
}

} // verus!
