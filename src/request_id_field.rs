//! Turns a pipelined codec into a multiplexed one by prefixing each frame of
//! the inner codec with an 8-byte request id.
use crate::buf::buf_bytes;
use crate::codec::{
    behaves_like, chunk_result_ok, decodes_cleanly, encode_all, flatten, idles_on_empty,
    is_chunked_run, is_decode_run, lemma_behaves_like_itself, lemma_chunked, lemma_stream, resumes,
    waits_for, Codec, DecodeError, EncodeError,
};
use crate::endian::{lemma_pow256_8, Endianness};
use core::marker::PhantomData;
use tokio_core::io::EasyBuf;
use vstd::prelude::*;

verus! {

/// The size of a request id on the wire.
pub const SIZE_OF_REQID: usize = 8;

/// A protocol that turns a pipelining codec into a multiplexing codec by
/// prepending a `u64` request id, in the byte order `B`, to every frame of the
/// inner codec.
#[derive(Debug)]
pub struct RequestIdFieldProto<B, C> {
    inner: C,
    _byteorder: PhantomData<B>,
}

impl<B, C: Codec> RequestIdFieldProto<B, C> {
    /// Creates a new `RequestIdFieldProto` based on codec `inner`.
    pub fn new(inner: C) -> (r: Self)
        ensures
            r.spec_inner() == inner,
    {
        RequestIdFieldProto { inner: inner, _byteorder: PhantomData }
    }

    pub closed spec fn spec_inner(&self) -> C {
        self.inner
    }

    /// The inner codec that each connection starts from.
    pub fn inner(&self) -> (r: &C)
        ensures
            *r == self.spec_inner(),
    {
        &self.inner
    }
}

/// The codec of [`RequestIdFieldProto`]. Between calls it may hold the request
/// id of a frame whose body the inner codec has not yet decoded.
#[derive(Debug)]
pub struct RequestIdFieldCodec<B, C> {
    inner: C,
    reqid: Option<u64>,
    _byteorder: PhantomData<B>,
}

impl<B: Endianness, C: Codec> RequestIdFieldCodec<B, C> {
    /// Creates a new `RequestIdFieldCodec` based on codec `inner`.
    pub fn new(inner: C) -> (r: Self)
        ensures
            r.spec_inner() == inner,
            r.pending_id() is None,
    {
        RequestIdFieldCodec { inner: inner, reqid: None, _byteorder: PhantomData }
    }

    pub closed spec fn spec_inner(&self) -> C {
        self.inner
    }

    /// The request id that has been read for a frame not yet complete.
    pub closed spec fn pending_id(&self) -> Option<u64> {
        self.reqid
    }
}

/// What the inner codec returned, given what the combinator returned.
pub open spec fn inner_result<I>(r: Result<Option<(u64, I)>, DecodeError>) -> Result<
    Option<I>,
    DecodeError,
> {
    match r {
        Ok(Some((_, m))) => Ok(Some(m)),
        Ok(None) => Ok(None),
        Err(e) => Err(e),
    }
}

impl<B: Endianness, C: Codec> Codec for RequestIdFieldCodec<B, C> {
    type In = (u64, C::In);

    type Out = (u64, C::Out);

    open spec fn well_formed(&self) -> bool {
        self.spec_inner().well_formed()
    }

    /// Without a pending id and with fewer than eight bytes, nothing happens.
    /// Otherwise the id is the pending one or the first eight bytes, which
    /// are drained; then the inner codec takes one step on what is left. Its
    /// frame comes back with the id; when it needs more bytes the id stays
    /// pending; its error comes back unchanged.
    open spec fn decode_step(
        self,
        buf: Seq<u8>,
        next: Self,
        rest: Seq<u8>,
        r: Result<Option<(u64, C::In)>, DecodeError>,
    ) -> bool {
        if self.pending_id() is None && buf.len() < SIZE_OF_REQID {
            next == self && rest == buf && r == Ok::<Option<(u64, C::In)>, DecodeError>(None)
        } else {
            let (id, body) = match self.pending_id() {
                Some(id) => (id as nat, buf),
                None => (B::value_of(buf.take(8)), buf.skip(8)),
            };
            &&& self.spec_inner().decode_step(body, next.spec_inner(), rest, inner_result(r))
            &&& r matches Ok(Some((i, _))) ==> i as nat == id
            &&& next.pending_id() == match r {
                Ok(None) => Some(id as u64),
                _ => None,
            }
            &&& id <= u64::MAX
        }
    }

    open spec fn decodes_to(&self, v: (u64, C::In), item: (u64, C::Out)) -> bool {
        v.0 == item.0 && self.spec_inner().decodes_to(v.1, item.1)
    }

    open spec fn encodable(&self, item: (u64, C::Out)) -> bool {
        self.spec_inner().encodable(item.1)
    }

    open spec fn encoding(&self, item: (u64, C::Out)) -> Seq<u8> {
        B::bytes_of(item.0 as nat, 8) + self.spec_inner().encoding(item.1)
    }

    fn decode(&mut self, buf: &mut EasyBuf) -> (r: Result<Option<(u64, C::In)>, DecodeError>) {
        let reqid = match self.reqid {
            Some(id) => id,
            None => {
                if buf.len() < SIZE_OF_REQID {
                    return Ok(None);
                }
                let head = buf.drain_to(SIZE_OF_REQID);
                assert(buf_bytes(head).take(8) =~= buf_bytes(head));
                B::read_uint(head.as_slice(), SIZE_OF_REQID)
            },
        };
        self.reqid = None;
        match self.inner.decode(buf) {
            Ok(Some(msg)) => Ok(Some((reqid, msg))),
            Ok(None) => {
                self.reqid = Some(reqid);
                Ok(None)
            },
            Err(e) => Err(e),
        }
    }

    fn encode(&mut self, item: (u64, C::Out), buf: &mut Vec<u8>) -> (r: Result<(), EncodeError>) {
        let (reqid, msg) = item;
        let mut body: Vec<u8> = Vec::new();
        match self.inner.encode(msg, &mut body) {
            Ok(()) => {
                proof {
                    lemma_pow256_8();
                }
                let mut head = B::write_uint(reqid, SIZE_OF_REQID);
                buf.append(&mut head);
                buf.append(&mut body);
                Ok(())
            },
            Err(e) => Err(e),
        }
    }
}

/// With no id pending, a request id and a message that decodes cleanly
/// through the inner codec, encoded and followed by any bytes, decode back to
/// that id and message in one call, which leaves the codec as it was and
/// exactly the following bytes buffered.
pub proof fn lemma_request_id_round_trip<B: Endianness, C: Codec>(
    c: RequestIdFieldCodec<B, C>,
    x: (u64, C::Out),
)
    requires
        c.pending_id() is None,
        decodes_cleanly(c.spec_inner(), x.1),
    ensures
        decodes_cleanly(c, x),
{
    let inner = c.spec_inner();
    lemma_pow256_8();
    B::lemma_round_trip(x.0 as nat, 8);
    let h = B::bytes_of(x.0 as nat, 8);
    assert forall|t: Seq<u8>, next: RequestIdFieldCodec<B, C>, rest: Seq<u8>, r: Result<Option<(u64, C::In)>, DecodeError>|
        #[trigger] c.decode_step(c.encoding(x) + t, next, rest, r) implies {
            &&& next == c
            &&& rest == t
            &&& r matches Ok(Some(v)) && c.decodes_to(v, x)
        } by {
        let buf = c.encoding(x) + t;
        assert(buf.take(8) =~= h);
        assert(buf.skip(8) =~= inner.encoding(x.1) + t);
        assert(inner.decode_step(inner.encoding(x.1) + t, next.spec_inner(), rest, inner_result(r)));
    }
}

/// With no id pending, an empty buffer gives nothing.
pub proof fn lemma_request_id_idles<B: Endianness, C: Codec>(c: RequestIdFieldCodec<B, C>)
    requires
        c.pending_id() is None,
    ensures
        idles_on_empty(c),
{
}

/// Request ids and messages that decode cleanly through the inner codec,
/// encoded in order into one buffer, decode back to the same ids and
/// messages, one per call and in order, starting with no id pending; then
/// decoding gives nothing and the buffer is empty.
pub proof fn lemma_request_id_stream<B: Endianness, C: Codec>(
    c: RequestIdFieldCodec<B, C>,
    items: Seq<(u64, C::Out)>,
    states: Seq<RequestIdFieldCodec<B, C>>,
    bufs: Seq<Seq<u8>>,
    results: Seq<Result<Option<(u64, C::In)>, DecodeError>>,
)
    requires
        c.pending_id() is None,
        forall|j: int| 0 <= j < items.len() ==> decodes_cleanly(c.spec_inner(), (#[trigger] items[j]).1),
        is_decode_run(states, bufs, results),
        results.len() == items.len() + 1,
        states[0] == c,
        bufs[0] == encode_all(c, items),
    ensures
        forall|j: int|
            0 <= j < items.len() ==> (#[trigger] results[j] matches Ok(Some(v)) && v.0
                == items[j].0 && c.spec_inner().decodes_to(v.1, items[j].1)),
        results[items.len() as int] == Ok::<Option<(u64, C::In)>, DecodeError>(None),
        bufs[items.len() as int + 1] == Seq::<u8>::empty(),
{
    assert forall|j: int| 0 <= j < items.len() implies decodes_cleanly(c, #[trigger] items[j]) by {
        lemma_request_id_round_trip(c, items[j]);
    }
    lemma_request_id_idles(c);
    lemma_stream(c, items, states, bufs, results);
}

/// With no id pending, a proper prefix of an encoded id and message gives
/// nothing when the inner codec gives nothing on proper prefixes of the
/// message.
pub proof fn lemma_request_id_waits<B: Endianness, C: Codec>(
    c: RequestIdFieldCodec<B, C>,
    x: (u64, C::Out),
)
    requires
        c.pending_id() is None,
        waits_for(c.spec_inner(), x.1),
    ensures
        waits_for(c, x),
{
    let inner = c.spec_inner();
    lemma_pow256_8();
    B::lemma_round_trip(x.0 as nat, 8);
    let h = B::bytes_of(x.0 as nat, 8);
    let e = c.encoding(x);
    let ie = inner.encoding(x.1);
    assert forall|k: int, next: RequestIdFieldCodec<B, C>, rest: Seq<u8>, r: Result<Option<(u64, C::In)>, DecodeError>|
        0 <= k < e.len() && #[trigger] c.decode_step(e.take(k), next, rest, r) implies r == Ok::<
            Option<(u64, C::In)>,
            DecodeError,
        >(None) by {
        if k >= 8 {
            assert(e.take(k).skip(8) =~= ie.take(k - 8));
            assert(inner.decode_step(ie.take(k - 8), next.spec_inner(), rest, inner_result(r)));
        }
    }
}

/// With no id pending, a call that gives nothing consumes nothing that later
/// bytes would notice, when the same holds of the inner codec: an id it has
/// read stands for the eight bytes it drained.
pub proof fn lemma_request_id_resumes<B: Endianness, C: Codec>(c: RequestIdFieldCodec<B, C>)
    requires
        c.pending_id() is None,
        resumes(c.spec_inner()),
    ensures
        resumes(c),
{
    let inner = c.spec_inner();
    assert forall|buf: Seq<u8>, next: RequestIdFieldCodec<B, C>, rest: Seq<u8>|
        #[trigger] c.decode_step(buf, next, rest, Ok(None)) implies behaves_like(
            next,
            rest,
            c,
            buf,
        ) by {
        if buf.len() < 8 {
            lemma_behaves_like_itself(c, buf);
        } else {
            let body = buf.skip(8);
            assert(inner.decode_step(body, next.spec_inner(), rest, Ok(None)));
            assert(behaves_like(next.spec_inner(), rest, inner, body));
            assert forall|more: Seq<u8>, n: RequestIdFieldCodec<B, C>, r2: Seq<u8>, res: Result<Option<(u64, C::In)>, DecodeError>|
                #[trigger] next.decode_step(rest + more, n, r2, res) implies (res is Ok
                ==> c.decode_step(buf + more, n, r2, res)) && (res is Err ==> exists|
                n2: RequestIdFieldCodec<B, C>,
                rest2: Seq<u8>,
            | c.decode_step(buf + more, n2, rest2, res)) by {
                let all = buf + more;
                assert(all.take(8) =~= buf.take(8));
                assert(all.skip(8) =~= body + more);
                assert(next.spec_inner().decode_step(rest + more, n.spec_inner(), r2, inner_result(res)));
                if res is Err {
                    let (ni, ri) = choose|ni: C, ri: Seq<u8>|
                        inner.decode_step(body + more, ni, ri, inner_result(res));
                    let n2 = RequestIdFieldCodec::<B, C> {
                        inner: ni,
                        reqid: None,
                        _byteorder: PhantomData,
                    };
                    assert(c.decode_step(all, n2, ri, res));
                }
            }
        }
    }
}

/// Request ids and messages, whose bytes arrive in arbitrary chunks with a
/// call of `decode` after each, starting with no id pending, come back in
/// order, each as soon as all of its bytes have arrived; this holds when the
/// inner codec decodes each message cleanly, gives nothing on its proper
/// prefixes and on an empty buffer, and consumes nothing that later bytes
/// would notice.
pub proof fn lemma_request_id_chunked<B: Endianness, C: Codec>(
    c: RequestIdFieldCodec<B, C>,
    items: Seq<(u64, C::Out)>,
    states: Seq<RequestIdFieldCodec<B, C>>,
    bufs: Seq<Seq<u8>>,
    chunks: Seq<Seq<u8>>,
    results: Seq<Result<Option<(u64, C::In)>, DecodeError>>,
)
    requires
        c.pending_id() is None,
        forall|j: int|
            0 <= j < items.len() ==> decodes_cleanly(c.spec_inner(), (#[trigger] items[j]).1)
                && waits_for(c.spec_inner(), items[j].1),
        resumes(c.spec_inner()),
        is_chunked_run(states, bufs, chunks, results),
        states[0] == c,
        encode_all(c, items).len() >= flatten(chunks).len(),
        flatten(chunks) == encode_all(c, items).take(flatten(chunks).len() as int),
    ensures
        forall|j: int|
            0 <= j < results.len() ==> #[trigger] chunk_result_ok(c, items, chunks, results, j),
{
    assert forall|j: int| 0 <= j < items.len() implies decodes_cleanly(c, #[trigger] items[j])
        && waits_for(c, items[j]) by {
        lemma_request_id_round_trip(c, items[j]);
        lemma_request_id_waits(c, items[j]);
    }
    lemma_request_id_idles(c);
    lemma_request_id_resumes(c);
    lemma_chunked(c, items, states, bufs, chunks, results);
}

} // verus!
