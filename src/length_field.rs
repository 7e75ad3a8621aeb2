//! Frames prefixed by an unsigned length field of one to eight bytes.
use crate::buf::{buf_bytes, drain_vec};
use crate::codec::{
    behaves_like, chunk_result_ok, decodes_cleanly, encode_all, flatten, idles_on_empty,
    is_chunked_run, is_decode_run, lemma_chunked, lemma_stream, resumes, waits_for, Codec,
    DecodeError, EncodeError,
};
use crate::endian::{fits_in_bytes, pow256, Endianness};
use core::marker::PhantomData;
use tokio_core::io::EasyBuf;
use vstd::prelude::*;

verus! {

/// Length field based protocol: each frame is preceded by its length, an
/// unsigned integer of `field_size` bytes in the byte order `B`.
#[derive(Debug)]
pub struct LengthFieldProto<B> {
    pub field_size: usize,
    _byteorder: PhantomData<B>,
}

impl<B> LengthFieldProto<B> {
    pub fn new(field_size: usize) -> (r: Self)
        requires
            1 <= field_size <= 8,
        ensures
            r.spec_field_size() == field_size,
    {
        LengthFieldProto { field_size: field_size, _byteorder: PhantomData }
    }

    pub closed spec fn spec_field_size(&self) -> usize {
        self.field_size
    }
}

/// The codec of [`LengthFieldProto`]. Between calls it may hold the length of
/// a frame whose length field has been read but whose body has not arrived.
pub struct LengthFieldCodec<B> {
    field_size: usize,
    current_len: Option<u64>,
    _byteorder: PhantomData<B>,
}

/// One decode step of a length field codec with `k`-byte fields whose values
/// are read by `value_of`, holding the pending length `pending`: the new
/// pending length, what stays buffered, and the frame if one is complete.
/// A length field is read as soon as it has arrived; a body as soon as all of
/// it has.
pub open spec fn length_field_decode(
    value_of: spec_fn(Seq<u8>) -> nat,
    k: nat,
    pending: Option<nat>,
    buf: Seq<u8>,
) -> (Option<nat>, Seq<u8>, Option<Seq<u8>>) {
    let (p, b) = if pending is None && buf.len() >= k {
        (Some(value_of(buf.take(k as int))), buf.skip(k as int))
    } else {
        (pending, buf)
    };
    match p {
        Some(l) => if b.len() >= l {
            (None, b.skip(l as int), Some(b.take(l as int)))
        } else {
            (p, b, None)
        },
        None => (p, b, None),
    }
}

impl<B: Endianness> LengthFieldCodec<B> {
    pub fn new(field_size: usize) -> (r: LengthFieldCodec<B>)
        requires
            1 <= field_size <= 8,
        ensures
            r.field_size() == field_size,
            r.pending() is None,
            r.well_formed(),
    {
        LengthFieldCodec { field_size: field_size, current_len: None, _byteorder: PhantomData }
    }

    /// A fresh codec for a connection of `proto`.
    pub fn from(proto: LengthFieldProto<B>) -> (r: LengthFieldCodec<B>)
        requires
            1 <= proto.spec_field_size() <= 8,
        ensures
            r.field_size() == proto.spec_field_size(),
            r.pending() is None,
            r.well_formed(),
    {
        LengthFieldCodec::new(proto.field_size)
    }

    pub closed spec fn field_size(&self) -> nat {
        self.field_size as nat
    }

    /// The length of the frame whose length field has been read, if any.
    pub closed spec fn pending(&self) -> Option<nat> {
        match self.current_len {
            Some(l) => Some(l as nat),
            None => None,
        }
    }
}

impl<B: Endianness> Codec for LengthFieldCodec<B> {
    type In = Vec<u8>;

    type Out = Vec<u8>;

    open spec fn well_formed(&self) -> bool {
        1 <= self.field_size() <= 8
    }

    open spec fn decode_step(
        self,
        buf: Seq<u8>,
        next: Self,
        rest: Seq<u8>,
        r: Result<Option<Vec<u8>>, DecodeError>,
    ) -> bool {
        let (p, left, frame) = length_field_decode(
            |s: Seq<u8>| B::value_of(s),
            self.field_size(),
            self.pending(),
            buf,
        );
        &&& next.field_size() == self.field_size()
        &&& next.pending() == p
        &&& rest == left
        &&& match r {
            Ok(Some(v)) => frame == Some(v@),
            Ok(None) => frame is None,
            Err(_) => false,
        }
    }

    open spec fn decodes_to(&self, v: Vec<u8>, item: Vec<u8>) -> bool {
        v@ == item@
    }

    open spec fn encodable(&self, item: Vec<u8>) -> bool {
        item@.len() < pow256(self.field_size())
    }

    open spec fn encoding(&self, item: Vec<u8>) -> Seq<u8> {
        B::bytes_of(item@.len(), self.field_size()) + item@
    }

    fn decode(&mut self, buf: &mut EasyBuf) -> (r: Result<Option<Vec<u8>>, DecodeError>) {
        if self.current_len.is_none() && buf.len() >= self.field_size {
            let bs = buf.drain_to(self.field_size);
            self.current_len = Some(B::read_uint(bs.as_slice(), self.field_size));
            assert(buf_bytes(bs).take(self.field_size as int) =~= buf_bytes(bs));
        }
        if let Some(cl) = self.current_len {
            if buf.len() as u64 >= cl {
                let bs = drain_vec(buf, cl as usize);
                self.current_len = None;
                return Ok(Some(bs));
            }
        }
        Ok(None)
    }

    fn encode(&mut self, item: Vec<u8>, buf: &mut Vec<u8>) -> (r: Result<(), EncodeError>) {
        let len = item.len() as u64;
        if !fits_in_bytes(len, self.field_size) {
            return Err(EncodeError::Precondition);
        }
        let mut field = B::write_uint(len, self.field_size);
        let mut item = item;
        buf.append(&mut field);
        buf.append(&mut item);
        Ok(())
    }
}

/// With no length pending, a frame whose length fits the field, encoded and
/// followed by any bytes, decodes back to itself in one call, which leaves
/// the codec as it was and exactly the following bytes buffered.
pub proof fn lemma_length_field_round_trip<B: Endianness>(c: LengthFieldCodec<B>, x: Vec<u8>)
    requires
        c.well_formed(),
        c.pending() is None,
        c.encodable(x),
    ensures
        decodes_cleanly(c, x),
{
    let k = c.field_size();
    B::lemma_round_trip(x@.len(), k);
    let h = B::bytes_of(x@.len(), k);
    assert forall|t: Seq<u8>, next: LengthFieldCodec<B>, rest: Seq<u8>, r: Result<Option<Vec<u8>>, DecodeError>|
        #[trigger] c.decode_step(c.encoding(x) + t, next, rest, r) implies {
            &&& next == c
            &&& rest == t
            &&& r matches Ok(Some(v)) && c.decodes_to(v, x)
        } by {
        let buf = c.encoding(x) + t;
        assert(buf.take(k as int) =~= h);
        assert(buf.skip(k as int) =~= x@ + t);
        assert((x@ + t).take(x@.len() as int) =~= x@);
        assert((x@ + t).skip(x@.len() as int) =~= t);
    }
}

/// With no length pending, an empty buffer gives nothing.
pub proof fn lemma_length_field_idles<B: Endianness>(c: LengthFieldCodec<B>)
    requires
        c.well_formed(),
        c.pending() is None,
    ensures
        idles_on_empty(c),
{
    assert forall|next: LengthFieldCodec<B>, rest: Seq<u8>, r: Result<Option<Vec<u8>>, DecodeError>|
        #[trigger] c.decode_step(seq![], next, rest, r) implies r == Ok::<
            Option<Vec<u8>>,
            DecodeError,
        >(None) && rest == Seq::<u8>::empty() && next == c by {
        assert(next.field_size == c.field_size);
        assert(next.current_len == c.current_len);
    }
}

/// Frames whose lengths fit the field, encoded in order into one buffer,
/// decode back one per call, in order, starting with no length pending; then
/// decoding gives nothing and the buffer is empty.
pub proof fn lemma_length_field_stream<B: Endianness>(
    c: LengthFieldCodec<B>,
    items: Seq<Vec<u8>>,
    states: Seq<LengthFieldCodec<B>>,
    bufs: Seq<Seq<u8>>,
    results: Seq<Result<Option<Vec<u8>>, DecodeError>>,
)
    requires
        c.well_formed(),
        c.pending() is None,
        forall|j: int| 0 <= j < items.len() ==> c.encodable(#[trigger] items[j]),
        is_decode_run(states, bufs, results),
        results.len() == items.len() + 1,
        states[0] == c,
        bufs[0] == encode_all(c, items),
    ensures
        forall|j: int|
            0 <= j < items.len() ==> (#[trigger] results[j] matches Ok(Some(v)) && v@
                == items[j]@),
        results[items.len() as int] == Ok::<Option<Vec<u8>>, DecodeError>(None),
        bufs[items.len() as int + 1] == Seq::<u8>::empty(),
{
    assert forall|j: int| 0 <= j < items.len() implies decodes_cleanly(c, #[trigger] items[j]) by {
        lemma_length_field_round_trip(c, items[j]);
    }
    lemma_length_field_idles(c);
    lemma_stream(c, items, states, bufs, results);
}

/// When a decode step gives no frame, the same bytes arriving later change
/// nothing: decoding from the state it left, with more bytes appended to
/// what it left buffered, takes the same step as decoding from the earlier
/// state with those bytes present from the start.
pub proof fn lemma_length_field_no_spurious_consumption(
    value_of: spec_fn(Seq<u8>) -> nat,
    k: nat,
    pending: Option<nat>,
    buf: Seq<u8>,
    more: Seq<u8>,
)
    requires
        length_field_decode(value_of, k, pending, buf).2 is None,
    ensures
        ({
            let (p, left, _) = length_field_decode(value_of, k, pending, buf);
            length_field_decode(value_of, k, p, left + more) == length_field_decode(
                value_of,
                k,
                pending,
                buf + more,
            )
        }),
{
    if pending is None && buf.len() >= k {
        assert((buf + more).take(k as int) =~= buf.take(k as int));
        assert((buf + more).skip(k as int) =~= buf.skip(k as int) + more);
    }
}

/// A proper prefix of an encoded frame gives nothing, with no length
/// pending at the start.
pub proof fn lemma_length_field_waits<B: Endianness>(c: LengthFieldCodec<B>, x: Vec<u8>)
    requires
        c.well_formed(),
        c.pending() is None,
        c.encodable(x),
    ensures
        waits_for(c, x),
{
    let k = c.field_size();
    B::lemma_round_trip(x@.len(), k);
    let e = c.encoding(x);
    assert forall|j: int, next: LengthFieldCodec<B>, rest: Seq<u8>, r: Result<Option<Vec<u8>>, DecodeError>|
        0 <= j < e.len() && #[trigger] c.decode_step(e.take(j), next, rest, r) implies r == Ok::<
            Option<Vec<u8>>,
            DecodeError,
        >(None) by {
        if j >= k {
            assert(e.take(j).take(k as int) =~= B::bytes_of(x@.len(), k));
        }
    }
}

/// A call that gives nothing consumes nothing that later bytes would
/// notice: a length field it has read stands for the bytes it drained.
pub proof fn lemma_length_field_resumes<B: Endianness>(c: LengthFieldCodec<B>)
    ensures
        resumes(c),
{
    assert forall|buf: Seq<u8>, next: LengthFieldCodec<B>, rest: Seq<u8>|
        #[trigger] c.decode_step(buf, next, rest, Ok(None)) implies behaves_like(
            next,
            rest,
            c,
            buf,
        ) by {
        assert forall|more: Seq<u8>, n: LengthFieldCodec<B>, r2: Seq<u8>, res: Result<Option<Vec<u8>>, DecodeError>|
            #[trigger] next.decode_step(rest + more, n, r2, res) implies (res is Ok
            ==> c.decode_step(buf + more, n, r2, res)) && (res is Err ==> exists|
            n2: LengthFieldCodec<B>,
            rest2: Seq<u8>,
        | c.decode_step(buf + more, n2, rest2, res)) by {
            lemma_length_field_no_spurious_consumption(
                |s: Seq<u8>| B::value_of(s),
                c.field_size(),
                c.pending(),
                buf,
                more,
            );
        }
    }
}

/// Frames whose lengths fit the field, whose bytes arrive in arbitrary
/// chunks with a call of `decode` after each, starting with no length
/// pending, come back in order, each as soon as all of its bytes have
/// arrived.
pub proof fn lemma_length_field_chunked<B: Endianness>(
    c: LengthFieldCodec<B>,
    items: Seq<Vec<u8>>,
    states: Seq<LengthFieldCodec<B>>,
    bufs: Seq<Seq<u8>>,
    chunks: Seq<Seq<u8>>,
    results: Seq<Result<Option<Vec<u8>>, DecodeError>>,
)
    requires
        c.well_formed(),
        c.pending() is None,
        forall|j: int| 0 <= j < items.len() ==> c.encodable(#[trigger] items[j]),
        is_chunked_run(states, bufs, chunks, results),
        states[0] == c,
        encode_all(c, items).len() >= flatten(chunks).len(),
        flatten(chunks) == encode_all(c, items).take(flatten(chunks).len() as int),
    ensures
        forall|j: int|
            0 <= j < results.len() ==> #[trigger] chunk_result_ok(c, items, chunks, results, j),
{
    assert forall|j: int| 0 <= j < items.len() implies decodes_cleanly(c, #[trigger] items[j])
        && waits_for(c, items[j]) by {
        lemma_length_field_round_trip(c, items[j]);
        lemma_length_field_waits(c, items[j]);
    }
    lemma_length_field_idles(c);
    lemma_length_field_resumes(c);
    lemma_chunked(c, items, states, bufs, chunks, results);
}

} // verus!
