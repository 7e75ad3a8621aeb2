//! Frames of one constant length, back to back.
use crate::buf::drain_vec;
use crate::codec::{
    behaves_like, chunk_result_ok, decodes_cleanly, encode_all, flatten, is_chunked_run,
    is_decode_run, lemma_behaves_like_itself, lemma_chunked, lemma_stream, resumes, waits_for,
    Codec, DecodeError, EncodeError,
};
use tokio_core::io::EasyBuf;
use vstd::prelude::*;

verus! {

/// Fixed-length protocol: frames follow each other and all have `length` bytes.
#[derive(Debug, Clone, Copy, PartialEq, Eq)]
pub struct FixedLengthProto {
    pub length: usize,
}

impl FixedLengthProto {
    pub fn new(length: usize) -> (r: FixedLengthProto)
        ensures
            r.length == length,
    {
        FixedLengthProto { length: length }
    }

    /// A fresh codec for one connection.
    pub fn codec(&self) -> (r: FixedLengthCodec)
        requires
            self.length >= 1,
        ensures
            r.length() == self.length,
    {
        FixedLengthCodec::new(self.length)
    }
}

/// The codec of [`FixedLengthProto`].
#[derive(Debug, Clone, Copy)]
pub struct FixedLengthCodec {
    length: usize,
}

/// One decode step of a fixed-length codec: the first `n` bytes when there are
/// at least `n`, else nothing. The second component is what stays buffered.
pub open spec fn fixed_decode(n: nat, buf: Seq<u8>) -> (Option<Seq<u8>>, Seq<u8>) {
    if buf.len() >= n {
        (Some(buf.take(n as int)), buf.skip(n as int))
    } else {
        (None, buf)
    }
}

impl FixedLengthCodec {
    pub fn new(length: usize) -> (r: FixedLengthCodec)
        requires
            length >= 1,
        ensures
            r.length() == length,
    {
        FixedLengthCodec { length: length }
    }

    pub closed spec fn spec_length(&self) -> usize {
        self.length
    }

    #[verifier::when_used_as_spec(spec_length)]
    pub fn length(&self) -> (r: usize)
        ensures
            r == self.spec_length(),
    {
        self.length
    }
}

impl Codec for FixedLengthCodec {
    type In = Vec<u8>;

    type Out = Vec<u8>;

    open spec fn well_formed(&self) -> bool {
        self.spec_length() >= 1
    }

    open spec fn decode_step(
        self,
        buf: Seq<u8>,
        next: Self,
        rest: Seq<u8>,
        r: Result<Option<Vec<u8>>, DecodeError>,
    ) -> bool {
        let (frame, left) = fixed_decode(self.spec_length() as nat, buf);
        &&& next == self
        &&& rest == left
        &&& match r {
            Ok(Some(v)) => frame == Some(v@),
            Ok(None) => frame is None,
            Err(_) => false,
        }
    }

    open spec fn decodes_to(&self, v: Vec<u8>, item: Vec<u8>) -> bool {
        v@ == item@
    }

    open spec fn encodable(&self, item: Vec<u8>) -> bool {
        item@.len() == self.spec_length()
    }

    open spec fn encoding(&self, item: Vec<u8>) -> Seq<u8> {
        item@
    }

    fn decode(&mut self, buf: &mut EasyBuf) -> (r: Result<Option<Vec<u8>>, DecodeError>) {
        if buf.len() >= self.length {
            Ok(Some(drain_vec(buf, self.length)))
        } else {
            Ok(None)
        }
    }

    fn encode(&mut self, item: Vec<u8>, buf: &mut Vec<u8>) -> (r: Result<(), EncodeError>) {
        if item.len() != self.length {
            return Err(EncodeError::Precondition);
        }
        let mut item = item;
        buf.append(&mut item);
        Ok(())
    }
}

/// A frame of the codec's length followed by any bytes decodes back to
/// itself in one call, which leaves the codec as it was and exactly the
/// following bytes buffered.
pub proof fn lemma_fixed_length_round_trip(c: FixedLengthCodec, x: Vec<u8>)
    requires
        c.well_formed(),
        c.encodable(x),
    ensures
        decodes_cleanly(c, x),
{
    let n = c.spec_length() as int;
    assert forall|t: Seq<u8>, next: FixedLengthCodec, rest: Seq<u8>, r: Result<Option<Vec<u8>>, DecodeError>|
        #[trigger] c.decode_step(c.encoding(x) + t, next, rest, r) implies {
            &&& next == c
            &&& rest == t
            &&& r matches Ok(Some(v)) && c.decodes_to(v, x)
        } by {
        assert((x@ + t).take(n) =~= x@);
        assert((x@ + t).skip(n) =~= t);
    }
}

/// Frames of the codec's length, encoded in order into one buffer, decode
/// back one per call, in order; then decoding gives nothing and the buffer
/// is empty.
pub proof fn lemma_fixed_length_stream(
    c: FixedLengthCodec,
    items: Seq<Vec<u8>>,
    states: Seq<FixedLengthCodec>,
    bufs: Seq<Seq<u8>>,
    results: Seq<Result<Option<Vec<u8>>, DecodeError>>,
)
    requires
        c.well_formed(),
        forall|j: int| 0 <= j < items.len() ==> c.encodable(#[trigger] items[j]),
        is_decode_run(states, bufs, results),
        results.len() == items.len() + 1,
        states[0] == c,
        bufs[0] == encode_all(c, items),
    ensures
        forall|j: int|
            0 <= j < items.len() ==> (#[trigger] results[j] matches Ok(Some(v)) && v@
                == items[j]@),
        results[items.len() as int] == Ok::<Option<Vec<u8>>, DecodeError>(None),
        bufs[items.len() as int + 1] == Seq::<u8>::empty(),
{
    assert forall|j: int| 0 <= j < items.len() implies decodes_cleanly(c, #[trigger] items[j]) by {
        lemma_fixed_length_round_trip(c, items[j]);
    }
    lemma_stream(c, items, states, bufs, results);
}

/// Fewer bytes than a frame give nothing.
pub proof fn lemma_fixed_length_waits(c: FixedLengthCodec, x: Vec<u8>)
    requires
        c.well_formed(),
        c.encodable(x),
    ensures
        waits_for(c, x),
{
}

/// A call that gives nothing consumes nothing.
pub proof fn lemma_fixed_length_resumes(c: FixedLengthCodec)
    ensures
        resumes(c),
{
    assert forall|buf: Seq<u8>, next: FixedLengthCodec, rest: Seq<u8>|
        #[trigger] c.decode_step(buf, next, rest, Ok(None)) implies behaves_like(
            next,
            rest,
            c,
            buf,
        ) by {
        lemma_fixed_length_no_spurious_consumption(c, buf, next, rest);
        lemma_behaves_like_itself(c, buf);
    }
}

/// Frames of the codec's length, whose bytes arrive in arbitrary chunks
/// with a call of `decode` after each, come back in order, each as soon as
/// all of its bytes have arrived.
pub proof fn lemma_fixed_length_chunked(
    c: FixedLengthCodec,
    items: Seq<Vec<u8>>,
    states: Seq<FixedLengthCodec>,
    bufs: Seq<Seq<u8>>,
    chunks: Seq<Seq<u8>>,
    results: Seq<Result<Option<Vec<u8>>, DecodeError>>,
)
    requires
        c.well_formed(),
        forall|j: int| 0 <= j < items.len() ==> c.encodable(#[trigger] items[j]),
        is_chunked_run(states, bufs, chunks, results),
        states[0] == c,
        encode_all(c, items).len() >= flatten(chunks).len(),
        flatten(chunks) == encode_all(c, items).take(flatten(chunks).len() as int),
    ensures
        forall|j: int|
            0 <= j < results.len() ==> #[trigger] chunk_result_ok(c, items, chunks, results, j),
{
    assert forall|j: int| 0 <= j < items.len() implies decodes_cleanly(c, #[trigger] items[j])
        && waits_for(c, items[j]) by {
        lemma_fixed_length_round_trip(c, items[j]);
        lemma_fixed_length_waits(c, items[j]);
    }
    lemma_fixed_length_resumes(c);
    lemma_chunked(c, items, states, bufs, chunks, results);
}

/// A call that gives no frame leaves codec and buffer as they were, so bytes
/// that arrive later are decoded as if they had been there from the start.
pub proof fn lemma_fixed_length_no_spurious_consumption(
    c: FixedLengthCodec,
    buf: Seq<u8>,
    next: FixedLengthCodec,
    rest: Seq<u8>,
)
    requires
        c.decode_step(buf, next, rest, Ok(None)),
    ensures
        next == c,
        rest == buf,
{
}

} // verus!
