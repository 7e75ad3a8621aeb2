//! The contract that every codec of this library meets.
use crate::buf::buf_bytes;
use tokio_core::io::EasyBuf;
use vstd::prelude::*;

verus! {

/// What makes a buffer undecodable.
#[derive(Debug, Clone, Copy, PartialEq, Eq, Structural)]
pub enum DecodeError {
    /// The bytes break the codec's framing rules (for example, text that is
    /// not UTF-8 before a character delimiter, or a length that does not fit
    /// in a `usize`).
    InvalidEncoding,
}

/// Why an item could not be encoded.
#[derive(Debug, Clone, Copy, PartialEq, Eq, Structural)]
pub enum EncodeError {
    /// The item lies outside the codec's domain (a frame of the wrong size,
    /// or a length that the length field cannot represent).
    Precondition,
}

/// A framing codec: it drains frames from the head of a read buffer and
/// appends the wire form of frames to a write buffer.
pub trait Codec: Sized {
    /// What `decode` yields.
    type In;
    /// What `encode` accepts.
    type Out;

    /// The codec's own invariant, kept by every call.
    spec fn well_formed(&self) -> bool;

    /// One call of `decode` on a codec in state `self` and a buffer holding
    /// `buf` may leave the codec in `next`, the buffer holding `rest`, and
    /// return `r`.
    spec fn decode_step(
        self,
        buf: Seq<u8>,
        next: Self,
        rest: Seq<u8>,
        r: Result<Option<Self::In>, DecodeError>,
    ) -> bool;

    /// `v` is what decoding the encoding of `item` should give.
    spec fn decodes_to(&self, v: Self::In, item: Self::Out) -> bool;

    /// Whether `item` lies in the codec's domain.
    spec fn encodable(&self, item: Self::Out) -> bool;

    /// The bytes that `encode` appends for `item`.
    spec fn encoding(&self, item: Self::Out) -> Seq<u8>;

    /// Takes the next frame from the head of `buf`, or returns `None` when
    /// the buffer does not hold all of it yet.
    fn decode(&mut self, buf: &mut EasyBuf) -> (r: Result<Option<Self::In>, DecodeError>)
        requires
            old(self).well_formed(),
        ensures
            final(self).well_formed(),
            old(self).decode_step(buf_bytes(*old(buf)), *final(self), buf_bytes(*final(buf)), r),
    ;

    /// Appends the wire form of `item` to `buf`; an item outside the codec's
    /// domain is refused and `buf` is left as it was.
    fn encode(&mut self, item: Self::Out, buf: &mut Vec<u8>) -> (r: Result<(), EncodeError>)
        requires
            old(self).well_formed(),
        ensures
            *final(self) == *old(self),
            r is Ok <==> old(self).encodable(item),
            r is Ok ==> final(buf)@ == old(buf)@ + old(self).encoding(item),
            r is Err ==> final(buf)@ == old(buf)@,
    ;
}

/// The bytes that encoding `items` in order appends.
pub open spec fn encode_all<C: Codec>(c: C, items: Seq<C::Out>) -> Seq<u8>
    decreases items.len(),
{
    if items.len() == 0 {
        seq![]
    } else {
        c.encoding(items[0]) + encode_all(c, items.drop_first())
    }
}

/// Successive calls of `decode`: call `i` took the codec from `states[i]` to
/// `states[i + 1]` and the buffer from `bufs[i]` to `bufs[i + 1]`, and
/// returned `results[i]`.
pub open spec fn is_decode_run<C: Codec>(
    states: Seq<C>,
    bufs: Seq<Seq<u8>>,
    results: Seq<Result<Option<C::In>, DecodeError>>,
) -> bool {
    &&& states.len() == results.len() + 1
    &&& bufs.len() == results.len() + 1
    &&& forall|i: int|
        0 <= i < results.len() ==> #[trigger] states[i].decode_step(
            bufs[i],
            states[i + 1],
            bufs[i + 1],
            results[i],
        )
}

/// A call of `decode` on the encoding of `x` followed by any bytes `t` gives
/// back `x`, and leaves the codec as it was and exactly `t` in the buffer.
pub open spec fn decodes_cleanly<C: Codec>(c: C, x: C::Out) -> bool {
    forall|t: Seq<u8>, next: C, rest: Seq<u8>, r: Result<Option<C::In>, DecodeError>|
        #[trigger] c.decode_step(c.encoding(x) + t, next, rest, r) ==> {
            &&& next == c
            &&& rest == t
            &&& r matches Ok(Some(v)) && c.decodes_to(v, x)
        }
}

/// A call of `decode` on an empty buffer gives nothing and leaves codec and
/// buffer as they were.
pub open spec fn idles_on_empty<C: Codec>(c: C) -> bool {
    forall|next: C, rest: Seq<u8>, r: Result<Option<C::In>, DecodeError>|
        #[trigger] c.decode_step(seq![], next, rest, r) ==> r == Ok::<
            Option<C::In>,
            DecodeError,
        >(None) && rest == Seq::<u8>::empty() && next == c
}

proof fn lemma_run_prefix<C: Codec>(
    c: C,
    items: Seq<C::Out>,
    states: Seq<C>,
    bufs: Seq<Seq<u8>>,
    results: Seq<Result<Option<C::In>, DecodeError>>,
    i: int,
)
    requires
        forall|j: int| 0 <= j < items.len() ==> decodes_cleanly(c, #[trigger] items[j]),
        is_decode_run(states, bufs, results),
        results.len() == items.len() + 1,
        states[0] == c,
        bufs[0] == encode_all(c, items),
        0 <= i <= items.len(),
    ensures
        states[i] == c,
        bufs[i] == encode_all(c, items.skip(i)),
        forall|j: int| 0 <= j < i ==> (#[trigger] results[j] matches Ok(Some(v)) && c.decodes_to(v, items[j])),
    decreases i,
{
    if i == 0 {
        assert(items.skip(0) =~= items);
    } else {
        lemma_run_prefix(c, items, states, bufs, results, i - 1);
        let k = i - 1;
        let tail = items.skip(i);
        assert(items.skip(k).drop_first() =~= tail);
        assert(items.skip(k)[0] == items[k]);
        let enc = c.encoding(items[k]);
        assert(bufs[k] == enc + encode_all(c, tail));
        assert(states[k].decode_step(bufs[k], states[k + 1], bufs[k + 1], results[k]));
        assert(decodes_cleanly(c, items[k]));
    }
}

/// Encoding frames in order into one buffer and then decoding repeatedly
/// gives back exactly those frames, in order, and then nothing, with the
/// buffer empty; this holds of every codec on which each frame decodes
/// cleanly and an empty buffer gives nothing.
pub proof fn lemma_stream<C: Codec>(
    c: C,
    items: Seq<C::Out>,
    states: Seq<C>,
    bufs: Seq<Seq<u8>>,
    results: Seq<Result<Option<C::In>, DecodeError>>,
)
    requires
        forall|j: int| 0 <= j < items.len() ==> decodes_cleanly(c, #[trigger] items[j]),
        idles_on_empty(c),
        is_decode_run(states, bufs, results),
        results.len() == items.len() + 1,
        states[0] == c,
        bufs[0] == encode_all(c, items),
    ensures
        forall|j: int| 0 <= j < items.len() ==> (#[trigger] results[j] matches Ok(Some(v)) && c.decodes_to(v, items[j])),
        results[items.len() as int] == Ok::<Option<C::In>, DecodeError>(None),
        bufs[items.len() as int + 1] == Seq::<u8>::empty(),
{
    let n = items.len() as int;
    lemma_run_prefix(c, items, states, bufs, results, n);
    assert(items.skip(n) =~= Seq::<C::Out>::empty());
    assert(states[n].decode_step(bufs[n], states[n + 1], bufs[n + 1], results[n]));
}

/// A call of `decode` on any proper prefix of the encoding of `x` gives
/// nothing.
pub open spec fn waits_for<C: Codec>(c: C, x: C::Out) -> bool {
    forall|k: int, next: C, rest: Seq<u8>, r: Result<Option<C::In>, DecodeError>|
        0 <= k < c.encoding(x).len() && #[trigger] c.decode_step(
            c.encoding(x).take(k),
            next,
            rest,
            r,
        ) ==> r == Ok::<Option<C::In>, DecodeError>(None)
}

/// Whatever one call of `decode` can do from `s1` with `b1` buffered, after
/// any further bytes arrive, it can also do from `s2` with `b2` buffered
/// (an error from `s1` is an error from `s2` too).
pub open spec fn behaves_like<C: Codec>(s1: C, b1: Seq<u8>, s2: C, b2: Seq<u8>) -> bool {
    forall|more: Seq<u8>, n: C, rest: Seq<u8>, r: Result<Option<C::In>, DecodeError>|
        #[trigger] s1.decode_step(b1 + more, n, rest, r) ==> (r is Ok ==> s2.decode_step(
            b2 + more,
            n,
            rest,
            r,
        )) && (r is Err ==> exists|n2: C, rest2: Seq<u8>| s2.decode_step(b2 + more, n2, rest2, r))
}

/// After a call of `decode` from `c` that gives nothing, the codec and the
/// bytes left buffered behave like `c` with the bytes it was given: nothing
/// is consumed in a way that later bytes would notice.
pub open spec fn resumes<C: Codec>(c: C) -> bool {
    forall|buf: Seq<u8>, next: C, rest: Seq<u8>|
        #[trigger] c.decode_step(buf, next, rest, Ok(None)) ==> behaves_like(next, rest, c, buf)
}

/// Every state behaves like itself.
pub proof fn lemma_behaves_like_itself<C: Codec>(s: C, b: Seq<u8>)
    ensures
        behaves_like(s, b, s, b),
{
}

/// The chunks, one after the other.
pub open spec fn flatten(chunks: Seq<Seq<u8>>) -> Seq<u8>
    decreases chunks.len(),
{
    if chunks.len() == 0 {
        seq![]
    } else {
        flatten(chunks.drop_last()) + chunks.last()
    }
}

/// How many of the first `i` results hold a frame.
pub open spec fn frames_before<I>(results: Seq<Result<Option<I>, DecodeError>>, i: int) -> nat
    decreases i,
{
    if i <= 0 {
        0
    } else {
        frames_before(results, i - 1) + if results[i - 1] matches Ok(Some(_)) {
            1nat
        } else {
            0nat
        }
    }
}

/// Call `j` of a chunked run went as it should: it did not fail; a frame it
/// gave back is the next of `items`; and when it gave nothing, either all
/// of `items` had been given back or the bytes delivered so far did not yet
/// hold all of the next one.
pub open spec fn chunk_result_ok<C: Codec>(
    c: C,
    items: Seq<C::Out>,
    chunks: Seq<Seq<u8>>,
    results: Seq<Result<Option<C::In>, DecodeError>>,
    j: int,
) -> bool {
    let k = frames_before(results, j) as int;
    &&& results[j] is Ok
    &&& results[j] matches Ok(Some(v)) ==> c.decodes_to(v, items[k])
    &&& results[j] matches Ok(None) ==> k == items.len() || flatten(chunks.take(j + 1)).len()
        < encode_all(c, items.take(k + 1)).len()
}

/// Successive calls of `decode` with bytes arriving between them: before
/// call `i` the bytes `chunks[i]` are appended to what the previous call left
/// buffered, and the first call starts from an empty buffer.
pub open spec fn is_chunked_run<C: Codec>(
    states: Seq<C>,
    bufs: Seq<Seq<u8>>,
    chunks: Seq<Seq<u8>>,
    results: Seq<Result<Option<C::In>, DecodeError>>,
) -> bool {
    &&& states.len() == results.len() + 1
    &&& bufs.len() == results.len() + 1
    &&& chunks.len() == results.len()
    &&& bufs[0] == Seq::<u8>::empty()
    &&& forall|i: int|
        0 <= i < results.len() ==> #[trigger] states[i].decode_step(
            bufs[i] + chunks[i],
            states[i + 1],
            bufs[i + 1],
            results[i],
        )
}

proof fn lemma_encode_all_split<C: Codec>(c: C, items: Seq<C::Out>, k: int)
    requires
        0 <= k <= items.len(),
    ensures
        encode_all(c, items) == encode_all(c, items.take(k)) + encode_all(c, items.skip(k)),
    decreases k,
{
    if k == 0 {
        assert(items.take(0) =~= Seq::<C::Out>::empty());
        assert(items.skip(0) =~= items);
        assert(encode_all(c, items.take(0)) + encode_all(c, items) =~= encode_all(c, items));
    } else {
        lemma_encode_all_split(c, items, k - 1);
        let a = items.take(k - 1);
        let b = items.skip(k - 1);
        assert(b.drop_first() =~= items.skip(k));
        assert(b[0] == items[k - 1]);
        lemma_encode_all_push(c, a, items[k - 1]);
        assert(a.push(items[k - 1]) =~= items.take(k));
    }
}

proof fn lemma_encode_all_push<C: Codec>(c: C, items: Seq<C::Out>, x: C::Out)
    ensures
        encode_all(c, items.push(x)) == encode_all(c, items) + c.encoding(x),
    decreases items.len(),
{
    let l = items.push(x);
    if items.len() == 0 {
        assert(l.drop_first() =~= Seq::<C::Out>::empty());
        assert(l[0] == x);
        assert(encode_all(c, l) == c.encoding(x) + encode_all(c, l.drop_first()));
        assert(encode_all(c, l) =~= encode_all(c, items) + c.encoding(x));
    } else {
        lemma_encode_all_push(c, items.drop_first(), x);
        assert(l.drop_first() =~= items.drop_first().push(x));
        assert(l[0] == items[0]);
        assert(encode_all(c, l) == c.encoding(items[0]) + encode_all(c, l.drop_first()));
        assert(encode_all(c, items) == c.encoding(items[0]) + encode_all(c, items.drop_first()));
        assert(encode_all(c, l) =~= encode_all(c, items) + c.encoding(x));
    }
}

proof fn lemma_prefix_after(done: Seq<u8>, input: Seq<u8>, later: Seq<u8>)
    requires
        done.len() + input.len() <= done.len() + later.len(),
        done + input == (done + later).take(done.len() + input.len() as int),
    ensures
        input == later.take(input.len() as int),
{
    assert forall|j: int| 0 <= j < input.len() implies input[j] == later[j] by {
        assert((done + input)[done.len() + j] == (done + later)[done.len() + j]);
    }
    assert(input =~= later.take(input.len() as int));
}

/// One call of `decode` from `c` on bytes that start at a frame boundary of
/// the stream, with `k` frames given back before it.
proof fn lemma_chunked_step<C: Codec>(
    c: C,
    items: Seq<C::Out>,
    k: int,
    input: Seq<u8>,
    next: C,
    rest: Seq<u8>,
    r: Result<Option<C::In>, DecodeError>,
)
    requires
        forall|j: int|
            0 <= j < items.len() ==> decodes_cleanly(c, #[trigger] items[j]) && waits_for(
                c,
                items[j],
            ),
        idles_on_empty(c),
        0 <= k <= items.len(),
        input == encode_all(c, items.skip(k)).take(input.len() as int),
        input.len() <= encode_all(c, items.skip(k)).len(),
        c.decode_step(input, next, rest, r),
    ensures
        r is Ok,
        r matches Ok(Some(v)) ==> k < items.len() && c.decodes_to(v, items[k]) && next == c
            && encode_all(c, items.take(k + 1)) + rest == encode_all(c, items.take(k)) + input,
        r matches Ok(None) ==> k == items.len() || encode_all(c, items.take(k)).len()
            + input.len() < encode_all(c, items.take(k + 1)).len(),
{
    let later = encode_all(c, items.skip(k));
    if k == items.len() {
        assert(items.skip(k) =~= Seq::<C::Out>::empty());
        assert(input =~= Seq::<u8>::empty());
    } else {
        let x = items[k];
        let enc = c.encoding(x);
        assert(items.skip(k).drop_first() =~= items.skip(k + 1));
        assert(items.skip(k)[0] == x);
        assert(later == enc + encode_all(c, items.skip(k + 1)));
        assert(items.take(k).push(x) =~= items.take(k + 1));
        lemma_encode_all_push(c, items.take(k), x);
        assert(decodes_cleanly(c, x) && waits_for(c, x));
        if input.len() >= enc.len() {
            let t = input.skip(enc.len() as int);
            assert(input =~= enc + t);
            assert(c.decode_step(enc + t, next, rest, r));
            assert(encode_all(c, items.take(k + 1)) + rest =~= encode_all(c, items.take(k)) + input);
        } else {
            assert(input =~= enc.take(input.len() as int));
            assert(c.decode_step(enc.take(input.len() as int), next, rest, r));
        }
    }
}

#[verifier::rlimit(40)]
proof fn lemma_chunked_prefix<C: Codec>(
    c: C,
    items: Seq<C::Out>,
    states: Seq<C>,
    bufs: Seq<Seq<u8>>,
    chunks: Seq<Seq<u8>>,
    results: Seq<Result<Option<C::In>, DecodeError>>,
    i: int,
) -> (left: Seq<u8>)
    requires
        forall|j: int|
            0 <= j < items.len() ==> decodes_cleanly(c, #[trigger] items[j]) && waits_for(
                c,
                items[j],
            ),
        idles_on_empty(c),
        resumes(c),
        is_chunked_run(states, bufs, chunks, results),
        states[0] == c,
        encode_all(c, items).len() >= flatten(chunks).len(),
        flatten(chunks) == encode_all(c, items).take(flatten(chunks).len() as int),
        0 <= i <= results.len(),
    ensures
        frames_before(results, i) <= items.len(),
        encode_all(c, items.take(frames_before(results, i) as int)) + left == flatten(
            chunks.take(i),
        ),
        behaves_like(states[i], bufs[i], c, left),
        forall|j: int| 0 <= j < i ==> #[trigger] chunk_result_ok(c, items, chunks, results, j),
    decreases i,
{
    if i == 0 {
        assert(items.take(0) =~= Seq::<C::Out>::empty());
        assert(chunks.take(0) =~= Seq::<Seq<u8>>::empty());
        assert(encode_all(c, items.take(0)) + bufs[0] =~= flatten(chunks.take(0)));
        lemma_behaves_like_itself(c, bufs[0]);
        bufs[0]
    } else {
        let p = i - 1;
        let before = lemma_chunked_prefix(c, items, states, bufs, chunks, results, p);
        let k = frames_before(results, p) as int;
        let done = encode_all(c, items.take(k));
        let input = before + chunks[p];
        let delivered = flatten(chunks.take(i));
        let all = encode_all(c, items);
        assert(chunks.take(i).drop_last() =~= chunks.take(p));
        assert(chunks.take(i).last() == chunks[p]);
        assert(delivered =~= done + input);
        lemma_flatten_prefix(chunks, i);
        assert(delivered =~= all.take(delivered.len() as int));
        lemma_encode_all_split(c, items, k);
        let later = encode_all(c, items.skip(k));
        lemma_prefix_after(done, input, later);
        assert(states[p].decode_step(bufs[p] + chunks[p], states[p + 1], bufs[p + 1], results[p]));
        let r = results[p];
        if r is Err {
            let (n2, rest2) = choose|n2: C, rest2: Seq<u8>| c.decode_step(input, n2, rest2, r);
            lemma_chunked_step(c, items, k, input, n2, rest2, r);
            assert(false);
        }
        assert(c.decode_step(input, states[i], bufs[i], r));
        lemma_chunked_step(c, items, k, input, states[i], bufs[i], r);
        if r is Ok && r->Ok_0 is None {
            assert(r == Ok::<Option<C::In>, DecodeError>(None));
            assert(behaves_like(states[i], bufs[i], c, input));
            input
        } else {
            lemma_behaves_like_itself(c, bufs[i]);
            bufs[i]
        }
    }
}

proof fn lemma_flatten_prefix(chunks: Seq<Seq<u8>>, i: int)
    requires
        0 <= i <= chunks.len(),
    ensures
        flatten(chunks.take(i)).len() <= flatten(chunks).len(),
        flatten(chunks.take(i)) == flatten(chunks).take(flatten(chunks.take(i)).len() as int),
    decreases chunks.len() - i,
{
    if i == chunks.len() {
        assert(chunks.take(i) =~= chunks);
    } else {
        lemma_flatten_prefix(chunks, i + 1);
        assert(chunks.take(i + 1).drop_last() =~= chunks.take(i));
        let a = flatten(chunks.take(i));
        let b = flatten(chunks.take(i + 1));
        assert(b == a + chunks[i]);
        assert(a =~= b.take(a.len() as int));
        assert(a =~= flatten(chunks).take(a.len() as int));
    }
}

/// Bytes of a stream of encoded frames that arrive in arbitrary chunks, with
/// a call of `decode` after each chunk, give back the frames in order, each
/// one as soon as all of its bytes have arrived: a call that gives nothing
/// comes only when the next frame is not yet complete. This holds of every
/// codec on which each frame decodes cleanly, each proper prefix of a frame
/// gives nothing, a call that gives nothing consumes nothing that later
/// bytes would notice, and an empty buffer gives nothing.
pub proof fn lemma_chunked<C: Codec>(
    c: C,
    items: Seq<C::Out>,
    states: Seq<C>,
    bufs: Seq<Seq<u8>>,
    chunks: Seq<Seq<u8>>,
    results: Seq<Result<Option<C::In>, DecodeError>>,
)
    requires
        forall|j: int|
            0 <= j < items.len() ==> decodes_cleanly(c, #[trigger] items[j]) && waits_for(
                c,
                items[j],
            ),
        idles_on_empty(c),
        resumes(c),
        is_chunked_run(states, bufs, chunks, results),
        states[0] == c,
        encode_all(c, items).len() >= flatten(chunks).len(),
        flatten(chunks) == encode_all(c, items).take(flatten(chunks).len() as int),
    ensures
        frames_before(results, results.len() as int) <= items.len(),
        forall|j: int|
            0 <= j < results.len() ==> #[trigger] chunk_result_ok(c, items, chunks, results, j),
{
    lemma_chunked_prefix(c, items, states, bufs, chunks, results, results.len() as int);
}
} // verus!
