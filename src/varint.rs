//! Frames prefixed by their length in Protobuf's base 128 varint format.
use crate::buf::{buf_bytes, drain_vec};
use crate::codec::{
    behaves_like, chunk_result_ok, decodes_cleanly, encode_all, flatten, idles_on_empty,
    is_chunked_run, is_decode_run, lemma_chunked, lemma_stream, resumes, waits_for, Codec,
    DecodeError, EncodeError,
};
use tokio_core::io::EasyBuf;
use vstd::prelude::*;

verus! {

/// Varint length field protocol: every frame is preceded by its length in
/// Protobuf's base 128 varint format (seven bits per byte, least significant
/// group first, high bit set on every byte but the last).
#[derive(Debug, Clone, Copy, Default)]
pub struct VarIntLengthFieldProto;

impl VarIntLengthFieldProto {
    pub fn new() -> (r: VarIntLengthFieldProto) {
        VarIntLengthFieldProto
    }

    /// A fresh codec for one connection.
    pub fn codec(&self) -> (r: VarIntLengthFieldCodec)
        ensures
            r.scan_offset() == 0,
            r.pending() is None,
    {
        VarIntLengthFieldCodec::new()
    }
}

/// The value of the varint bytes `s`, least significant group first; the
/// high bit of each byte is not part of its value.
pub open spec fn varint_value(s: Seq<u8>) -> nat
    decreases s.len(),
{
    if s.len() == 0 {
        0
    } else {
        (s[0] % 128) as nat + 128 * varint_value(s.drop_first())
    }
}

/// The varint bytes of `n`: one byte for each group of seven bits, at least
/// one byte.
pub open spec fn varint_bytes(n: nat) -> Seq<u8>
    decreases n,
{
    if n < 128 {
        seq![n as u8]
    } else {
        seq![(n % 128 + 128) as u8] + varint_bytes(n / 128)
    }
}

/// `q` is the first index at or after `from` of a byte with its high bit
/// clear: the last byte of a varint.
pub open spec fn first_end(buf: Seq<u8>, from: nat, q: int) -> bool {
    &&& from <= q < buf.len()
    &&& buf[q] < 128
    &&& forall|j: int| from <= j < q ==> buf[j] >= 128
}

/// No byte at or after `from` ends a varint.
pub open spec fn no_end(buf: Seq<u8>, from: nat) -> bool {
    forall|j: int| from <= j < buf.len() ==> buf[j] >= 128
}

/// The body step: with the frame length `size` known, the frame once all of
/// it is buffered. Gives the pending length, what stays buffered and the frame.
pub open spec fn varint_body(size: nat, buf: Seq<u8>) -> (Option<nat>, Seq<u8>, Option<Seq<u8>>) {
    if buf.len() >= size {
        (None, buf.skip(size as int), Some(buf.take(size as int)))
    } else {
        (Some(size), buf, None)
    }
}

/// The bytes of the frame that a decode result holds, if any.
pub open spec fn frame_of(r: Result<Option<Vec<u8>>, DecodeError>) -> Option<Seq<u8>> {
    match r {
        Ok(Some(v)) => Some(v@),
        _ => None,
    }
}

/// The codec of [`VarIntLengthFieldProto`]. Between calls it remembers how
/// far it has scanned an incomplete varint, or the length of a frame whose
/// varint has been read but whose body has not arrived.
#[derive(Debug, Clone, Copy, Default)]
pub struct VarIntLengthFieldCodec {
    pos: usize,
    size: Option<usize>,
}

impl VarIntLengthFieldCodec {
    pub fn new() -> (r: VarIntLengthFieldCodec)
        ensures
            r.scan_offset() == 0,
            r.pending() is None,
    {
        VarIntLengthFieldCodec { pos: 0, size: None }
    }

    /// How many bytes at the head of the buffer are known to continue a varint.
    pub closed spec fn scan_offset(&self) -> nat {
        self.pos as nat
    }

    /// The length of the frame whose varint has been read, if any.
    pub closed spec fn pending(&self) -> Option<nat> {
        match self.size {
            Some(l) => Some(l as nat),
            None => None,
        }
    }
}

proof fn lemma_varint_value_step(s: Seq<u8>, i: int, e: int)
    requires
        0 <= i < e <= s.len(),
    ensures
        varint_value(s.subrange(i, e)) == (s[i] % 128) as nat + 128 * varint_value(
            s.subrange(i + 1, e),
        ),
{
    assert(s.subrange(i, e).drop_first() =~= s.subrange(i + 1, e));
}

proof fn lemma_varint_value_grows(s: Seq<u8>, j: int, i: int, e: int)
    requires
        0 <= j <= i <= e <= s.len(),
    ensures
        varint_value(s.subrange(j, e)) >= varint_value(s.subrange(i, e)),
    decreases i - j,
{
    if j < i {
        lemma_varint_value_step(s, j, e);
        lemma_varint_value_grows(s, j + 1, i, e);
    }
}

/// The value of the varint `s[0..=q]`, or `None` when it exceeds `usize::MAX`.
fn varint_length(s: &[u8], q: usize) -> (r: Option<usize>)
    requires
        q < s@.len(),
    ensures
        match r {
            Some(v) => v as nat == varint_value(s@.take(q + 1)),
            None => varint_value(s@.take(q + 1)) > usize::MAX,
        },
{
    let n = s.len();
    let end = q + 1;
    let mut acc: usize = 0;
    let mut i: usize = end;
    assert(s@.subrange(end as int, end as int) =~= Seq::<u8>::empty());
    while i > 0
        invariant
            0 <= i <= end <= s@.len(),
            end == q + 1,
            acc as nat == varint_value(s@.subrange(i as int, end as int)),
        decreases i,
    {
        i = i - 1;
        let digit = (s[i] & 0x7F) as usize;
        let b = s[i];
        assert(b & 0x7F == b % 128) by (bit_vector);
        proof {
            lemma_varint_value_step(s@, i as int, end as int);
        }
        match acc.checked_mul(128) {
            Some(m) => match m.checked_add(digit) {
                Some(v) => {
                    acc = v;
                },
                None => {
                    proof {
                        assert(varint_value(s@.subrange(i as int, end as int)) > usize::MAX);
                        lemma_varint_value_grows(s@, 0, i as int, end as int);
                        assert(s@.subrange(0, end as int) =~= s@.take(end as int));
                    }
                    return None;
                },
            },
            None => {
                proof {
                    assert(acc * 128 > usize::MAX);
                    assert(varint_value(s@.subrange(i as int, end as int)) > usize::MAX);
                    lemma_varint_value_grows(s@, 0, i as int, end as int);
                    assert(s@.subrange(0, end as int) =~= s@.take(end as int));
                }
                return None;
            },
        }
    }
    assert(s@.subrange(0, end as int) =~= s@.take(end as int));
    Some(acc)
}

impl VarIntLengthFieldCodec {
    /// The body step, with the frame length known.
    fn decode_body(&mut self, size: usize, buf: &mut EasyBuf) -> (r: Option<Vec<u8>>)
        ensures
            final(self).scan_offset() == old(self).scan_offset(),
            ({
                let (p, left, frame) = varint_body(size as nat, buf_bytes(*old(buf)));
                &&& final(self).pending() == p
                &&& buf_bytes(*final(buf)) == left
                &&& match r {
                    Some(v) => frame == Some(v@),
                    None => frame is None,
                }
            }),
    {
        if buf.len() >= size {
            self.size = None;
            Some(drain_vec(buf, size))
        } else {
            self.size = Some(size);
            None
        }
    }
}

impl Codec for VarIntLengthFieldCodec {
    type In = Vec<u8>;

    type Out = Vec<u8>;

    open spec fn well_formed(&self) -> bool {
        true
    }

    /// With a pending length, the body step. Otherwise the scan for the end
    /// of a varint resumes at the scan offset: with no end in the buffer the
    /// scan offset moves to the end of the buffer; at an end `q`, the varint
    /// `buf[0..=q]` is read and the body step follows, unless its value
    /// exceeds `usize::MAX`, which is an error that leaves codec and buffer
    /// as they are.
    open spec fn decode_step(
        self,
        buf: Seq<u8>,
        next: Self,
        rest: Seq<u8>,
        r: Result<Option<Vec<u8>>, DecodeError>,
    ) -> bool {
        match self.pending() {
            Some(l) => {
                let (p, left, frame) = varint_body(l, buf);
                &&& next.scan_offset() == self.scan_offset()
                &&& next.pending() == p
                &&& rest == left
                &&& r is Ok
                &&& frame_of(r) == frame
            },
            None => {
                &&& no_end(buf, self.scan_offset()) ==> {
                    &&& next.scan_offset() == if self.scan_offset() <= buf.len() {
                        buf.len()
                    } else {
                        self.scan_offset()
                    }
                    &&& next.pending() is None
                    &&& rest == buf
                    &&& r == Ok::<Option<Vec<u8>>, DecodeError>(None)
                }
                &&& forall|q: int|
                    #[trigger] first_end(buf, self.scan_offset(), q) ==> {
                        let v = varint_value(buf.take(q + 1));
                        if v > usize::MAX {
                            next == self && rest == buf && r == Err::<Option<Vec<u8>>, DecodeError>(
                                DecodeError::InvalidEncoding,
                            )
                        } else {
                            let (p, left, frame) = varint_body(v, buf.skip(q + 1));
                            &&& next.scan_offset() == 0
                            &&& next.pending() == p
                            &&& rest == left
                            &&& r is Ok
                            &&& frame_of(r) == frame
                        }
                    }
            },
        }
    }

    open spec fn decodes_to(&self, v: Vec<u8>, item: Vec<u8>) -> bool {
        v@ == item@
    }

    open spec fn encodable(&self, item: Vec<u8>) -> bool {
        true
    }

    open spec fn encoding(&self, item: Vec<u8>) -> Seq<u8> {
        varint_bytes(item@.len()) + item@
    }

    fn decode(&mut self, buf: &mut EasyBuf) -> (r: Result<Option<Vec<u8>>, DecodeError>) {
        if let Some(size) = self.size {
            return Ok(self.decode_body(size, buf));
        }
        let ghost b = buf_bytes(*buf);
        let ghost start = self.pos as nat;
        let len = buf.len();
        let mut p = self.pos;
        while p < len
            invariant
                buf_bytes(*buf) == b,
                b == buf_bytes(*old(buf)),
                len == b.len(),
                *self == *old(self),
                self.pos == start,
                self.size is None,
                start <= p,
                p <= len || p == start,
                forall|j: int| start <= j < p ==> b[j] >= 128,
            decreases len - p,
        {
            let byte = buf.as_slice()[p];
            assert(byte & 0x80 != 0 <==> byte >= 128) by (bit_vector);
            if byte & 0x80 != 0 {
                p = p + 1;
            } else {
                assert forall|q: int| #[trigger] first_end(b, start, q) implies q == p by {
                    if q < p {
                    } else if q > p {
                        assert(b[p as int] >= 128);
                    }
                }
                assert(!no_end(b, start)) by {
                    assert(b[p as int] < 128);
                }
                match varint_length(buf.as_slice(), p) {
                    None => {
                        return Err(DecodeError::InvalidEncoding);
                    },
                    Some(size) => {
                        let _ = buf.drain_to(p + 1);
                        self.pos = 0;
                        return Ok(self.decode_body(size, buf));
                    },
                }
            }
        }
        assert forall|q: int| !#[trigger] first_end(b, start, q) by {
            if first_end(b, start, q) {
                assert(b[q] >= 128);
            }
        }
        self.pos = p;
        Ok(None)
    }

    fn encode(&mut self, item: Vec<u8>, buf: &mut Vec<u8>) -> (r: Result<(), EncodeError>) {
        let ghost start = buf@;
        let len = item.len();
        let mut n = len;
        while n >= 128
            invariant
                buf@ + varint_bytes(n as nat) == start + varint_bytes(len as nat),
            decreases n,
        {
            let ghost before = buf@;
            buf.push((n % 128 + 128) as u8);
            assert(buf@ + varint_bytes((n / 128) as nat) =~= before + varint_bytes(n as nat));
            n = n / 128;
        }
        let ghost before = buf@;
        buf.push(n as u8);
        assert(buf@ =~= before + varint_bytes(n as nat));
        let mut item = item;
        buf.append(&mut item);
        Ok(())
    }
}

proof fn lemma_varint_bytes(n: nat)
    ensures
        varint_bytes(n).len() >= 1,
        varint_bytes(n)[varint_bytes(n).len() - 1] < 128,
        forall|j: int| 0 <= j < varint_bytes(n).len() - 1 ==> #[trigger] varint_bytes(n)[j] >= 128,
        varint_value(varint_bytes(n)) == n,
    decreases n,
{
    if n < 128 {
        let s = varint_bytes(n);
        assert(s.drop_first() =~= Seq::<u8>::empty());
        assert(varint_value(Seq::<u8>::empty()) == 0);
        assert(varint_value(s) == (s[0] % 128) as nat + 128 * varint_value(s.drop_first()));
    } else {
        lemma_varint_bytes(n / 128);
        let s = varint_bytes(n);
        assert(s.drop_first() =~= varint_bytes(n / 128));
        assert(s[0] % 128 == n % 128);
        assert(n == n % 128 + 128 * (n / 128));
        assert(varint_value(s) == (s[0] % 128) as nat + 128 * varint_value(s.drop_first()));
        assert forall|j: int| 0 <= j < s.len() - 1 implies #[trigger] s[j] >= 128 by {
            if j > 0 {
                assert(s[j] == varint_bytes(n / 128)[j - 1]);
            }
        }
    }
}

/// With nothing pending and nothing scanned, a frame, encoded and followed by
/// any bytes, decodes back to itself in one call, which leaves the codec as
/// it was and exactly the following bytes buffered.
pub proof fn lemma_varint_round_trip(c: VarIntLengthFieldCodec, x: Vec<u8>)
    requires
        c.scan_offset() == 0,
        c.pending() is None,
        x@.len() <= usize::MAX,
    ensures
        decodes_cleanly(c, x),
{
    let h = varint_bytes(x@.len());
    lemma_varint_bytes(x@.len());
    let q = h.len() - 1;
    assert forall|t: Seq<u8>, next: VarIntLengthFieldCodec, rest: Seq<u8>, r: Result<Option<Vec<u8>>, DecodeError>|
        #[trigger] c.decode_step(c.encoding(x) + t, next, rest, r) implies {
            &&& next == c
            &&& rest == t
            &&& r matches Ok(Some(v)) && c.decodes_to(v, x)
        } by {
        let buf = c.encoding(x) + t;
        assert(buf =~= h + (x@ + t));
        assert(buf[q] == h[q]);
        assert forall|j: int| 0 <= j < q implies buf[j] >= 128 by {
            assert(buf[j] == h[j]);
        }
        assert(first_end(buf, 0, q));
        assert(buf.take(q + 1) =~= h);
        assert(buf.skip(q + 1) =~= x@ + t);
        assert((x@ + t).take(x@.len() as int) =~= x@);
        assert((x@ + t).skip(x@.len() as int) =~= t);
    }
}

/// With nothing pending and nothing scanned, an empty buffer gives nothing.
pub proof fn lemma_varint_idles(c: VarIntLengthFieldCodec)
    requires
        c.scan_offset() == 0,
        c.pending() is None,
    ensures
        idles_on_empty(c),
{
    assert forall|next: VarIntLengthFieldCodec, rest: Seq<u8>, r: Result<Option<Vec<u8>>, DecodeError>|
        #[trigger] c.decode_step(seq![], next, rest, r) implies r == Ok::<
            Option<Vec<u8>>,
            DecodeError,
        >(None) && rest == Seq::<u8>::empty() && next == c by {
        assert(no_end(seq![], 0));
    }
}

/// Frames encoded in order into one buffer decode back one per call, in
/// order, starting with nothing pending; then decoding gives nothing and the
/// buffer is empty.
pub proof fn lemma_varint_stream(
    c: VarIntLengthFieldCodec,
    items: Seq<Vec<u8>>,
    states: Seq<VarIntLengthFieldCodec>,
    bufs: Seq<Seq<u8>>,
    results: Seq<Result<Option<Vec<u8>>, DecodeError>>,
)
    requires
        c.scan_offset() == 0,
        c.pending() is None,
        forall|j: int| 0 <= j < items.len() ==> (#[trigger] items[j])@.len() <= usize::MAX,
        is_decode_run(states, bufs, results),
        results.len() == items.len() + 1,
        states[0] == c,
        bufs[0] == encode_all(c, items),
    ensures
        forall|j: int|
            0 <= j < items.len() ==> (#[trigger] results[j] matches Ok(Some(v)) && v@
                == items[j]@),
        results[items.len() as int] == Ok::<Option<Vec<u8>>, DecodeError>(None),
        bufs[items.len() as int + 1] == Seq::<u8>::empty(),
{
    assert forall|j: int| 0 <= j < items.len() implies decodes_cleanly(c, #[trigger] items[j]) by {
        lemma_varint_round_trip(c, items[j]);
    }
    lemma_varint_idles(c);
    lemma_stream(c, items, states, bufs, results);
}

/// The codec's scan offset agrees with `buf`: every byte it has scanned
/// continues a varint.
pub open spec fn consistent_with(c: VarIntLengthFieldCodec, buf: Seq<u8>) -> bool {
    c.pending() is None ==> c.scan_offset() <= buf.len() && forall|j: int|
        0 <= j < c.scan_offset() ==> buf[j] >= 128
}

proof fn lemma_first_end_unique(buf: Seq<u8>, from: nat, q: int, q2: int)
    requires
        first_end(buf, from, q),
        first_end(buf, from, q2),
    ensures
        q == q2,
{
    if q < q2 {
        assert(buf[q] >= 128);
    } else if q2 < q {
        assert(buf[q2] >= 128);
    }
}

/// When a decode step gives no frame, bytes that arrive later are decoded as
/// if they had been there from the start: decoding from the state it left,
/// with more bytes appended to what it left buffered, takes the same step as
/// decoding from the earlier state with those bytes present.
pub proof fn lemma_varint_no_spurious_consumption(
    c: VarIntLengthFieldCodec,
    buf: Seq<u8>,
    next: VarIntLengthFieldCodec,
    rest: Seq<u8>,
    more: Seq<u8>,
    n1: VarIntLengthFieldCodec,
    rest1: Seq<u8>,
    r1: Result<Option<Vec<u8>>, DecodeError>,
    n2: VarIntLengthFieldCodec,
    rest2: Seq<u8>,
    r2: Result<Option<Vec<u8>>, DecodeError>,
)
    requires
        consistent_with(c, buf),
        c.decode_step(buf, next, rest, Ok(None)),
        next.decode_step(rest + more, n1, rest1, r1),
        c.decode_step(buf + more, n2, rest2, r2),
    ensures
        rest1 == rest2,
        frame_of(r1) == frame_of(r2),
        r1 is Ok <==> r2 is Ok,
        r2 is Ok ==> n1 == n2,
{
    let all = buf + more;
    if c.pending() is None {
        let from = c.scan_offset();
        if no_end(buf, from) {
            // Nothing was read: the scan offset moved to the end of `buf`.
            assert(next.scan_offset() == buf.len());
            assert(rest == buf);
            if no_end(all, from) {
                assert(no_end(all, next.scan_offset()));
            } else {
                let q = choose|q: int| from <= q < all.len() && all[q] < 128;
                lemma_first_end_exists(all, from, q);
                let q1 = choose|q1: int| first_end(all, from, q1);
                assert(q1 >= buf.len()) by {
                    if q1 < buf.len() {
                        assert(all[q1] == buf[q1]);
                    }
                }
                assert(first_end(all, next.scan_offset(), q1));
                assert forall|q2: int| #[trigger] first_end(all, next.scan_offset(), q2) implies q2 == q1 by {
                    assert(first_end(all, from, q2));
                    lemma_first_end_unique(all, from, q1, q2);
                }
            }
        } else {
            let q = choose|q: int| from <= q < buf.len() && buf[q] < 128;
            lemma_first_end_exists(buf, from, q);
            let q1 = choose|q1: int| first_end(buf, from, q1);
            assert(first_end(all, from, q1)) by {
                assert(all[q1] == buf[q1]);
                assert forall|j: int| from <= j < q1 implies all[j] >= 128 by {
                    assert(all[j] == buf[j]);
                }
            }
            assert(all.take(q1 + 1) =~= buf.take(q1 + 1));
            assert(all.skip(q1 + 1) =~= buf.skip(q1 + 1) + more);
            assert forall|q2: int| #[trigger] first_end(all, from, q2) implies q2 == q1 by {
                lemma_first_end_unique(all, from, q1, q2);
            }
            let v = varint_value(buf.take(q1 + 1));
            let b = buf.skip(q1 + 1);
            assert(b.len() < v);
        }
    }
    if r2 is Ok {
        assert(n1.scan_offset() == n2.scan_offset());
        assert(n1.pending() == n2.pending());
        assert(n1.pos == n2.pos);
        assert(n1.size == n2.size);
    }
}

proof fn lemma_first_end_exists(buf: Seq<u8>, from: nat, q: int)
    requires
        from <= q < buf.len(),
        buf[q] < 128,
    ensures
        exists|p: int| first_end(buf, from, p),
    decreases q - from,
{
    if !first_end(buf, from, q) {
        let j = choose|j: int| from <= j < q && buf[j] < 128;
        lemma_first_end_exists(buf, from, j);
    }
}

/// A proper prefix of an encoded frame gives nothing, with nothing pending
/// and nothing scanned at the start.
pub proof fn lemma_varint_waits(c: VarIntLengthFieldCodec, x: Vec<u8>)
    requires
        c.scan_offset() == 0,
        c.pending() is None,
        x@.len() <= usize::MAX,
    ensures
        waits_for(c, x),
{
    let h = varint_bytes(x@.len());
    lemma_varint_bytes(x@.len());
    let q = h.len() - 1;
    let e = c.encoding(x);
    assert forall|k: int, next: VarIntLengthFieldCodec, rest: Seq<u8>, r: Result<Option<Vec<u8>>, DecodeError>|
        0 <= k < e.len() && #[trigger] c.decode_step(e.take(k), next, rest, r) implies r == Ok::<
            Option<Vec<u8>>,
            DecodeError,
        >(None) by {
        let p = e.take(k);
        assert forall|j: int| 0 <= j < p.len() && j < q implies p[j] >= 128 by {
            assert(p[j] == h[j]);
        }
        if k <= q {
            assert(no_end(p, 0));
            assert forall|q2: int| !#[trigger] first_end(p, 0, q2) by {
                if first_end(p, 0, q2) {
                    assert(p[q2] >= 128);
                }
            }
        } else {
            assert(p[q] == h[q]);
            assert(first_end(p, 0, q));
            assert forall|q2: int| #[trigger] first_end(p, 0, q2) implies q2 == q by {
                lemma_first_end_unique(p, 0, q, q2);
            }
            assert(p.take(q + 1) =~= h);
        }
    }
}

/// With nothing pending and nothing scanned, a call that gives nothing
/// consumes nothing that later bytes would notice: a varint it has read
/// stands for the bytes it drained, and the bytes it has scanned continue a
/// varint whatever follows them.
pub proof fn lemma_varint_resumes(c: VarIntLengthFieldCodec)
    requires
        c.scan_offset() == 0,
        c.pending() is None,
    ensures
        resumes(c),
{
    assert forall|buf: Seq<u8>, next: VarIntLengthFieldCodec, rest: Seq<u8>|
        #[trigger] c.decode_step(buf, next, rest, Ok(None)) implies behaves_like(
            next,
            rest,
            c,
            buf,
        ) by {
        assert forall|more: Seq<u8>, n: VarIntLengthFieldCodec, r2: Seq<u8>, res: Result<Option<Vec<u8>>, DecodeError>|
            #[trigger] next.decode_step(rest + more, n, r2, res) implies (res is Ok
            ==> c.decode_step(buf + more, n, r2, res)) && (res is Err ==> exists|
            n2: VarIntLengthFieldCodec,
            rest2: Seq<u8>,
        | c.decode_step(buf + more, n2, rest2, res)) by {
            lemma_varint_resumes_step(c, buf, next, rest, more, n, r2, res);
        }
    }
}

proof fn lemma_varint_resumes_step(
    c: VarIntLengthFieldCodec,
    buf: Seq<u8>,
    next: VarIntLengthFieldCodec,
    rest: Seq<u8>,
    more: Seq<u8>,
    n: VarIntLengthFieldCodec,
    r2: Seq<u8>,
    res: Result<Option<Vec<u8>>, DecodeError>,
)
    requires
        c.scan_offset() == 0,
        c.pending() is None,
        c.decode_step(buf, next, rest, Ok(None)),
        next.decode_step(rest + more, n, r2, res),
    ensures
        res is Ok ==> c.decode_step(buf + more, n, r2, res),
        res is Err ==> c.decode_step(buf + more, c, buf + more, res),
{
    let all = buf + more;
    if no_end(buf, 0) {
        assert(rest == buf);
        assert(next.scan_offset() == buf.len());
        if no_end(all, buf.len() as nat) {
            assert(no_end(all, 0)) by {
                assert forall|j: int| 0 <= j < all.len() implies all[j] >= 128 by {
                    if j < buf.len() {
                        assert(all[j] == buf[j]);
                    }
                }
            }
            assert forall|q: int| !#[trigger] first_end(all, 0, q) by {
                if first_end(all, 0, q) {
                    assert(all[q] >= 128);
                }
            }
        } else {
            let q = choose|q: int| buf.len() <= q < all.len() && all[q] < 128;
            lemma_first_end_exists(all, buf.len() as nat, q);
            let q1 = choose|q1: int| first_end(all, buf.len() as nat, q1);
            assert(first_end(all, 0, q1)) by {
                assert forall|j: int| 0 <= j < q1 implies all[j] >= 128 by {
                    if j < buf.len() {
                        assert(all[j] == buf[j]);
                    }
                }
            }
            assert(!no_end(all, 0));
            assert forall|q2: int| #[trigger] first_end(all, 0, q2) implies q2 == q1 by {
                lemma_first_end_unique(all, 0, q1, q2);
            }
        }
    } else {
        let q0 = choose|q: int| 0 <= q < buf.len() && buf[q] < 128;
        lemma_first_end_exists(buf, 0, q0);
        let q = choose|q: int| first_end(buf, 0, q);
        assert(first_end(all, 0, q)) by {
            assert(all[q] == buf[q]);
            assert forall|j: int| 0 <= j < q implies all[j] >= 128 by {
                assert(all[j] == buf[j]);
            }
        }
        assert(!no_end(all, 0)) by {
            assert(all[q] == buf[q]);
        }
        assert(all.take(q + 1) =~= buf.take(q + 1));
        assert(all.skip(q + 1) =~= buf.skip(q + 1) + more);
        assert forall|q2: int| #[trigger] first_end(all, 0, q2) implies q2 == q by {
            lemma_first_end_unique(all, 0, q, q2);
        }
    }
}

/// Frames whose bytes arrive in arbitrary chunks with a call of `decode`
/// after each, starting with nothing pending and nothing scanned, come back
/// in order, each as soon as all of its bytes have arrived.
pub proof fn lemma_varint_chunked(
    c: VarIntLengthFieldCodec,
    items: Seq<Vec<u8>>,
    states: Seq<VarIntLengthFieldCodec>,
    bufs: Seq<Seq<u8>>,
    chunks: Seq<Seq<u8>>,
    results: Seq<Result<Option<Vec<u8>>, DecodeError>>,
)
    requires
        c.scan_offset() == 0,
        c.pending() is None,
        forall|j: int| 0 <= j < items.len() ==> (#[trigger] items[j])@.len() <= usize::MAX,
        is_chunked_run(states, bufs, chunks, results),
        states[0] == c,
        encode_all(c, items).len() >= flatten(chunks).len(),
        flatten(chunks) == encode_all(c, items).take(flatten(chunks).len() as int),
    ensures
        forall|j: int|
            0 <= j < results.len() ==> #[trigger] chunk_result_ok(c, items, chunks, results, j),
{
    assert forall|j: int| 0 <= j < items.len() implies decodes_cleanly(c, #[trigger] items[j])
        && waits_for(c, items[j]) by {
        lemma_varint_round_trip(c, items[j]);
        lemma_varint_waits(c, items[j]);
    }
    lemma_varint_idles(c);
    lemma_varint_resumes(c);
    lemma_chunked(c, items, states, bufs, chunks, results);
}

} // verus!
