//! Frames that end with a delimiter.
//!
//! A delimiter is a trait rather than a closed enum, so that users can add
//! their own; this module implements it for a byte, a character (whose frames
//! must be UTF-8), line breaks and byte sequences.
use crate::buf::buf_bytes;
use crate::codec::{
    behaves_like, chunk_result_ok, decodes_cleanly, encode_all, flatten, idles_on_empty,
    is_chunked_run, is_decode_run, lemma_behaves_like_itself, lemma_chunked, lemma_stream, resumes,
    waits_for, Codec, DecodeError, EncodeError,
};
use crate::search::{
    find_byte, find_bytes, first_match, lemma_first_match_exists, matches_at, no_match,
};
use tokio_core::io::EasyBuf;
use vstd::prelude::*;
use vstd::utf8::{encode_scalar, encode_utf8, valid_utf8};

verus! {

/// Delimitered protocol: frames are separated by a delimiter.
#[derive(Debug, Clone, Copy)]
pub struct DelimiterProto<D>(D);

impl<D: Delimiter> DelimiterProto<D> {
    /// Creates a `DelimiterProto` from the specified delimiter.
    pub fn new(delimiter: D) -> (r: Self)
        ensures
            r.spec_delimiter() == delimiter,
    {
        DelimiterProto(delimiter)
    }

    pub closed spec fn spec_delimiter(&self) -> D {
        self.0
    }

    /// The delimiter that each codec of this protocol uses.
    pub fn delimiter(&self) -> (r: &D)
        ensures
            *r == self.spec_delimiter(),
    {
        &self.0
    }
}

/// The codec of [`DelimiterProto`].
#[derive(Debug, Clone)]
pub struct DelimiterCodec<D>(D);

impl<D> DelimiterCodec<D> {
    pub fn new(delimiter: D) -> (r: DelimiterCodec<D>)
        ensures
            r.spec_delimiter() == delimiter,
    {
        DelimiterCodec(delimiter)
    }

    pub closed spec fn spec_delimiter(&self) -> D {
        self.0
    }
}

impl<D: Delimiter> Codec for DelimiterCodec<D> {
    type In = EasyBuf;

    type Out = Vec<u8>;

    open spec fn well_formed(&self) -> bool {
        true
    }

    open spec fn decode_step(
        self,
        buf: Seq<u8>,
        next: Self,
        rest: Seq<u8>,
        r: Result<Option<EasyBuf>, DecodeError>,
    ) -> bool {
        let d = self.spec_delimiter();
        &&& next == self
        &&& delimited_step(d.marker(), |f: Seq<u8>| d.accepts(f), buf, rest, r)
    }

    open spec fn decodes_to(&self, v: EasyBuf, item: Vec<u8>) -> bool {
        buf_bytes(v) == item@
    }

    /// Every frame is written as it is; one that holds the delimiter comes
    /// back cut at it (see [`delimiter_free`]).
    open spec fn encodable(&self, item: Vec<u8>) -> bool {
        true
    }

    open spec fn encoding(&self, item: Vec<u8>) -> Seq<u8> {
        item@ + self.spec_delimiter().marker()
    }

    fn decode(&mut self, buf: &mut EasyBuf) -> (r: Result<Option<EasyBuf>, DecodeError>) {
        self.0.pop_buf(buf)
    }

    fn encode(&mut self, item: Vec<u8>, buf: &mut Vec<u8>) -> (r: Result<(), EncodeError>) {
        let mut item = item;
        buf.append(&mut item);
        self.0.write_delimiter(buf);
        Ok(())
    }
}

/// What one call of `pop_buf` may do, for a delimiter whose bytes are `m` and
/// which accepts a frame `f` when `accepts(f)`: with no occurrence of `m` the
/// buffer stays as it is and nothing is returned; at the first occurrence
/// `p`, the bytes before it are returned and the buffer loses them and the
/// delimiter, or, when they are not acceptable, an error is returned and the
/// buffer stays as it is.
pub open spec fn delimited_step(
    m: Seq<u8>,
    accepts: spec_fn(Seq<u8>) -> bool,
    buf: Seq<u8>,
    rest: Seq<u8>,
    r: Result<Option<EasyBuf>, DecodeError>,
) -> bool {
    &&& no_match(buf, m) ==> r == Ok::<Option<EasyBuf>, DecodeError>(None) && rest == buf
    &&& forall|p: int|
        #[trigger] first_match(buf, m, p) ==> if accepts(buf.take(p)) {
            &&& r matches Ok(Some(f))
            &&& buf_bytes(f) == buf.take(p)
            &&& rest == buf.skip(p + m.len())
        } else {
            r == Err::<Option<EasyBuf>, DecodeError>(DecodeError::InvalidEncoding) && rest == buf
        }
}

/// A delimiter.
pub trait Delimiter {
    /// The bytes that end a frame.
    spec fn marker(&self) -> Seq<u8>;

    /// Whether the bytes before a delimiter make an acceptable frame.
    spec fn accepts(&self, frame: Seq<u8>) -> bool;

    /// Removes the bytes of `buf` up to and including the first occurrence of
    /// this delimiter, and returns them without the delimiter.
    fn pop_buf(&self, buf: &mut EasyBuf) -> (r: Result<Option<EasyBuf>, DecodeError>)
        ensures
            delimited_step(
                self.marker(),
                |f: Seq<u8>| self.accepts(f),
                buf_bytes(*old(buf)),
                buf_bytes(*final(buf)),
                r,
            ),
    ;

    /// Appends this delimiter to `buf`.
    fn write_delimiter(&self, buf: &mut Vec<u8>)
        ensures
            final(buf)@ == old(buf)@ + self.marker(),
    ;
}

/// Splits `buf` at `p`, the offset of the first occurrence of a delimiter of
/// `n` bytes: returns the bytes before it and drops the delimiter.
fn split_at_delimiter(buf: &mut EasyBuf, p: usize, n: usize) -> (r: EasyBuf)
    requires
        p + n <= buf_bytes(*old(buf)).len(),
    ensures
        buf_bytes(r) == buf_bytes(*old(buf)).take(p as int),
        buf_bytes(*final(buf)) == buf_bytes(*old(buf)).skip(p + n),
{
    let frame = buf.drain_to(p);
    let _ = buf.drain_to(n);
    assert(buf_bytes(*buf) =~= buf_bytes(*old(buf)).skip(p + n));
    frame
}

/// The step of a delimiter that accepts every frame, once the first
/// occurrence of its bytes `pat` is known.
fn pop_at(buf: &mut EasyBuf, found: Option<usize>, pat_len: usize, pat: Ghost<Seq<u8>>) -> (r: Result<
    Option<EasyBuf>,
    DecodeError,
>)
    requires
        pat_len == pat@.len(),
        match found {
            Some(i) => first_match(buf_bytes(*old(buf)), pat@, i as int),
            None => no_match(buf_bytes(*old(buf)), pat@),
        },
    ensures
        delimited_step(pat@, |f: Seq<u8>| true, buf_bytes(*old(buf)), buf_bytes(*final(buf)), r),
{
    let ghost b = buf_bytes(*buf);
    match found {
        Some(i) => {
            let frame = split_at_delimiter(buf, i, pat_len);
            assert forall|p: int| #[trigger] first_match(b, pat@, p) implies p == i by {
                if p < i {
                    assert(!matches_at(b, pat@, p));
                } else if p > i {
                    assert(!matches_at(b, pat@, i as int));
                }
            }
            assert(!no_match(b, pat@)) by {
                assert(matches_at(b, pat@, i as int));
            }
            Ok(Some(frame))
        },
        None => {
            assert forall|p: int| !#[trigger] first_match(b, pat@, p) by {
                assert(!matches_at(b, pat@, p));
            }
            Ok(None)
        },
    }
}

/// Finds the first occurrence of `pat` and splits the buffer there.
fn pop_sequence(pat: &[u8], buf: &mut EasyBuf) -> (r: Result<Option<EasyBuf>, DecodeError>)
    ensures
        delimited_step(pat@, |f: Seq<u8>| true, buf_bytes(*old(buf)), buf_bytes(*final(buf)), r),
{
    let found = find_bytes(buf.as_slice(), pat);
    let ghost p = pat@;
    pop_at(buf, found, pat.len(), Ghost(p))
}

impl Delimiter for u8 {
    open spec fn marker(&self) -> Seq<u8> {
        seq![*self]
    }

    open spec fn accepts(&self, frame: Seq<u8>) -> bool {
        true
    }

    fn pop_buf(&self, buf: &mut EasyBuf) -> (r: Result<Option<EasyBuf>, DecodeError>) {
        let found = find_byte(buf.as_slice(), *self);
        let ghost pat = seq![*self];
        pop_at(buf, found, 1, Ghost(pat))
    }

    fn write_delimiter(&self, buf: &mut Vec<u8>) {
        buf.push(*self);
    }
}

// Tags and ranges of UTF-8 encoded characters.
const TAG_CONT: u8 = 0b1000_0000;
const TAG_TWO_B: u8 = 0b1100_0000;
const TAG_THREE_B: u8 = 0b1110_0000;
const TAG_FOUR_B: u8 = 0b1111_0000;
const MAX_ONE_B: u32 = 0x80;
const MAX_TWO_B: u32 = 0x800;
const MAX_THREE_B: u32 = 0x10000;

/// The UTF-8 bytes of a character.
pub fn encode_char(c: char) -> (r: Vec<u8>)
    ensures
        r@ == encode_scalar(c as u32),
{
    let code = c as u32;
    proof {
        vstd::utf8::char_is_scalar(c);
    }
    if code < MAX_ONE_B {
        let b0 = code as u8;
        assert(b0 == (code & 0x7F) as u8) by (bit_vector)
            requires
                b0 == code as u8,
                code < 0x80u32,
        ;
        vec![b0]
    } else if code < MAX_TWO_B {
        let b0 = (code >> 6 & 0x1F) as u8 | TAG_TWO_B;
        let b1 = (code & 0x3F) as u8 | TAG_CONT;
        assert(b0 == (0xC0u8 | ((code >> 6) & 0x1F) as u8) && b1 == (0x80u8 | (code & 0x3F) as u8))
            by (bit_vector)
            requires
                b0 == (code >> 6 & 0x1F) as u8 | 0xC0u8,
                b1 == (code & 0x3F) as u8 | 0x80u8,
        ;
        vec![b0, b1]
    } else if code < MAX_THREE_B {
        let b0 = (code >> 12 & 0x0F) as u8 | TAG_THREE_B;
        let b1 = (code >> 6 & 0x3F) as u8 | TAG_CONT;
        let b2 = (code & 0x3F) as u8 | TAG_CONT;
        assert(b0 == (0xE0u8 | ((code >> 12) & 0x0F) as u8) && b1 == (0x80u8 | ((code >> 6)
            & 0x3F) as u8) && b2 == (0x80u8 | (code & 0x3F) as u8)) by (bit_vector)
            requires
                b0 == (code >> 12 & 0x0F) as u8 | 0xE0u8,
                b1 == (code >> 6 & 0x3F) as u8 | 0x80u8,
                b2 == (code & 0x3F) as u8 | 0x80u8,
        ;
        vec![b0, b1, b2]
    } else {
        let b0 = (code >> 18 & 0x07) as u8 | TAG_FOUR_B;
        let b1 = (code >> 12 & 0x3F) as u8 | TAG_CONT;
        let b2 = (code >> 6 & 0x3F) as u8 | TAG_CONT;
        let b3 = (code & 0x3F) as u8 | TAG_CONT;
        assert(b0 == (0xF0u8 | ((code >> 18) & 0x7) as u8) && b1 == (0x80u8 | ((code >> 12)
            & 0x3F) as u8) && b2 == (0x80u8 | ((code >> 6) & 0x3F) as u8) && b3 == (0x80u8 | (code
            & 0x3F) as u8)) by (bit_vector)
            requires
                b0 == (code >> 18 & 0x07) as u8 | 0xF0u8,
                b1 == (code >> 12 & 0x3F) as u8 | 0x80u8,
                b2 == (code >> 6 & 0x3F) as u8 | 0x80u8,
                b3 == (code & 0x3F) as u8 | 0x80u8,
        ;
        vec![b0, b1, b2, b3]
    }
}

/// Relies on `std::str::from_utf8`: it succeeds exactly on valid UTF-8.
#[verifier::external_body]
fn is_utf8(bytes: &[u8]) -> (r: bool)
    ensures
        r == valid_utf8(bytes@),
{
    std::str::from_utf8(bytes).is_ok()
}

/// A character delimiter. The bytes before it must be valid UTF-8; the bytes
/// after it are not looked at, and while no delimiter has arrived nothing is
/// checked, so a character split across two reads is simply waited for.
impl Delimiter for char {
    open spec fn marker(&self) -> Seq<u8> {
        encode_scalar(*self as u32)
    }

    open spec fn accepts(&self, frame: Seq<u8>) -> bool {
        valid_utf8(frame)
    }

    fn pop_buf(&self, buf: &mut EasyBuf) -> (r: Result<Option<EasyBuf>, DecodeError>) {
        let ghost b = buf_bytes(*buf);
        let d = encode_char(*self);
        let found = find_bytes(buf.as_slice(), d.as_slice());
        match found {
            Some(i) => {
                assert forall|p: int| #[trigger] first_match(b, d@, p) implies p == i by {
                    if p < i {
                        assert(!matches_at(b, d@, p));
                    } else if p > i {
                        assert(!matches_at(b, d@, i as int));
                    }
                }
                assert(!no_match(b, d@)) by {
                    assert(matches_at(b, d@, i as int));
                }
                let head = vstd::slice::slice_subrange(buf.as_slice(), 0, i);
                assert(head@ == b.take(i as int));
                if is_utf8(head) {
                    Ok(Some(split_at_delimiter(buf, i, d.len())))
                } else {
                    Err(DecodeError::InvalidEncoding)
                }
            },
            None => {
                assert forall|p: int| !#[trigger] first_match(b, d@, p) by {
                    assert(!matches_at(b, d@, p));
                }
                Ok(None)
            },
        }
    }

    fn write_delimiter(&self, buf: &mut Vec<u8>) {
        let mut d = encode_char(*self);
        buf.append(&mut d);
    }
}

/// A line break delimiter.
#[derive(Debug, Clone, Copy, PartialEq, Eq, Structural)]
pub enum LineDelimiter {
    /// Carriage return.
    Cr,
    /// Line feed.
    Lf,
    /// Carriage return / line feed.
    CrLf,
}

impl LineDelimiter {
    /// The bytes of this line break.
    pub open spec fn spec_bytes(&self) -> Seq<u8> {
        match *self {
            LineDelimiter::Cr => seq![13u8],
            LineDelimiter::Lf => seq![10u8],
            LineDelimiter::CrLf => seq![13u8, 10u8],
        }
    }

    /// The bytes of this line break.
    pub fn as_slice(&self) -> (r: Vec<u8>)
        ensures
            r@ == self.spec_bytes(),
    {
        let r = match *self {
            LineDelimiter::Cr => vec![13u8],
            LineDelimiter::Lf => vec![10u8],
            LineDelimiter::CrLf => vec![13u8, 10u8],
        };
        assert(r@ =~= self.spec_bytes());
        r
    }
}

impl Delimiter for LineDelimiter {
    open spec fn marker(&self) -> Seq<u8> {
        self.spec_bytes()
    }

    open spec fn accepts(&self, frame: Seq<u8>) -> bool {
        true
    }

    fn pop_buf(&self, buf: &mut EasyBuf) -> (r: Result<Option<EasyBuf>, DecodeError>) {
        let pat = self.as_slice();
        pop_sequence(pat.as_slice(), buf)
    }

    fn write_delimiter(&self, buf: &mut Vec<u8>) {
        let mut pat = self.as_slice();
        buf.append(&mut pat);
    }
}

impl<'a> Delimiter for &'a [u8] {
    open spec fn marker(&self) -> Seq<u8> {
        self@
    }

    open spec fn accepts(&self, frame: Seq<u8>) -> bool {
        true
    }

    fn pop_buf(&self, buf: &mut EasyBuf) -> (r: Result<Option<EasyBuf>, DecodeError>) {
        pop_sequence(*self, buf)
    }

    fn write_delimiter(&self, buf: &mut Vec<u8>) {
        let mut pat = vstd::slice::slice_to_vec(*self);
        buf.append(&mut pat);
    }
}

impl Delimiter for Vec<u8> {
    open spec fn marker(&self) -> Seq<u8> {
        self@
    }

    open spec fn accepts(&self, frame: Seq<u8>) -> bool {
        true
    }

    fn pop_buf(&self, buf: &mut EasyBuf) -> (r: Result<Option<EasyBuf>, DecodeError>) {
        pop_sequence(self.as_slice(), buf)
    }

    fn write_delimiter(&self, buf: &mut Vec<u8>) {
        let mut pat = self.clone();
        buf.append(&mut pat);
    }
}

impl<'a> Delimiter for &'a str {
    open spec fn marker(&self) -> Seq<u8> {
        encode_utf8(self@)
    }

    open spec fn accepts(&self, frame: Seq<u8>) -> bool {
        true
    }

    fn pop_buf(&self, buf: &mut EasyBuf) -> (r: Result<Option<EasyBuf>, DecodeError>) {
        pop_sequence(self.as_bytes(), buf)
    }

    fn write_delimiter(&self, buf: &mut Vec<u8>) {
        let mut pat = vstd::slice::slice_to_vec(self.as_bytes());
        buf.append(&mut pat);
    }
}

impl Delimiter for String {
    open spec fn marker(&self) -> Seq<u8> {
        encode_utf8(self@)
    }

    open spec fn accepts(&self, frame: Seq<u8>) -> bool {
        true
    }

    fn pop_buf(&self, buf: &mut EasyBuf) -> (r: Result<Option<EasyBuf>, DecodeError>) {
        pop_sequence(self.as_str().as_bytes(), buf)
    }

    fn write_delimiter(&self, buf: &mut Vec<u8>) {
        let mut pat = vstd::slice::slice_to_vec(self.as_str().as_bytes());
        buf.append(&mut pat);
    }
}

/// No occurrence of the delimiter bytes `m` in `f` followed by `m` starts
/// inside `f`: `f` ends where the delimiter written after it begins.
pub open spec fn delimiter_free(f: Seq<u8>, m: Seq<u8>) -> bool {
    forall|j: int| 0 <= j < f.len() ==> !#[trigger] matches_at(f + m, m, j)
}

/// A frame that the delimiter does not cut short and that the delimiter
/// accepts, followed by the delimiter and any bytes, decodes back to itself in
/// one call, which leaves exactly the following bytes buffered.
pub proof fn lemma_delimiter_round_trip<D: Delimiter>(c: DelimiterCodec<D>, x: Vec<u8>)
    requires
        delimiter_free(x@, c.spec_delimiter().marker()),
        c.spec_delimiter().accepts(x@),
    ensures
        decodes_cleanly(c, x),
{
    let d = c.spec_delimiter();
    let m = d.marker();
    let n = x@.len() as int;
    assert forall|t: Seq<u8>, next: DelimiterCodec<D>, rest: Seq<u8>, r: Result<Option<EasyBuf>, DecodeError>|
        #[trigger] c.decode_step(c.encoding(x) + t, next, rest, r) implies {
            &&& next == c
            &&& rest == t
            &&& r matches Ok(Some(v)) && c.decodes_to(v, x)
        } by {
        let buf = c.encoding(x) + t;
        assert(buf =~= x@ + m + t);
        assert(buf.subrange(n, n + m.len()) =~= m);
        assert forall|j: int| 0 <= j < n implies !#[trigger] matches_at(buf, m, j) by {
            assert(!matches_at(x@ + m, m, j));
            if j + m.len() <= buf.len() {
                assert(buf.subrange(j, j + m.len()) =~= (x@ + m).subrange(j, j + m.len()));
            }
        }
        assert(first_match(buf, m, n));
        assert(buf.take(n) =~= x@);
        assert(buf.skip(n + m.len()) =~= t);
    }
}

/// With a delimiter of at least one byte, an empty buffer gives nothing.
pub proof fn lemma_delimiter_idles<D: Delimiter>(c: DelimiterCodec<D>)
    requires
        c.spec_delimiter().marker().len() > 0,
    ensures
        idles_on_empty(c),
{
    let m = c.spec_delimiter().marker();
    assert(no_match(seq![], m));
}

/// Frames that the delimiter does not cut short and that it accepts, encoded
/// in order into one buffer, decode back one per call, in order; then
/// decoding gives nothing and the buffer is empty.
pub proof fn lemma_delimiter_stream<D: Delimiter>(
    c: DelimiterCodec<D>,
    items: Seq<Vec<u8>>,
    states: Seq<DelimiterCodec<D>>,
    bufs: Seq<Seq<u8>>,
    results: Seq<Result<Option<EasyBuf>, DecodeError>>,
)
    requires
        c.spec_delimiter().marker().len() > 0,
        forall|j: int|
            0 <= j < items.len() ==> delimiter_free(
                #[trigger] items[j]@,
                c.spec_delimiter().marker(),
            ) && c.spec_delimiter().accepts(items[j]@),
        is_decode_run(states, bufs, results),
        results.len() == items.len() + 1,
        states[0] == c,
        bufs[0] == encode_all(c, items),
    ensures
        forall|j: int|
            0 <= j < items.len() ==> (#[trigger] results[j] matches Ok(Some(v)) && buf_bytes(v)
                == items[j]@),
        results[items.len() as int] == Ok::<Option<EasyBuf>, DecodeError>(None),
        bufs[items.len() as int + 1] == Seq::<u8>::empty(),
{
    assert forall|j: int| 0 <= j < items.len() implies decodes_cleanly(c, #[trigger] items[j]) by {
        lemma_delimiter_round_trip(c, items[j]);
    }
    lemma_delimiter_idles(c);
    lemma_stream(c, items, states, bufs, results);
}

/// A proper prefix of a frame that the delimiter does not cut short,
/// followed by the delimiter, gives nothing.
pub proof fn lemma_delimiter_waits<D: Delimiter>(c: DelimiterCodec<D>, x: Vec<u8>)
    requires
        delimiter_free(x@, c.spec_delimiter().marker()),
    ensures
        waits_for(c, x),
{
    let m = c.spec_delimiter().marker();
    let e = c.encoding(x);
    assert(e == x@ + m);
    assert forall|k: int, next: DelimiterCodec<D>, rest: Seq<u8>, r: Result<Option<EasyBuf>, DecodeError>|
        0 <= k < e.len() && #[trigger] c.decode_step(e.take(k), next, rest, r) implies r == Ok::<
            Option<EasyBuf>,
            DecodeError,
        >(None) by {
        let p = e.take(k);
        assert forall|j: int| !#[trigger] matches_at(p, m, j) by {
            if matches_at(p, m, j) {
                assert(p.subrange(j, j + m.len()) =~= e.subrange(j, j + m.len()));
                assert(matches_at(e, m, j));
                assert(j < x@.len());
            }
        }
    }
}

/// A call that gives nothing consumes nothing.
pub proof fn lemma_delimiter_resumes<D: Delimiter>(c: DelimiterCodec<D>)
    ensures
        resumes(c),
{
    assert forall|buf: Seq<u8>, next: DelimiterCodec<D>, rest: Seq<u8>|
        #[trigger] c.decode_step(buf, next, rest, Ok(None)) implies behaves_like(
            next,
            rest,
            c,
            buf,
        ) by {
        lemma_delimiter_no_spurious_consumption(c, buf, next, rest);
        lemma_behaves_like_itself(c, buf);
    }
}

/// Frames that the delimiter does not cut short and that it accepts, whose
/// bytes arrive in arbitrary chunks with a call of `decode` after each, come
/// back in order, each as soon as its delimiter has arrived.
pub proof fn lemma_delimiter_chunked<D: Delimiter>(
    c: DelimiterCodec<D>,
    items: Seq<Vec<u8>>,
    states: Seq<DelimiterCodec<D>>,
    bufs: Seq<Seq<u8>>,
    chunks: Seq<Seq<u8>>,
    results: Seq<Result<Option<EasyBuf>, DecodeError>>,
)
    requires
        c.spec_delimiter().marker().len() > 0,
        forall|j: int|
            0 <= j < items.len() ==> delimiter_free(
                #[trigger] items[j]@,
                c.spec_delimiter().marker(),
            ) && c.spec_delimiter().accepts(items[j]@),
        is_chunked_run(states, bufs, chunks, results),
        states[0] == c,
        encode_all(c, items).len() >= flatten(chunks).len(),
        flatten(chunks) == encode_all(c, items).take(flatten(chunks).len() as int),
    ensures
        forall|j: int|
            0 <= j < results.len() ==> #[trigger] chunk_result_ok(c, items, chunks, results, j),
{
    assert forall|j: int| 0 <= j < items.len() implies decodes_cleanly(c, #[trigger] items[j])
        && waits_for(c, items[j]) by {
        lemma_delimiter_round_trip(c, items[j]);
        lemma_delimiter_waits(c, items[j]);
    }
    lemma_delimiter_idles(c);
    lemma_delimiter_resumes(c);
    lemma_chunked(c, items, states, bufs, chunks, results);
}

/// A call that gives no frame leaves codec and buffer as they were, so bytes
/// that arrive later are decoded as if they had been there from the start.
pub proof fn lemma_delimiter_no_spurious_consumption<D: Delimiter>(
    c: DelimiterCodec<D>,
    buf: Seq<u8>,
    next: DelimiterCodec<D>,
    rest: Seq<u8>,
)
    requires
        c.decode_step(buf, next, rest, Ok(None)),
    ensures
        next == c,
        rest == buf,
{
    let m = c.spec_delimiter().marker();
    if !no_match(buf, m) {
        let j = choose|j: int| matches_at(buf, m, j);
        lemma_first_match_exists(buf, m, j);
    }
}

} // verus!
