//! Finding a byte or a byte sequence in a buffer.
use vstd::prelude::*;

verus! {

/// `pat` occurs in `buf` at offset `i`.
pub open spec fn matches_at(buf: Seq<u8>, pat: Seq<u8>, i: int) -> bool {
    &&& 0 <= i
    &&& i + pat.len() <= buf.len()
    &&& buf.subrange(i, i + pat.len()) == pat
}

/// `i` is the offset of the first occurrence of `pat` in `buf`.
pub open spec fn first_match(buf: Seq<u8>, pat: Seq<u8>, i: int) -> bool {
    &&& matches_at(buf, pat, i)
    &&& forall|j: int| 0 <= j < i ==> !#[trigger] matches_at(buf, pat, j)
}

/// `pat` does not occur in `buf`.
pub open spec fn no_match(buf: Seq<u8>, pat: Seq<u8>) -> bool {
    forall|j: int| !#[trigger] matches_at(buf, pat, j)
}

/// Relies on `memchr::memchr`: the index of the first byte of `haystack` equal
/// to `needle`, or `None` when there is none.
#[verifier::external_body]
fn memchr_first(needle: u8, haystack: &[u8]) -> (r: Option<usize>)
    ensures
        match r {
            Some(i) => i < haystack@.len() && haystack@[i as int] == needle && forall|j: int|
                0 <= j < i ==> haystack@[j] != needle,
            None => forall|j: int| 0 <= j < haystack@.len() ==> haystack@[j] != needle,
        },
{
    memchr::memchr(needle, haystack)
}

/// Relies on `twoway::find_bytes`: the offset of the first occurrence of
/// `pattern` in `text`, or `None` when there is none.
#[verifier::external_body]
pub(crate) fn find_bytes(text: &[u8], pattern: &[u8]) -> (r: Option<usize>)
    ensures
        match r {
            Some(i) => first_match(text@, pattern@, i as int),
            None => no_match(text@, pattern@),
        },
{
    twoway::find_bytes(text, pattern)
}

/// The first occurrence of the one-byte sequence `[b]` in `text`.
pub fn find_byte(text: &[u8], b: u8) -> (r: Option<usize>)
    ensures
        match r {
            Some(i) => first_match(text@, seq![b], i as int),
            None => no_match(text@, seq![b]),
        },
{
    let r = memchr_first(b, text);
    match r {
        Some(i) => {
            assert(text@.subrange(i as int, i + 1) =~= seq![b]);
            assert forall|j: int| 0 <= j < i implies !#[trigger] matches_at(text@, seq![b], j) by {
                if matches_at(text@, seq![b], j) {
                    assert(text@.subrange(j, j + 1)[0] == text@[j]);
                }
            }
        },
        None => {
            assert forall|j: int| !#[trigger] matches_at(text@, seq![b], j) by {
                if matches_at(text@, seq![b], j) {
                    assert(text@.subrange(j, j + 1)[0] == text@[j]);
                }
            }
        },
    }
    r
}

/// Where `pat` occurs in `buf`, it has a first occurrence.
pub proof fn lemma_first_match_exists(buf: Seq<u8>, pat: Seq<u8>, i: int)
    requires
        matches_at(buf, pat, i),
    ensures
        exists|p: int| first_match(buf, pat, p),
    decreases i,
{
    if !first_match(buf, pat, i) {
        let j = choose|j: int| 0 <= j < i && matches_at(buf, pat, j);
        lemma_first_match_exists(buf, pat, j);
    }
}

} // verus!
