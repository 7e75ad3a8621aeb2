//! Unsigned integers of one to eight bytes, in big- or little-endian order.
use byteorder::{BigEndian, ByteOrder, LittleEndian};
use vstd::prelude::*;

verus! {

/// byteorder's `BigEndian` marker type, which selects big-endian integers.
#[verifier::external_type_specification]
#[verifier::external_body]
pub struct ExBigEndian(BigEndian);

/// byteorder's `LittleEndian` marker type, which selects little-endian
/// integers.
#[verifier::external_type_specification]
#[verifier::external_body]
pub struct ExLittleEndian(LittleEndian);

/// 256 to the power `k`: one more than the largest value of `k` bytes.
pub open spec fn pow256(k: nat) -> nat
    decreases k,
{
    if k == 0 {
        1
    } else {
        256 * pow256((k - 1) as nat)
    }
}

/// The value of `s` read most significant byte first.
pub open spec fn be_value(s: Seq<u8>) -> nat
    decreases s.len(),
{
    if s.len() == 0 {
        0
    } else {
        be_value(s.drop_last()) * 256 + s.last() as nat
    }
}

/// `n` written in `k` bytes, most significant byte first.
pub open spec fn be_bytes(n: nat, k: nat) -> Seq<u8>
    decreases k,
{
    if k == 0 {
        seq![]
    } else {
        be_bytes(n / 256, (k - 1) as nat).push((n % 256) as u8)
    }
}

/// The value of `s` read least significant byte first.
pub open spec fn le_value(s: Seq<u8>) -> nat
    decreases s.len(),
{
    if s.len() == 0 {
        0
    } else {
        s[0] as nat + 256 * le_value(s.drop_first())
    }
}

/// `n` written in `k` bytes, least significant byte first.
pub open spec fn le_bytes(n: nat, k: nat) -> Seq<u8>
    decreases k,
{
    if k == 0 {
        seq![]
    } else {
        seq![(n % 256) as u8] + le_bytes(n / 256, (k - 1) as nat)
    }
}

proof fn lemma_split_256(n: nat, k: nat)
    requires
        k >= 1,
        n < pow256(k),
    ensures
        n / 256 < pow256((k - 1) as nat),
        (n / 256) * 256 + n % 256 == n,
{
    let p = pow256((k - 1) as nat);
    assert(n < 256 * p);
    assert(n / 256 < p) by (nonlinear_arith)
        requires
            n < 256 * p,
    ;
}

proof fn lemma_be_round_trip(n: nat, k: nat)
    requires
        n < pow256(k),
    ensures
        be_bytes(n, k).len() == k,
        be_value(be_bytes(n, k)) == n,
    decreases k,
{
    if k > 0 {
        lemma_split_256(n, k);
        lemma_be_round_trip(n / 256, (k - 1) as nat);
        let s = be_bytes(n, k);
        assert(s.drop_last() =~= be_bytes(n / 256, (k - 1) as nat));
    }
}

proof fn lemma_le_round_trip(n: nat, k: nat)
    requires
        n < pow256(k),
    ensures
        le_bytes(n, k).len() == k,
        le_value(le_bytes(n, k)) == n,
    decreases k,
{
    if k > 0 {
        lemma_split_256(n, k);
        lemma_le_round_trip(n / 256, (k - 1) as nat);
        let s = le_bytes(n, k);
        assert(s.drop_first() =~= le_bytes(n / 256, (k - 1) as nat));
    }
}

/// 256 to the eighth is 2 to the 64th: every `u64` fits in eight bytes.
pub proof fn lemma_pow256_8()
    ensures
        pow256(8) == 0x1_0000_0000_0000_0000,
{
    reveal_with_fuel(pow256, 9);
}

proof fn lemma_pow256_monotonic(a: nat, b: nat)
    requires
        a <= b,
    ensures
        pow256(a) <= pow256(b),
    decreases b - a,
{
    if a < b {
        lemma_pow256_monotonic(a, (b - 1) as nat);
    }
}

/// Whether `n` fits in `k` bytes.
pub fn fits_in_bytes(n: u64, k: usize) -> (r: bool)
    requires
        1 <= k <= 8,
    ensures
        r == (n < pow256(k as nat)),
{
    if k == 8 {
        proof {
            lemma_pow256_8();
        }
        return true;
    }
    proof {
        reveal_with_fuel(pow256, 8);
    }
    let mut limit: u64 = 1;
    let mut i: usize = 0;
    while i < k
        invariant
            0 <= i <= k < 8,
            limit == pow256(i as nat),
        decreases k - i,
    {
        proof {
            lemma_pow256_monotonic(i as nat, 6);
            reveal_with_fuel(pow256, 7);
            assert(pow256(6) == 0x1_0000_0000_0000);
        }
        limit = limit * 256;
        i = i + 1;
    }
    n < limit
}

/// A byte order in which length fields and request ids are written.
pub trait Endianness {
    /// The value of the bytes `s`, read in this order.
    spec fn value_of(s: Seq<u8>) -> nat;

    /// `n` written in `k` bytes in this order.
    spec fn bytes_of(n: nat, k: nat) -> Seq<u8>;

    proof fn lemma_round_trip(n: nat, k: nat)
        requires
            n < pow256(k),
        ensures
            Self::bytes_of(n, k).len() == k,
            Self::value_of(Self::bytes_of(n, k)) == n,
    ;

    /// Reads the first `nbytes` bytes of `buf` as an unsigned integer.
    fn read_uint(buf: &[u8], nbytes: usize) -> (r: u64)
        requires
            1 <= nbytes <= 8,
            nbytes <= buf@.len(),
        ensures
            r as nat == Self::value_of(buf@.take(nbytes as int)),
    ;

    /// Writes `n` as an unsigned integer of `nbytes` bytes.
    fn write_uint(n: u64, nbytes: usize) -> (r: Vec<u8>)
        requires
            1 <= nbytes <= 8,
            n < pow256(nbytes as nat),
        ensures
            r@ == Self::bytes_of(n as nat, nbytes as nat),
    ;
}

/// Relies on `byteorder::BigEndian::read_uint`: the first `nbytes` bytes as a
/// big-endian integer; it panics unless `1 <= nbytes <= 8` and
/// `nbytes <= buf.len()`.
#[verifier::external_body]
fn be_read_uint(buf: &[u8], nbytes: usize) -> (r: u64)
    requires
        1 <= nbytes <= 8,
        nbytes <= buf@.len(),
    ensures
        r as nat == be_value(buf@.take(nbytes as int)),
{
    <BigEndian as ByteOrder>::read_uint(buf, nbytes)
}

/// Relies on `byteorder::BigEndian::write_uint`: `n` in the first `nbytes`
/// bytes, big-endian; it panics unless `n` fits in `nbytes <= 8` bytes.
#[verifier::external_body]
fn be_write_uint(n: u64, nbytes: usize) -> (r: Vec<u8>)
    requires
        1 <= nbytes <= 8,
        n < pow256(nbytes as nat),
    ensures
        r@ == be_bytes(n as nat, nbytes as nat),
{
    let mut out = vec![0u8; nbytes];
    <BigEndian as ByteOrder>::write_uint(&mut out, n, nbytes);
    out
}

/// Relies on `byteorder::LittleEndian::read_uint`: the first `nbytes` bytes
/// as a little-endian integer; it panics unless `1 <= nbytes <= 8` and
/// `nbytes <= buf.len()`.
#[verifier::external_body]
fn le_read_uint(buf: &[u8], nbytes: usize) -> (r: u64)
    requires
        1 <= nbytes <= 8,
        nbytes <= buf@.len(),
    ensures
        r as nat == le_value(buf@.take(nbytes as int)),
{
    <LittleEndian as ByteOrder>::read_uint(buf, nbytes)
}

/// Relies on `byteorder::LittleEndian::write_uint`: `n` in the first `nbytes`
/// bytes, little-endian; it panics unless `n` fits in `nbytes <= 8` bytes.
#[verifier::external_body]
fn le_write_uint(n: u64, nbytes: usize) -> (r: Vec<u8>)
    requires
        1 <= nbytes <= 8,
        n < pow256(nbytes as nat),
    ensures
        r@ == le_bytes(n as nat, nbytes as nat),
{
    let mut out = vec![0u8; nbytes];
    <LittleEndian as ByteOrder>::write_uint(&mut out, n, nbytes);
    out
}

impl Endianness for BigEndian {
    open spec fn value_of(s: Seq<u8>) -> nat {
        be_value(s)
    }

    open spec fn bytes_of(n: nat, k: nat) -> Seq<u8> {
        be_bytes(n, k)
    }

    proof fn lemma_round_trip(n: nat, k: nat) {
        lemma_be_round_trip(n, k);
    }

    fn read_uint(buf: &[u8], nbytes: usize) -> (r: u64) {
        be_read_uint(buf, nbytes)
    }

    fn write_uint(n: u64, nbytes: usize) -> (r: Vec<u8>) {
        be_write_uint(n, nbytes)
    }
}

impl Endianness for LittleEndian {
    open spec fn value_of(s: Seq<u8>) -> nat {
        le_value(s)
    }

    open spec fn bytes_of(n: nat, k: nat) -> Seq<u8> {
        le_bytes(n, k)
    }

    proof fn lemma_round_trip(n: nat, k: nat) {
        lemma_le_round_trip(n, k);
    }

    fn read_uint(buf: &[u8], nbytes: usize) -> (r: u64) {
        le_read_uint(buf, nbytes)
    }

    fn write_uint(n: u64, nbytes: usize) -> (r: Vec<u8>) {
        le_write_uint(n, nbytes)
    }
}

} // verus!
