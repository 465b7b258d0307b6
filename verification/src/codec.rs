//! Byte-level building blocks shared by both account layouts: the numeric
//! reading of commitments, the concatenation of fixed-width records, and the
//! little-endian reads and writes that go through `byteorder`.
use vstd::prelude::*;
use vstd::bytes::spec_u32_from_le_bytes;
use vstd::bytes::spec_u32_to_le_bytes;
use vstd::bytes::spec_u64_from_le_bytes;
use vstd::bytes::spec_u64_to_le_bytes;
use byteorder::ByteOrder;
use byteorder::LittleEndian;
use bigint::U256;

verus! {

/// The unsigned integer that a byte string denotes when read big-endian.
pub open spec fn be_value(s: Seq<u8>) -> nat
    decreases s.len(),
{
    if s.len() == 0 {
        0
    } else {
        be_value(s.drop_last()) * 256 + s.last() as nat
    }
}

/// Two byte strings denote the same big-endian integer.
pub open spec fn same_value(a: Seq<u8>, b: Seq<u8>) -> bool {
    be_value(a) == be_value(b)
}

/// A byte string of zeros denotes zero.
pub proof fn lemma_zeros_value(s: Seq<u8>)
    requires
        forall|i: int| 0 <= i < s.len() ==> s[i] == 0,
    ensures
        be_value(s) == 0,
    decreases s.len(),
{
    if s.len() > 0 {
        lemma_zeros_value(s.drop_last());
    }
}

/// The concatenation of a sequence of byte strings, in order.
pub open spec fn flatten(s: Seq<Seq<u8>>) -> Seq<u8>
    decreases s.len(),
{
    if s.len() == 0 {
        Seq::empty()
    } else {
        flatten(s.drop_last()) + s.last()
    }
}

/// Every record of `s` has exactly `w` bytes.
pub open spec fn all_of_width(s: Seq<Seq<u8>>, w: nat) -> bool {
    forall|i: int| 0 <= i < s.len() ==> #[trigger] s[i].len() == w
}

/// The records of width `w` that make up the first `n * w` bytes of `b`.
pub open spec fn chunks(b: Seq<u8>, w: nat, n: nat) -> Seq<Seq<u8>> {
    Seq::new(n, |i: int| b.subrange(i * w, i * w + w))
}

pub proof fn lemma_flatten_push(s: Seq<Seq<u8>>, x: Seq<u8>)
    ensures
        flatten(s.push(x)) == flatten(s) + x,
{
    assert(s.push(x).drop_last() =~= s);
}

pub proof fn lemma_flatten_len(s: Seq<Seq<u8>>, w: nat)
    requires
        all_of_width(s, w),
    ensures
        flatten(s).len() == s.len() * w,
    decreases s.len(),
{
    if s.len() > 0 {
        lemma_flatten_len(s.drop_last(), w);
        assert((s.len() - 1) * w + w == s.len() * w) by (nonlinear_arith);
    }
}

/// Byte `k` of record `i` sits at position `i * w + k` of the concatenation.
pub proof fn lemma_flatten_index(s: Seq<Seq<u8>>, w: nat, i: int, k: int)
    requires
        all_of_width(s, w),
        0 <= i < s.len(),
        0 <= k < w,
    ensures
        0 <= i * w + k < flatten(s).len(),
        flatten(s)[i * w + k] == s[i][k],
    decreases s.len(),
{
    lemma_flatten_len(s, w);
    let n = s.len() - 1;
    lemma_flatten_len(s.drop_last(), w);
    assert(0 <= i * w) by (nonlinear_arith)
        requires
            0 <= i,
    ;
    assert(i * w + k < s.len() * w) by (nonlinear_arith)
        requires
            0 <= i < s.len(),
            0 <= k < w,
    ;
    if i < n {
        lemma_flatten_index(s.drop_last(), w, i, k);
        assert(i * w + k < n * w) by (nonlinear_arith)
            requires
                0 <= i < n,
                0 <= k < w,
        ;
    } else {
        assert(i * w == n * w);
    }
}

/// Cutting a byte string into records of width `w` and joining them again
/// gives the byte string back.
pub proof fn lemma_flatten_chunks(b: Seq<u8>, w: nat, n: nat)
    requires
        b.len() == n * w,
    ensures
        flatten(chunks(b, w, n)) == b,
    decreases n,
{
    if n > 0 {
        let m = (n - 1) as nat;
        assert(m * w + w == n * w) by (nonlinear_arith)
            requires
                m == n - 1,
        ;
        assert(0 <= m * w) by (nonlinear_arith);
        let front = b.subrange(0, (m * w) as int);
        lemma_flatten_chunks(front, w, m);
        assert(chunks(b, w, n).drop_last() =~= chunks(front, w, m)) by {
            assert forall|i: int| 0 <= i < m implies #[trigger] chunks(b, w, n)[i]
                =~= chunks(front, w, m)[i] by {
                assert(i * w + w <= m * w) by (nonlinear_arith)
                    requires
                        0 <= i < m,
                ;
                assert(0 <= i * w) by (nonlinear_arith)
                    requires
                        0 <= i,
                ;
            }
        }
        assert(chunks(b, w, n).last() == b.subrange((m * w) as int, (n * w) as int));
        assert(b =~= front + b.subrange((m * w) as int, (n * w) as int));
    } else {
        assert(b.len() == 0) by (nonlinear_arith)
            requires
                b.len() == n * w,
                n == 0,
        ;
        assert(b =~= Seq::<u8>::empty());
    }
}

/// The records of a concatenation of width-`w` records are those records.
pub proof fn lemma_chunks_flatten(s: Seq<Seq<u8>>, w: nat)
    requires
        all_of_width(s, w),
    ensures
        chunks(flatten(s), w, s.len()) == s,
{
    lemma_flatten_len(s, w);
    assert forall|i: int| 0 <= i < s.len() implies #[trigger] chunks(flatten(s), w, s.len())[i]
        =~= s[i] by {
        assert(i * w + w <= s.len() * w) by (nonlinear_arith)
            requires
                0 <= i < s.len(),
        ;
        assert(0 <= i * w) by (nonlinear_arith)
            requires
                0 <= i,
        ;
        assert forall|k: int| 0 <= k < w implies flatten(s).subrange(i * w, i * w + w)[k]
            == s[i][k] by {
            lemma_flatten_index(s, w, i, k);
        }
    }
    assert(chunks(flatten(s), w, s.len()) =~= s);
}

/// `LittleEndian::read_u64` of byteorder on `buf[at..]`: the `u64` whose
/// little-endian bytes are `buf[at..at + 8]` (it panics on fewer than eight
/// bytes, which `requires` leaves out).
#[verifier::external_body]
pub(crate) fn read_u64_le(buf: &[u8], at: usize) -> (r: u64)
    requires
        at + 8 <= buf@.len(),
    ensures
        r == spec_u64_from_le_bytes(buf@.subrange(at as int, at + 8)),
{
    LittleEndian::read_u64(&buf[at..])
}

/// `LittleEndian::write_u64` of byteorder on `buf[at..]`: it writes the eight
/// little-endian bytes of `n` at `at` and leaves every other byte alone.
#[verifier::external_body]
pub(crate) fn write_u64_le(buf: &mut [u8], at: usize, n: u64)
    requires
        at + 8 <= old(buf)@.len(),
    ensures
        final(buf)@ == old(buf)@.subrange(0, at as int) + spec_u64_to_le_bytes(n) + old(
            buf,
        )@.subrange(at + 8, old(buf)@.len() as int),
{
    LittleEndian::write_u64(&mut buf[at..], n)
}

/// `LittleEndian::read_u32` of byteorder on `buf[at..]`: the `u32` whose
/// little-endian bytes are `buf[at..at + 4]`.
#[verifier::external_body]
pub(crate) fn read_u32_le(buf: &[u8], at: usize) -> (r: u32)
    requires
        at + 4 <= buf@.len(),
    ensures
        r == spec_u32_from_le_bytes(buf@.subrange(at as int, at + 4)),
{
    LittleEndian::read_u32(&buf[at..])
}

/// `LittleEndian::write_u32` of byteorder on `buf[at..]`: it writes the four
/// little-endian bytes of `n` at `at` and leaves every other byte alone.
#[verifier::external_body]
pub(crate) fn write_u32_le(buf: &mut [u8], at: usize, n: u32)
    requires
        at + 4 <= old(buf)@.len(),
    ensures
        final(buf)@ == old(buf)@.subrange(0, at as int) + spec_u32_to_le_bytes(n) + old(
            buf,
        )@.subrange(at + 4, old(buf)@.len() as int),
{
    LittleEndian::write_u32(&mut buf[at..], n)
}

/// bigint's `U256::from` applied to both byte strings, each read big-endian
/// (it panics on more than 32 bytes, which `requires` leaves out), and the
/// two 256-bit integers compared with `==`: true exactly when both strings
/// denote the same integer.
#[verifier::external_body]
pub(crate) fn u256_equal(stored: &[u8; 32], given: &[u8]) -> (r: bool)
    requires
        given@.len() <= 32,
    ensures
        r == same_value(stored@, given@),
{
    U256::from(*stored) == U256::from(given)
}

} // verus!
