//! Little-endian integers on byte sequences.

use byteorder::{ByteOrder, LittleEndian};
use vstd::bytes::{
    lemma_auto_spec_u16_to_from_le_bytes, lemma_auto_spec_u32_to_from_le_bytes,
    spec_u16_from_le_bytes, spec_u16_to_le_bytes, spec_u32_from_le_bytes, spec_u32_to_le_bytes,
};
use vstd::prelude::*;
use vstd::slice::slice_subrange;

verus! {

/// The four bytes that encode `n`, least significant first.
pub open spec fn le32(n: u32) -> Seq<u8> {
    spec_u32_to_le_bytes(n)
}

/// The two bytes that encode `n`, least significant first.
pub open spec fn le16(n: u16) -> Seq<u8> {
    spec_u16_to_le_bytes(n)
}

/// The `u32` stored little-endian at `at`; meaningful when four bytes are there.
pub open spec fn read32(bytes: Seq<u8>, at: int) -> u32 {
    spec_u32_from_le_bytes(bytes.subrange(at, at + 4))
}

/// The `u16` stored little-endian at `at`; meaningful when two bytes are there.
pub open spec fn read16(bytes: Seq<u8>, at: int) -> u16 {
    spec_u16_from_le_bytes(bytes.subrange(at, at + 2))
}

/// Encoding has a fixed width and decoding inverts it.
pub proof fn lemma_le_round_trip()
    ensures
        forall|n: u32| #[trigger] le32(n).len() == 4 && read32(le32(n), 0) == n,
        forall|n: u16| #[trigger] le16(n).len() == 2 && read16(le16(n), 0) == n,
{
    lemma_auto_spec_u32_to_from_le_bytes();
    lemma_auto_spec_u16_to_from_le_bytes();
    assert forall|n: u32| #[trigger] le32(n).len() == 4 && read32(le32(n), 0) == n by {
        assert(le32(n).subrange(0, 4) =~= le32(n));
    }
    assert forall|n: u16| #[trigger] le16(n).len() == 2 && read16(le16(n), 0) == n by {
        assert(le16(n).subrange(0, 2) =~= le16(n));
    }
}

/// If the four bytes at `at` are the encoding of `n`, reading there gives `n`.
pub proof fn lemma_read32_of(bytes: Seq<u8>, at: int, n: u32)
    requires
        0 <= at,
        at + 4 <= bytes.len(),
        bytes.subrange(at, at + 4) == le32(n),
    ensures
        read32(bytes, at) == n,
{
    lemma_auto_spec_u32_to_from_le_bytes();
    assert(spec_u32_to_le_bytes(n).len() == 4);
}

/// If the two bytes at `at` are the encoding of `n`, reading there gives `n`.
pub proof fn lemma_read16_of(bytes: Seq<u8>, at: int, n: u16)
    requires
        0 <= at,
        at + 2 <= bytes.len(),
        bytes.subrange(at, at + 2) == le16(n),
    ensures
        read16(bytes, at) == n,
{
    lemma_auto_spec_u16_to_from_le_bytes();
    assert(spec_u16_to_le_bytes(n).len() == 2);
}

/// `byteorder::LittleEndian::write_u32` on a fresh four-byte buffer: the
/// buffer then holds the little-endian encoding of `n`.
#[verifier::external_body]
pub(crate) fn u32_to_le(n: u32) -> (out: Vec<u8>)
    ensures
        out@ == le32(n),
{
    let mut out = vec![0u8; 4];
    LittleEndian::write_u32(&mut out, n);
    out
}

/// `byteorder::LittleEndian::write_u16` on a fresh two-byte buffer: the
/// buffer then holds the little-endian encoding of `n`.
#[verifier::external_body]
pub(crate) fn u16_to_le(n: u16) -> (out: Vec<u8>)
    ensures
        out@ == le16(n),
{
    let mut out = vec![0u8; 2];
    LittleEndian::write_u16(&mut out, n);
    out
}

/// `byteorder::LittleEndian::read_u32`: decodes the first four bytes of
/// `buf`, least significant first. It panics on a shorter buffer.
#[verifier::external_body]
pub(crate) fn u32_from_le(buf: &[u8]) -> (n: u32)
    requires
        buf@.len() >= 4,
    ensures
        n == read32(buf@, 0),
{
    LittleEndian::read_u32(buf)
}

/// `byteorder::LittleEndian::read_u16`: decodes the first two bytes of
/// `buf`, least significant first. It panics on a shorter buffer.
#[verifier::external_body]
pub(crate) fn u16_from_le(buf: &[u8]) -> (n: u16)
    requires
        buf@.len() >= 2,
    ensures
        n == read16(buf@, 0),
{
    LittleEndian::read_u16(buf)
}

/// Reads the `u32` stored at `at`.
pub fn read_u32_at(bytes: &[u8], at: usize) -> (n: u32)
    requires
        at + 4 <= bytes@.len(),
    ensures
        n == read32(bytes@, at as int),
{
    let len: usize = bytes.len();
    let window = slice_subrange(bytes, at, at + 4);
    assert(window@.subrange(0, 4) =~= bytes@.subrange(at as int, at + 4));
    u32_from_le(window)
}

/// Reads the `u16` stored at `at`.
pub fn read_u16_at(bytes: &[u8], at: usize) -> (n: u16)
    requires
        at + 2 <= bytes@.len(),
    ensures
        n == read16(bytes@, at as int),
{
    let len: usize = bytes.len();
    let window = slice_subrange(bytes, at, at + 2);
    assert(window@.subrange(0, 2) =~= bytes@.subrange(at as int, at + 2));
    u16_from_le(window)
}

/// Appends `src` to `dst`.
pub fn append_bytes(dst: &mut Vec<u8>, src: &[u8])
    ensures
        final(dst)@ == old(dst)@ + src@,
{
    let n: usize = src.len();
    let mut i: usize = 0;
    while i < n
        invariant
            i <= n,
            n == src@.len(),
            dst@ == old(dst)@ + src@.subrange(0, i as int),
        decreases n - i,
    {
        dst.push(src[i]);
        i = i + 1;
        assert(dst@ =~= old(dst)@ + src@.subrange(0, i as int));
    }
    assert(src@.subrange(0, n as int) =~= src@);
}

} // verus!
