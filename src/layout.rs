//! Byte layouts of the fixed-width unsigned integers, and the low-level
//! reading and writing of bytes that every codec builds on.
use crate::endian::Endianness;
use vstd::prelude::*;

verus! {

/// The two bytes of `x`, least significant first for little endian and
/// most significant first for big endian.
pub open spec fn u16_bytes(x: u16, e: Endianness) -> Seq<u8> {
    let b0 = x as u8;
    let b1 = (x >> 8u16) as u8;
    match e {
        Endianness::Little => seq![b0, b1],
        Endianness::Big => seq![b1, b0],
    }
}

/// The value whose bytes, least significant first, are `b0, b1`.
pub open spec fn u16_of(b0: u8, b1: u8) -> u16 {
    (b0 as u16) | ((b1 as u16) << 8u16)
}

/// The 16-bit value that the first two bytes of `s` hold in byte order `e`.
pub open spec fn u16_from(s: Seq<u8>, e: Endianness) -> u16
    recommends
        s.len() >= 2,
{
    match e {
        Endianness::Little => u16_of(s[0], s[1]),
        Endianness::Big => u16_of(s[1], s[0]),
    }
}

/// The four bytes of `x` in byte order `e`.
pub open spec fn u32_bytes(x: u32, e: Endianness) -> Seq<u8> {
    let b0 = x as u8;
    let b1 = (x >> 8u32) as u8;
    let b2 = (x >> 16u32) as u8;
    let b3 = (x >> 24u32) as u8;
    match e {
        Endianness::Little => seq![b0, b1, b2, b3],
        Endianness::Big => seq![b3, b2, b1, b0],
    }
}

/// The value whose bytes, least significant first, are `b0 .. b3`.
pub open spec fn u32_of(b0: u8, b1: u8, b2: u8, b3: u8) -> u32 {
    (b0 as u32) | ((b1 as u32) << 8u32) | ((b2 as u32) << 16u32) | ((b3 as u32) << 24u32)
}

/// The 32-bit value that the first four bytes of `s` hold in byte order `e`.
pub open spec fn u32_from(s: Seq<u8>, e: Endianness) -> u32
    recommends
        s.len() >= 4,
{
    match e {
        Endianness::Little => u32_of(s[0], s[1], s[2], s[3]),
        Endianness::Big => u32_of(s[3], s[2], s[1], s[0]),
    }
}

/// The eight bytes of `x` in byte order `e`.
pub open spec fn u64_bytes(x: u64, e: Endianness) -> Seq<u8> {
    let lo = u32_bytes(x as u32, Endianness::Little);
    let hi = u32_bytes((x >> 32u64) as u32, Endianness::Little);
    match e {
        Endianness::Little => lo + hi,
        Endianness::Big => (lo + hi).reverse(),
    }
}

/// The value whose low and high halves are `lo` and `hi`.
pub open spec fn u64_of(lo: u32, hi: u32) -> u64 {
    (lo as u64) | ((hi as u64) << 32u64)
}

/// The 64-bit value that the first eight bytes of `s` hold in byte order `e`.
pub open spec fn u64_from(s: Seq<u8>, e: Endianness) -> u64
    recommends
        s.len() >= 8,
{
    match e {
        Endianness::Little => u64_of(
            u32_of(s[0], s[1], s[2], s[3]),
            u32_of(s[4], s[5], s[6], s[7]),
        ),
        Endianness::Big => u64_of(
            u32_of(s[7], s[6], s[5], s[4]),
            u32_of(s[3], s[2], s[1], s[0]),
        ),
    }
}

proof fn lemma_u16_bits(x: u16)
    by (bit_vector)
    ensures
        u16_of(x as u8, (x >> 8u16) as u8) == x,
{
}

proof fn lemma_u32_bits(x: u32)
    by (bit_vector)
    ensures
        u32_of(x as u8, (x >> 8u32) as u8, (x >> 16u32) as u8, (x >> 24u32) as u8) == x,
{
}

proof fn lemma_u64_bits(x: u64)
    by (bit_vector)
    ensures
        u64_of(x as u32, (x >> 32u64) as u32) == x,
{
}

/// A signed byte survives the trip through its unsigned bit pattern.
pub proof fn lemma_i8_bits(x: i8)
    by (bit_vector)
    ensures
        (x as u8) as i8 == x,
{
}

/// A signed 16-bit value survives the trip through its unsigned bit pattern.
pub proof fn lemma_i16_bits(x: i16)
    by (bit_vector)
    ensures
        (x as u16) as i16 == x,
{
}

/// A signed 32-bit value survives the trip through its unsigned bit pattern.
pub proof fn lemma_i32_bits(x: i32)
    by (bit_vector)
    ensures
        (x as u32) as i32 == x,
{
}

/// A signed 64-bit value survives the trip through its unsigned bit pattern.
pub proof fn lemma_i64_bits(x: i64)
    by (bit_vector)
    ensures
        (x as u64) as i64 == x,
{
}

/// Reading back the bytes of a 16-bit value gives the value.
pub proof fn lemma_u16_round_trip(x: u16, e: Endianness, rest: Seq<u8>)
    ensures
        u16_bytes(x, e).len() == 2,
        u16_from(u16_bytes(x, e) + rest, e) == x,
{
    lemma_u16_bits(x);
}

/// Reading back the bytes of a 32-bit value gives the value.
pub proof fn lemma_u32_round_trip(x: u32, e: Endianness, rest: Seq<u8>)
    ensures
        u32_bytes(x, e).len() == 4,
        u32_from(u32_bytes(x, e) + rest, e) == x,
{
    lemma_u32_bits(x);
}

/// Reading back the bytes of a 64-bit value gives the value.
pub proof fn lemma_u64_round_trip(x: u64, e: Endianness, rest: Seq<u8>)
    ensures
        u64_bytes(x, e).len() == 8,
        u64_from(u64_bytes(x, e) + rest, e) == x,
{
    lemma_u64_bits(x);
    lemma_u32_bits(x as u32);
    lemma_u32_bits((x >> 32u64) as u32);
    let s = u64_bytes(x, e) + rest;
    match e {
        Endianness::Little => {
            assert(s[3] == (x as u32 >> 24u32) as u8);
        },
        Endianness::Big => {
            let le = u32_bytes(x as u32, Endianness::Little) + u32_bytes(
                (x >> 32u64) as u32,
                Endianness::Little,
            );
            assert(s[0] == le[7]);
            assert(s[7] == le[0]);
        },
    }
}

/// Copies `src` into `buffer` from `offset` on, leaving the other bytes alone.
pub fn put_bytes(buffer: &mut [u8], offset: usize, src: &[u8])
    requires
        offset + src@.len() <= old(buffer)@.len(),
    ensures
        final(buffer)@ == old(buffer)@.subrange(0, offset as int) + src@ + old(buffer)@.subrange(
            offset + src@.len(),
            old(buffer)@.len() as int,
        ),
{
    let len: usize = buffer.len();
    let mut i: usize = 0;
    while i < src.len()
        invariant
            i <= src@.len(),
            len == old(buffer)@.len(),
            offset + src@.len() <= old(buffer)@.len(),
            buffer@.len() == old(buffer)@.len(),
            forall|k: int| 0 <= k < offset ==> buffer@[k] == old(buffer)@[k],
            forall|k: int| offset + src@.len() <= k < buffer@.len() ==> buffer@[k] == old(buffer)@[k],
            forall|k: int| 0 <= k < i ==> buffer@[offset + k] == src@[k],
        decreases src@.len() - i,
    {
        buffer[offset + i] = src[i];
        i = i + 1;
    }
    assert(buffer@ =~= old(buffer)@.subrange(0, offset as int) + src@ + old(buffer)@.subrange(
        offset + src@.len(),
        old(buffer)@.len() as int,
    ));
}

/// The bytes of `x` in byte order `e`.
pub fn u16_to_bytes(x: u16, e: Endianness) -> (r: [u8; 2])
    ensures
        r@ == u16_bytes(x, e),
{
    let b0 = x as u8;
    let b1 = (x >> 8u16) as u8;
    let r = match e {
        Endianness::Little => [b0, b1],
        Endianness::Big => [b1, b0],
    };
    assert(r@ =~= u16_bytes(x, e));
    r
}

/// The bytes of `x` in byte order `e`.
pub fn u32_to_bytes(x: u32, e: Endianness) -> (r: [u8; 4])
    ensures
        r@ == u32_bytes(x, e),
{
    let b0 = x as u8;
    let b1 = (x >> 8u32) as u8;
    let b2 = (x >> 16u32) as u8;
    let b3 = (x >> 24u32) as u8;
    let r = match e {
        Endianness::Little => [b0, b1, b2, b3],
        Endianness::Big => [b3, b2, b1, b0],
    };
    assert(r@ =~= u32_bytes(x, e));
    r
}

/// The bytes of `x` in byte order `e`.
pub fn u64_to_bytes(x: u64, e: Endianness) -> (r: [u8; 8])
    ensures
        r@ == u64_bytes(x, e),
{
    let lo = u32_to_bytes(x as u32, Endianness::Little);
    let hi = u32_to_bytes((x >> 32u64) as u32, Endianness::Little);
    let r = match e {
        Endianness::Little => [lo[0], lo[1], lo[2], lo[3], hi[0], hi[1], hi[2], hi[3]],
        Endianness::Big => [hi[3], hi[2], hi[1], hi[0], lo[3], lo[2], lo[1], lo[0]],
    };
    assert(r@ =~= u64_bytes(x, e));
    r
}

/// The 16-bit value at `offset` of `buf` in byte order `e`.
pub fn get_u16(buf: &[u8], offset: usize, e: Endianness) -> (r: u16)
    requires
        offset + 2 <= buf@.len(),
    ensures
        r == u16_from(buf@.skip(offset as int), e),
{
    let b0 = buf[offset];
    let b1 = buf[offset + 1];
    match e {
        Endianness::Little => (b0 as u16) | ((b1 as u16) << 8u16),
        Endianness::Big => (b1 as u16) | ((b0 as u16) << 8u16),
    }
}

/// The 32-bit value at `offset` of `buf` in byte order `e`.
pub fn get_u32(buf: &[u8], offset: usize, e: Endianness) -> (r: u32)
    requires
        offset + 4 <= buf@.len(),
    ensures
        r == u32_from(buf@.skip(offset as int), e),
{
    let b0 = buf[offset] as u32;
    let b1 = buf[offset + 1] as u32;
    let b2 = buf[offset + 2] as u32;
    let b3 = buf[offset + 3] as u32;
    match e {
        Endianness::Little => b0 | (b1 << 8u32) | (b2 << 16u32) | (b3 << 24u32),
        Endianness::Big => b3 | (b2 << 8u32) | (b1 << 16u32) | (b0 << 24u32),
    }
}

/// The 64-bit value at `offset` of `buf` in byte order `e`.
pub fn get_u64(buf: &[u8], offset: usize, e: Endianness) -> (r: u64)
    requires
        offset + 8 <= buf@.len(),
    ensures
        r == u64_from(buf@.skip(offset as int), e),
{
    let len: usize = buf.len();
    assert(offset + 8 <= len);
    let (lo, hi) = match e {
        Endianness::Little => (
            get_u32(buf, offset, Endianness::Little),
            get_u32(buf, offset + 4, Endianness::Little),
        ),
        Endianness::Big => (
            get_u32(buf, offset + 4, Endianness::Big),
            get_u32(buf, offset, Endianness::Big),
        ),
    };
    (lo as u64) | ((hi as u64) << 32u64)
}

} // verus!
