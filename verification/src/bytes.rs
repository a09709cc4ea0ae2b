//! Little-endian byte layouts of the fixed-width integers.

use byteorder::{ByteOrder, LittleEndian};
use vstd::prelude::*;

verus! {

/// The two little-endian bytes of `v`.
pub open spec fn le_u16(v: u16) -> Seq<u8> {
    seq![(v & 0xff) as u8, ((v >> 8u16) & 0xff) as u8]
}

/// The four little-endian bytes of `v`.
pub open spec fn le_u32(v: u32) -> Seq<u8> {
    seq![
        (v & 0xff) as u8,
        ((v >> 8u32) & 0xff) as u8,
        ((v >> 16u32) & 0xff) as u8,
        ((v >> 24u32) & 0xff) as u8,
    ]
}

/// The eight little-endian bytes of `v`.
pub open spec fn le_u64(v: u64) -> Seq<u8> {
    seq![
        (v & 0xff) as u8,
        ((v >> 8u64) & 0xff) as u8,
        ((v >> 16u64) & 0xff) as u8,
        ((v >> 24u64) & 0xff) as u8,
        ((v >> 32u64) & 0xff) as u8,
        ((v >> 40u64) & 0xff) as u8,
        ((v >> 48u64) & 0xff) as u8,
        ((v >> 56u64) & 0xff) as u8,
    ]
}

/// The `u16` whose little-endian bytes are the first two of `b`.
pub open spec fn u16_from_le(b: Seq<u8>) -> u16 {
    (b[0] as u16) | ((b[1] as u16) << 8u16)
}

/// The `u32` whose little-endian bytes are the first four of `b`.
pub open spec fn u32_from_le(b: Seq<u8>) -> u32 {
    (b[0] as u32) | ((b[1] as u32) << 8u32) | ((b[2] as u32) << 16u32) | ((b[3] as u32) << 24u32)
}

/// The `u64` whose little-endian bytes are the first eight of `b`.
pub open spec fn u64_from_le(b: Seq<u8>) -> u64 {
    (b[0] as u64) | ((b[1] as u64) << 8u64) | ((b[2] as u64) << 16u64) | ((b[3] as u64) << 24u64)
        | ((b[4] as u64) << 32u64) | ((b[5] as u64) << 40u64) | ((b[6] as u64) << 48u64) | ((
    b[7] as u64) << 56u64)
}

/// Reading back the bytes of a `u16` gives the `u16`.
pub proof fn lemma_u16_roundtrip(v: u16)
    ensures
        le_u16(v).len() == 2,
        u16_from_le(le_u16(v)) == v,
{
    let b = le_u16(v);
    let b0 = b[0];
    let b1 = b[1];
    assert(b0 == (v & 0xff) as u8 && b1 == ((v >> 8u16) & 0xff) as u8 ==> (b0 as u16) | ((
    b1 as u16) << 8u16) == v) by (bit_vector);
}

/// Reading back the bytes of a `u32` gives the `u32`.
pub proof fn lemma_u32_roundtrip(v: u32)
    ensures
        le_u32(v).len() == 4,
        u32_from_le(le_u32(v)) == v,
{
    let b = le_u32(v);
    let b0 = b[0];
    let b1 = b[1];
    let b2 = b[2];
    let b3 = b[3];
    assert(b0 == (v & 0xff) as u8 && b1 == ((v >> 8u32) & 0xff) as u8 && b2 == ((v >> 16u32)
        & 0xff) as u8 && b3 == ((v >> 24u32) & 0xff) as u8 ==> (b0 as u32) | ((b1 as u32) << 8u32)
        | ((b2 as u32) << 16u32) | ((b3 as u32) << 24u32) == v) by (bit_vector);
}

/// Reading back the bytes of a `u64` gives the `u64`.
pub proof fn lemma_u64_roundtrip(v: u64)
    ensures
        le_u64(v).len() == 8,
        u64_from_le(le_u64(v)) == v,
{
    let b = le_u64(v);
    let b0 = b[0];
    let b1 = b[1];
    let b2 = b[2];
    let b3 = b[3];
    let b4 = b[4];
    let b5 = b[5];
    let b6 = b[6];
    let b7 = b[7];
    assert(b0 == (v & 0xff) as u8 && b1 == ((v >> 8u64) & 0xff) as u8 && b2 == ((v >> 16u64)
        & 0xff) as u8 && b3 == ((v >> 24u64) & 0xff) as u8 && b4 == ((v >> 32u64) & 0xff) as u8
        && b5 == ((v >> 40u64) & 0xff) as u8 && b6 == ((v >> 48u64) & 0xff) as u8 && b7 == ((v
        >> 56u64) & 0xff) as u8 ==> (b0 as u64) | ((b1 as u64) << 8u64) | ((b2 as u64) << 16u64)
        | ((b3 as u64) << 24u64) | ((b4 as u64) << 32u64) | ((b5 as u64) << 40u64) | ((b6 as u64)
        << 48u64) | ((b7 as u64) << 56u64) == v) by (bit_vector);
}

/// Little-endian order: the first byte is the least significant, and each next byte
/// counts 256 times as much.
pub proof fn law_little_endian(a: u16, b: u32, c: u64)
    ensures
        le_u16(a).len() == 2,
        le_u16(a)[0] + 256 * le_u16(a)[1] == a,
        le_u32(b).len() == 4,
        le_u32(b)[0] + 0x100 * le_u32(b)[1] + 0x1_0000 * le_u32(b)[2] + 0x100_0000 * le_u32(b)[3] == b,
        le_u64(c).len() == 8,
        le_u64(c)[0] + 0x100 * le_u64(c)[1] + 0x1_0000 * le_u64(c)[2] + 0x100_0000 * le_u64(c)[3]
            + 0x1_0000_0000 * le_u64(c)[4] + 0x100_0000_0000 * le_u64(c)[5] + 0x1_0000_0000_0000
            * le_u64(c)[6] + 0x100_0000_0000_0000 * le_u64(c)[7] == c,
{
    let x0 = le_u16(a)[0];
    let x1 = le_u16(a)[1];
    assert(x0 == (a & 0xff) as u8 && x1 == ((a >> 8u16) & 0xff) as u8 ==> x0 + 256 * x1 == a)
        by (bit_vector);
    let y0 = le_u32(b)[0];
    let y1 = le_u32(b)[1];
    let y2 = le_u32(b)[2];
    let y3 = le_u32(b)[3];
    assert(y0 == (b & 0xff) as u8 && y1 == ((b >> 8u32) & 0xff) as u8 && y2 == ((b >> 16u32)
        & 0xff) as u8 && y3 == ((b >> 24u32) & 0xff) as u8 ==> y0 + 0x100 * y1 + 0x1_0000 * y2
        + 0x100_0000 * y3 == b) by (bit_vector);
    let z0 = le_u64(c)[0];
    let z1 = le_u64(c)[1];
    let z2 = le_u64(c)[2];
    let z3 = le_u64(c)[3];
    let z4 = le_u64(c)[4];
    let z5 = le_u64(c)[5];
    let z6 = le_u64(c)[6];
    let z7 = le_u64(c)[7];
    assert(z0 == (c & 0xff) as u8 && z1 == ((c >> 8u64) & 0xff) as u8 && z2 == ((c >> 16u64)
        & 0xff) as u8 && z3 == ((c >> 24u64) & 0xff) as u8 && z4 == ((c >> 32u64) & 0xff) as u8
        && z5 == ((c >> 40u64) & 0xff) as u8 && z6 == ((c >> 48u64) & 0xff) as u8 && z7 == ((c
        >> 56u64) & 0xff) as u8 ==> z0 + 0x100 * z1 + 0x1_0000 * z2 + 0x100_0000 * z3
        + 0x1_0000_0000 * z4 + 0x100_0000_0000 * z5 + 0x1_0000_0000_0000 * z6
        + 0x100_0000_0000_0000 * z7 == c) by (bit_vector);
}

/// `LittleEndian::write_u16` from byteorder: stores the little-endian bytes of `v`
/// in a two-byte buffer.
#[verifier::external_body]
pub(crate) fn le_bytes_u16(v: u16) -> (b: [u8; 2])
    ensures
        b@ == le_u16(v),
{
    let mut b = [0u8; 2];
    LittleEndian::write_u16(&mut b, v);
    b
}

/// `LittleEndian::write_u32` from byteorder: stores the little-endian bytes of `v`
/// in a four-byte buffer.
#[verifier::external_body]
pub(crate) fn le_bytes_u32(v: u32) -> (b: [u8; 4])
    ensures
        b@ == le_u32(v),
{
    let mut b = [0u8; 4];
    LittleEndian::write_u32(&mut b, v);
    b
}

/// `LittleEndian::write_u64` from byteorder: stores the little-endian bytes of `v`
/// in an eight-byte buffer.
#[verifier::external_body]
pub(crate) fn le_bytes_u64(v: u64) -> (b: [u8; 8])
    ensures
        b@ == le_u64(v),
{
    let mut b = [0u8; 8];
    LittleEndian::write_u64(&mut b, v);
    b
}

/// `LittleEndian::read_u16` from byteorder: the `u16` whose little-endian bytes
/// are the first two of `buf` (it panics on a shorter buffer).
#[verifier::external_body]
pub(crate) fn le_read_u16(buf: &[u8]) -> (v: u16)
    requires
        buf@.len() >= 2,
    ensures
        v == u16_from_le(buf@),
{
    LittleEndian::read_u16(buf)
}

/// `LittleEndian::read_u32` from byteorder: the `u32` whose little-endian bytes
/// are the first four of `buf` (it panics on a shorter buffer).
#[verifier::external_body]
pub(crate) fn le_read_u32(buf: &[u8]) -> (v: u32)
    requires
        buf@.len() >= 4,
    ensures
        v == u32_from_le(buf@),
{
    LittleEndian::read_u32(buf)
}

/// `LittleEndian::read_u64` from byteorder: the `u64` whose little-endian bytes
/// are the first eight of `buf` (it panics on a shorter buffer).
#[verifier::external_body]
pub(crate) fn le_read_u64(buf: &[u8]) -> (v: u64)
    requires
        buf@.len() >= 8,
    ensures
        v == u64_from_le(buf@),
{
    LittleEndian::read_u64(buf)
}

} // verus!
