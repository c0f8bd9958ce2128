//! Byte-level decoding: little-endian header fields read from a buffer.

use vstd::prelude::*;

verus! {

/// A fixed eight-byte header: a 16-bit magic, a version byte, a flags byte
/// and a 32-bit length, all little-endian.
#[derive(Clone, Copy, Debug, PartialEq, Eq, Structural)]
pub struct CHeader {
    pub magic: u16,
    pub version: u8,
    pub flags: u8,
    pub len: u32,
}

/// The 16-bit little-endian value of two bytes.
pub open spec fn le16(b0: u8, b1: u8) -> int {
    b0 + 0x100 * b1
}

/// The 32-bit little-endian value of four bytes.
pub open spec fn le32(b0: u8, b1: u8, b2: u8, b3: u8) -> int {
    b0 + 0x100 * b1 + 0x1_0000 * b2 + 0x100_0000 * b3
}

/// Decode a header from the first eight bytes of a buffer; absent when the
/// buffer is shorter.
pub fn parse_c_header(buf: &[u8]) -> (r: Option<CHeader>)
    ensures
        buf@.len() < 8 ==> r is None,
        buf@.len() >= 8 ==> r == Some(
            (CHeader {
                magic: le16(buf@[0], buf@[1]) as u16,
                version: buf@[2],
                flags: buf@[3],
                len: le32(buf@[4], buf@[5], buf@[6], buf@[7]) as u32,
            }),
        ),
{
    if buf.len() < 8 {
        return None;
    }
    let magic: u16 = buf[0] as u16 + 0x100 * (buf[1] as u16);
    let len: u32 = buf[4] as u32 + 0x100 * (buf[5] as u32) + 0x1_0000 * (buf[6] as u32)
        + 0x100_0000 * (buf[7] as u32);
    Some(CHeader { magic, version: buf[2], flags: buf[3], len })
}

/// Read the 32-bit little-endian value at `offset`, when the buffer holds
/// four bytes there.
pub fn read_u32_le_at(buf: &[u8], offset: usize) -> (r: Option<u32>)
    ensures
        offset + 4 <= buf@.len() ==> r == Some(
            le32(
                buf@[offset as int],
                buf@[offset + 1],
                buf@[offset + 2],
                buf@[offset + 3],
            ) as u32,
        ),
        offset + 4 > buf@.len() ==> r is None,
{
    if buf.len() < 4 || offset > buf.len() - 4 {
        return None;
    }
    let v: u32 = buf[offset] as u32 + 0x100 * (buf[offset + 1] as u32) + 0x1_0000 * (buf[offset
        + 2] as u32) + 0x100_0000 * (buf[offset + 3] as u32);
    Some(v)
}

/// A pair of numbers summed across a foreign-function boundary; the library
/// holds the data, the boundary code owns the pointer handling.
#[derive(Clone, Copy, Debug, PartialEq, Eq, Structural)]
pub struct Pair {
    pub a: u32,
    pub b: u32,
}

} // verus!
