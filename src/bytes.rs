//! Little-endian integer reads out of a byte buffer.
use vstd::prelude::*;

verus! {

/// The unsigned 16-bit integer stored little-endian at `b[i..i + 2]`.
pub open spec fn le16(b: Seq<u8>, i: int) -> u16 {
    (b[i] as int + 256 * (b[i + 1] as int)) as u16
}

/// The unsigned 32-bit integer stored little-endian at `b[i..i + 4]`.
pub open spec fn le32(b: Seq<u8>, i: int) -> u32 {
    (b[i] as int + 256 * (b[i + 1] as int) + 65536 * (b[i + 2] as int) + 16777216 * (
    b[i + 3] as int)) as u32
}

/// Reads the little-endian `u16` at offset `i`.
pub fn read_u16(b: &[u8], i: usize) -> (r: u16)
    requires
        i + 2 <= b.len(),
    ensures
        r == le16(b@, i as int),
{
    let lo = b[i] as u16;
    let hi = b[i + 1] as u16;
    lo + 256 * hi
}

/// Reads the little-endian `u32` at offset `i`.
pub fn read_u32(b: &[u8], i: usize) -> (r: u32)
    requires
        i + 4 <= b.len(),
    ensures
        r == le32(b@, i as int),
{
    let b0 = b[i] as u32;
    let b1 = b[i + 1] as u32;
    let b2 = b[i + 2] as u32;
    let b3 = b[i + 3] as u32;
    b0 + 256 * b1 + 65536 * b2 + 16777216 * b3
}

} // verus!
