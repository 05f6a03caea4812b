//! Little-endian integer views of byte slices, shared by the BPB, directory
//! entry and MBR parsers.

use vstd::prelude::*;

verus! {

/// The 16-bit little-endian value stored at offset `off` of `data`.
pub open spec fn spec_u16_le(data: Seq<u8>, off: int) -> u16
    recommends
        0 <= off,
        off + 2 <= data.len(),
{
    (data[off] as u16) | ((data[off + 1] as u16) << 8)
}

/// The 32-bit little-endian value stored at offset `off` of `data`.
pub open spec fn spec_u32_le(data: Seq<u8>, off: int) -> u32
    recommends
        0 <= off,
        off + 4 <= data.len(),
{
    (data[off] as u32) | ((data[off + 1] as u32) << 8) | ((data[off + 2] as u32) << 16) | ((data[
        off + 3] as u32) << 24)
}

/// Reads the 16-bit little-endian value at offset `off`.
pub fn u16_le(data: &[u8], off: usize) -> (r: u16)
    requires
        off + 2 <= data@.len(),
    ensures
        r == spec_u16_le(data@, off as int),
{
    let lo = data[off];
    let hi = data[off + 1];
    (lo as u16) | ((hi as u16) << 8)
}

/// Reads the 32-bit little-endian value at offset `off`.
pub fn u32_le(data: &[u8], off: usize) -> (r: u32)
    requires
        off + 4 <= data@.len(),
    ensures
        r == spec_u32_le(data@, off as int),
{
    let b0 = data[off];
    let b1 = data[off + 1];
    let b2 = data[off + 2];
    let b3 = data[off + 3];
    (b0 as u32) | ((b1 as u32) << 8) | ((b2 as u32) << 16) | ((b3 as u32) << 24)
}

/// A 16-bit little-endian read is inverted by taking the value's two bytes
/// back: byte `i` of the encoding equals byte `off + i` of the source.
pub proof fn lemma_u16_le_bytes(data: Seq<u8>, off: int)
    requires
        0 <= off,
        off + 2 <= data.len(),
    ensures
        (spec_u16_le(data, off) & 0xff) as u8 == data[off],
        ((spec_u16_le(data, off) >> 8) & 0xff) as u8 == data[off + 1],
{
    let lo = data[off];
    let hi = data[off + 1];
    assert((((lo as u16) | ((hi as u16) << 8)) & 0xff) as u8 == lo) by (bit_vector);
    assert(((((lo as u16) | ((hi as u16) << 8)) >> 8) & 0xff) as u8 == hi) by (bit_vector);
}

/// A 32-bit little-endian read is inverted by taking the value's four bytes
/// back: byte `i` of the encoding equals byte `off + i` of the source.
pub proof fn lemma_u32_le_bytes(data: Seq<u8>, off: int)
    requires
        0 <= off,
        off + 4 <= data.len(),
    ensures
        (spec_u32_le(data, off) & 0xff) as u8 == data[off],
        ((spec_u32_le(data, off) >> 8) & 0xff) as u8 == data[off + 1],
        ((spec_u32_le(data, off) >> 16) & 0xff) as u8 == data[off + 2],
        ((spec_u32_le(data, off) >> 24) & 0xff) as u8 == data[off + 3],
{
    let b0 = data[off];
    let b1 = data[off + 1];
    let b2 = data[off + 2];
    let b3 = data[off + 3];
    let v = (b0 as u32) | ((b1 as u32) << 8) | ((b2 as u32) << 16) | ((b3 as u32) << 24);
    assert((v & 0xff) as u8 == b0 && ((v >> 8) & 0xff) as u8 == b1 && ((v >> 16) & 0xff) as u8
        == b2 && ((v >> 24) & 0xff) as u8 == b3) by (bit_vector)
        requires
            v == (b0 as u32) | ((b1 as u32) << 8) | ((b2 as u32) << 16) | ((b3 as u32) << 24),
    ;
}

} // verus!
