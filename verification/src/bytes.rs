//! Little-endian field readers shared by the bitmap code.
use vstd::prelude::*;

verus! {

/// Value of the little-endian 16-bit field at offset `o`.
pub open spec fn le16(d: Seq<u8>, o: int) -> int {
    d[o] as int + 256 * d[o + 1] as int
}

/// Value of the little-endian unsigned 32-bit field at offset `o`.
pub open spec fn le32(d: Seq<u8>, o: int) -> int {
    d[o] as int + 256 * d[o + 1] as int + 65536 * d[o + 2] as int + 16777216 * d[o + 3] as int
}

/// Value of the little-endian two's-complement 32-bit field at offset `o`.
pub open spec fn le32_signed(d: Seq<u8>, o: int) -> int {
    let u = le32(d, o);
    if u >= 0x8000_0000 {
        u - 0x1_0000_0000
    } else {
        u
    }
}

pub fn u16_le(d: &[u8], o: usize) -> (r: u16)
    requires
        o + 2 <= d@.len(),
    ensures
        r == le16(d@, o as int),
{
    let a = d[o];
    let b = d[o + 1];
    let r = (a as u16) | ((b as u16) << 8u16);
    assert(r == a as int + 256 * b as int) by (bit_vector)
        requires
            r == (a as u16) | ((b as u16) << 8u16),
    ;
    r
}

pub fn u32_le(d: &[u8], o: usize) -> (r: u32)
    requires
        o + 4 <= d@.len(),
    ensures
        r == le32(d@, o as int),
{
    let a = d[o];
    let b = d[o + 1];
    let c = d[o + 2];
    let e = d[o + 3];
    let r = (a as u32) | ((b as u32) << 8u32) | ((c as u32) << 16u32) | ((e as u32) << 24u32);
    assert(r == a as int + 256 * b as int + 65536 * c as int + 16777216 * e as int) by (bit_vector)
        requires
            r == (a as u32) | ((b as u32) << 8u32) | ((c as u32) << 16u32) | ((e as u32) << 24u32),
    ;
    r
}

pub fn i32_le(d: &[u8], o: usize) -> (r: i32)
    requires
        o + 4 <= d@.len(),
    ensures
        r == le32_signed(d@, o as int),
{
    let u = u32_le(d, o);
    if u < 0x8000_0000 {
        u as i32
    } else {
        ((u - 0x8000_0000) as i32) + i32::MIN
    }
}

} // verus!
