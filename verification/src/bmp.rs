//! Uncompressed 24/32-bit BMP files: the header, rows, pixels, and writing.
use vstd::prelude::*;
use crate::bytes::{le16, le32, le32_signed, u16_le, u32_le, i32_le};

verus! {

pub open spec fn bmp_data_off(d: Seq<u8>) -> int {
    le32(d, 10)
}

pub open spec fn bmp_width(d: Seq<u8>) -> int {
    le32_signed(d, 18)
}

pub open spec fn bmp_height_raw(d: Seq<u8>) -> int {
    le32_signed(d, 22)
}

pub open spec fn bmp_bpp(d: Seq<u8>) -> int {
    le16(d, 28)
}

pub open spec fn bmp_compression(d: Seq<u8>) -> int {
    le32(d, 30)
}

/// Number of rows (a negative height means rows are stored top-down).
pub open spec fn bmp_height(d: Seq<u8>) -> int {
    let hr = bmp_height_raw(d);
    if hr < 0 {
        -hr
    } else {
        hr
    }
}

/// Bytes per stored row: pixel bytes padded to a multiple of 4.
pub open spec fn row_size(w: int, bpp: int) -> int {
    ((w * (bpp / 8) + 3) / 4) * 4
}

/// A BMP the parsers accept: "BM", uncompressed, 24 or 32 bits, positive
/// width, non-zero height, and all rows inside the data.
pub open spec fn bmp_ok(d: Seq<u8>) -> bool {
    &&& d.len() >= 54
    &&& d[0] == 0x42
    &&& d[1] == 0x4D
    &&& bmp_compression(d) == 0
    &&& (bmp_bpp(d) == 24 || bmp_bpp(d) == 32)
    &&& bmp_width(d) > 0
    &&& bmp_height_raw(d) != 0
    &&& bmp_data_off(d) + row_size(bmp_width(d), bmp_bpp(d)) * bmp_height(d) <= d.len()
}

/// Stored row that holds image row `y` (rows counted from the top).
pub open spec fn src_row(d: Seq<u8>, y: int) -> int {
    if bmp_height_raw(d) > 0 {
        bmp_height(d) - 1 - y
    } else {
        y
    }
}

/// Offset of image row `y`.
pub open spec fn row_base(d: Seq<u8>, y: int) -> int {
    bmp_data_off(d) + src_row(d, y) * row_size(bmp_width(d), bmp_bpp(d))
}

/// The pixel bytes of image row `y` (top row first), without padding.
pub open spec fn bmp_row(d: Seq<u8>, y: int) -> Seq<u8> {
    let b = row_base(d, y);
    d.subrange(b, b + bmp_width(d) * (bmp_bpp(d) / 8))
}

/// The checked header fields.
pub struct BmpHeader {
    pub w: usize,
    pub h: usize,
    pub bpp: usize,
    pub data_off: usize,
    pub bottom_up: bool,
    pub row_size: usize,
}

pub open spec fn header_matches(hd: BmpHeader, d: Seq<u8>) -> bool {
    &&& hd.w == bmp_width(d)
    &&& hd.h == bmp_height(d)
    &&& hd.bpp == bmp_bpp(d)
    &&& hd.data_off == bmp_data_off(d)
    &&& hd.bottom_up == (bmp_height_raw(d) > 0)
    &&& hd.row_size == row_size(bmp_width(d), bmp_bpp(d))
}

pub proof fn lemma_row_bounds(d: Seq<u8>, y: int)
    requires
        bmp_ok(d),
        0 <= y < bmp_height(d),
    ensures
        0 <= src_row(d, y) < bmp_height(d),
        0 <= row_base(d, y),
        row_base(d, y) + row_size(bmp_width(d), bmp_bpp(d)) <= d.len(),
        bmp_width(d) * (bmp_bpp(d) / 8) <= row_size(bmp_width(d), bmp_bpp(d)),
        3 * bmp_width(d) <= row_size(bmp_width(d), bmp_bpp(d)),
{
    let rs = row_size(bmp_width(d), bmp_bpp(d));
    let h = bmp_height(d);
    let s = src_row(d, y);
    assert(rs >= 0) by (nonlinear_arith)
        requires
            rs == ((bmp_width(d) * (bmp_bpp(d) / 8) + 3) / 4) * 4,
            bmp_width(d) > 0,
            bmp_bpp(d) >= 24,
    ;
    assert(s * rs + rs <= h * rs) by (nonlinear_arith)
        requires
            0 <= s < h,
            rs >= 0,
    ;
    assert(0 <= s * rs) by (nonlinear_arith)
        requires
            0 <= s,
            rs >= 0,
    ;
    let x = bmp_width(d) * (bmp_bpp(d) / 8);
    assert(x >= 3 * bmp_width(d)) by (nonlinear_arith)
        requires
            x == bmp_width(d) * (bmp_bpp(d) / 8),
            bmp_bpp(d) / 8 >= 3,
            bmp_width(d) > 0,
    ;
}

/// Read and check the header.
pub fn bmp_header(d: &[u8]) -> (r: Option<BmpHeader>)
    ensures
        r.is_some() == bmp_ok(d@),
        r matches Some(hd) ==> header_matches(hd, d@),
{
    if d.len() < 54 || d[0] != 0x42 || d[1] != 0x4D {
        return None;
    }
    let data_off = u32_le(d, 10);
    let width = i32_le(d, 18);
    let height_raw = i32_le(d, 22);
    let bpp = u16_le(d, 28);
    let compression = u32_le(d, 30);
    if compression != 0 || (bpp != 24 && bpp != 32) || width <= 0 || height_raw == 0 {
        return None;
    }
    let h: u32 = if height_raw > 0 {
        height_raw as u32
    } else if height_raw == i32::MIN {
        0x8000_0000u32
    } else {
        (-height_raw) as u32
    };
    let bpr = (bpp / 8) as u128;
    let w128 = width as u128;
    assert(w128 * bpr <= 0x2_0000_0000) by (nonlinear_arith)
        requires
            w128 <= 0x8000_0000,
            bpr <= 4,
    ;
    let rs: u128 = (w128 * bpr + 3) / 4 * 4;
    assert(rs == row_size(width as int, bpp as int));
    assert(rs <= 0x4_0000_0000) by (nonlinear_arith)
        requires
            rs == ((width as int * (bpp / 8) as int + 3) / 4) * 4,
            0 < width,
            bpp <= 32,
    ;
    assert(rs * (h as u128) <= 0x4_0000_0000 * 0x8000_0000) by (nonlinear_arith)
        requires
            rs <= 0x4_0000_0000,
            h <= 0x8000_0000,
    ;
    let total: u128 = data_off as u128 + rs * (h as u128);
    if total > d.len() as u128 {
        return None;
    }
    assert(rs <= d.len()) by (nonlinear_arith)
        requires
            data_off as int + rs * h <= d.len(),
            h >= 1,
            rs >= 0,
    ;
    Some(BmpHeader {
        w: width as usize,
        h: h as usize,
        bpp: bpp as usize,
        data_off: data_off as usize,
        bottom_up: height_raw > 0,
        row_size: rs as usize,
    })
}

} // verus!
