//! Button state images: detecting the number of stacked animation steps and
//! cutting a multi-step image down to its top step.
use vstd::prelude::*;
use crate::bmp::{bmp_header, bmp_ok, bmp_row, bmp_width, bmp_height, bmp_bpp, row_size, row_base, src_row,
    lemma_row_bounds};

verus! {

pub const STEPS_ERR_ARGS: i32 = -1;
pub const STEPS_ERR_BMP: i32 = -2;
/// Multi-step images always have 6 steps.
pub const MULTI_STEPS: usize = 6;

/// A BMP as rows of raw pixel bytes (BGR/BGRA as stored), top row first.
pub struct Bmp {
    pub w: usize,
    pub h: usize,
    pub bpp: usize,
    pub rows: Vec<Vec<u8>>,
}

/// The rows of an accepted BMP, top row first.
pub open spec fn rows_of(d: Seq<u8>) -> Seq<Seq<u8>> {
    Seq::new(bmp_height(d) as nat, |y: int| bmp_row(d, y))
}

pub open spec fn bmp_rows_view(rows: Seq<Vec<u8>>) -> Seq<Seq<u8>> {
    Seq::new(rows.len(), |y: int| rows[y]@)
}

/// What reading `d` gives: width, height, bits per pixel and the rows (top
/// row first), or nothing for a buffer that is no accepted BMP.
pub open spec fn parsed_bmp(d: Seq<u8>) -> Option<(int, int, int, Seq<Seq<u8>>)> {
    if bmp_ok(d) {
        Some((bmp_width(d), bmp_height(d), bmp_bpp(d), rows_of(d)))
    } else {
        None
    }
}

/// Read an uncompressed 24/32-bit BMP into rows.
pub fn parse_bmp(d: &[u8]) -> (r: Option<Bmp>)
    ensures
        r.is_some() == bmp_ok(d@),
        r matches Some(b) ==> b.w == bmp_width(d@) && b.h == bmp_height(d@) && b.bpp == bmp_bpp(d@)
            && bmp_rows_view(b.rows@) == rows_of(d@),
        match r {
            Some(b) => parsed_bmp(d@) == Some(
                (b.w as int, b.h as int, b.bpp as int, bmp_rows_view(b.rows@)),
            ),
            None => parsed_bmp(d@) is None,
        },
{
    let hd = match bmp_header(d) {
        Some(hd) => hd,
        None => return None,
    };
    let bpr = hd.bpp / 8;
    let mut rows: Vec<Vec<u8>> = Vec::with_capacity(hd.h);
    let mut y: usize = 0;
    while y < hd.h
        invariant
            bmp_ok(d@),
            crate::bmp::header_matches(hd, d@),
            bpr == hd.bpp / 8,
            y <= hd.h,
            rows@.len() == y,
            forall|k: int| 0 <= k < y ==> #[trigger] rows@[k]@ == bmp_row(d@, k),
        decreases hd.h - y,
    {
        proof {
            lemma_row_bounds(d@, y as int);
        }
        let src = if hd.bottom_up {
            hd.h - 1 - y
        } else {
            y
        };
        assert(src == src_row(d@, y as int));
        let dl = d.len();
        assert(src * hd.row_size + hd.data_off + hd.row_size <= dl);
        let base = hd.data_off + src * hd.row_size;
        assert(base == row_base(d@, y as int));
        let part = vstd::slice::slice_subrange(d, base, base + hd.w * bpr);
        rows.push(vstd::slice::slice_to_vec(part));
        y = y + 1;
    }
    let b = Bmp { w: hd.w, h: hd.h, bpp: hd.bpp, rows };
    assert(bmp_rows_view(b.rows@) =~= rows_of(d@));
    Some(b)
}

// ---------------------------------------------------------------------------
// Writing
// ---------------------------------------------------------------------------

pub open spec fn le32_bytes(v: int) -> Seq<u8> {
    seq![
        (v % 256) as u8,
        ((v / 256) % 256) as u8,
        ((v / 65536) % 256) as u8,
        ((v / 16777216) % 256) as u8,
    ]
}

pub open spec fn le16_bytes(v: int) -> Seq<u8> {
    seq![(v % 256) as u8, ((v / 256) % 256) as u8]
}

/// The 54 header bytes of a bottom-up BMP (sizes taken modulo 2^32).
pub open spec fn bmp_file_header(w: int, h: int, bpp: int) -> Seq<u8> {
    let ds = row_size(w, bpp) * h;
    seq![0x42u8, 0x4Du8] + le32_bytes((54 + ds) % 0x1_0000_0000) + le32_bytes(0) + le32_bytes(54)
        + le32_bytes(40) + le32_bytes(w) + le32_bytes(h) + le16_bytes(1) + le16_bytes(bpp)
        + le32_bytes(0) + le32_bytes(ds % 0x1_0000_0000) + le32_bytes(2835) + le32_bytes(2835)
        + le32_bytes(0) + le32_bytes(0)
}

pub open spec fn zeros(n: int) -> Seq<u8> {
    Seq::new(n as nat, |i: int| 0u8)
}

/// The first `n` stored rows of a bottom-up file: image rows `h - 1`,
/// `h - 2`, ..., each followed by `pad` zero bytes.
pub open spec fn bmp_body(rows: Seq<Seq<u8>>, h: int, pad: int, n: int) -> Seq<u8>
    decreases n,
{
    if n <= 0 {
        Seq::empty()
    } else {
        bmp_body(rows, h, pad, n - 1) + rows[h - n] + zeros(pad)
    }
}

/// The bytes of a bottom-up BMP of the first `h` rows of `rows`, each row
/// padded to a multiple of 4 bytes.
pub open spec fn bmp_file(w: int, h: int, bpp: int, rows: Seq<Seq<u8>>) -> Seq<u8> {
    bmp_file_header(w, h, bpp) + bmp_body(rows, h, row_size(w, bpp) - w * (bpp / 8), h)
}

fn push_le32(o: &mut Vec<u8>, v: u32)
    ensures
        final(o)@ == old(o)@ + le32_bytes(v as int),
{
    let b0 = (v & 0xFF) as u8;
    let b1 = ((v >> 8u32) & 0xFF) as u8;
    let b2 = ((v >> 16u32) & 0xFF) as u8;
    let b3 = ((v >> 24u32) & 0xFF) as u8;
    assert(b0 == v % 256 && b1 == (v / 256) % 256 && b2 == (v / 65536) % 256 && b3 == (v / 16777216)
        % 256) by (bit_vector)
        requires
            b0 == (v & 0xFF) as u8,
            b1 == ((v >> 8u32) & 0xFF) as u8,
            b2 == ((v >> 16u32) & 0xFF) as u8,
            b3 == ((v >> 24u32) & 0xFF) as u8,
    ;
    o.push(b0);
    o.push(b1);
    o.push(b2);
    o.push(b3);
    assert(o@ =~= old(o)@ + le32_bytes(v as int));
}

fn push_le16(o: &mut Vec<u8>, v: u16)
    ensures
        final(o)@ == old(o)@ + le16_bytes(v as int),
{
    let b0 = (v & 0xFF) as u8;
    let b1 = ((v >> 8u16) & 0xFF) as u8;
    assert(b0 == v % 256 && b1 == (v / 256) % 256) by (bit_vector)
        requires
            b0 == (v & 0xFF) as u8,
            b1 == ((v >> 8u16) & 0xFF) as u8,
    ;
    o.push(b0);
    o.push(b1);
    assert(o@ =~= old(o)@ + le16_bytes(v as int));
}

fn push_all(o: &mut Vec<u8>, s: &[u8])
    ensures
        final(o)@ == old(o)@ + s@,
{
    o.extend_from_slice(s);
    assert(o@ =~= old(o)@ + s@);
}

/// Write a bottom-up BMP from top-down rows (each followed by the padding to
/// a multiple of 4 bytes).
pub fn write_bmp(w: usize, h: usize, bpp: usize, rows: &[Vec<u8>]) -> (o: Vec<u8>)
    requires
        w <= i32::MAX,
        h <= i32::MAX,
        bpp <= u16::MAX,
        h <= rows@.len(),
        w * (bpp / 8) + 3 <= usize::MAX,
        54 + row_size(w as int, bpp as int) * h <= usize::MAX,
    ensures
        o@ == bmp_file(w as int, h as int, bpp as int, bmp_rows_view(rows@)),
{
    let bpr = bpp / 8;
    let rsz = (w * bpr + 3) / 4 * 4;
    assert(rsz == row_size(w as int, bpp as int));
    let data_size = rsz * h;
    let file_size = 54 + data_size;
    let mut o: Vec<u8> = Vec::with_capacity(file_size);
    o.push(0x42);
    o.push(0x4D);
    push_le32(&mut o, ((file_size as u64) % 0x1_0000_0000u64) as u32);
    push_le32(&mut o, 0);
    push_le32(&mut o, 54);
    push_le32(&mut o, 40);
    push_le32(&mut o, w as u32);
    push_le32(&mut o, h as u32);
    push_le16(&mut o, 1);
    push_le16(&mut o, bpp as u16);
    push_le32(&mut o, 0);
    push_le32(&mut o, ((data_size as u64) % 0x1_0000_0000u64) as u32);
    push_le32(&mut o, 2835);
    push_le32(&mut o, 2835);
    push_le32(&mut o, 0);
    push_le32(&mut o, 0);
    let ghost hdr = bmp_file_header(w as int, h as int, bpp as int);
    assert(o@ =~= hdr);
    assert(w * bpr <= rsz) by (nonlinear_arith)
        requires
            rsz == ((w * bpr + 3) / 4) * 4,
    ;
    let pad = rsz - w * bpr;
    let ghost rv = bmp_rows_view(rows@);
    let mut r: usize = 0;
    while r < h
        invariant
            r <= h <= rows@.len(),
            rv == bmp_rows_view(rows@),
            o@ == hdr + bmp_body(rv, h as int, pad as int, r as int),
        decreases h - r,
    {
        let src = h - 1 - r;
        push_all(&mut o, rows[src].as_slice());
        let mut k: usize = 0;
        let ghost before = o@;
        while k < pad
            invariant
                k <= pad,
                o@ == before + zeros(k as int),
            decreases pad - k,
        {
            o.push(0);
            k = k + 1;
            assert(o@ =~= before + zeros(k as int));
        }
        r = r + 1;
        assert(rv[h - r] == rows@[src as int]@);
        assert(o@ =~= hdr + bmp_body(rv, h as int, pad as int, r as int));
    }
    o
}

} // verus!

verus! {

// ---------------------------------------------------------------------------
// Step detection and reduction
// ---------------------------------------------------------------------------

/// The cell ratio `w / (states * h)` is at least 0.7 (wide cells: one step);
/// below it the image holds six steps.  `states` is at least 1.
pub open spec fn one_step(w: int, h: int, num_states: int) -> bool {
    let s = if num_states < 1 {
        1
    } else {
        num_states
    };
    10 * w >= 7 * s * h
}

pub open spec fn step_count_spec(w: int, h: int, num_states: int) -> int {
    if one_step(w, h, num_states) {
        1
    } else {
        MULTI_STEPS as int
    }
}

/// Number of steps (1 or 6) from the size and the number of states.
pub fn step_count(w: usize, h: usize, num_states: i32) -> (r: usize)
    ensures
        r == step_count_spec(w as int, h as int, num_states as int),
{
    let s: u128 = if num_states < 1 {
        1
    } else {
        num_states as u128
    };
    assert(7 * s * (h as u128) <= 7 * 0x8000_0000 * 0x1_0000_0000_0000_0000) by (nonlinear_arith)
        requires
            s <= 0x8000_0000,
            h <= 0x1_0000_0000_0000_0000,
    ;
    if 10 * (w as u128) >= 7 * s * (h as u128) {
        1
    } else {
        MULTI_STEPS
    }
}

/// Step count of a BMP state image: -1 if shorter than a BMP header, -2 if
/// not an accepted BMP.
pub fn image_step_count(data: &[u8], num_states: i32) -> (r: i32)
    ensures
        data@.len() < 54 ==> r == STEPS_ERR_ARGS,
        data@.len() >= 54 && !bmp_ok(data@) ==> r == STEPS_ERR_BMP,
        data@.len() >= 54 && bmp_ok(data@) ==> r == step_count_spec(
            bmp_width(data@),
            bmp_height(data@),
            num_states as int,
        ),
{
    if data.len() < 54 {
        return STEPS_ERR_ARGS;
    }
    match parse_bmp(data) {
        Some(b) => step_count(b.w, b.h, num_states) as i32,
        None => STEPS_ERR_BMP,
    }
}

/// Height of the top band kept of a multi-step image.
pub open spec fn top_band(h: int) -> int {
    if h / (MULTI_STEPS as int) < 1 {
        1
    } else {
        h / (MULTI_STEPS as int)
    }
}

/// What `reduce_steps` yields for an accepted BMP: the bytes unchanged for
/// one step, else a new bottom-up BMP of the top band at full width.
pub open spec fn reduce_steps_spec(d: Seq<u8>, num_states: int) -> Seq<u8> {
    if one_step(bmp_width(d), bmp_height(d), num_states) {
        d
    } else {
        let w = bmp_width(d);
        let bpp = bmp_bpp(d);
        let nh = top_band(bmp_height(d));
        bmp_file(w, nh, bpp, rows_of(d))
    }
}

/// Cut a multi-step state image down to its top step (full width, all
/// states); a one-step image comes back unchanged.  (Every slice is at most
/// `isize::MAX` bytes long.)
pub fn reduce_steps(data: &[u8], num_states: i32) -> (r: Result<Vec<u8>, i32>)
    requires
        data@.len() <= isize::MAX,
    ensures
        data@.len() < 54 ==> r == Err::<Vec<u8>, i32>(STEPS_ERR_ARGS),
        data@.len() >= 54 && !bmp_ok(data@) ==> r == Err::<Vec<u8>, i32>(STEPS_ERR_BMP),
        data@.len() >= 54 && bmp_ok(data@) ==> r is Ok && r.unwrap()@ == reduce_steps_spec(
            data@,
            num_states as int,
        ),
{
    if data.len() < 54 {
        return Err(STEPS_ERR_ARGS);
    }
    let b = match parse_bmp(data) {
        Some(b) => b,
        None => return Err(STEPS_ERR_BMP),
    };
    let steps = step_count(b.w, b.h, num_states);
    if steps <= 1 {
        return Ok(vstd::slice::slice_to_vec(data));
    }
    let new_h = if b.h / MULTI_STEPS < 1 {
        1
    } else {
        b.h / MULTI_STEPS
    };
    proof {
        lemma_row_bounds(data@, 0);
        let rs = row_size(b.w as int, b.bpp as int);
        assert(rs * new_h <= rs * b.h) by (nonlinear_arith)
            requires
                new_h <= b.h,
                rs >= 0,
        ;
        assert(rs * b.h <= data@.len()) by (nonlinear_arith)
            requires
                crate::bmp::bmp_data_off(data@) + rs * b.h <= data@.len(),
                crate::bmp::bmp_data_off(data@) >= 0,
        ;
        assert(bmp_rows_view(b.rows@) == rows_of(data@));
        assert(bmp_rows_view(b.rows@).len() == b.rows@.len());
        assert(b.rows@.len() == b.h);
    }
    let dl = data.len();
    assert(b.w * (b.bpp / 8) <= dl);
    let out = write_bmp(b.w, new_h, b.bpp, b.rows.as_slice());
    Ok(out)
}

} // verus!

verus! {

// ---------------------------------------------------------------------------
// Law: reading back what was written
// ---------------------------------------------------------------------------

pub proof fn lemma_le32_roundtrip(d: Seq<u8>, o: int, v: int)
    requires
        0 <= v < 0x1_0000_0000,
        0 <= o,
        o + 4 <= d.len(),
        d.subrange(o, o + 4) == le32_bytes(v),
    ensures
        crate::bytes::le32(d, o) == v,
{
    let x = v as u32;
    assert(d[o] == d.subrange(o, o + 4)[0]);
    assert(d[o + 1] == d.subrange(o, o + 4)[1]);
    assert(d[o + 2] == d.subrange(o, o + 4)[2]);
    assert(d[o + 3] == d.subrange(o, o + 4)[3]);
    assert((x % 256) + 256 * ((x / 256) % 256) + 65536 * ((x / 65536) % 256) + 16777216 * ((x
        / 16777216) % 256) == x) by (bit_vector);
}

pub proof fn lemma_le16_roundtrip(d: Seq<u8>, o: int, v: int)
    requires
        0 <= v < 0x1_0000,
        0 <= o,
        o + 2 <= d.len(),
        d.subrange(o, o + 2) == le16_bytes(v),
    ensures
        crate::bytes::le16(d, o) == v,
{
    let x = v as u16;
    assert(d[o] == d.subrange(o, o + 2)[0]);
    assert(d[o + 1] == d.subrange(o, o + 2)[1]);
    assert((x % 256) + 256 * ((x / 256) % 256) == x) by (bit_vector);
}

/// Stored row `r` (of pixel length `rl`) in a body with row size `rs`.
pub open spec fn stored_row(body: Seq<u8>, rs: int, rl: int, r: int) -> Seq<u8> {
    body.subrange(r * rs, r * rs + rl)
}

/// Rows of equal length `rl` followed by `pad` zeros: the body has the
/// expected length and stored row `r` is image row `h - 1 - r`.
pub proof fn lemma_body(rows: Seq<Seq<u8>>, h: int, pad: int, rl: int, n: int)
    requires
        0 <= n <= h <= rows.len(),
        0 <= pad,
        0 <= rl,
        forall|y: int| 0 <= y < h ==> (#[trigger] rows[y]).len() == rl,
    ensures
        bmp_body(rows, h, pad, n).len() == n * (rl + pad),
        forall|r: int|
            0 <= r < n ==> #[trigger] stored_row(bmp_body(rows, h, pad, n), rl + pad, rl, r) == rows[h
                - 1 - r],
    decreases n,
{
    if n > 0 {
        lemma_body(rows, h, pad, rl, n - 1);
        let prev = bmp_body(rows, h, pad, n - 1);
        let cur = bmp_body(rows, h, pad, n);
        let rs = rl + pad;
        assert(cur == prev + rows[h - n] + zeros(pad));
        assert((n - 1) * rs + rs == n * rs) by (nonlinear_arith);
        assert forall|r: int| 0 <= r < n implies #[trigger] stored_row(cur, rs, rl, r) == rows[h - 1
            - r] by {
            if r < n - 1 {
                assert((r + 1) * rs == r * rs + rs) by (nonlinear_arith);
                assert((r + 1) * rs <= (n - 1) * rs) by (nonlinear_arith)
                    requires
                        r + 1 <= n - 1,
                        rs >= 0,
                ;
                assert(r * rs + rl <= (n - 1) * rs);
                assert(r * rs >= 0) by (nonlinear_arith)
                    requires
                        0 <= r,
                        rs >= 0,
                ;
                assert(stored_row(prev, rs, rl, r) == rows[h - 1 - r]);
                assert(cur.subrange(r * rs, r * rs + rl) =~= prev.subrange(r * rs, r * rs + rl));
            } else {
                assert(cur.subrange(r * rs, r * rs + rl) =~= rows[h - n]);
            }
        }
    }
}

/// What `write_bmp` writes, `parse_bmp` reads back: the file is the header
/// and the padded rows, and reading it gives the same width, height, bit
/// depth and the first `h` rows (for 24 or 32 bits, rows of the full pixel
/// width and sizes that fit the header).
pub proof fn lemma_write_parse(w: int, h: int, bpp: int, rows: Seq<Seq<u8>>)
    requires
        1 <= w <= i32::MAX,
        1 <= h <= i32::MAX,
        bpp == 24 || bpp == 32,
        h <= rows.len(),
        forall|y: int| 0 <= y < h ==> (#[trigger] rows[y]).len() == w * (bpp / 8),
        54 + row_size(w, bpp) * h < 0x1_0000_0000,
    ensures
        bmp_file(w, h, bpp, rows).len() == 54 + row_size(w, bpp) * h,
        parsed_bmp(bmp_file(w, h, bpp, rows)) == Some((w, h, bpp, rows.take(h))),
{
    let rl = w * (bpp / 8);
    let rs = row_size(w, bpp);
    assert(rl <= rs && rs <= rl + 3) by (nonlinear_arith)
        requires
            rs == ((rl + 3) / 4) * 4,
            rl >= 0,
    ;
    assert(rl >= 3) by (nonlinear_arith)
        requires
            rl == w * (bpp / 8),
            w >= 1,
            bpp / 8 >= 3,
    ;
    let pad = rs - rl;
    let hdr = bmp_file_header(w, h, bpp);
    let body = bmp_body(rows, h, pad, h);
    lemma_body(rows, h, pad, rl, h);
    let o = hdr + body;
    assert(hdr.len() == 54);
    assert(rs * h >= 0) by (nonlinear_arith)
        requires
            rs >= 0,
            h >= 0,
    ;
    assert(h * (rl + pad) == rs * h) by (nonlinear_arith)
        requires
            rl + pad == rs,
    ;
    assert(o.len() == 54 + rs * h);
    assert(o[0] == 0x42 && o[1] == 0x4D);
    assert(o.subrange(10, 14) =~= le32_bytes(54));
    lemma_le32_roundtrip(o, 10, 54);
    assert(o.subrange(18, 22) =~= le32_bytes(w));
    lemma_le32_roundtrip(o, 18, w);
    assert(o.subrange(22, 26) =~= le32_bytes(h));
    lemma_le32_roundtrip(o, 22, h);
    assert(o.subrange(28, 30) =~= le16_bytes(bpp));
    lemma_le16_roundtrip(o, 28, bpp);
    assert(o.subrange(30, 34) =~= le32_bytes(0));
    lemma_le32_roundtrip(o, 30, 0);
    assert(bmp_ok(o));
    assert(o == bmp_file(w, h, bpp, rows));
    assert(rows_of(o) =~= rows.take(h)) by {
        assert forall|y: int| 0 <= y < h implies #[trigger] bmp_row(o, y) == rows[y] by {
            let r = h - 1 - y;
            assert(src_row(o, y) == r);
            assert(row_base(o, y) == 54 + r * rs);
            assert((r + 1) * rs == r * rs + rs) by (nonlinear_arith);
            assert((r + 1) * rs <= h * rs) by (nonlinear_arith)
                requires
                    r + 1 <= h,
                    rs >= 0,
            ;
            assert(h * rs == rs * h) by (nonlinear_arith);
            assert(r * rs + rl <= h * rs);
            assert(r * rs >= 0) by (nonlinear_arith)
                requires
                    0 <= r,
                    rs >= 0,
            ;
            assert(r * (rl + pad) == r * rs);
            assert(stored_row(body, rl + pad, rl, r) == rows[h - 1 - r]);
            assert(bmp_row(o, y) =~= body.subrange(r * rs, r * rs + rl));
        }
    }
}

} // verus!
