//! Caption and icon position read from a rendered button image (v2).
//!
//! The background is the most frequent colour; foreground pixels are far
//! from it; the foreground splits into 8-connected components; the icon is
//! one component (or all of them for an icon-only button) and the caption
//! is classified inside the area that the icon leaves free.
use vstd::prelude::*;
use crate::flood::{flood, connected, closed, marks_set_only, lemma_connected_ends, lemma_grid_pos,
    lemma_connected_trans, lemma_connected_sym, lemma_connected_refl};
use crate::bmp::{bmp_header, bmp_ok, bmp_width, bmp_height, bmp_bpp, row_base, src_row,
    lemma_row_bounds, header_matches};

verus! {

pub const LAYOUT_ERR_ARGS: i32 = -1;
pub const LAYOUT_ERR_BMP: i32 = -2;

pub const P_NONE: i32 = 0;
/// Left on the horizontal axis, top on the vertical one.
pub const P_LEFT: i32 = 1;
pub const P_CENTER: i32 = 2;
/// Right on the horizontal axis, bottom on the vertical one.
pub const P_RIGHT: i32 = 3;

/// Sum of channel distances above which a pixel is foreground.
pub const THRESH: i32 = 90;
/// Width of the border that is never foreground.
pub const FRAME: usize = 2;

// ---------------------------------------------------------------------------
// Packing the result
// ---------------------------------------------------------------------------

/// bits 0-1 caption h, 2-3 caption v, 4 caption shown,
/// 5-6 image h, 7-8 image v, 9 image present.
pub open spec fn pack_spec(dc: bool, ch: int, cv: int, hi: bool, ih: int, iv: int) -> int {
    ch % 4 + 4 * (cv % 4) + 16 * (if dc { 1int } else { 0 }) + 32 * (ih % 4) + 128 * (iv % 4)
        + 512 * (if hi { 1int } else { 0 })
}

pub fn pack(r: (bool, i32, i32, bool, i32, i32)) -> (p: i32)
    ensures
        p == pack_spec(r.0, r.1 as int, r.2 as int, r.3, r.4 as int, r.5 as int),
        0 <= p < 1024,
{
    let (dc, ch, cv, hi, ih, iv) = r;
    let d: i32 = if dc { 1 } else { 0 };
    let i: i32 = if hi { 1 } else { 0 };
    let p = (ch & 3) | ((cv & 3) << 2u32) | (d << 4u32) | ((ih & 3) << 5u32) | ((iv & 3) << 7u32)
        | (i << 9u32);
    assert(p == (ch & 3) + 4 * (cv & 3) + 16 * d + 32 * (ih & 3) + 128 * (iv & 3) + 512 * i)
        by (bit_vector)
        requires
            p == (ch & 3) | ((cv & 3) << 2u32) | (d << 4u32) | ((ih & 3) << 5u32) | ((iv & 3)
                << 7u32) | (i << 9u32),
            0 <= d <= 1,
            0 <= i <= 1,
    ;
    assert(ch & 3 == ch % 4 && cv & 3 == cv % 4 && ih & 3 == ih % 4 && iv & 3 == iv % 4)
        by (bit_vector);
    p
}

/// The same packing, taking the six fields one by one.
pub fn pack_result(dc: bool, ch: i32, cv: i32, hi: bool, ih: i32, iv: i32) -> (p: i32)
    ensures
        p == pack_spec(dc, ch as int, cv as int, hi, ih as int, iv as int),
{
    pack((dc, ch, cv, hi, ih, iv))
}

/// The six fields back from a packed value.
pub open spec fn unpack_spec(p: int) -> (bool, int, int, bool, int, int) {
    ((p / 16) % 2 == 1, p % 4, (p / 4) % 4, (p / 512) % 2 == 1, (p / 32) % 4, (p / 128) % 4)
}

/// Unpacking a packed result gives back its fields, when each position
/// field is one of `P_NONE`..`P_RIGHT`.
pub proof fn lemma_pack_unpack(dc: bool, ch: int, cv: int, hi: bool, ih: int, iv: int)
    requires
        0 <= ch < 4,
        0 <= cv < 4,
        0 <= ih < 4,
        0 <= iv < 4,
    ensures
        unpack_spec(pack_spec(dc, ch, cv, hi, ih, iv)) == (dc, ch, cv, hi, ih, iv),
{
    let d: int = if dc { 1 } else { 0 };
    let i: int = if hi { 1 } else { 0 };
    let p = pack_spec(dc, ch, cv, hi, ih, iv);
    assert(p == ch + 4 * cv + 16 * d + 32 * ih + 128 * iv + 512 * i);
    assert(p % 4 == ch && (p / 4) % 4 == cv && (p / 16) % 2 == d && (p / 32) % 4 == ih
        && (p / 128) % 4 == iv && (p / 512) % 2 == i) by (nonlinear_arith)
        requires
            p == ch + 4 * cv + 16 * d + 32 * ih + 128 * iv + 512 * i,
            0 <= ch < 4,
            0 <= cv < 4,
            0 <= ih < 4,
            0 <= iv < 4,
            0 <= d < 2,
            0 <= i < 2,
    ;
}


// ---------------------------------------------------------------------------
// Reading a bitmap into RGB pixels
// ---------------------------------------------------------------------------

/// Channel `c` (0 red, 1 green, 2 blue) of the pixel at column `x` of image
/// row `y`; the file stores blue, green, red.
pub open spec fn bmp_channel(d: Seq<u8>, y: int, x: int, c: int) -> u8 {
    d[row_base(d, y) + x * (bmp_bpp(d) / 8) + 2 - c]
}

/// Pixel `i` of the image in row-major order, top row first, holds
/// `bmp_channel(d, i / w, i % w, c)` in channel `c`.
pub open spec fn rgb_matches(d: Seq<u8>, rgb: Seq<[u8; 3]>) -> bool {
    let w = bmp_width(d);
    &&& rgb.len() == w * bmp_height(d)
    &&& forall|i: int, c: int|
        0 <= i < rgb.len() && 0 <= c < 3 ==> #[trigger] rgb[i][c] == bmp_channel(d, i / w, i % w, c)
}

/// Decode an uncompressed 24/32-bit BMP into RGB pixels, top row first.
#[verifier::spinoff_prover]
#[verifier::rlimit(50)]
pub fn parse_bmp(d: &[u8]) -> (r: Option<(usize, usize, Vec<[u8; 3]>)>)
    ensures
        r.is_some() == bmp_ok(d@),
        r matches Some((w, h, rgb)) ==> w == bmp_width(d@) && h == bmp_height(d@) && rgb_matches(
            d@,
            rgb@,
        ),
{
    let hd = match bmp_header(d) {
        Some(hd) => hd,
        None => return None,
    };
    let bpp = hd.bpp / 8;
    let w = hd.w;
    let h = hd.h;
    proof {
        lemma_row_bounds(d@, 0);
        assert(w * h <= d.len()) by (nonlinear_arith)
            requires
                3 * w <= hd.row_size,
                hd.data_off + hd.row_size * h <= d.len(),
                w >= 1,
        ;
    }
    let mut rgb: Vec<[u8; 3]> = Vec::new();
    let mut y: usize = 0;
    while y < h
        invariant
            bmp_ok(d@),
            header_matches(hd, d@),
            bpp == hd.bpp / 8,
            w == hd.w,
            h == hd.h,
            w * h <= d.len(),
            y <= h,
            rgb@.len() == y * w,
            forall|i: int, c: int|
                0 <= i < rgb@.len() && 0 <= c < 3 ==> #[trigger] rgb@[i][c] == bmp_channel(
                    d@,
                    i / w as int,
                    i % w as int,
                    c,
                ),
        decreases h - y,
    {
        proof {
            lemma_row_bounds(d@, y as int);
        }
        let src = if hd.bottom_up {
            h - 1 - y
        } else {
            y
        };
        assert(src == src_row(d@, y as int));
        assert(src * hd.row_size + hd.data_off + hd.row_size <= d.len());
        let base = hd.data_off + src * hd.row_size;
        assert(base == row_base(d@, y as int));
        let mut x: usize = 0;
        while x < w
            invariant
                bmp_ok(d@),
                header_matches(hd, d@),
                bpp == hd.bpp / 8,
                w == hd.w,
                h == hd.h,
                w * h <= d.len(),
                y < h,
                x <= w,
                base == row_base(d@, y as int),
                base + hd.row_size <= d.len(),
                w * bpp <= hd.row_size,
                rgb@.len() == y * w + x,
                forall|i: int, c: int|
                    0 <= i < rgb@.len() && 0 <= c < 3 ==> #[trigger] rgb@[i][c] == bmp_channel(
                        d@,
                        i / w as int,
                        i % w as int,
                        c,
                    ),
            decreases w - x,
        {
            assert(x * bpp + bpp <= w * bpp) by (nonlinear_arith)
                requires
                    x < w,
            ;
            assert(bpp >= 3);
            let p = base + x * bpp;
            let px: [u8; 3] = [d[p + 2], d[p + 1], d[p]];
            let ghost idx = rgb@.len() as int;
            proof {
                assert(y * w + w <= h * w) by (nonlinear_arith)
                    requires
                        y < h,
                ;
                vstd::arithmetic::div_mod::lemma_fundamental_div_mod_converse(
                    idx,
                    w as int,
                    y as int,
                    x as int,
                );
            }
            rgb.push(px);
            assert forall|i: int, c: int|
                0 <= i < rgb@.len() && 0 <= c < 3 implies #[trigger] rgb@[i][c] == bmp_channel(
                    d@,
                    i / w as int,
                    i % w as int,
                    c,
                ) by {
                if i == idx {
                    assert(rgb@[i] == px);
                }
            }
            x = x + 1;
        }
        assert(rgb@.len() == (y + 1) * w) by (nonlinear_arith)
            requires
                rgb@.len() == y * w + w,
        ;
        y = y + 1;
    }
    assert(rgb@.len() == w * h) by (nonlinear_arith)
        requires
            rgb@.len() == y * w,
            y == h,
    ;
    Some((w, h, rgb))
}

// ---------------------------------------------------------------------------
// Background colour
// ---------------------------------------------------------------------------

/// Number of 5-bit-per-channel colour bins.
pub const BINS: usize = 32768;

/// The bin of a pixel: each channel cut to its top 5 bits.
pub open spec fn bin_of(p: [u8; 3]) -> int {
    (p[0] / 8) as int * 1024 + (p[1] / 8) as int * 32 + (p[2] / 8) as int
}

/// How many pixels of `s` fall into bin `k`.
pub open spec fn bin_count(s: Seq<[u8; 3]>, k: int) -> nat
    decreases s.len(),
{
    if s.len() == 0 {
        0
    } else {
        bin_count(s.drop_last(), k) + (if bin_of(s.last()) == k { 1nat } else { 0 })
    }
}

/// `k` is the first bin of largest count.
pub open spec fn is_dominant_bin(s: Seq<[u8; 3]>, k: int) -> bool {
    &&& 0 <= k < BINS
    &&& forall|j: int| 0 <= j < BINS ==> bin_count(s, j) <= bin_count(s, k)
    &&& forall|j: int| 0 <= j < k ==> bin_count(s, j) < bin_count(s, k)
}

/// The colour that stands for bin `k`: the middle of the bin.
pub open spec fn bin_colour_ok(c: [u8; 3], k: int) -> bool {
    &&& c[0] == ((k / 1024) % 32) * 8 + 4
    &&& c[1] == ((k / 32) % 32) * 8 + 4
    &&& c[2] == (k % 32) * 8 + 4
}

proof fn lemma_bin_count_le(s: Seq<[u8; 3]>, k: int)
    ensures
        bin_count(s, k) <= s.len(),
    decreases s.len(),
{
    if s.len() > 0 {
        lemma_bin_count_le(s.drop_last(), k);
    }
}

/// The background colour: the middle of the most frequent colour bin (the
/// first such bin where several are equally frequent).
pub fn dominant_bg(rgb: &[[u8; 3]]) -> (c: [u8; 3])
    ensures
        exists|k: int| is_dominant_bin(rgb@, k) && bin_colour_ok(c, k),
{
    let mut hist: Vec<usize> = vec![0usize; BINS];
    let mut i: usize = 0;
    while i < rgb.len()
        invariant
            i <= rgb@.len(),
            hist@.len() == BINS,
            forall|k: int| 0 <= k < BINS ==> #[trigger] hist@[k] == bin_count(rgb@.take(i as int), k),
        decreases rgb.len() - i,
    {
        let p = rgb[i];
        let key = (p[0] / 8) as usize * 1024 + (p[1] / 8) as usize * 32 + (p[2] / 8) as usize;
        assert(key == bin_of(rgb@[i as int]));
        proof {
            lemma_bin_count_le(rgb@.take(i as int), key as int);
            assert(rgb@.take(i as int + 1).drop_last() =~= rgb@.take(i as int));
        }
        let v = hist[key];
        hist.set(key, v + 1);
        i = i + 1;
    }
    assert(rgb@.take(i as int) =~= rgb@);
    let mut best: usize = 0;
    let mut k: usize = 1;
    while k < BINS
        invariant
            1 <= k <= BINS,
            best < k,
            hist@.len() == BINS,
            forall|j: int| 0 <= j < BINS ==> #[trigger] hist@[j] == bin_count(rgb@, j),
            forall|j: int| 0 <= j < k ==> hist@[j] <= hist@[best as int],
            forall|j: int| 0 <= j < best ==> hist@[j] < hist@[best as int],
        decreases BINS - k,
    {
        if hist[k] > hist[best] {
            best = k;
        }
        k = k + 1;
    }
    let r = ((best / 1024) % 32) as u8 * 8 + 4;
    let g = ((best / 32) % 32) as u8 * 8 + 4;
    let b = (best % 32) as u8 * 8 + 4;
    let c: [u8; 3] = [r, g, b];
    assert forall|j: int| 0 <= j < BINS implies bin_count(rgb@, j) <= bin_count(
        rgb@,
        best as int,
    ) by {
        assert(hist@[j] == bin_count(rgb@, j));
    }
    assert forall|j: int| 0 <= j < best implies bin_count(rgb@, j) < bin_count(
        rgb@,
        best as int,
    ) by {
        assert(hist@[j] == bin_count(rgb@, j));
    }
    assert(hist@[best as int] == bin_count(rgb@, best as int));
    assert(c[0] == r && c[1] == g && c[2] == b);
    assert(bin_colour_ok(c, best as int));
    c
}

// ---------------------------------------------------------------------------
// Connected components
// ---------------------------------------------------------------------------

/// Bounding box (inclusive) and pixel count of one component.
#[derive(Clone, Copy)]
pub struct Comp {
    pub x0: usize,
    pub y0: usize,
    pub x1: usize,
    pub y1: usize,
    pub area: usize,
}

/// The 8-connected region of set pixels that contains `s`.
pub open spec fn region(m: Seq<bool>, w: int, h: int, s: int) -> Set<int> {
    Set::new(|q: int| 0 <= q < w * h && connected(m, w, h, s, q))
}

/// `s` is the first pixel, in row-major order, of its region.
pub open spec fn is_seed(m: Seq<bool>, w: int, h: int, s: int) -> bool {
    &&& 0 <= s < w * h
    &&& m[s]
    &&& forall|t: int| 0 <= t < s ==> !#[trigger] connected(m, w, h, t, s)
}

/// The seeds among the first `n` pixels whose region has at least
/// `min_area` pixels, in row-major order.
pub open spec fn seeds(m: Seq<bool>, w: int, h: int, min_area: int, n: int) -> Seq<int>
    decreases n,
{
    if n <= 0 {
        Seq::empty()
    } else {
        let rest = seeds(m, w, h, min_area, n - 1);
        if is_seed(m, w, h, n - 1) && region(m, w, h, n - 1).len() >= min_area {
            rest.push(n - 1)
        } else {
            rest
        }
    }
}

/// Smallest pixel number from `t` on that is connected to `q` (`q` itself
/// at the latest).
pub open spec fn first_connected(m: Seq<bool>, w: int, h: int, q: int, t: int) -> int
    decreases q - t,
{
    if t >= q {
        q
    } else if connected(m, w, h, t, q) {
        t
    } else {
        first_connected(m, w, h, q, t + 1)
    }
}

proof fn lemma_first_connected(m: Seq<bool>, w: int, h: int, q: int, t: int)
    requires
        0 <= t <= q,
        0 <= q < w * h,
        m[q],
    ensures
        t <= first_connected(m, w, h, q, t) <= q,
        connected(m, w, h, first_connected(m, w, h, q, t), q),
        forall|u: int| t <= u < first_connected(m, w, h, q, t) ==> !#[trigger] connected(m, w, h, u, q),
    decreases q - t,
{
    if t >= q {
        lemma_connected_refl(m, w, h, q);
    } else if !connected(m, w, h, t, q) {
        lemma_first_connected(m, w, h, q, t + 1);
    }
}

proof fn lemma_seeds_shape(m: Seq<bool>, w: int, h: int, min_area: int, n: int)
    ensures
        forall|k: int|
            0 <= k < seeds(m, w, h, min_area, n).len() ==> is_seed(m, w, h, #[trigger] seeds(
                m,
                w,
                h,
                min_area,
                n,
            )[k]) && seeds(m, w, h, min_area, n)[k] < n,
        forall|a: int, b: int|
            0 <= a < b < seeds(m, w, h, min_area, n).len() ==> #[trigger] seeds(m, w, h, min_area, n)[a]
                < #[trigger] seeds(m, w, h, min_area, n)[b],
    decreases n,
{
    if n > 0 {
        lemma_seeds_shape(m, w, h, min_area, n - 1);
        let rest = seeds(m, w, h, min_area, n - 1);
        let cur = seeds(m, w, h, min_area, n);
        if is_seed(m, w, h, n - 1) && region(m, w, h, n - 1).len() >= min_area {
            assert(cur == rest.push(n - 1));
            assert forall|k: int| 0 <= k < cur.len() implies is_seed(m, w, h, #[trigger] cur[k]) && cur[k]
                < n by {
                if k < rest.len() {
                    assert(cur[k] == rest[k]);
                }
            }
            assert forall|a: int, b: int| 0 <= a < b < cur.len() implies #[trigger] cur[a]
                < #[trigger] cur[b] by {
                assert(cur[a] == rest[a]);
                if b < rest.len() {
                    assert(cur[b] == rest[b]);
                }
            }
        }
    }
}

proof fn lemma_seeds_has(m: Seq<bool>, w: int, h: int, n: int, s: int)
    requires
        0 <= s < n,
        is_seed(m, w, h, s),
    ensures
        seeds(m, w, h, 0, n).contains(s),
    decreases n,
{
    if s < n - 1 {
        lemma_seeds_has(m, w, h, n - 1, s);
        let sp = seeds(m, w, h, 0, n - 1);
        let k = choose|k: int| 0 <= k < sp.len() && #[trigger] sp[k] == s;
        assert(seeds(m, w, h, 0, n)[k] == s);
    } else {
        assert(region(m, w, h, s).len() >= 0);
        let sd = seeds(m, w, h, 0, n);
        assert(sd[sd.len() - 1] == s);
    }
}

/// The regions of the seeds partition the set pixels: every set pixel lies
/// in the region of exactly one seed.
pub proof fn lemma_regions_partition(m: Seq<bool>, w: int, h: int, q: int)
    requires
        w > 0,
        0 <= q < w * h,
        m[q],
    ensures
        exists|k: int|
            0 <= k < seeds(m, w, h, 0, w * h).len() && #[trigger] region(
                m,
                w,
                h,
                seeds(m, w, h, 0, w * h)[k],
            ).contains(q),
        forall|a: int, b: int|
            0 <= a < b < seeds(m, w, h, 0, w * h).len() ==> !(#[trigger] region(
                m,
                w,
                h,
                seeds(m, w, h, 0, w * h)[a],
            ).contains(q) && #[trigger] region(m, w, h, seeds(m, w, h, 0, w * h)[b]).contains(q)),
{
    let n = w * h;
    let sd = seeds(m, w, h, 0, n);
    lemma_first_connected(m, w, h, q, 0);
    let r = first_connected(m, w, h, q, 0);
    lemma_connected_ends(m, w, h, r, q);
    assert(is_seed(m, w, h, r)) by {
        assert forall|u: int| 0 <= u < r implies !#[trigger] connected(m, w, h, u, r) by {
            if connected(m, w, h, u, r) {
                lemma_connected_trans(m, w, h, u, r, q);
            }
        }
    }
    lemma_seeds_has(m, w, h, n, r);
    let k = choose|k: int| 0 <= k < sd.len() && sd[k] == r;
    assert(region(m, w, h, sd[k]).contains(q));
    lemma_seeds_shape(m, w, h, 0, n);
    assert forall|a: int, b: int| 0 <= a < b < sd.len() implies !(#[trigger] region(
        m,
        w,
        h,
        sd[a],
    ).contains(q) && #[trigger] region(m, w, h, sd[b]).contains(q)) by {
        if region(m, w, h, sd[a]).contains(q) && region(m, w, h, sd[b]).contains(q) {
            assert(sd[a] < sd[b]);
            assert(is_seed(m, w, h, sd[b]));
            lemma_connected_sym(m, w, h, sd[b], q);
            lemma_connected_trans(m, w, h, sd[a], q, sd[b]);
            assert(connected(m, w, h, sd[a], sd[b]));
        }
    }
}

/// `c` is the bounding box and pixel count of the pixel set `r`.
pub open spec fn describes(c: Comp, w: int, r: Set<int>) -> bool {
    &&& c.area == r.len()
    &&& forall|q: int| #[trigger] r.contains(q) ==> c.x0 <= q % w <= c.x1 && c.y0 <= q / w <= c.y1
    &&& exists|q: int| #[trigger] r.contains(q) && q % w == c.x0
    &&& exists|q: int| #[trigger] r.contains(q) && q % w == c.x1
    &&& exists|q: int| #[trigger] r.contains(q) && q / w == c.y0
    &&& exists|q: int| #[trigger] r.contains(q) && q / w == c.y1
}

/// Pixel numbers as mathematical integers.
pub open spec fn ints(s: Seq<usize>) -> Seq<int> {
    s.map_values(|v: usize| v as int)
}

/// Bounding box and count of a duplicate-free pixel list.
fn describe(w: usize, px: &Vec<usize>) -> (c: Comp)
    requires
        w > 0,
        px@.len() >= 1,
        px@.no_duplicates(),
    ensures
        describes(c, w as int, ints(px@).to_set()),
{
    let ghost r = ints(px@).to_set();
    let ghost pi = ints(px@);
    let mut x0 = px[0] % w;
    let mut x1 = x0;
    let mut y0 = px[0] / w;
    let mut y1 = y0;
    let mut i: usize = 1;
    while i < px.len()
        invariant
            w > 0,
            1 <= i <= px@.len(),
            pi == ints(px@),
            forall|k: int| 0 <= k < i ==> x0 <= #[trigger] px@[k] % w <= x1 && y0 <= px@[k] / w <= y1,
            exists|k: int| 0 <= k < i && #[trigger] px@[k] % w == x0,
            exists|k: int| 0 <= k < i && #[trigger] px@[k] % w == x1,
            exists|k: int| 0 <= k < i && #[trigger] px@[k] / w == y0,
            exists|k: int| 0 <= k < i && #[trigger] px@[k] / w == y1,
        decreases px.len() - i,
    {
        let x = px[i] % w;
        let y = px[i] / w;
        if x < x0 {
            x0 = x;
        }
        if x > x1 {
            x1 = x;
        }
        if y < y0 {
            y0 = y;
        }
        if y > y1 {
            y1 = y;
        }
        i = i + 1;
    }
    let c = Comp { x0, y0, x1, y1, area: px.len() };
    proof {
        assert forall|a: int, b: int|
            0 <= a < pi.len() && 0 <= b < pi.len() && a != b implies pi[a] != pi[b] by {
            assert(px@[a] != px@[b]);
        }
        pi.unique_seq_to_set();
        assert forall|q: int| #[trigger] r.contains(q) implies c.x0 <= q % (w as int) <= c.x1 && c.y0
            <= q / (w as int) <= c.y1 by {
            let k = choose|k: int| 0 <= k < pi.len() && pi[k] == q;
            assert(x0 <= px@[k] % w <= x1 && y0 <= px@[k] / w <= y1);
        }
        let k0 = choose|k: int| 0 <= k < i && #[trigger] px@[k] % w == x0;
        assert(r.contains(pi[k0]));
        let k1 = choose|k: int| 0 <= k < i && #[trigger] px@[k] % w == x1;
        assert(r.contains(pi[k1]));
        let k2 = choose|k: int| 0 <= k < i && #[trigger] px@[k] / w == y0;
        assert(r.contains(pi[k2]));
        let k3 = choose|k: int| 0 <= k < i && #[trigger] px@[k] / w == y1;
        assert(r.contains(pi[k3]));
    }
    c
}

/// Every region of set pixels with at least `min_area` pixels, in the
/// row-major order of the regions' first pixels.
#[verifier::spinoff_prover]
#[verifier::rlimit(50)]
pub fn components(fg: &[bool], w: usize, h: usize, min_area: usize) -> (out: Vec<Comp>)
    requires
        fg@.len() == w * h,
    ensures
        out@.len() == seeds(fg@, w as int, h as int, min_area as int, (w * h) as int).len(),
        forall|k: int|
            0 <= k < out@.len() ==> describes(
                #[trigger] out@[k],
                w as int,
                region(fg@, w as int, h as int, seeds(fg@, w as int, h as int, min_area as int, (w
                    * h) as int)[k]),
            ),
        comps_in(out@, w as int, h as int),
{
    let ghost m = fg@;
    let ghost wi = w as int;
    let ghost hi = h as int;
    let n = fg.len();
    let mut seen: Vec<bool> = vec![false; n];
    let mut out: Vec<Comp> = Vec::new();
    let mut si: usize = 0;
    while si < n
        invariant
            w > 0 || n == 0,
            m == fg@,
            fg@.len() == w * h,
            wi == w,
            hi == h,
            n == w * h,
            si <= n,
            seen@.len() == n,
            closed(m, wi, hi, seen@),
            marks_set_only(m, wi, hi, seen@),
            forall|q: int|
                0 <= q < n ==> (seen@[q] <==> exists|t: int|
                    0 <= t < si && #[trigger] connected(m, wi, hi, t, q)),
            out@.len() == seeds(m, wi, hi, min_area as int, si as int).len(),
            forall|k: int|
                0 <= k < out@.len() ==> describes(
                    #[trigger] out@[k],
                    wi,
                    region(m, wi, hi, seeds(m, wi, hi, min_area as int, si as int)[k]),
                ),
        decreases n - si,
    {
        assert(w > 0) by (nonlinear_arith)
            requires
                si < n,
                n == w * h,
        ;
        let ghost before = seen@;
        let ghost sd = seeds(m, wi, hi, min_area as int, si as int);
        if fg[si] && !seen[si] {
            assert(is_seed(m, wi, hi, si as int)) by {
                assert forall|t: int| 0 <= t < si implies !#[trigger] connected(m, wi, hi, t, si as int) by {
                    if connected(m, wi, hi, t, si as int) {
                        assert(seen@[si as int]);
                    }
                }
            }
            let px = flood(fg, w, h, &mut seen, si);
            let ghost reg = region(m, wi, hi, si as int);
            assert(ints(px@).to_set() =~= reg) by {
                assert forall|q: int| reg.contains(q) implies ints(px@).to_set().contains(q) by {
                    assert(px@.contains(q as usize));
                    let k = choose|k: int| 0 <= k < px@.len() && px@[k] == q as usize;
                    assert(ints(px@)[k] == q);
                }
                assert forall|q: int| ints(px@).to_set().contains(q) implies reg.contains(q) by {
                    let k = choose|k: int| 0 <= k < px@.len() && #[trigger] ints(px@)[k] == q;
                    assert(px@[k] < w * h);
                    assert(px@.contains(q as usize));
                }
            }
            let c = describe(w, &px);
            proof {
                let pi = ints(px@);
                assert forall|a: int, b: int|
                    0 <= a < pi.len() && 0 <= b < pi.len() && a != b implies pi[a] != pi[b] by {
                    assert(px@[a] != px@[b]);
                }
                pi.unique_seq_to_set();
            }
            if c.area >= min_area {
                out.push(c);
            }
            assert forall|q: int|
                0 <= q < n implies (seen@[q] <==> exists|t: int|
                    0 <= t < si + 1 && #[trigger] connected(m, wi, hi, t, q)) by {
                if seen@[q] && !before[q] {
                    assert(px@.contains(q as usize));
                    assert(connected(m, wi, hi, si as int, q));
                }
                if exists|t: int| 0 <= t < si + 1 && #[trigger] connected(m, wi, hi, t, q) {
                    let t = choose|t: int| 0 <= t < si + 1 && #[trigger] connected(m, wi, hi, t, q);
                    if t == si {
                        assert(px@.contains(q as usize));
                    } else {
                        assert(before[q]);
                    }
                }
            }
        } else {
            proof {
                if fg@[si as int] {
                    assert(seen@[si as int]);
                    let t0 = choose|t: int| 0 <= t < si && #[trigger] connected(m, wi, hi, t, si as int);
                    assert(!is_seed(m, wi, hi, si as int));
                    assert forall|q: int|
                        0 <= q < n implies (seen@[q] <==> exists|t: int|
                            0 <= t < si + 1 && #[trigger] connected(m, wi, hi, t, q)) by {
                        if connected(m, wi, hi, si as int, q) {
                            lemma_connected_trans(m, wi, hi, t0, si as int, q);
                        }
                    }
                } else {
                    assert(!is_seed(m, wi, hi, si as int));
                    assert forall|q: int|
                        0 <= q < n implies (seen@[q] <==> exists|t: int|
                            0 <= t < si + 1 && #[trigger] connected(m, wi, hi, t, q)) by {
                        if connected(m, wi, hi, si as int, q) {
                            lemma_connected_ends(m, wi, hi, si as int, q);
                        }
                    }
                }
            }
        }
        si = si + 1;
    }
    assert forall|k: int| #![trigger out@[k]] 0 <= k < out@.len() implies out@[k].x0 <= out@[k].x1 < w
        && out@[k].y0 <= out@[k].y1 < h by {
        lemma_describes_in(out@[k], wi, hi, region(m, wi, hi, seeds(m, wi, hi, min_area as int, si as int)[k]));
    }
    out
}

proof fn lemma_describes_in(c: Comp, w: int, h: int, r: Set<int>)
    requires
        w > 0,
        describes(c, w, r),
        forall|q: int| #[trigger] r.contains(q) ==> 0 <= q < w * h,
    ensures
        c.x0 <= c.x1 < w,
        c.y0 <= c.y1 < h,
{
    let q0 = choose|q: int| #[trigger] r.contains(q) && q % w == c.x0;
    let q1 = choose|q: int| #[trigger] r.contains(q) && q % w == c.x1;
    let q3 = choose|q: int| #[trigger] r.contains(q) && q / w == c.y1;
    lemma_grid_pos(w, h, q1);
    lemma_grid_pos(w, h, q3);
    lemma_grid_pos(w, h, q0);
}

/// `out` lists, in order, the bounding box and count of each region of `m`
/// with at least `min_area` pixels (regions ordered by their first pixel).
pub open spec fn comps_of(m: Seq<bool>, w: int, h: int, min_area: int, out: Seq<Comp>) -> bool {
    let sd = seeds(m, w, h, min_area, w * h);
    &&& out.len() == sd.len()
    &&& forall|k: int| 0 <= k < out.len() ==> describes(#[trigger] out[k], w, region(m, w, h, sd[k]))
}

// ---------------------------------------------------------------------------
// Foreground
// ---------------------------------------------------------------------------

/// Sum of the channel distances between a pixel and the colour of bin `k`.
pub open spec fn bin_dist(p: [u8; 3], k: int) -> int {
    let c0 = ((k / 1024) % 32) * 8 + 4;
    let c1 = ((k / 32) % 32) * 8 + 4;
    let c2 = (k % 32) * 8 + 4;
    let d0 = p[0] - c0;
    let d1 = p[1] - c1;
    let d2 = p[2] - c2;
    (if d0 < 0 { -d0 } else { d0 }) + (if d1 < 0 { -d1 } else { d1 }) + (if d2 < 0 { -d2 } else { d2 })
}

/// Pixel `i` is foreground against the background bin `k`: inside the
/// frame and farther than `THRESH` from the background colour.
pub open spec fn is_fg(w: int, h: int, rgb: Seq<[u8; 3]>, k: int, i: int) -> bool {
    &&& FRAME <= i / w < h - FRAME
    &&& FRAME <= i % w < w - FRAME
    &&& bin_dist(rgb[i], k) > THRESH
}

pub open spec fn fg_mask(w: int, h: int, rgb: Seq<[u8; 3]>, k: int) -> Seq<bool> {
    Seq::new((w * h) as nat, |i: int| is_fg(w, h, rgb, k, i))
}

pub open spec fn count_true(s: Seq<bool>) -> nat
    decreases s.len(),
{
    if s.len() == 0 {
        0
    } else {
        count_true(s.drop_last()) + (if s.last() { 1nat } else { 0 })
    }
}

fn abs_diff(a: u8, b: u8) -> (r: i32)
    ensures
        r == (if a >= b { a - b } else { b - a }),
{
    if a >= b {
        (a - b) as i32
    } else {
        (b - a) as i32
    }
}

/// The foreground mask and its number of set pixels.
pub fn foreground(w: usize, h: usize, rgb: &[[u8; 3]], bg: [u8; 3], Ghost(k): Ghost<int>) -> (r: (
    Vec<bool>,
    usize,
))
    requires
        w > 0,
        rgb@.len() == w * h,
        bin_colour_ok(bg, k),
    ensures
        r.0@ == fg_mask(w as int, h as int, rgb@, k),
        r.1 == count_true(r.0@),
{
    let n = rgb.len();
    let mut fg: Vec<bool> = Vec::new();
    let mut cnt: usize = 0;
    let mut i: usize = 0;
    while i < n
        invariant
            w > 0,
            n == rgb@.len(),
            n == w * h,
            bin_colour_ok(bg, k),
            i <= n,
            fg@.len() == i,
            cnt == count_true(fg@),
            cnt <= i,
            forall|j: int| 0 <= j < i ==> #[trigger] fg@[j] == is_fg(w as int, h as int, rgb@, k, j),
        decreases n - i,
    {
        let y = i / w;
        let x = i % w;
        let p = rgb[i];
        let dist = abs_diff(p[0], bg[0]) + abs_diff(p[1], bg[1]) + abs_diff(p[2], bg[2]);
        let inside = FRAME <= y && FRAME <= h && y < h - FRAME && FRAME <= x && FRAME <= w && x < w
            - FRAME;
        let f = inside && dist > THRESH;
        assert(f == is_fg(w as int, h as int, rgb@, k, i as int));
        let ghost before = fg@;
        fg.push(f);
        assert(fg@.drop_last() == before);
        if f {
            cnt = cnt + 1;
        }
        i = i + 1;
    }
    assert(fg@ =~= fg_mask(w as int, h as int, rgb@, k));
    (fg, cnt)
}

/// The components of a button image: empty when the image is smaller than
/// 6x6 or has fewer than 8 foreground pixels; else the regions of the
/// foreground with at least `max(4, w * h / 3000)` pixels.
#[verifier::spinoff_prover]
#[verifier::rlimit(50)]
pub fn detect_components(w: usize, h: usize, rgb: &[[u8; 3]]) -> (out: Vec<Comp>)
    requires
        rgb@.len() == w * h,
    ensures
        w < 6 || h < 6 ==> out@.len() == 0,
        w >= 6 && h >= 6 ==> exists|k: int|
            #[trigger] is_dominant_bin(rgb@, k) && (if count_true(
                fg_mask(w as int, h as int, rgb@, k),
            ) < 8 {
                out@.len() == 0
            } else {
                comps_of(
                    fg_mask(w as int, h as int, rgb@, k),
                    w as int,
                    h as int,
                    min_area_for(w as int, h as int),
                    out@,
                )
            }),
        comps_in(out@, w as int, h as int),
        forall|j: int|
            #![trigger out@[j]]
            0 <= j < out@.len() ==> FRAME <= out@[j].x0 && out@[j].x1 < w - FRAME && FRAME <= out@[j].y0
                && out@[j].y1 < h - FRAME,
{
    if w < 6 || h < 6 {
        return Vec::new();
    }
    let bg = dominant_bg(rgb);
    let ghost k = choose|k: int| is_dominant_bin(rgb@, k) && bin_colour_ok(bg, k);
    let (fg, cnt) = foreground(w, h, rgb, bg, Ghost(k));
    if cnt < 8 {
        return Vec::new();
    }
    let q = rgb.len() / 3000;
    let min_area = if q > 4 { q } else { 4 };
    let out = components(&fg, w, h, min_area);
    assert(comps_of(fg@, w as int, h as int, min_area as int, out@));
    proof {
        let m = fg@;
        let wi = w as int;
        let hi = h as int;
        let sd = seeds(m, wi, hi, min_area as int, wi * hi);
        assert forall|j: int|
            #![trigger out@[j]]
            0 <= j < out@.len() implies FRAME <= out@[j].x0 && out@[j].x1 < w - FRAME && FRAME
                <= out@[j].y0 && out@[j].y1 < h - FRAME by {
            let c = out@[j];
            let r = region(m, wi, hi, sd[j]);
            assert(describes(c, wi, r));
            let q0 = choose|q: int| #[trigger] r.contains(q) && q % wi == c.x0;
            let q1 = choose|q: int| #[trigger] r.contains(q) && q % wi == c.x1;
            let q2 = choose|q: int| #[trigger] r.contains(q) && q / wi == c.y0;
            let q3 = choose|q: int| #[trigger] r.contains(q) && q / wi == c.y1;
            lemma_connected_ends(m, wi, hi, sd[j], q0);
            lemma_connected_ends(m, wi, hi, sd[j], q1);
            lemma_connected_ends(m, wi, hi, sd[j], q2);
            lemma_connected_ends(m, wi, hi, sd[j], q3);
            assert(is_fg(wi, hi, rgb@, k, q0) && is_fg(wi, hi, rgb@, k, q1) && is_fg(wi, hi, rgb@, k, q2)
                && is_fg(wi, hi, rgb@, k, q3));
        }
    }
    out
}

/// Smallest component area kept: `max(4, w * h / 3000)`.
pub open spec fn min_area_for(w: int, h: int) -> int {
    if (w * h) / 3000 > 4 {
        (w * h) / 3000
    } else {
        4
    }
}

// ---------------------------------------------------------------------------
// Positions
// ---------------------------------------------------------------------------

/// Class of the fraction `num / den` (`den > 0`): left below 0.40, right
/// above 0.60, centre between (bounds included).
pub open spec fn frac_class(num: int, den: int) -> i32 {
    if 5 * num < 2 * den {
        P_LEFT
    } else if 5 * num > 3 * den {
        P_RIGHT
    } else {
        P_CENTER
    }
}

/// Class of `(a - b) / den`.
fn class_of(a: u128, b: u128, den: u128) -> (r: i32)
    requires
        a < 0x1_0000_0000_0000_0000_0000,
        b < 0x1_0000_0000_0000_0000_0000,
        den < 0x1_0000_0000_0000_0000_0000,
    ensures
        r == frac_class(a - b, den as int),
{
    if 5 * a < 2 * den + 5 * b {
        P_LEFT
    } else if 5 * a > 3 * den + 5 * b {
        P_RIGHT
    } else {
        P_CENTER
    }
}

pub open spec fn min_i(a: int, b: int) -> int {
    if a <= b {
        a
    } else {
        b
    }
}

pub open spec fn max_i(a: int, b: int) -> int {
    if a >= b {
        a
    } else {
        b
    }
}

/// Bounding box `(x0, y0, x1, y1)` of a non-empty list of components.
pub open spec fn bbox_of(s: Seq<Comp>) -> (int, int, int, int)
    decreases s.len(),
{
    if s.len() <= 1 {
        (s[0].x0 as int, s[0].y0 as int, s[0].x1 as int, s[0].y1 as int)
    } else {
        let r = bbox_of(s.drop_last());
        let c = s.last();
        (min_i(r.0, c.x0 as int), min_i(r.1, c.y0 as int), max_i(r.2, c.x1 as int), max_i(
            r.3,
            c.y1 as int,
        ))
    }
}

/// Bounding box of all given components; `None` for none.
pub fn union(cs: &[Comp]) -> (r: Option<(usize, usize, usize, usize)>)
    ensures
        cs@.len() == 0 ==> r.is_none(),
        cs@.len() > 0 ==> r.is_some(),
        r matches Some(b) ==> (b.0 as int, b.1 as int, b.2 as int, b.3 as int) == bbox_of(cs@),
{
    if cs.len() == 0 {
        return None;
    }
    let mut x0 = cs[0].x0;
    let mut y0 = cs[0].y0;
    let mut x1 = cs[0].x1;
    let mut y1 = cs[0].y1;
    let mut i: usize = 1;
    while i < cs.len()
        invariant
            1 <= i <= cs@.len(),
            (x0 as int, y0 as int, x1 as int, y1 as int) == bbox_of(cs@.take(i as int)),
        decreases cs.len() - i,
    {
        assert(cs@.take(i as int + 1).drop_last() =~= cs@.take(i as int));
        if cs[i].x0 < x0 {
            x0 = cs[i].x0;
        }
        if cs[i].y0 < y0 {
            y0 = cs[i].y0;
        }
        if cs[i].x1 > x1 {
            x1 = cs[i].x1;
        }
        if cs[i].y1 > y1 {
            y1 = cs[i].y1;
        }
        i = i + 1;
    }
    assert(cs@.take(i as int) =~= cs@);
    Some((x0, y0, x1, y1))
}

/// Boxes inside a `w` x `h` image.
pub open spec fn comps_in(cs: Seq<Comp>, w: int, h: int) -> bool {
    forall|k: int|
        #![trigger cs[k]]
        0 <= k < cs.len() ==> cs[k].x0 <= cs[k].x1 < w && cs[k].y0 <= cs[k].y1 < h
}

/// Free extent `[a0, a1)` left of, right of, above or below the icon, as
/// at least one pixel.
pub open spec fn extent(a0: int, a1: int) -> int {
    if a1 - a0 >= 1 {
        a1 - a0
    } else {
        1
    }
}

/// The layout read from the components: (caption shown, caption h,
/// caption v, image present, image h, image v). With both hints set, the
/// component `icon` is the icon and the others are the caption; with the
/// image hint alone all components form the icon; with the caption hint
/// alone they form the caption. The caption is placed inside the area that
/// the icon leaves on its side.
pub open spec fn layout_spec(w: int, h: int, cs: Seq<Comp>, ch: int, ih: int, icon: int) -> (
    bool,
    i32,
    i32,
    bool,
    i32,
    i32,
) {
    let want_cap = ch != 0;
    let want_img = ih != 0;
    let ib: (int, int, int, int) = if want_cap {
        (cs[icon].x0 as int, cs[icon].y0 as int, cs[icon].x1 as int, cs[icon].y1 as int)
    } else {
        bbox_of(cs)
    };
    let img_h = if want_img { frac_class(ib.0 + ib.2, 2 * w) } else { P_NONE };
    let img_v = if want_img { frac_class(ib.1 + ib.3, 2 * h) } else { P_NONE };
    let text = if want_img { cs.remove(icon) } else { cs };
    if !want_cap || text.len() == 0 {
        (false, P_NONE, P_NONE, want_img, img_h, img_v)
    } else {
        let tb = bbox_of(text);
        let ax0 = if want_img && img_h == P_LEFT { ib.2 + 1 } else { 0 };
        let ax1 = if want_img && img_h == P_RIGHT { ib.0 } else { w };
        let ay0 = if want_img && img_v == P_LEFT { ib.3 + 1 } else { 0 };
        let ay1 = if want_img && img_v == P_RIGHT { ib.1 } else { h };
        (
            true,
            frac_class(tb.0 + tb.2 - 2 * ax0, 2 * extent(ax0, ax1)),
            frac_class(tb.1 + tb.3 - 2 * ay0, 2 * extent(ay0, ay1)),
            want_img,
            img_h,
            img_v,
        )
    }
}

/// `extent` computed the way the detector does: a saturating difference,
/// raised to one.
fn extent_exec(a0: usize, a1: usize) -> (r: usize)
    ensures
        r == extent(a0 as int, a1 as int),
{
    if a1 > a0 && a1 - a0 >= 1 {
        a1 - a0
    } else {
        1
    }
}

/// Caption and icon positions from the components of a button image.
/// `icon` is the component chosen as the icon when both hints are set
/// (the one of highest icon score).
#[verifier::spinoff_prover]
#[verifier::rlimit(50)]
pub fn classify_layout(
    w: usize,
    h: usize,
    comps: &[Comp],
    caption_hint: i32,
    image_hint: i32,
    icon: usize,
) -> (r: (bool, i32, i32, bool, i32, i32))
    requires
        w > 0,
        h > 0,
        comps@.len() > 0,
        icon < comps@.len(),
        comps_in(comps@, w as int, h as int),
    ensures
        r == layout_spec(w as int, h as int, comps@, caption_hint as int, image_hint as int, icon as int),
{
    let want_cap = caption_hint != 0;
    let want_img = image_hint != 0;
    let ghost cs = comps@;
    let ib: (usize, usize, usize, usize) = if want_cap {
        (comps[icon].x0, comps[icon].y0, comps[icon].x1, comps[icon].y1)
    } else {
        union(comps).unwrap()
    };
    proof {
        if !want_cap {
            lemma_bbox_in(cs, w as int, h as int);
        }
    }
    let w2 = 2 * (w as u128);
    let h2 = 2 * (h as u128);
    let img_h = if want_img { class_of(ib.0 as u128 + ib.2 as u128, 0, w2) } else { P_NONE };
    let img_v = if want_img { class_of(ib.1 as u128 + ib.3 as u128, 0, h2) } else { P_NONE };
    let mut text: Vec<Comp> = Vec::new();
    let mut i: usize = 0;
    while i < comps.len()
        invariant
            i <= comps@.len(),
            cs == comps@,
            icon < comps@.len(),
            text@ == (if want_img && icon < i { cs.take(i as int).remove(icon as int) } else { cs.take(
                i as int,
            ) }),
        decreases comps.len() - i,
    {
        let ghost t0 = text@;
        if !(want_img && i == icon) {
            text.push(comps[i]);
        }
        proof {
            let ti = cs.take(i as int);
            let tn = cs.take(i as int + 1);
            assert(tn =~= ti.push(cs[i as int]));
            if want_img && icon < i {
                assert(tn.remove(icon as int) =~= ti.remove(icon as int).push(cs[i as int]));
            }
            if want_img && icon == i {
                assert(tn.remove(icon as int) =~= ti);
            }
        }
        i = i + 1;
    }
    assert(cs.take(i as int) =~= cs);
    if !want_cap || text.len() == 0 {
        return (false, P_NONE, P_NONE, want_img, img_h, img_v);
    }
    let tb = union(&text).unwrap();
    proof {
        assert(comps_in(text@, w as int, h as int)) by {
            assert forall|k: int| 0 <= k < text@.len() implies #[trigger] text@[k].x0 <= text@[k].x1 < w
                && text@[k].y0 <= text@[k].y1 < h by {
                if want_img {
                    if k < icon {
                        assert(text@[k] == cs[k]);
                    } else {
                        assert(text@[k] == cs[k + 1]);
                    }
                } else {
                    assert(text@[k] == cs[k]);
                }
            }
        }
        lemma_bbox_in(text@, w as int, h as int);
    }
    let ax0 = if want_img && img_h == P_LEFT { ib.2 + 1 } else { 0 };
    let ax1 = if want_img && img_h == P_RIGHT { ib.0 } else { w };
    let ay0 = if want_img && img_v == P_LEFT { ib.3 + 1 } else { 0 };
    let ay1 = if want_img && img_v == P_RIGHT { ib.1 } else { h };
    let aw = extent_exec(ax0, ax1);
    let ah = extent_exec(ay0, ay1);
    let cap_h = class_of(tb.0 as u128 + tb.2 as u128, 2 * (ax0 as u128), 2 * (aw as u128));
    let cap_v = class_of(tb.1 as u128 + tb.3 as u128, 2 * (ay0 as u128), 2 * (ah as u128));
    (true, cap_h, cap_v, want_img, img_h, img_v)
}

proof fn lemma_bbox_in(s: Seq<Comp>, w: int, h: int)
    requires
        s.len() > 0,
        comps_in(s, w, h),
    ensures
        0 <= bbox_of(s).0 <= bbox_of(s).2 < w,
        0 <= bbox_of(s).1 <= bbox_of(s).3 < h,
    decreases s.len(),
{
    if s.len() > 1 {
        assert(comps_in(s.drop_last(), w, h)) by {
            assert forall|k: int| 0 <= k < s.drop_last().len() implies #[trigger] s.drop_last()[k].x0 <= s.drop_last()[
                k].x1 < w && s.drop_last()[k].y0 <= s.drop_last()[k].y1 < h by {
                assert(s.drop_last()[k] == s[k]);
            }
        }
        lemma_bbox_in(s.drop_last(), w, h);
        assert(s.last() == s[s.len() - 1]);
    } else {
        assert(s[0].x0 <= s[0].x1 < w);
    }
}

// ---------------------------------------------------------------------------
// Raw pixel buffers
// ---------------------------------------------------------------------------

/// Bytes per pixel of a raw format: 0 RGB, 1 BGR (3 bytes), 2 BGRA,
/// 3 RGBA (4 bytes); higher codes read like RGBA.
pub open spec fn raw_bpp(fmt: int) -> int {
    if fmt >= 2 {
        4
    } else {
        3
    }
}

/// Channel `c` of raw pixel `(y, x)`: formats 1 and 2 store blue first.
pub open spec fn raw_channel(d: Seq<u8>, stride: int, fmt: int, y: int, x: int, c: int) -> u8 {
    let p = y * stride + x * raw_bpp(fmt);
    if fmt == 1 || fmt == 2 {
        d[p + 2 - c]
    } else {
        d[p + c]
    }
}

/// RGB pixels, row-major, of a raw buffer with the given row stride.
pub fn raw_pixels(d: &[u8], w: usize, h: usize, stride: usize, fmt: i32) -> (rgb: Vec<[u8; 3]>)
    requires
        w > 0,
        h > 0,
        (h - 1) * stride + (w - 1) * raw_bpp(fmt as int) + 3 <= d@.len(),
    ensures
        rgb@.len() == w * h,
        forall|i: int, c: int|
            0 <= i < rgb@.len() && 0 <= c < 3 ==> #[trigger] rgb@[i][c] == raw_channel(
                d@,
                stride as int,
                fmt as int,
                i / w as int,
                i % w as int,
                c,
            ),
{
    let bpp: usize = if fmt >= 2 { 4 } else { 3 };
    let dl = d.len();
    let mut rgb: Vec<[u8; 3]> = Vec::new();
    let mut y: usize = 0;
    while y < h
        invariant
            dl == d@.len(),
            w > 0,
            bpp == raw_bpp(fmt as int),
            (h - 1) * stride + (w - 1) * bpp + 3 <= d@.len(),
            y <= h,
            rgb@.len() == y * w,
            forall|i: int, c: int|
                0 <= i < rgb@.len() && 0 <= c < 3 ==> #[trigger] rgb@[i][c] == raw_channel(
                    d@,
                    stride as int,
                    fmt as int,
                    i / w as int,
                    i % w as int,
                    c,
                ),
        decreases h - y,
    {
        let mut x: usize = 0;
        while x < w
            invariant
                dl == d@.len(),
                w > 0,
                bpp == raw_bpp(fmt as int),
                (h - 1) * stride + (w - 1) * bpp + 3 <= d@.len(),
                y < h,
                x <= w,
                rgb@.len() == y * w + x,
                forall|i: int, c: int|
                    0 <= i < rgb@.len() && 0 <= c < 3 ==> #[trigger] rgb@[i][c] == raw_channel(
                        d@,
                        stride as int,
                        fmt as int,
                        i / w as int,
                        i % w as int,
                        c,
                    ),
            decreases w - x,
        {
            assert(y * stride <= (h - 1) * stride && x * bpp <= (w - 1) * bpp) by (nonlinear_arith)
                requires
                    y <= h - 1,
                    x <= w - 1,
            ;
            let p = y * stride + x * bpp;
            let px: [u8; 3] = if fmt == 1 || fmt == 2 {
                [d[p + 2], d[p + 1], d[p]]
            } else {
                [d[p], d[p + 1], d[p + 2]]
            };
            let ghost idx = rgb@.len() as int;
            proof {
                vstd::arithmetic::div_mod::lemma_fundamental_div_mod_converse(
                    idx,
                    w as int,
                    y as int,
                    x as int,
                );
            }
            rgb.push(px);
            assert forall|i: int, c: int|
                0 <= i < rgb@.len() && 0 <= c < 3 implies #[trigger] rgb@[i][c] == raw_channel(
                    d@,
                    stride as int,
                    fmt as int,
                    i / w as int,
                    i % w as int,
                    c,
                ) by {
                if i == idx {
                    assert(rgb@[i] == px);
                }
            }
            x = x + 1;
        }
        assert(rgb@.len() == (y + 1) * w) by (nonlinear_arith)
            requires
                rgb@.len() == y * w + w,
        ;
        y = y + 1;
    }
    assert(rgb@.len() == w * h) by (nonlinear_arith)
        requires
            rgb@.len() == y * w,
            y == h,
    ;
    rgb
}

} // verus!

verus! {

// ---------------------------------------------------------------------------
// Law: the caption is placed in the area the icon leaves free
// ---------------------------------------------------------------------------

/// Component `c` moved `dx` left and `dy` up.
pub open spec fn shift_comp(c: Comp, dx: int, dy: int) -> Comp {
    Comp {
        x0: (c.x0 - dx) as usize,
        y0: (c.y0 - dy) as usize,
        x1: (c.x1 - dx) as usize,
        y1: (c.y1 - dy) as usize,
        area: c.area,
    }
}

pub open spec fn shift_comps(s: Seq<Comp>, dx: int, dy: int) -> Seq<Comp> {
    Seq::new(s.len(), |k: int| shift_comp(s[k], dx, dy))
}

/// Components at or right of `dx` and at or below `dy`.
pub open spec fn comps_from(s: Seq<Comp>, dx: int, dy: int) -> bool {
    forall|k: int| #![trigger s[k]] 0 <= k < s.len() ==> dx <= s[k].x0 && dx <= s[k].x1 && dy <= s[k].y0 && dy <= s[k].y1
}

proof fn lemma_bbox_shift(s: Seq<Comp>, dx: int, dy: int)
    requires
        s.len() > 0,
        dx >= 0,
        dy >= 0,
        comps_from(s, dx, dy),
    ensures
        bbox_of(shift_comps(s, dx, dy)) == (
            bbox_of(s).0 - dx,
            bbox_of(s).1 - dy,
            bbox_of(s).2 - dx,
            bbox_of(s).3 - dy,
        ),
    decreases s.len(),
{
    let t = shift_comps(s, dx, dy);
    if s.len() > 1 {
        assert(comps_from(s.drop_last(), dx, dy)) by {
            assert forall|k: int| 0 <= k < s.drop_last().len() implies dx <= #[trigger] s.drop_last()[k].x0 && dx
                <= s.drop_last()[k].x1 && dy <= s.drop_last()[k].y0 && dy <= s.drop_last()[k].y1 by {
                assert(s.drop_last()[k] == s[k]);
            }
        }
        lemma_bbox_shift(s.drop_last(), dx, dy);
        assert(t.drop_last() =~= shift_comps(s.drop_last(), dx, dy));
        assert(t.last() == shift_comp(s.last(), dx, dy));
        assert(s.last() == s[s.len() - 1]);
    } else {
        assert(t[0] == shift_comp(s[0], dx, dy));
        assert(s[0].x0 >= dx);
    }
}

/// With both hints, the caption is classed within the area the icon leaves
/// free: right of a left icon (from its right edge + 1), left of a right
/// icon (up to its left edge), below a top icon (from its bottom row + 1)
/// and above a bottom icon (up to its top row). Its classes are those of
/// the same caption, moved into that area, in an image of the area's size
/// with no icon.
pub proof fn lemma_caption_in_free_area(w: int, h: int, cs: Seq<Comp>, icon: int)
    requires
        0 <= icon < cs.len(),
        cs.len() >= 2,
    ensures
        ({
            let ib = cs[icon];
            let img_h = frac_class(ib.x0 + ib.x1, 2 * w);
            let img_v = frac_class(ib.y0 + ib.y1, 2 * h);
            let fx0: int = if img_h == P_LEFT { ib.x1 + 1 } else { 0 };
            let fx1: int = if img_h == P_RIGHT { ib.x0 as int } else { w };
            let fy0: int = if img_v == P_LEFT { ib.y1 + 1 } else { 0 };
            let fy1: int = if img_v == P_RIGHT { ib.y0 as int } else { h };
            let text = cs.remove(icon);
            let free = layout_spec(fx1 - fx0, fy1 - fy0, shift_comps(text, fx0, fy0), 1, 0, 0);
            comps_from(text, fx0, fy0) ==> {
                &&& layout_spec(w, h, cs, 1, 1, icon).0
                &&& layout_spec(w, h, cs, 1, 1, icon).1 == free.1
                &&& layout_spec(w, h, cs, 1, 1, icon).2 == free.2
            }
        }),
{
    let ib = cs[icon];
    let img_h = frac_class(ib.x0 + ib.x1, 2 * w);
    let img_v = frac_class(ib.y0 + ib.y1, 2 * h);
    let fx0: int = if img_h == P_LEFT { ib.x1 + 1 } else { 0 };
    let fy0: int = if img_v == P_LEFT { ib.y1 + 1 } else { 0 };
    let text = cs.remove(icon);
    if comps_from(text, fx0, fy0) {
        lemma_bbox_shift(text, fx0, fy0);
    }
}

/// With the caption hint alone, all components form the caption, placed
/// by the centre of their bounding box: left (top) when the centre lies
/// below 40 % of the width (height), right (bottom) above 60 %, else
/// centre; no image is reported.
pub proof fn lemma_caption_only_classes(w: int, h: int, cs: Seq<Comp>, icon: int)
    requires
        cs.len() >= 1,
        w >= 1,
        h >= 1,
    ensures
        ({
            let r = layout_spec(w, h, cs, 1, 0, icon);
            let b = bbox_of(cs);
            let cx2 = b.0 + b.2;
            let cy2 = b.1 + b.3;
            &&& r.0 && !r.3 && r.4 == P_NONE && r.5 == P_NONE
            &&& (r.1 == P_LEFT <==> 5 * cx2 < 4 * w)
            &&& (r.1 == P_RIGHT <==> 5 * cx2 > 6 * w)
            &&& (r.2 == P_LEFT <==> 5 * cy2 < 4 * h)
            &&& (r.2 == P_RIGHT <==> 5 * cy2 > 6 * h)
        }),
{
}

/// The icon is classed by the centre of its box: the chosen component with
/// both hints, the box of all components with the image hint alone. Left
/// (top) below 40 % of the width (height), right (bottom) above 60 %, else
/// centre; with the image hint alone no caption is reported.
pub proof fn lemma_icon_classes(w: int, h: int, cs: Seq<Comp>, ch: int, icon: int)
    requires
        0 <= icon < cs.len(),
        w >= 1,
        h >= 1,
    ensures
        ({
            let r = layout_spec(w, h, cs, ch, 1, icon);
            let b: (int, int, int, int) = if ch != 0 {
                (cs[icon].x0 as int, cs[icon].y0 as int, cs[icon].x1 as int, cs[icon].y1 as int)
            } else {
                bbox_of(cs)
            };
            let cx2 = b.0 + b.2;
            let cy2 = b.1 + b.3;
            &&& r.3
            &&& (ch == 0 ==> !r.0 && r.1 == P_NONE && r.2 == P_NONE)
            &&& (r.4 == P_LEFT <==> 5 * cx2 < 4 * w)
            &&& (r.4 == P_RIGHT <==> 5 * cx2 > 6 * w)
            &&& (r.4 == P_CENTER <==> 4 * w <= 5 * cx2 <= 6 * w)
            &&& (r.5 == P_LEFT <==> 5 * cy2 < 4 * h)
            &&& (r.5 == P_RIGHT <==> 5 * cy2 > 6 * h)
            &&& (r.5 == P_CENTER <==> 4 * h <= 5 * cy2 <= 6 * h)
        }),
{
}

} // verus!
