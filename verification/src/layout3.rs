//! Layout detector v3: besides the positions it tells whether the caption is
//! shown at all, from chains of letter-like components, and splits an icon
//! that sticks to the text off the chain by the caption's glyph count.
//!
//! This module holds the integer rules of the detector; the colour
//! statistics (ink mask, fill, font colour) and the icon score are computed
//! by the caller.
use vstd::prelude::*;
use crate::flood::{flood, connected, closed, marks_set_only, lemma_connected_ends,
    lemma_connected_trans, lemma_connected_sym, lemma_grid_pos};
use crate::layout::{region, is_seed, seeds, ints, lemma_regions_partition, P_CENTER, P_LEFT, P_NONE,
    P_RIGHT};

verus! {

pub const LAYOUT_ERR_ARGS: i32 = -1;
pub const LAYOUT_ERR_BMP: i32 = -2;
pub const LAYOUT_ERR_NO_TEXT: i32 = -3;

/// A component: inclusive bounding box, pixel count and pixels `(y, x)`.
#[derive(Clone)]
pub struct C {
    pub x0: i64,
    pub y0: i64,
    pub x1: i64,
    pub y1: i64,
    pub n: usize,
    pub px: Vec<(u32, u32)>,
}

impl C {
    pub open spec fn wid(&self) -> int {
        self.x1 - self.x0 + 1
    }

    pub open spec fn hgt(&self) -> int {
        self.y1 - self.y0 + 1
    }

    /// Width of the bounding box.
    pub fn w(&self) -> (r: i64)
        requires
            0 <= self.x0 <= self.x1 <= u32::MAX,
        ensures
            r == self.wid(),
    {
        self.x1 - self.x0 + 1
    }

    /// Height of the bounding box.
    pub fn h(&self) -> (r: i64)
        requires
            0 <= self.y0 <= self.y1 <= u32::MAX,
        ensures
            r == self.hgt(),
    {
        self.y1 - self.y0 + 1
    }
}

/// Coordinates of a pixel number, as `(row, column)`.
pub open spec fn yx(w: int, q: int) -> (u32, u32) {
    ((q / w) as u32, (q % w) as u32)
}

/// `c` is the component made of the pixel set `r`: its pixel list holds
/// each pixel of `r` once, and its box and count are those of `r`.
pub open spec fn c_describes(c: C, w: int, r: Set<int>) -> bool {
    &&& c.n == r.len()
    &&& c.px@.len() == r.len()
    &&& c.px@.no_duplicates()
    &&& forall|k: int|
        #![trigger c.px@[k]]
        0 <= k < c.px@.len() ==> c.px@[k].1 < w && r.contains(c.px@[k].0 * w + c.px@[k].1)
    &&& forall|q: int| #[trigger] r.contains(q) ==> c.px@.contains(yx(w, q))
    &&& forall|q: int| #[trigger] r.contains(q) ==> c.x0 <= q % w <= c.x1 && c.y0 <= q / w <= c.y1
    &&& exists|q: int| #[trigger] r.contains(q) && q % w == c.x0
    &&& exists|q: int| #[trigger] r.contains(q) && q % w == c.x1
    &&& exists|q: int| #[trigger] r.contains(q) && q / w == c.y0
    &&& exists|q: int| #[trigger] r.contains(q) && q / w == c.y1
}

/// Boxes inside a `w` x `h` image, pixel lists as long as the counts.
pub open spec fn cs_in(cs: Seq<C>, w: int, h: int) -> bool {
    forall|k: int|
        #![trigger cs[k]]
        0 <= k < cs.len() ==> 0 <= cs[k].x0 <= cs[k].x1 < w && 0 <= cs[k].y0 <= cs[k].y1 < h
            && cs[k].n == cs[k].px@.len()
}

// ---------------------------------------------------------------------------
// Components
// ---------------------------------------------------------------------------

proof fn lemma_yx(w: int, h: int, p: int)
    requires
        0 < w <= 0x1_0000_0000,
        h <= 0x1_0000_0000,
        0 <= p < w * h,
    ensures
        yx(w, p).0 == p / w,
        yx(w, p).1 == p % w,
        (p / w) * w + p % w == p,
        p % w < w,
        p / w < h,
{
    lemma_grid_pos(w, h, p);
}

/// The component of a duplicate-free list of pixel numbers.
#[verifier::spinoff_prover]
#[verifier::rlimit(50)]
fn to_c(w: usize, h: usize, px: &Vec<usize>) -> (c: C)
    requires
        0 < w <= 0x1_0000_0000,
        h <= 0x1_0000_0000,
        px@.len() >= 1,
        px@.no_duplicates(),
        forall|k: int| 0 <= k < px@.len() ==> #[trigger] px@[k] < w * h,
    ensures
        c_describes(c, w as int, ints(px@).to_set()),
        0 <= c.x0 <= c.x1 < w,
        0 <= c.y0 <= c.y1 < h,
        c.n == c.px@.len(),
{
    let ghost wi = w as int;
    let ghost hi = h as int;
    let ghost r = ints(px@).to_set();
    let mut out: Vec<(u32, u32)> = Vec::new();
    proof {
        lemma_yx(wi, hi, px@[0] as int);
    }
    let mut x0 = px[0] % w;
    let mut x1 = x0;
    let mut y0 = px[0] / w;
    let mut y1 = y0;
    let mut i: usize = 0;
    while i < px.len()
        invariant
            0 < w <= 0x1_0000_0000,
            h <= 0x1_0000_0000,
            wi == w,
            hi == h,
            i <= px@.len(),
            px@.len() >= 1,
            forall|k: int| 0 <= k < px@.len() ==> #[trigger] px@[k] < w * h,
            out@.len() == i,
            forall|k: int| 0 <= k < i ==> #[trigger] out@[k] == yx(wi, px@[k] as int),
            x0 <= x1 < w,
            y0 <= y1 < h,
            forall|k: int|
                0 <= k < i ==> x0 <= #[trigger] px@[k] % w <= x1 && y0 <= px@[k] / w <= y1,
            exists|k: int| 0 <= k < px@.len() && #[trigger] px@[k] % w == x0,
            exists|k: int| 0 <= k < px@.len() && #[trigger] px@[k] % w == x1,
            exists|k: int| 0 <= k < px@.len() && #[trigger] px@[k] / w == y0,
            exists|k: int| 0 <= k < px@.len() && #[trigger] px@[k] / w == y1,
        decreases px.len() - i,
    {
        proof {
            lemma_yx(wi, hi, px@[i as int] as int);
        }
        let x = px[i] % w;
        let y = px[i] / w;
        out.push((y as u32, x as u32));
        if x < x0 {
            x0 = x;
        }
        if x > x1 {
            x1 = x;
        }
        if y < y0 {
            y0 = y;
        }
        if y > y1 {
            y1 = y;
        }
        i = i + 1;
    }
    let c = C { x0: x0 as i64, y0: y0 as i64, x1: x1 as i64, y1: y1 as i64, n: px.len(), px: out };
    proof {
        let pi = ints(px@);
        assert forall|a: int, b: int|
            0 <= a < pi.len() && 0 <= b < pi.len() && a != b implies pi[a] != pi[b] by {
            assert(px@[a] != px@[b]);
        }
        pi.unique_seq_to_set();
        assert forall|a: int, b: int|
            0 <= a < c.px@.len() && 0 <= b < c.px@.len() && a != b implies c.px@[a] != c.px@[b] by {
            lemma_yx(wi, hi, px@[a] as int);
            lemma_yx(wi, hi, px@[b] as int);
            assert(px@[a] != px@[b]);
        }
        assert forall|k: int|
            #![trigger c.px@[k]]
            0 <= k < c.px@.len() implies c.px@[k].1 < wi && r.contains(c.px@[k].0 * wi + c.px@[k].1) by {
            lemma_yx(wi, hi, px@[k] as int);
            assert(pi[k] == px@[k]);
        }
        assert forall|q: int| #[trigger] r.contains(q) implies c.px@.contains(yx(wi, q)) by {
            let k = choose|k: int| 0 <= k < pi.len() && pi[k] == q;
            assert(c.px@[k] == yx(wi, q));
        }
        assert forall|q: int| #[trigger] r.contains(q) implies c.x0 <= q % wi <= c.x1 && c.y0 <= q / wi
            <= c.y1 by {
            let k = choose|k: int| 0 <= k < pi.len() && pi[k] == q;
            assert(x0 <= px@[k] % w <= x1 && y0 <= px@[k] / w <= y1);
        }
        let k0 = choose|k: int| 0 <= k < px@.len() && #[trigger] px@[k] % w == x0;
        assert(r.contains(pi[k0]));
        let k1 = choose|k: int| 0 <= k < px@.len() && #[trigger] px@[k] % w == x1;
        assert(r.contains(pi[k1]));
        let k2 = choose|k: int| 0 <= k < px@.len() && #[trigger] px@[k] / w == y0;
        assert(r.contains(pi[k2]));
        let k3 = choose|k: int| 0 <= k < px@.len() && #[trigger] px@[k] / w == y1;
        assert(r.contains(pi[k3]));
    }
    c
}

/// All 8-connected regions of the mask, in the row-major order of their
/// first pixels.
#[verifier::spinoff_prover]
#[verifier::rlimit(100)]
pub fn components(mask: &[bool], w: usize, h: usize) -> (out: Vec<C>)
    requires
        w <= 0x1_0000_0000,
        h <= 0x1_0000_0000,
        mask@.len() == w * h,
    ensures
        out@.len() == seeds(mask@, w as int, h as int, 0, (w * h) as int).len(),
        forall|k: int|
            0 <= k < out@.len() ==> c_describes(
                #[trigger] out@[k],
                w as int,
                region(mask@, w as int, h as int, seeds(mask@, w as int, h as int, 0, (w * h) as int)[k]),
            ),
        cs_in(out@, w as int, h as int),
{
    let ghost m = mask@;
    let ghost wi = w as int;
    let ghost hi = h as int;
    let n = mask.len();
    let mut seen: Vec<bool> = vec![false; n];
    let mut out: Vec<C> = Vec::new();
    let mut si: usize = 0;
    while si < n
        invariant
            w <= 0x1_0000_0000,
            w > 0 || n == 0,
            h <= 0x1_0000_0000,
            m == mask@,
            mask@.len() == w * h,
            wi == w,
            hi == h,
            n == w * h,
            si <= n,
            seen@.len() == n,
            closed(m, wi, hi, seen@),
            marks_set_only(m, wi, hi, seen@),
            forall|q: int|
                0 <= q < n ==> (seen@[q] <==> exists|t: int|
                    0 <= t < si && #[trigger] connected(m, wi, hi, t, q)),
            out@.len() == seeds(m, wi, hi, 0, si as int).len(),
            forall|k: int|
                0 <= k < out@.len() ==> c_describes(
                    #[trigger] out@[k],
                    wi,
                    region(m, wi, hi, seeds(m, wi, hi, 0, si as int)[k]),
                ),
            cs_in(out@, wi, hi),
        decreases n - si,
    {
        assert(w > 0) by (nonlinear_arith)
            requires
                si < n,
                n == w * h,
        ;
        let ghost before = seen@;
        if mask[si] && !seen[si] {
            assert(is_seed(m, wi, hi, si as int)) by {
                assert forall|t: int| 0 <= t < si implies !#[trigger] connected(m, wi, hi, t, si as int) by {
                    if connected(m, wi, hi, t, si as int) {
                        assert(seen@[si as int]);
                    }
                }
            }
            let px = flood(mask, w, h, &mut seen, si);
            let ghost reg = region(m, wi, hi, si as int);
            assert(ints(px@).to_set() =~= reg) by {
                assert forall|q: int| reg.contains(q) implies ints(px@).to_set().contains(q) by {
                    assert(px@.contains(q as usize));
                    let k = choose|k: int| 0 <= k < px@.len() && px@[k] == q as usize;
                    assert(ints(px@)[k] == q);
                }
                assert forall|q: int| ints(px@).to_set().contains(q) implies reg.contains(q) by {
                    let k = choose|k: int| 0 <= k < px@.len() && #[trigger] ints(px@)[k] == q;
                    assert(px@[k] < w * h);
                    assert(px@.contains(q as usize));
                }
            }
            let c = to_c(w, h, &px);
            proof {
                let pi = ints(px@);
                assert forall|a: int, b: int|
                    0 <= a < pi.len() && 0 <= b < pi.len() && a != b implies pi[a] != pi[b] by {
                    assert(px@[a] != px@[b]);
                }
                pi.unique_seq_to_set();
            }
            out.push(c);
            assert forall|q: int|
                0 <= q < n implies (seen@[q] <==> exists|t: int|
                    0 <= t < si + 1 && #[trigger] connected(m, wi, hi, t, q)) by {
                if seen@[q] && !before[q] {
                    assert(px@.contains(q as usize));
                    assert(connected(m, wi, hi, si as int, q));
                }
                if exists|t: int| 0 <= t < si + 1 && #[trigger] connected(m, wi, hi, t, q) {
                    let t = choose|t: int| 0 <= t < si + 1 && #[trigger] connected(m, wi, hi, t, q);
                    if t == si {
                        assert(px@.contains(q as usize));
                    } else {
                        assert(before[q]);
                    }
                }
            }
            assert(cs_in(out@, wi, hi)) by {
                assert forall|k: int| #![trigger out@[k]] 0 <= k < out@.len() implies 0 <= out@[k].x0
                    <= out@[k].x1 < wi && 0 <= out@[k].y0 <= out@[k].y1 < hi && out@[k].n
                    == out@[k].px@.len() by {
                    if k < out@.len() - 1 {
                        assert(out@[k] == out@.drop_last()[k]);
                    }
                }
            }
        } else {
            proof {
                if mask@[si as int] {
                    assert(seen@[si as int]);
                    let t0 = choose|t: int| 0 <= t < si && #[trigger] connected(m, wi, hi, t, si as int);
                    assert(!is_seed(m, wi, hi, si as int));
                    assert forall|q: int|
                        0 <= q < n implies (seen@[q] <==> exists|t: int|
                            0 <= t < si + 1 && #[trigger] connected(m, wi, hi, t, q)) by {
                        if connected(m, wi, hi, si as int, q) {
                            lemma_connected_trans(m, wi, hi, t0, si as int, q);
                        }
                    }
                } else {
                    assert(!is_seed(m, wi, hi, si as int));
                    assert forall|q: int|
                        0 <= q < n implies (seen@[q] <==> exists|t: int|
                            0 <= t < si + 1 && #[trigger] connected(m, wi, hi, t, q)) by {
                        if connected(m, wi, hi, si as int, q) {
                            lemma_connected_ends(m, wi, hi, si as int, q);
                        }
                    }
                }
            }
        }
        si = si + 1;
    }
    out
}

// ---------------------------------------------------------------------------
// Glyph count of a caption
// ---------------------------------------------------------------------------

/// Components a rendered byte of ANSI text makes: none for white space, two
/// for letters with a separate dot or accent (i, j, !, ?, :, ;, =, and the
/// umlauts of code page 1252), one for the rest.
pub open spec fn glyph_parts(b: u8) -> nat {
    if b == 0x20 || (0x09 <= b <= 0x0D) || b == 0xA0 {
        0
    } else if b == 0x69 || b == 0x6A || b == 0x21 || b == 0x3F || b == 0x3A || b == 0x3B || b == 0x3D
        || b == 0xE4 || b == 0xF6 || b == 0xFC || b == 0xC4 || b == 0xD6 || b == 0xDC {
        2
    } else {
        1
    }
}

pub open spec fn glyphs_spec(s: Seq<u8>) -> nat
    decreases s.len(),
{
    if s.len() == 0 {
        0
    } else {
        glyphs_spec(s.drop_last()) + glyph_parts(s.last())
    }
}

/// Expected number of components of a rendered caption.
pub fn expected_glyphs(caption: &[u8]) -> (n: usize)
    requires
        caption@.len() <= isize::MAX,
    ensures
        n == glyphs_spec(caption@),
{
    let mut n: usize = 0;
    let mut i: usize = 0;
    while i < caption.len()
        invariant
            i <= caption@.len(),
            n == glyphs_spec(caption@.take(i as int)),
            n <= 2 * i,
            caption@.len() <= isize::MAX,
        decreases caption.len() - i,
    {
        let b = caption[i];
        assert(caption@.take(i as int + 1).drop_last() =~= caption@.take(i as int));
        if b == 0x20 || (0x09 <= b && b <= 0x0D) || b == 0xA0 {
            i = i + 1;
            continue;
        }
        n = n + 1;
        if b == 0x69 || b == 0x6A || b == 0x21 || b == 0x3F || b == 0x3A || b == 0x3B || b == 0x3D
            || b == 0xE4 || b == 0xF6 || b == 0xFC || b == 0xC4 || b == 0xD6 || b == 0xDC {
            n = n + 1;
        }
        i = i + 1;
    }
    assert(caption@.take(i as int) =~= caption@);
    n
}

// ---------------------------------------------------------------------------
// Position classes
// ---------------------------------------------------------------------------

/// Horizontal class of the fraction `num / den`: left below 0.38, right
/// above 0.62.
pub open spec fn h_class_spec(num: int, den: int) -> i32 {
    if 100 * num < 38 * den {
        P_LEFT
    } else if 100 * num > 62 * den {
        P_RIGHT
    } else {
        P_CENTER
    }
}

/// Vertical class of the fraction `num / den`: top below 0.35, bottom
/// above 0.65.
pub open spec fn v_class_spec(num: int, den: int) -> i32 {
    if 100 * num < 35 * den {
        P_LEFT
    } else if 100 * num > 65 * den {
        P_RIGHT
    } else {
        P_CENTER
    }
}

/// Horizontal class of the centre `(a0 + a1) / 2` in `[0, extent)`.
pub fn h_class(a0: i64, a1: i64, extent: i64) -> (r: i32)
    requires
        0 <= a0 <= u32::MAX,
        0 <= a1 <= u32::MAX,
        0 < extent <= 0x1_0000_0000,
    ensures
        r == h_class_spec(a0 + a1, 2 * extent),
{
    let num = (a0 + a1) as i128;
    let den = 2 * (extent as i128);
    if 100 * num < 38 * den {
        P_LEFT
    } else if 100 * num > 62 * den {
        P_RIGHT
    } else {
        P_CENTER
    }
}

/// Vertical class of the centre `(a0 + a1) / 2` in `[0, extent)`.
pub fn v_class(a0: i64, a1: i64, extent: i64) -> (r: i32)
    requires
        0 <= a0 <= u32::MAX,
        0 <= a1 <= u32::MAX,
        0 < extent <= 0x1_0000_0000,
    ensures
        r == v_class_spec(a0 + a1, 2 * extent),
{
    let num = (a0 + a1) as i128;
    let den = 2 * (extent as i128);
    if 100 * num < 35 * den {
        P_LEFT
    } else if 100 * num > 65 * den {
        P_RIGHT
    } else {
        P_CENTER
    }
}

// ---------------------------------------------------------------------------
// Clustering
// ---------------------------------------------------------------------------

/// A component as plain values: `(x0, y0, x1, y1, n, pixels)`.
pub type CView = (int, int, int, int, int, Seq<(u32, u32)>);

pub open spec fn cview(c: C) -> CView {
    (c.x0 as int, c.y0 as int, c.x1 as int, c.y1 as int, c.n as int, c.px@)
}

pub open spec fn cviews(s: Seq<C>) -> Seq<CView> {
    Seq::new(s.len(), |k: int| cview(s[k]))
}

/// The boxes, widened by `gap` on every side, overlap.
pub open spec fn near(a: CView, b: CView, gap: int) -> bool {
    &&& a.0 - gap <= b.2
    &&& b.0 - gap <= a.2
    &&& a.1 - gap <= b.3
    &&& b.1 - gap <= a.3
}

/// One component out of two: the joint box, the sum of the counts, the
/// pixels of `a` then those of `b`.
pub open spec fn joined(a: CView, b: CView) -> CView {
    (
        if a.0 <= b.0 { a.0 } else { b.0 },
        if a.1 <= b.1 { a.1 } else { b.1 },
        if a.2 >= b.2 { a.2 } else { b.2 },
        if a.3 >= b.3 { a.3 } else { b.3 },
        a.4 + b.4,
        a.5 + b.5,
    )
}

/// First `j >= from` with `cl[j]` near `cl[i]`.
pub open spec fn near_from(cl: Seq<CView>, gap: int, i: int, from: int) -> Option<int>
    decreases cl.len() - from,
{
    if from >= cl.len() || from < 0 {
        None
    } else if near(cl[i], cl[from], gap) {
        Some(from)
    } else {
        near_from(cl, gap, i, from + 1)
    }
}

/// First pair `i < j`, in the order `(0, 1), (0, 2), ..., (1, 2), ...`, of
/// near components, looking from `i = from` on.
pub open spec fn pair_from(cl: Seq<CView>, gap: int, from: int) -> Option<(int, int)>
    decreases cl.len() - from,
{
    if from >= cl.len() || from < 0 {
        None
    } else {
        match near_from(cl, gap, from, from + 1) {
            Some(j) => Some((from, j)),
            None => pair_from(cl, gap, from + 1),
        }
    }
}

/// `cl` with `cl[j]` joined into `cl[i]` (`i < j`).
pub open spec fn join_at(cl: Seq<CView>, i: int, j: int) -> Seq<CView> {
    cl.remove(j).update(i, joined(cl[i], cl[j]))
}

/// Join the first near pair until no two components are near.
pub open spec fn clusters_spec(cl: Seq<CView>, gap: int) -> Seq<CView>
    decreases cl.len(),
{
    match pair_from(cl, gap, 0) {
        Some((i, j)) => if 0 <= i < j < cl.len() {
            clusters_spec(join_at(cl, i, j), gap)
        } else {
            cl
        },
        None => cl,
    }
}

/// Sum of the pixel counts.
pub open spec fn total_n(cl: Seq<CView>) -> int
    decreases cl.len(),
{
    if cl.len() == 0 {
        0
    } else {
        total_n(cl.drop_last()) + cl.last().4
    }
}

proof fn lemma_near_from(cl: Seq<CView>, gap: int, i: int, from: int)
    requires
        0 <= from,
    ensures
        near_from(cl, gap, i, from) matches Some(j) ==> from <= j < cl.len() && near(
            cl[i],
            cl[j],
            gap,
        ),
        near_from(cl, gap, i, from) is None ==> forall|j: int|
            from <= j < cl.len() ==> !near(cl[i], #[trigger] cl[j], gap),
    decreases cl.len() - from,
{
    if from < cl.len() && !near(cl[i], cl[from], gap) {
        lemma_near_from(cl, gap, i, from + 1);
    }
}

proof fn lemma_pair_from(cl: Seq<CView>, gap: int, from: int)
    requires
        0 <= from,
    ensures
        pair_from(cl, gap, from) matches Some((i, j)) ==> from <= i < j < cl.len(),
    decreases cl.len() - from,
{
    if from < cl.len() {
        lemma_near_from(cl, gap, from, from + 1);
        lemma_pair_from(cl, gap, from + 1);
    }
}

proof fn lemma_total_n_split(cl: Seq<CView>, k: int)
    requires
        0 <= k < cl.len(),
    ensures
        total_n(cl) == total_n(cl.remove(k)) + cl[k].4,
    decreases cl.len(),
{
    if k < cl.len() - 1 {
        assert(cl.remove(k).drop_last() =~= cl.drop_last().remove(k));
        lemma_total_n_split(cl.drop_last(), k);
    } else {
        assert(cl.remove(k) =~= cl.drop_last());
    }
}

proof fn lemma_total_n_update(cl: Seq<CView>, k: int, v: CView)
    requires
        0 <= k < cl.len(),
    ensures
        total_n(cl.update(k, v)) == total_n(cl) - cl[k].4 + v.4,
{
    lemma_total_n_split(cl, k);
    lemma_total_n_split(cl.update(k, v), k);
    assert(cl.update(k, v).remove(k) =~= cl.remove(k));
}

proof fn lemma_total_n_nonneg_parts(cl: Seq<CView>, k: int)
    requires
        0 <= k < cl.len(),
        forall|m: int| 0 <= m < cl.len() ==> #[trigger] cl[m].4 >= 0,
    ensures
        cl[k].4 <= total_n(cl),
    decreases cl.len(),
{
    lemma_total_n_split(cl, k);
    lemma_total_n_nonneg(cl.remove(k));
}

proof fn lemma_total_n_nonneg(cl: Seq<CView>)
    requires
        forall|m: int| 0 <= m < cl.len() ==> #[trigger] cl[m].4 >= 0,
    ensures
        total_n(cl) >= 0,
    decreases cl.len(),
{
    if cl.len() > 0 {
        lemma_total_n_nonneg(cl.drop_last());
    }
}

/// After clustering no two clusters are near each other, and the pixel
/// count is unchanged.
pub proof fn lemma_clusters_apart(cl: Seq<CView>, gap: int)
    ensures
        forall|i: int, j: int|
            0 <= i < j < clusters_spec(cl, gap).len() ==> !near(
                #[trigger] clusters_spec(cl, gap)[i],
                #[trigger] clusters_spec(cl, gap)[j],
                gap,
            ),
        total_n(clusters_spec(cl, gap)) == total_n(cl),
    decreases cl.len(),
{
    lemma_clusters_fixpoint(cl, gap);
    lemma_pair_from_none(clusters_spec(cl, gap), gap, 0);
}

proof fn lemma_pair_from_none(cl: Seq<CView>, gap: int, from: int)
    requires
        0 <= from,
        pair_from(cl, gap, from) is None,
    ensures
        forall|i: int, j: int| from <= i < j < cl.len() ==> !near(#[trigger] cl[i], #[trigger] cl[j], gap),
    decreases cl.len() - from,
{
    if from < cl.len() {
        lemma_near_from(cl, gap, from, from + 1);
        lemma_pair_from_none(cl, gap, from + 1);
        assert forall|i: int, j: int| from <= i < j < cl.len() implies !near(
            #[trigger] cl[i],
            #[trigger] cl[j],
            gap,
        ) by {
            if i == from {
                assert(!near(cl[from], cl[j], gap));
            }
        }
    }
}

proof fn lemma_clusters_fixpoint(cl: Seq<CView>, gap: int)
    ensures
        pair_from(clusters_spec(cl, gap), gap, 0) is None,
        total_n(clusters_spec(cl, gap)) == total_n(cl),
    decreases cl.len(),
{
    lemma_pair_from(cl, gap, 0);
    match pair_from(cl, gap, 0) {
        Some((i, j)) => {
            let nx = join_at(cl, i, j);
            lemma_clusters_fixpoint(nx, gap);
            lemma_total_n_split(cl, j);
            let r = cl.remove(j);
            assert(r[i] == cl[i]);
            lemma_total_n_update(r, i, joined(cl[i], cl[j]));
        },
        None => {},
    }
}

fn near_exec(a: &C, b: &C, gap: i64) -> (r: bool)
    requires
        0 <= a.x0 <= u32::MAX && 0 <= a.x1 <= u32::MAX && 0 <= a.y0 <= u32::MAX && 0 <= a.y1
            <= u32::MAX,
        0 <= b.x0 <= u32::MAX && 0 <= b.x1 <= u32::MAX && 0 <= b.y0 <= u32::MAX && 0 <= b.y1
            <= u32::MAX,
        0 <= gap <= u32::MAX,
    ensures
        r == near(cview(*a), cview(*b), gap as int),
{
    a.x0 - gap <= b.x1 && b.x0 - gap <= a.x1 && a.y0 - gap <= b.y1 && b.y0 - gap <= a.y1
}

/// Components with coordinates that fit in `u32` and counts equal to their
/// pixel lists.
pub open spec fn cs_ok(cs: Seq<C>) -> bool {
    forall|k: int|
        #![trigger cs[k]]
        0 <= k < cs.len() ==> 0 <= cs[k].x0 <= cs[k].x1 <= u32::MAX && 0 <= cs[k].y0 <= cs[k].y1
            <= u32::MAX && cs[k].n == cs[k].px@.len()
}

fn find_pair(cl: &Vec<C>, gap: i64) -> (r: Option<(usize, usize)>)
    requires
        cs_ok(cl@),
        0 <= gap <= u32::MAX,
    ensures
        r matches Some((i, j)) ==> pair_from(cviews(cl@), gap as int, 0) == Some((i as int, j as int)),
        r is None ==> pair_from(cviews(cl@), gap as int, 0) is None,
{
    let ghost v = cviews(cl@);
    let mut i: usize = 0;
    while i < cl.len()
        invariant
            cs_ok(cl@),
            0 <= gap <= u32::MAX,
            v == cviews(cl@),
            i <= cl@.len(),
            pair_from(v, gap as int, 0) == pair_from(v, gap as int, i as int),
        decreases cl.len() - i,
    {
        let mut j: usize = i + 1;
        while j < cl.len()
            invariant
                cs_ok(cl@),
                0 <= gap <= u32::MAX,
                v == cviews(cl@),
                i < cl@.len(),
                i + 1 <= j <= cl@.len(),
                pair_from(v, gap as int, 0) == pair_from(v, gap as int, i as int),
                near_from(v, gap as int, i as int, i + 1) == near_from(v, gap as int, i as int, j as int),
            decreases cl.len() - j,
        {
            assert(v[i as int] == cview(cl@[i as int]) && v[j as int] == cview(cl@[j as int]));
            if near_exec(&cl[i], &cl[j], gap) {
                assert(near_from(v, gap as int, i as int, j as int) == Some(j as int));
                assert(pair_from(v, gap as int, i as int) == Some((i as int, j as int)));
                return Some((i, j));
            }
            j = j + 1;
        }
        i = i + 1;
    }
    None
}

fn join(a: C, b: C) -> (r: C)
    requires
        a.n + b.n <= usize::MAX,
    ensures
        cview(r) == joined(cview(a), cview(b)),
{
    let mut px = a.px;
    let mut bpx = b.px;
    px.append(&mut bpx);
    C {
        x0: if a.x0 <= b.x0 { a.x0 } else { b.x0 },
        y0: if a.y0 <= b.y0 { a.y0 } else { b.y0 },
        x1: if a.x1 >= b.x1 { a.x1 } else { b.x1 },
        y1: if a.y1 >= b.y1 { a.y1 } else { b.y1 },
        n: a.n + b.n,
        px,
    }
}

/// Join near components (boxes at most `gap` apart) into clusters, always
/// the first near pair first, until no two are near.
#[verifier::spinoff_prover]
#[verifier::rlimit(50)]
pub fn cluster_boxes(input: Vec<C>, gap: i64) -> (out: Vec<C>)
    requires
        cs_ok(input@),
        0 <= gap <= u32::MAX,
        total_n(cviews(input@)) <= usize::MAX,
    ensures
        cviews(out@) == clusters_spec(cviews(input@), gap as int),
        cs_ok(out@),
{
    let mut cl = input;
    let ghost target = clusters_spec(cviews(cl@), gap as int);
    loop
        invariant
            cs_ok(cl@),
            0 <= gap <= u32::MAX,
            total_n(cviews(cl@)) <= usize::MAX,
            clusters_spec(cviews(cl@), gap as int) == target,
            target == clusters_spec(cviews(input@), gap as int),
        decreases cl.len(),
    {
        let ghost v = cviews(cl@);
        proof {
            lemma_pair_from(v, gap as int, 0);
        }
        match find_pair(&cl, gap) {
            None => {
                assert(clusters_spec(v, gap as int) == v);
                assert(cviews(cl@) == target);
                return cl;
            },
            Some((i, j)) => {
                let ghost v0 = cl@;
                let b = cl.remove(j);
                let a = cl.remove(i);
                proof {
                    assert(forall|m: int| 0 <= m < v.len() ==> #[trigger] v[m].4 >= 0);
                    lemma_total_n_split(v, j as int);
                    let vr = v.remove(j as int);
                    assert(vr[i as int] == v[i as int]);
                    assert(forall|m: int| 0 <= m < vr.len() ==> #[trigger] vr[m].4 >= 0) by {
                        assert forall|m: int| 0 <= m < vr.len() implies #[trigger] vr[m].4 >= 0 by {
                            if m < j {
                                assert(vr[m] == v[m]);
                            } else {
                                assert(vr[m] == v[m + 1]);
                            }
                        }
                    }
                    lemma_total_n_nonneg_parts(vr, i as int);
                    assert(cview(a) == v[i as int]);
                    assert(cview(b) == v[j as int]);
                }
                let c = join(a, b);
                cl.insert(i, c);
                proof {
                    let nv = cviews(cl@);
                    assert(nv =~= join_at(v, i as int, j as int)) by {
                        assert forall|m: int| 0 <= m < nv.len() implies nv[m] == join_at(
                            v,
                            i as int,
                            j as int,
                        )[m] by {
                            if m < i {
                                assert(cl@[m] == v0[m]);
                            } else if m > i && m < j {
                                assert(cl@[m] == v0[m]);
                            } else if m >= j {
                                assert(cl@[m] == v0[m + 1]);
                            }
                        }
                    }
                    lemma_total_n_update(v.remove(j as int), i as int, joined(v[i as int], v[j as int]));
                    assert(cs_ok(cl@)) by {
                        assert forall|m: int| #![trigger cl@[m]] 0 <= m < cl@.len() implies 0 <= cl@[m].x0
                            <= cl@[m].x1 <= u32::MAX && 0 <= cl@[m].y0 <= cl@[m].y1 <= u32::MAX
                            && cl@[m].n == cl@[m].px@.len() by {
                            if m < i {
                                assert(cl@[m] == v0[m]);
                            } else if m > i && m < j {
                                assert(cl@[m] == v0[m]);
                            } else if m >= j {
                                assert(cl@[m] == v0[m + 1]);
                            } else {
                                assert(v0[i as int] == v0[i as int] && v0[j as int] == v0[j as int]);
                            }
                        }
                    }
                }
            },
        }
    }
}

// ---------------------------------------------------------------------------
// Mask and component filters
// ---------------------------------------------------------------------------

/// Pixel `i` lies at least two pixels inside the border.
pub open spec fn inner(w: int, h: int, i: int) -> bool {
    2 <= i / w < h - 2 && 2 <= i % w < w - 2
}

/// Clear the two-pixel border of the mask.
pub fn clear_frame(mask: &mut Vec<bool>, w: usize, h: usize)
    requires
        w > 0,
        old(mask)@.len() == w * h,
    ensures
        final(mask)@.len() == w * h,
        forall|i: int|
            0 <= i < w * h ==> #[trigger] final(mask)@[i] == (old(mask)@[i] && inner(
                w as int,
                h as int,
                i,
            )),
{
    let ghost m0 = mask@;
    let n = mask.len();
    let mut i: usize = 0;
    while i < n
        invariant
            w > 0,
            n == w * h,
            mask@.len() == n,
            m0.len() == n,
            i <= n,
            forall|j: int| 0 <= j < i ==> #[trigger] mask@[j] == (m0[j] && inner(w as int, h as int, j)),
            forall|j: int| i <= j < n ==> #[trigger] mask@[j] == m0[j],
        decreases n - i,
    {
        let y = i / w;
        let x = i % w;
        if !(2 <= y && 2 <= h && y < h - 2 && 2 <= x && 2 <= w && x < w - 2) {
            mask.set(i, false);
        }
        i = i + 1;
    }
}

/// A component the detector keeps: at least 4 pixels, not a frame remnant
/// (more than 92 % of the image in both directions) and not a glow line (at
/// most 3 pixels thin and at least half the image long).
pub open spec fn keep(c: CView, w: int, h: int) -> bool {
    let lw = c.2 - c.0 + 1;
    let lh = c.3 - c.1 + 1;
    &&& c.4 >= 4
    &&& !(100 * (c.2 - c.0) > 92 * w && 100 * (c.3 - c.1) > 92 * h)
    &&& !((lh <= 3 && 2 * lw >= w) || (lw <= 3 && 2 * lh >= h))
}

pub open spec fn kept(cs: Seq<CView>, w: int, h: int) -> Seq<CView>
    decreases cs.len(),
{
    if cs.len() == 0 {
        cs
    } else {
        let r = kept(cs.drop_last(), w, h);
        if keep(cs.last(), w, h) {
            r.push(cs.last())
        } else {
            r
        }
    }
}

fn keep_exec(c: &C, w: usize, h: usize) -> (r: bool)
    requires
        0 <= c.x0 <= c.x1 <= u32::MAX,
        0 <= c.y0 <= c.y1 <= u32::MAX,
        w <= 0x1_0000_0000,
        h <= 0x1_0000_0000,
    ensures
        r == keep(cview(*c), w as int, h as int),
{
    let lw = c.w() as i128;
    let lh = c.h() as i128;
    let wi = w as i128;
    let hi = h as i128;
    let frame = 100 * ((c.x1 - c.x0) as i128) > 92 * wi && 100 * ((c.y1 - c.y0) as i128) > 92 * hi;
    let glow = (lh <= 3 && 2 * lw >= wi) || (lw <= 3 && 2 * lh >= hi);
    c.n >= 4 && !frame && !glow
}

/// Drop the components that `keep` refuses, keeping the order.
#[verifier::spinoff_prover]
#[verifier::rlimit(50)]
pub fn keep_filter(cs: Vec<C>, w: usize, h: usize) -> (out: Vec<C>)
    requires
        cs_in(cs@, w as int, h as int),
        w <= 0x1_0000_0000,
        h <= 0x1_0000_0000,
    ensures
        cviews(out@) == kept(cviews(cs@), w as int, h as int),
        cs_in(out@, w as int, h as int),
{
    let mut cs = cs;
    let ghost all = cviews(cs@);
    let ghost orig = cs@;
    // take the components from the back, then restore the order
    let mut kept_rev: Vec<C> = Vec::new();
    assert(all.take(cs@.len() as int) =~= all);
    assert(orig.take(cs@.len() as int) =~= orig);
    assert(kept(all, w as int, h as int) + cviews(kept_rev@).reverse() =~= kept(all, w as int, h as int));
    while cs.len() > 0
        invariant
            w <= 0x1_0000_0000,
            h <= 0x1_0000_0000,
            cs@.len() <= orig.len(),
            cs@ == orig.take(cs@.len() as int),
            all == cviews(orig),
            cs_in(orig, w as int, h as int),
            kept(all, w as int, h as int) == kept(all.take(cs@.len() as int), w as int, h as int)
                + cviews(kept_rev@).reverse(),
            cs_in(kept_rev@, w as int, h as int),
        decreases cs.len(),
    {
        let ghost k = cs@.len() as int;
        let c = cs.pop().unwrap();
        assert(c == orig[k - 1]);
        assert(cs@ == orig.take(k - 1));
        assert(all.take(k).drop_last() =~= all.take(k - 1));
        assert(all.take(k).last() == cview(c));
        if keep_exec(&c, w, h) {
            let ghost kr = kept_rev@;
            kept_rev.push(c);
            assert(cviews(kept_rev@).reverse() =~= seq![cview(c)] + cviews(kr).reverse());
            assert(kept(all.take(k), w as int, h as int) =~= kept(all.take(k - 1), w as int, h as int).push(
                cview(c),
            ));
            assert(cs_in(kept_rev@, w as int, h as int)) by {
                assert forall|j: int| #![trigger kept_rev@[j]] 0 <= j < kept_rev@.len() implies 0
                    <= kept_rev@[j].x0 <= kept_rev@[j].x1 < w && 0 <= kept_rev@[j].y0
                    <= kept_rev@[j].y1 < h && kept_rev@[j].n == kept_rev@[j].px@.len() by {
                    if j < kr.len() {
                        assert(kept_rev@[j] == kr[j]);
                    }
                }
            }
        }
    }
    assert(all.take(0) =~= Seq::<CView>::empty());
    let mut out: Vec<C> = Vec::new();
    while kept_rev.len() > 0
        invariant
            cviews(out@) + cviews(kept_rev@).reverse() == kept(all, w as int, h as int),
            cs_in(out@, w as int, h as int),
            cs_in(kept_rev@, w as int, h as int),
        decreases kept_rev.len(),
    {
        let ghost kr = kept_rev@;
        let ghost o = out@;
        let c = kept_rev.pop().unwrap();
        assert(c == kr[kr.len() - 1]);
        out.push(c);
        assert(cviews(kr).reverse() =~= seq![cview(c)] + cviews(kept_rev@).reverse());
        assert(cviews(out@) =~= cviews(o).push(cview(c)));
        assert(cs_in(out@, w as int, h as int)) by {
            assert forall|j: int| #![trigger out@[j]] 0 <= j < out@.len() implies 0 <= out@[j].x0
                <= out@[j].x1 < w && 0 <= out@[j].y0 <= out@[j].y1 < h && out@[j].n
                == out@[j].px@.len() by {
                if j < o.len() {
                    assert(out@[j] == o[j]);
                }
            }
        }
    }
    assert(cviews(kept_rev@).reverse() =~= Seq::<CView>::empty());
    assert(cviews(out@) =~= kept(all, w as int, h as int));
    out
}

/// `cs` lists the components of every region of `m`, in order.
pub open spec fn all_components(m: Seq<bool>, w: int, h: int, cs: Seq<C>) -> bool {
    let sd = seeds(m, w, h, 0, w * h);
    &&& cs.len() == sd.len()
    &&& forall|k: int| 0 <= k < cs.len() ==> c_describes(#[trigger] cs[k], w, region(m, w, h, sd[k]))
}

/// The components of a mask that the detector keeps.
pub fn build_comps(mask: &[bool], w: usize, h: usize) -> (out: Vec<C>)
    requires
        0 < w <= 0x1_0000_0000,
        h <= 0x1_0000_0000,
        mask@.len() == w * h,
    ensures
        exists|all: Seq<C>|
            all_components(mask@, w as int, h as int, all) && cviews(out@) == kept(
                #[trigger] cviews(all),
                w as int,
                h as int,
            ),
        cs_in(out@, w as int, h as int),
{
    let all = components(mask, w, h);
    let ghost a = all@;
    let out = keep_filter(all, w, h);
    assert(all_components(mask@, w as int, h as int, a));
    out
}

// ---------------------------------------------------------------------------
// Letter chains
// ---------------------------------------------------------------------------

/// A letter-like component of an image `ih` pixels high: at least 4 pixels
/// high, at most 95 % of the image height, at most 2.4 times as wide as high.
pub open spec fn is_letter(c: CView, ih: int) -> bool {
    let lw = c.2 - c.0 + 1;
    let lh = c.3 - c.1 + 1;
    lh >= 4 && 100 * lh <= 95 * ih && 10 * lw <= 24 * lh
}

/// Indices below `n` of the letter-like components, ascending.
pub open spec fn letters(cs: Seq<CView>, ih: int, n: int) -> Seq<int>
    decreases n,
{
    if n <= 0 {
        Seq::empty()
    } else if is_letter(cs[n - 1], ih) {
        letters(cs, ih, n - 1).push(n - 1)
    } else {
        letters(cs, ih, n - 1)
    }
}

/// Position at which `e` goes into `s` (kept sorted by `x0`, equal keys in
/// arrival order): after every entry from `k` on whose `x0` is not larger.
pub open spec fn x_slot(cs: Seq<CView>, s: Seq<int>, e: int, k: int) -> int
    decreases s.len() - k,
{
    if k >= s.len() || k < 0 {
        s.len() as int
    } else if cs[s[k]].0 > cs[e].0 {
        k
    } else {
        x_slot(cs, s, e, k + 1)
    }
}

/// Stable sort of the indices `s` by the `x0` of their components.
pub open spec fn sort_by_x0(cs: Seq<CView>, s: Seq<int>) -> Seq<int>
    decreases s.len(),
{
    if s.len() == 0 {
        s
    } else {
        let r = sort_by_x0(cs, s.drop_last());
        r.insert(x_slot(cs, r, s.last(), 0), s.last())
    }
}

proof fn lemma_x_slot(cs: Seq<CView>, s: Seq<int>, e: int, k: int)
    requires
        0 <= k <= s.len(),
    ensures
        k <= x_slot(cs, s, e, k) <= s.len(),
    decreases s.len() - k,
{
    if k < s.len() && cs[s[k]].0 <= cs[e].0 {
        lemma_x_slot(cs, s, e, k + 1);
    }
}

proof fn lemma_sort_len(cs: Seq<CView>, s: Seq<int>)
    ensures
        sort_by_x0(cs, s).len() == s.len(),
        forall|k: int| 0 <= k < s.len() ==> s.contains(#[trigger] sort_by_x0(cs, s)[k]),
    decreases s.len(),
{
    if s.len() > 0 {
        let r = sort_by_x0(cs, s.drop_last());
        lemma_sort_len(cs, s.drop_last());
        lemma_x_slot(cs, r, s.last(), 0);
        let p = x_slot(cs, r, s.last(), 0);
        assert forall|k: int| 0 <= k < s.len() implies s.contains(#[trigger] sort_by_x0(cs, s)[k]) by {
            let t = sort_by_x0(cs, s);
            assert(t == r.insert(p, s.last()));
            if k < p {
                assert(t[k] == r[k]);
                assert(s.drop_last().contains(r[k]));
                let j = choose|j: int| 0 <= j < s.drop_last().len() && s.drop_last()[j] == r[k];
                assert(s[j] == r[k]);
            } else if k == p {
                assert(s[s.len() - 1] == t[k]);
            } else {
                assert(t[k] == r[k - 1]);
                assert(s.drop_last().contains(r[k - 1]));
                let j = choose|j: int| 0 <= j < s.drop_last().len() && s.drop_last()[j] == r[k - 1];
                assert(s[j] == r[k - 1]);
            }
        }
    }
}

/// Indices of the letter-like components, sorted by `x0` (stable).
#[verifier::spinoff_prover]
#[verifier::rlimit(50)]
pub fn letter_order(comps: &[C], ih: usize) -> (r: Vec<usize>)
    requires
        cs_ok(comps@),
        ih <= 0x1_0000_0000,
    ensures
        r@.len() == letters(cviews(comps@), ih as int, comps@.len() as int).len(),
        forall|k: int| 0 <= k < r@.len() ==> #[trigger] r@[k] < comps@.len() && r@[k] == sort_by_x0(
            cviews(comps@),
            letters(cviews(comps@), ih as int, comps@.len() as int),
        )[k],
{
    let ghost v = cviews(comps@);
    let mut sorted: Vec<usize> = Vec::new();
    let ghost mut seen_letters: Seq<int> = Seq::empty();
    let mut i: usize = 0;
    while i < comps.len()
        invariant
            cs_ok(comps@),
            ih <= 0x1_0000_0000,
            v == cviews(comps@),
            i <= comps@.len(),
            seen_letters == letters(v, ih as int, i as int),
            sorted@.len() == seen_letters.len(),
            forall|k: int| 0 <= k < sorted@.len() ==> #[trigger] sorted@[k] < i && sorted@[k]
                == sort_by_x0(v, seen_letters)[k],
        decreases comps.len() - i,
    {
        let c = &comps[i];
        assert(v[i as int] == cview(comps@[i as int]));
        let lw = c.w() as i128;
        let lh = c.h() as i128;
        if lh >= 4 && 100 * lh <= 95 * (ih as i128) && 10 * lw <= 24 * lh {
            let ghost r = sort_by_x0(v, seen_letters);
            proof {
                lemma_sort_len(v, seen_letters);
                lemma_x_slot(v, r, i as int, 0);
            }
            // first entry whose x0 is larger
            let mut p: usize = 0;
            while p < sorted.len() && comps[sorted[p]].x0 <= c.x0
                invariant
                    cs_ok(comps@),
                    v == cviews(comps@),
                    i < comps@.len(),
                    r == sort_by_x0(v, seen_letters),
                    sorted@.len() == r.len(),
                    forall|k: int| 0 <= k < sorted@.len() ==> #[trigger] sorted@[k] < i && sorted@[k]
                        == r[k],
                    p <= sorted@.len(),
                    c == &comps@[i as int],
                    x_slot(v, r, i as int, 0) == x_slot(v, r, i as int, p as int),
                decreases sorted.len() - p,
            {
                assert(v[sorted@[p as int] as int] == cview(comps@[sorted@[p as int] as int]));
                assert(v[i as int] == cview(comps@[i as int]));
                assert(sorted@[p as int] as int == r[p as int]);
                p = p + 1;
            }
            proof {
                if p < sorted@.len() {
                    assert(v[sorted@[p as int] as int] == cview(comps@[sorted@[p as int] as int]));
                }
            }
            let ghost old_sorted = sorted@;
            sorted.insert(p, i);
            proof {
                let ns = seen_letters.push(i as int);
                assert(ns.drop_last() =~= seen_letters);
                seen_letters = ns;
                assert forall|k: int| 0 <= k < sorted@.len() implies #[trigger] sorted@[k] < i + 1
                    && sorted@[k] == sort_by_x0(v, seen_letters)[k] by {
                    if k < p {
                        assert(sorted@[k] == old_sorted[k]);
                    } else if k > p {
                        assert(sorted@[k] == old_sorted[k - 1]);
                    }
                }
            }
        }
        i = i + 1;
    }
    sorted
}

/// Component `c` continues a chain whose last component is `l`: rows
/// overlap by at least half the smaller height, heights differ by at most a
/// factor 1.9, and the gap is between -2 and 1.3 times the larger height.
pub open spec fn fits(c: CView, l: CView) -> bool {
    let hc = c.3 - c.1 + 1;
    let hl = l.3 - l.1 + 1;
    let ovl = (if c.3 <= l.3 { c.3 } else { l.3 }) - (if c.1 >= l.1 { c.1 } else { l.1 }) + 1;
    let hmin = if hc <= hl { hc } else { hl };
    let hmax = if hc >= hl { hc } else { hl };
    let gap = c.0 - l.2;
    2 * ovl >= hmin && 10 * hmax <= 19 * hmin && gap >= -2 && 10 * gap <= 13 * hmax
}

/// First chain from `k` on that component `ci` continues.
pub open spec fn first_fit(cs: Seq<CView>, chs: Seq<Seq<int>>, ci: int, k: int) -> Option<int>
    decreases chs.len() - k,
{
    if k >= chs.len() || k < 0 {
        None
    } else if fits(cs[ci], cs[chs[k].last()]) {
        Some(k)
    } else {
        first_fit(cs, chs, ci, k + 1)
    }
}

/// Chains after placing `ci`: appended to the first chain it continues, or
/// starting a chain of its own.
pub open spec fn place(cs: Seq<CView>, chs: Seq<Seq<int>>, ci: int) -> Seq<Seq<int>> {
    match first_fit(cs, chs, ci, 0) {
        Some(k) => chs.update(k, chs[k].push(ci)),
        None => chs.push(seq![ci]),
    }
}

/// Chains built by placing the components of `order` one after another.
pub open spec fn build_chains(cs: Seq<CView>, order: Seq<int>) -> Seq<Seq<int>>
    decreases order.len(),
{
    if order.len() == 0 {
        Seq::empty()
    } else {
        place(cs, build_chains(cs, order.drop_last()), order.last())
    }
}

/// Position of a chain of length `n` among chains sorted by decreasing
/// length, after the chains that are at least as long.
pub open spec fn len_slot(chs: Seq<Seq<int>>, n: int, k: int) -> int
    decreases chs.len() - k,
{
    if k >= chs.len() || k < 0 {
        chs.len() as int
    } else if chs[k].len() < n {
        k
    } else {
        len_slot(chs, n, k + 1)
    }
}

/// Stable sort of chains by decreasing length.
pub open spec fn sort_by_len(chs: Seq<Seq<int>>) -> Seq<Seq<int>>
    decreases chs.len(),
{
    if chs.len() == 0 {
        chs
    } else {
        let r = sort_by_len(chs.drop_last());
        r.insert(len_slot(r, chs.last().len() as int, 0), chs.last())
    }
}

pub open spec fn chains_view(v: Seq<Vec<usize>>) -> Seq<Seq<int>> {
    Seq::new(v.len(), |k: int| ints(v[k]@))
}

proof fn lemma_len_slot(chs: Seq<Seq<int>>, n: int, k: int)
    requires
        0 <= k <= chs.len(),
    ensures
        k <= len_slot(chs, n, k) <= chs.len(),
    decreases chs.len() - k,
{
    if k < chs.len() && chs[k].len() >= n {
        lemma_len_slot(chs, n, k + 1);
    }
}

proof fn lemma_first_fit(cs: Seq<CView>, chs: Seq<Seq<int>>, ci: int, k: int)
    requires
        0 <= k,
    ensures
        first_fit(cs, chs, ci, k) matches Some(j) ==> k <= j < chs.len(),
    decreases chs.len() - k,
{
    if k < chs.len() && !fits(cs[ci], cs[chs[k].last()]) {
        lemma_first_fit(cs, chs, ci, k + 1);
    }
}

fn fits_exec(c: &C, l: &C) -> (r: bool)
    requires
        0 <= c.x0 <= c.x1 <= u32::MAX && 0 <= c.y0 <= c.y1 <= u32::MAX,
        0 <= l.x0 <= l.x1 <= u32::MAX && 0 <= l.y0 <= l.y1 <= u32::MAX,
    ensures
        r == fits(cview(*c), cview(*l)),
{
    let hc = c.h() as i128;
    let hl = l.h() as i128;
    let top = if c.y0 >= l.y0 { c.y0 } else { l.y0 };
    let bot = if c.y1 <= l.y1 { c.y1 } else { l.y1 };
    let ovl = (bot - top + 1) as i128;
    let hmin = if hc <= hl { hc } else { hl };
    let hmax = if hc >= hl { hc } else { hl };
    let gap = (c.x0 - l.x1) as i128;
    2 * ovl >= hmin && 10 * hmax <= 19 * hmin && gap >= -2 && 10 * gap <= 13 * hmax
}

/// Group the components of `order` into chains of letters, longest chain
/// first (chains of equal length in the order they were started).
#[verifier::spinoff_prover]
#[verifier::rlimit(50)]
pub fn letter_chains(comps: &[C], order: &Vec<usize>) -> (chs: Vec<Vec<usize>>)
    requires
        cs_ok(comps@),
        forall|k: int| 0 <= k < order@.len() ==> #[trigger] order@[k] < comps@.len(),
    ensures
        chains_view(chs@) == sort_by_len(build_chains(cviews(comps@), ints(order@))),
        forall|a: int, b: int|
            0 <= a < chs@.len() && 0 <= b < chs@[a]@.len() ==> #[trigger] chs@[a]@[b] < comps@.len(),
        forall|a: int| 0 <= a < chs@.len() ==> #[trigger] chs@[a]@.len() > 0,
{
    let ghost v = cviews(comps@);
    let mut chains: Vec<Vec<usize>> = Vec::new();
    let mut t: usize = 0;
    while t < order.len()
        invariant
            cs_ok(comps@),
            v == cviews(comps@),
            forall|k: int| 0 <= k < order@.len() ==> #[trigger] order@[k] < comps@.len(),
            t <= order@.len(),
            chains_view(chains@) == build_chains(v, ints(order@).take(t as int)),
            forall|a: int, b: int|
                0 <= a < chains@.len() && 0 <= b < chains@[a]@.len() ==> #[trigger] chains@[a]@[b]
                    < comps@.len(),
            forall|a: int| 0 <= a < chains@.len() ==> #[trigger] chains@[a]@.len() > 0,
        decreases order.len() - t,
    {
        let ci = order[t];
        let ghost cv0 = chains_view(chains@);
        proof {
            assert(ints(order@).take(t as int + 1).drop_last() =~= ints(order@).take(t as int));
            assert(ints(order@).take(t as int + 1).last() == ci as int);
            lemma_first_fit(v, cv0, ci as int, 0);
        }
        let mut k: usize = 0;
        let mut found = false;
        while !found && k < chains.len()
            invariant
                cs_ok(comps@),
                v == cviews(comps@),
                ci < comps@.len(),
                cv0 == chains_view(chains@),
                forall|a: int, b: int|
                    0 <= a < chains@.len() && 0 <= b < chains@[a]@.len() ==> #[trigger] chains@[a]@[b]
                        < comps@.len(),
                forall|a: int| 0 <= a < chains@.len() ==> #[trigger] chains@[a]@.len() > 0,
                k <= chains@.len(),
                !found ==> first_fit(v, cv0, ci as int, 0) == first_fit(v, cv0, ci as int, k as int),
                found ==> k < chains@.len() && first_fit(v, cv0, ci as int, 0) == Some(k as int),
            decreases chains.len() - k, if found { 0int } else { 1int },
        {
            let ch = &chains[k];
            let last = ch[ch.len() - 1];
            assert(cv0[k as int].last() == last as int);
            assert(v[ci as int] == cview(comps@[ci as int]) && v[last as int] == cview(comps@[last as int]));
            if fits_exec(&comps[ci], &comps[last]) {
                found = true;
            } else {
                k = k + 1;
            }
        }
        if found {
            let mut ch = chains.remove(k);
            ch.push(ci);
            chains.insert(k, ch);
            proof {
                assert(chains_view(chains@) =~= cv0.update(k as int, cv0[k as int].push(ci as int))) by {
                    assert(ints(chains@[k as int]@) =~= cv0[k as int].push(ci as int));
                }
            }
        } else {
            chains.push(vec![ci]);
            proof {
                assert(chains_view(chains@) =~= cv0.push(seq![ci as int])) by {
                    assert(ints(chains@[chains@.len() - 1]@) =~= seq![ci as int]);
                }
            }
        }
        proof {
            assert forall|a: int, b: int|
                0 <= a < chains@.len() && 0 <= b < chains@[a]@.len() implies #[trigger] chains@[a]@[b]
                < comps@.len() by {
                assert(ints(chains@[a]@)[b] == chains@[a]@[b]);
                assert(chains_view(chains@)[a][b] == chains@[a]@[b]);
            }
        }
        t = t + 1;
    }
    assert(ints(order@).take(t as int) =~= ints(order@));
    // stable sort by decreasing length
    let ghost built = chains_view(chains@);
    let mut sorted: Vec<Vec<usize>> = Vec::new();
    let mut taken: usize = 0;
    let total = chains.len();
    while chains.len() > 0
        invariant
            total == built.len(),
            taken + chains@.len() == built.len(),
            chains_view(chains@) == built.subrange(taken as int, built.len() as int),
            chains_view(sorted@) == sort_by_len(built.take(taken as int)),
            forall|a: int, b: int|
                0 <= a < chains@.len() && 0 <= b < chains@[a]@.len() ==> #[trigger] chains@[a]@[b]
                    < comps@.len(),
            forall|a: int| 0 <= a < chains@.len() ==> #[trigger] chains@[a]@.len() > 0,
            forall|a: int, b: int|
                0 <= a < sorted@.len() && 0 <= b < sorted@[a]@.len() ==> #[trigger] sorted@[a]@[b]
                    < comps@.len(),
            forall|a: int| 0 <= a < sorted@.len() ==> #[trigger] sorted@[a]@.len() > 0,
        decreases chains.len(),
    {
        let ghost c0 = chains@;
        let ghost s0 = sorted@;
        let ch = chains.remove(0);
        let ghost r = chains_view(s0);
        proof {
            assert(built.take(taken as int + 1).drop_last() =~= built.take(taken as int));
            assert(built[taken as int] == chains_view(c0)[0]);
            assert(built.take(taken as int + 1).last() == ints(ch@));
            lemma_len_slot(r, ch@.len() as int, 0);
        }
        let mut p: usize = 0;
        while p < sorted.len() && sorted[p].len() >= ch.len()
            invariant
                r == chains_view(sorted@),
                p <= sorted@.len(),
                len_slot(r, ch@.len() as int, 0) == len_slot(r, ch@.len() as int, p as int),
            decreases sorted.len() - p,
        {
            assert(r[p as int].len() == sorted@[p as int]@.len());
            p = p + 1;
        }
        proof {
            if p < sorted@.len() {
                assert(r[p as int].len() == sorted@[p as int]@.len());
            }
        }
        sorted.insert(p, ch);
        proof {
            assert(chains_view(sorted@) =~= r.insert(p as int, ints(ch@))) by {
                assert forall|k: int| 0 <= k < sorted@.len() implies chains_view(sorted@)[k]
                    == r.insert(p as int, ints(ch@))[k] by {
                    if k < p {
                        assert(sorted@[k] == s0[k]);
                    } else if k > p {
                        assert(sorted@[k] == s0[k - 1]);
                    }
                }
            }
            assert(chains_view(chains@) =~= built.subrange(taken as int + 1, built.len() as int)) by {
                assert forall|k: int| 0 <= k < chains@.len() implies chains_view(chains@)[k]
                    == built.subrange(taken as int + 1, built.len() as int)[k] by {
                    assert(chains@[k] == c0[k + 1]);
                    assert(chains_view(c0)[k + 1] == built[taken + k + 1]);
                }
            }
            assert forall|a: int, b: int|
                0 <= a < chains@.len() && 0 <= b < chains@[a]@.len() implies #[trigger] chains@[a]@[b]
                < comps@.len() by {
                assert(chains@[a] == c0[a + 1]);
            }
            assert forall|a: int| 0 <= a < chains@.len() implies #[trigger] chains@[a]@.len() > 0 by {
                assert(chains@[a] == c0[a + 1]);
            }
            assert forall|a: int, b: int|
                0 <= a < sorted@.len() && 0 <= b < sorted@[a]@.len() implies #[trigger] sorted@[a]@[b]
                < comps@.len() by {
                if a < p {
                    assert(sorted@[a] == s0[a]);
                } else if a > p {
                    assert(sorted@[a] == s0[a - 1]);
                } else {
                    assert(c0[0] == ch);
                }
            }
            assert forall|a: int| 0 <= a < sorted@.len() implies #[trigger] sorted@[a]@.len() > 0 by {
                if a < p {
                    assert(sorted@[a] == s0[a]);
                } else if a > p {
                    assert(sorted@[a] == s0[a - 1]);
                } else {
                    assert(c0[0] == ch);
                }
            }
        }
        taken = taken + 1;
    }
    assert(built.take(taken as int) =~= built);
    sorted
}

// ---------------------------------------------------------------------------
// Which components are the caption
// ---------------------------------------------------------------------------

pub open spec fn ch_min_x0(cs: Seq<CView>, ch: Seq<int>) -> int
    decreases ch.len(),
{
    if ch.len() <= 1 {
        cs[ch[0]].0
    } else {
        let r = ch_min_x0(cs, ch.drop_last());
        let v = cs[ch.last()].0;
        if v < r { v } else { r }
    }
}

pub open spec fn ch_max_x1(cs: Seq<CView>, ch: Seq<int>) -> int
    decreases ch.len(),
{
    if ch.len() <= 1 {
        cs[ch[0]].2
    } else {
        let r = ch_max_x1(cs, ch.drop_last());
        let v = cs[ch.last()].2;
        if v > r { v } else { r }
    }
}

pub open spec fn ch_min_y0(cs: Seq<CView>, ch: Seq<int>) -> int
    decreases ch.len(),
{
    if ch.len() <= 1 {
        cs[ch[0]].1
    } else {
        let r = ch_min_y0(cs, ch.drop_last());
        let v = cs[ch.last()].1;
        if v < r { v } else { r }
    }
}

pub open spec fn ch_max_y1(cs: Seq<CView>, ch: Seq<int>) -> int
    decreases ch.len(),
{
    if ch.len() <= 1 {
        cs[ch[0]].3
    } else {
        let r = ch_max_y1(cs, ch.drop_last());
        let v = cs[ch.last()].3;
        if v > r { v } else { r }
    }
}

pub open spec fn ch_max_h(cs: Seq<CView>, ch: Seq<int>) -> int
    decreases ch.len(),
{
    if ch.len() <= 1 {
        cs[ch[0]].3 - cs[ch[0]].1 + 1
    } else {
        let r = ch_max_h(cs, ch.drop_last());
        let v = cs[ch.last()].3 - cs[ch.last()].1 + 1;
        if v > r { v } else { r }
    }
}

/// Components sitting in the index list `ch` (all below `cs.len()`).
pub open spec fn in_range(ch: Seq<int>, n: int) -> bool {
    forall|k: int| 0 <= k < ch.len() ==> 0 <= #[trigger] ch[k] < n
}

/// Box `(x0, y0, x1, y1)`, largest height of the components of a non-empty
/// index list.
pub fn chain_box(comps: &[C], ch: &Vec<usize>) -> (r: (i64, i64, i64, i64, i64))
    requires
        cs_ok(comps@),
        ch@.len() > 0,
        in_range(ints(ch@), comps@.len() as int),
    ensures
        r.0 == ch_min_x0(cviews(comps@), ints(ch@)),
        r.1 == ch_min_y0(cviews(comps@), ints(ch@)),
        r.2 == ch_max_x1(cviews(comps@), ints(ch@)),
        r.3 == ch_max_y1(cviews(comps@), ints(ch@)),
        r.4 == ch_max_h(cviews(comps@), ints(ch@)),
        0 <= r.0 <= r.2 <= u32::MAX,
        0 <= r.1 <= r.3 <= u32::MAX,
        1 <= r.4 <= u32::MAX + 1,
{
    let ghost v = cviews(comps@);
    assert(ints(ch@)[0] == ch@[0]);
    let c0 = &comps[ch[0]];
    assert(v[ch@[0] as int] == cview(comps@[ch@[0] as int]));
    let mut x0 = c0.x0;
    let mut y0 = c0.y0;
    let mut x1 = c0.x1;
    let mut y1 = c0.y1;
    let mut hm = c0.h();
    let mut i: usize = 1;
    assert(ints(ch@).take(1) =~= seq![ch@[0] as int]);
    while i < ch.len()
        invariant
            cs_ok(comps@),
            v == cviews(comps@),
            in_range(ints(ch@), comps@.len() as int),
            1 <= i <= ch@.len(),
            x0 == ch_min_x0(v, ints(ch@).take(i as int)),
            y0 == ch_min_y0(v, ints(ch@).take(i as int)),
            x1 == ch_max_x1(v, ints(ch@).take(i as int)),
            y1 == ch_max_y1(v, ints(ch@).take(i as int)),
            hm == ch_max_h(v, ints(ch@).take(i as int)),
            0 <= x0 <= x1 <= u32::MAX,
            0 <= y0 <= y1 <= u32::MAX,
            1 <= hm <= u32::MAX + 1,
        decreases ch.len() - i,
    {
        assert(ints(ch@)[i as int] == ch@[i as int]);
        let c = &comps[ch[i]];
        assert(v[ch@[i as int] as int] == cview(comps@[ch@[i as int] as int]));
        assert(ints(ch@).take(i as int + 1).drop_last() =~= ints(ch@).take(i as int));
        assert(ints(ch@).take(i as int + 1).last() == ch@[i as int]);
        if c.x0 < x0 {
            x0 = c.x0;
        }
        if c.y0 < y0 {
            y0 = c.y0;
        }
        if c.x1 > x1 {
            x1 = c.x1;
        }
        if c.y1 > y1 {
            y1 = c.y1;
        }
        let hh = c.h();
        if hh > hm {
            hm = hh;
        }
        i = i + 1;
    }
    assert(ints(ch@).take(i as int) =~= ints(ch@));
    (x0, y0, x1, y1, hm)
}

/// A wide, flat, holey blob of fused text: at least 2.2 times as wide as
/// high, at least 12 wide and 4 high, at most 70 % of the image height,
/// filled at most to 75 %.
pub open spec fn is_blob(c: CView, ih: int) -> bool {
    let lw = c.2 - c.0 + 1;
    let lh = c.3 - c.1 + 1;
    5 * lw >= 11 * lh && lw >= 12 && lh >= 4 && 10 * lh <= 7 * ih && 4 * c.4 <= 3 * lw * lh
}

/// The largest blob among the first `n` components (the first one where
/// several are equally large).
pub open spec fn blob_upto(cs: Seq<CView>, ih: int, n: int) -> Option<int>
    decreases n,
{
    if n <= 0 {
        None
    } else {
        let b = blob_upto(cs, ih, n - 1);
        if is_blob(cs[n - 1], ih) && (b is None || cs[n - 1].4 > cs[b->0].4) {
            Some(n - 1)
        } else {
            b
        }
    }
}

/// A two-letter chain that reads as a word: at least 2.2 times as wide as
/// high, at least 16 wide, no component filled above 85 %.
pub open spec fn wordy(cs: Seq<CView>, ch: Seq<int>) -> bool {
    let cw = ch_max_x1(cs, ch) - ch_min_x0(cs, ch) + 1;
    let chh = ch_max_h(cs, ch);
    &&& 5 * cw >= 11 * chh
    &&& cw >= 16
    &&& forall|k: int|
        0 <= k < ch.len() ==> 20 * cs[#[trigger] ch[k]].4 <= 17 * (cs[ch[k]].2 - cs[ch[k]].0 + 1) * (
        cs[ch[k]].3 - cs[ch[k]].1 + 1)
}

/// The caption chain, if one is found: the longest chain if it has three
/// or more letters, or two letters when nothing else is there, the chain
/// reads as a word or the caption has at most three glyphs; a blob wins
/// when there is no chain or it is wider (by 20 %) than the chain and not
/// part of it.
pub open spec fn chain_choice_spec(cs: Seq<CView>, chs: Seq<Seq<int>>, glyphs: int, ih: int) -> Option<
    Seq<int>,
> {
    let t1: Option<Seq<int>> = if chs.len() > 0 && chs[0].len() >= 3 {
        Some(chs[0])
    } else if chs.len() > 0 && chs[0].len() == 2 && (!(exists|i: int|
        0 <= i < cs.len() && !chs[0].contains(i)) || wordy(cs, chs[0]) || glyphs <= 3) {
        Some(chs[0])
    } else {
        None
    };
    match blob_upto(cs, ih, cs.len() as int) {
        None => t1,
        Some(bi) => {
            let chain_w = match t1 {
                Some(tc) => ch_max_x1(cs, tc) - ch_min_x0(cs, tc),
                None => 0,
            };
            let in_chain = match t1 {
                Some(tc) => tc.contains(bi),
                None => false,
            };
            if t1 is None || (!in_chain && 10 * (cs[bi].2 - cs[bi].0 + 1) > 12 * chain_w) {
                Some(seq![bi])
            } else {
                t1
            }
        },
    }
}

/// The caption components before an icon is split off: none without a
/// caption text; else the caption chain, and when no chain is found and no
/// image is assigned, every rendered component (one- or two-glyph captions
/// such as "<" or ">>" form no chain).
pub open spec fn text_spec(
    cs: Seq<CView>,
    chs: Seq<Seq<int>>,
    has_caption: bool,
    glyphs: int,
    image: bool,
    ih: int,
) -> Option<Seq<int>> {
    if !has_caption {
        None
    } else {
        let t = chain_choice_spec(cs, chs, glyphs, ih);
        if image || t is Some {
            t
        } else {
            Some(Seq::new(cs.len(), |i: int| i))
        }
    }
}

proof fn lemma_blob_upto(cs: Seq<CView>, ih: int, n: int)
    requires
        0 <= n,
    ensures
        blob_upto(cs, ih, n) matches Some(b) ==> 0 <= b < n,
    decreases n,
{
    if n > 0 {
        lemma_blob_upto(cs, ih, n - 1);
    }
}

fn contains_idx(v: &Vec<usize>, x: usize) -> (r: bool)
    ensures
        r == ints(v@).contains(x as int),
{
    let mut i: usize = 0;
    while i < v.len()
        invariant
            i <= v@.len(),
            forall|k: int| 0 <= k < i ==> v@[k] != x,
        decreases v.len() - i,
    {
        if v[i] == x {
            assert(ints(v@)[i as int] == x as int);
            return true;
        }
        i = i + 1;
    }
    proof {
        if ints(v@).contains(x as int) {
            let k = choose|k: int| 0 <= k < ints(v@).len() && ints(v@)[k] == x as int;
            assert(v@[k] == x);
        }
    }
    false
}

/// The caption chain (see `chain_choice_spec`).
#[verifier::spinoff_prover]
#[verifier::rlimit(50)]
fn chain_choice(comps: &[C], chains: &Vec<Vec<usize>>, glyphs: usize, ih: usize) -> (r: Option<Vec<usize>>)
    requires
        cs_ok(comps@),
        comps@.len() > 0,
        ih <= 0x1_0000_0000,
        forall|a: int, b: int|
            0 <= a < chains@.len() && 0 <= b < chains@[a]@.len() ==> #[trigger] chains@[a]@[b]
                < comps@.len(),
        forall|a: int| 0 <= a < chains@.len() ==> #[trigger] chains@[a]@.len() > 0,
    ensures
        r matches Some(t) ==> chain_choice_spec(cviews(comps@), chains_view(chains@), glyphs as int, ih as int)
            == Some(ints(t@)) && t@.len() > 0 && in_range(ints(t@), comps@.len() as int),
        r is None ==> chain_choice_spec(cviews(comps@), chains_view(chains@), glyphs as int, ih as int) is None,
{
    let ghost v = cviews(comps@);
    let ghost chv = chains_view(chains@);
    // the largest blob
    let mut blob: Option<usize> = None;
    let mut i: usize = 0;
    while i < comps.len()
        invariant
            cs_ok(comps@),
            ih <= 0x1_0000_0000,
            v == cviews(comps@),
            i <= comps@.len(),
            blob matches Some(b) ==> blob_upto(v, ih as int, i as int) == Some(b as int),
            blob is None ==> blob_upto(v, ih as int, i as int) is None,
            blob matches Some(b) ==> b < i,
        decreases comps.len() - i,
    {
        let c = &comps[i];
        assert(v[i as int] == cview(comps@[i as int]));
        let lw = c.w() as i128;
        let lh = c.h() as i128;
        assert(3 * lw * lh <= 3 * 0x1_0000_0000 * 0x1_0000_0000) by (nonlinear_arith)
            requires
                0 < lw <= 0x1_0000_0000,
                0 < lh <= 0x1_0000_0000,
        ;
        let is_b = 5 * lw >= 11 * lh && lw >= 12 && lh >= 4 && 10 * lh <= 7 * (ih as i128) && 4 * (
        c.n as i128) <= 3 * lw * lh;
        let bigger = match blob {
            None => true,
            Some(b) => {
                assert(v[b as int] == cview(comps@[b as int]));
                c.n > comps[b].n
            },
        };
        if is_b && bigger {
            blob = Some(i);
        }
        i = i + 1;
    }
    // the longest chain, when it qualifies
    let mut t1: Option<Vec<usize>> = None;
    if chains.len() > 0 && chains[0].len() >= 3 {
        t1 = Some(copy_idx(&chains[0]));
    } else if chains.len() > 0 && chains[0].len() == 2 {
        let ch0 = &chains[0];
        // something outside the chain: the chain holds two distinct indices
        let mut rest = false;
        let mut k: usize = 0;
        while k < comps.len() && !rest
            invariant
                k <= comps@.len(),
                rest ==> exists|i: int| 0 <= i < comps@.len() && !ints(ch0@).contains(i),
                !rest ==> forall|i: int| 0 <= i < k ==> ints(ch0@).contains(i),
            decreases comps.len() - k, if rest { 0int } else { 1int },
        {
            if !contains_idx(ch0, k) {
                rest = true;
            } else {
                k = k + 1;
            }
        }
        assert(chv[0] == ints(ch0@));
        proof {
            assert forall|kk: int| 0 <= kk < ch0@.len() implies 0 <= #[trigger] ints(ch0@)[kk]
                < comps@.len() by {
                assert(chains@[0]@[kk] < comps@.len());
            }
        }
        let bx = chain_box(comps, ch0);
        let cw = (bx.2 - bx.0 + 1) as i128;
        let chh = bx.4 as i128;
        let mut dense_ok = true;
        let mut m: usize = 0;
        while m < ch0.len()
            invariant
                cs_ok(comps@),
                v == cviews(comps@),
                in_range(ints(ch0@), comps@.len() as int),
                m <= ch0@.len(),
                dense_ok == (forall|kk: int|
                    0 <= kk < m ==> 20 * v[#[trigger] ints(ch0@)[kk]].4 <= 17 * (v[ints(ch0@)[kk]].2
                        - v[ints(ch0@)[kk]].0 + 1) * (v[ints(ch0@)[kk]].3 - v[ints(ch0@)[kk]].1 + 1)),
            decreases ch0.len() - m,
        {
            assert(ints(ch0@)[m as int] == ch0@[m as int]);
            let c = &comps[ch0[m]];
            assert(v[ch0@[m as int] as int] == cview(comps@[ch0@[m as int] as int]));
            let lw = c.w() as i128;
            let lh = c.h() as i128;
            assert(17 * lw * lh <= 17 * 0x1_0000_0000 * 0x1_0000_0000) by (nonlinear_arith)
                requires
                    0 < lw <= 0x1_0000_0000,
                    0 < lh <= 0x1_0000_0000,
            ;
            if !(20 * (c.n as i128) <= 17 * lw * lh) {
                dense_ok = false;
            }
            m = m + 1;
        }
        let is_wordy = 5 * cw >= 11 * chh && cw >= 16 && dense_ok;
        assert(is_wordy == wordy(v, chv[0]));
        if !rest || is_wordy || glyphs <= 3 {
            t1 = Some(copy_idx(ch0));
        }
    }
    proof {
        if chains@.len() > 0 {
            assert(chv[0] == ints(chains@[0]@));
        }
    }
    let ghost spec_t1: Option<Seq<int>> = if chv.len() > 0 && chv[0].len() >= 3 {
        Some(chv[0])
    } else if chv.len() > 0 && chv[0].len() == 2 && (!(exists|i: int|
        0 <= i < v.len() && !chv[0].contains(i)) || wordy(v, chv[0]) || glyphs <= 3) {
        Some(chv[0])
    } else {
        None
    };
    assert(t1 matches Some(t) ==> spec_t1 == Some(ints(t@)));
    assert(t1 is None ==> spec_t1 is None);
    match blob {
        None => t1,
        Some(bi) => {
            let (chain_w, in_chain): (i128, bool) = match &t1 {
                Some(tc) => {
                    proof {
                        assert forall|kk: int| 0 <= kk < tc@.len() implies 0 <= #[trigger] ints(tc@)[kk]
                            < comps@.len() by {
                            assert(chains@[0]@[kk] < comps@.len());
                            assert(ints(chains@[0]@)[kk] == ints(tc@)[kk]);
                        }
                    }
                    let bx = chain_box(comps, tc);
                    ((bx.2 - bx.0) as i128, contains_idx(tc, bi))
                },
                None => (0, false),
            };
            assert(v[bi as int] == cview(comps@[bi as int]));
            let bw = comps[bi].w() as i128;
            if t1.is_none() || (!in_chain && 10 * bw > 12 * chain_w) {
                let mut one: Vec<usize> = Vec::new();
                one.push(bi);
                assert(ints(one@) =~= seq![bi as int]);
                Some(one)
            } else {
                t1
            }
        },
    }
}

/// A copy of an index list.
fn copy_idx(v: &Vec<usize>) -> (r: Vec<usize>)
    ensures
        r@ == v@,
{
    let mut r: Vec<usize> = Vec::new();
    let mut i: usize = 0;
    while i < v.len()
        invariant
            i <= v@.len(),
            r@ == v@.take(i as int),
        decreases v.len() - i,
    {
        r.push(v[i]);
        assert(v@.take(i as int + 1) =~= v@.take(i as int).push(v@[i as int]));
        i = i + 1;
    }
    assert(v@.take(i as int) =~= v@);
    r
}

// ---------------------------------------------------------------------------
// Splitting an icon off the caption chain
// ---------------------------------------------------------------------------

/// Position of `e` in the ascending list `s`: before the first larger entry.
pub open spec fn int_slot(s: Seq<int>, e: int, k: int) -> int
    decreases s.len() - k,
{
    if k >= s.len() || k < 0 {
        s.len() as int
    } else if s[k] > e {
        k
    } else {
        int_slot(s, e, k + 1)
    }
}

/// Ascending sort (insertion sort).
pub open spec fn sort_ints(s: Seq<int>) -> Seq<int>
    decreases s.len(),
{
    if s.len() == 0 {
        s
    } else {
        let r = sort_ints(s.drop_last());
        r.insert(int_slot(r, s.last(), 0), s.last())
    }
}

/// The middle entry of the sorted list (the upper one for an even count).
pub open spec fn median(s: Seq<int>) -> int {
    sort_ints(s)[s.len() as int / 2]
}

pub open spec fn i64s(s: Seq<i64>) -> Seq<int> {
    s.map_values(|v: i64| v as int)
}

proof fn lemma_i64s_push(s: Seq<i64>, x: i64)
    ensures
        i64s(s.push(x)) =~= i64s(s).push(x as int),
{
    assert forall|k: int| 0 <= k < s.len() + 1 implies i64s(s.push(x))[k] == i64s(s).push(x as int)[k] by {
        if k < s.len() {
            assert(s.push(x)[k] == s[k]);
        }
    }
}

proof fn lemma_int_slot(s: Seq<int>, e: int, k: int)
    requires
        0 <= k <= s.len(),
    ensures
        k <= int_slot(s, e, k) <= s.len(),
    decreases s.len() - k,
{
    if k < s.len() && s[k] <= e {
        lemma_int_slot(s, e, k + 1);
    }
}

proof fn lemma_sort_ints_len(s: Seq<int>)
    ensures
        sort_ints(s).len() == s.len(),
    decreases s.len(),
{
    if s.len() > 0 {
        lemma_sort_ints_len(s.drop_last());
        lemma_int_slot(sort_ints(s.drop_last()), s.last(), 0);
    }
}

/// The median of a non-empty list of numbers.
fn median_of(v: &Vec<i64>) -> (m: i64)
    requires
        v@.len() > 0,
    ensures
        m == median(i64s(v@)),
{
    let sorted = sort_i64(v);
    proof {
        lemma_sort_ints_len(i64s(v@));
    }
    sorted[v.len() / 2]
}

/// The numbers in ascending order (insertion sort).
fn sort_i64(v: &Vec<i64>) -> (sorted: Vec<i64>)
    ensures
        i64s(sorted@) == sort_ints(i64s(v@)),
        sorted@.len() == v@.len(),
{
    let mut sorted: Vec<i64> = Vec::new();
    let mut i: usize = 0;
    while i < v.len()
        invariant
            i <= v@.len(),
            i64s(sorted@) == sort_ints(i64s(v@).take(i as int)),
        decreases v.len() - i,
    {
        let e = v[i];
        let ghost r = i64s(sorted@);
        proof {
            assert(i64s(v@).take(i as int + 1).drop_last() =~= i64s(v@).take(i as int));
            assert(i64s(v@).take(i as int + 1).last() == e as int);
            lemma_int_slot(r, e as int, 0);
        }
        let mut p: usize = 0;
        while p < sorted.len() && sorted[p] <= e
            invariant
                r == i64s(sorted@),
                p <= sorted@.len(),
                int_slot(r, e as int, 0) == int_slot(r, e as int, p as int),
            decreases sorted.len() - p,
        {
            p = p + 1;
        }
        let ghost s0 = sorted@;
        sorted.insert(p, e);
        assert(i64s(sorted@) =~= r.insert(p as int, e as int)) by {
            assert forall|k: int| 0 <= k < sorted@.len() implies i64s(sorted@)[k] == r.insert(
                p as int,
                e as int,
            )[k] by {
                if k < p {
                    assert(sorted@[k] == s0[k]);
                } else if k > p {
                    assert(sorted@[k] == s0[k - 1]);
                }
            }
        }
        i = i + 1;
    }
    assert(i64s(v@).take(i as int) =~= i64s(v@));
    proof {
        lemma_sort_ints_len(i64s(v@));
    }
    sorted
}

pub open spec fn comp_h(c: CView) -> int {
    c.3 - c.1 + 1
}

pub open spec fn comp_w(c: CView) -> int {
    c.2 - c.0 + 1
}

pub open spec fn abs_i(a: int) -> int {
    if a < 0 {
        -a
    } else {
        a
    }
}

/// Gaps between neighbours of a chain.
pub open spec fn gaps_of(cs: Seq<CView>, tc: Seq<int>) -> Seq<int> {
    Seq::new((tc.len() - 1) as nat, |k: int| cs[tc[k + 1]].0 - cs[tc[k]].2)
}

/// The gaps without the two outer ones, when there are more than two.
pub open spec fn inner_gaps(g: Seq<int>) -> Seq<int> {
    if g.len() > 2 {
        g.subrange(1, g.len() - 1)
    } else {
        g
    }
}

/// Nearly square: width and height differ by at most a quarter of the
/// height or by at most 2.
pub open spec fn squarish(c: CView) -> bool {
    let d = abs_i(comp_w(c) - comp_h(c));
    4 * d <= comp_h(c) || d <= 2
}

/// Which end to strip off a chain that is longer than the caption has
/// glyphs (`keep` = max(glyphs, 1)): 1 the front, 2 the back, 0 none. First
/// an end whose height is off the median height `med` by more than 20 %
/// (and more than 2), the worse end first; then, for chains of three or
/// more, an end separated by an outlier gap (at least 2 + 1.6 times the
/// median inner gap; the front wins when its gap is at least the back
/// one); then a square end opposite a non-square one.
pub open spec fn strip_action(cs: Seq<CView>, tc: Seq<int>, keep: int, med: int) -> int {
    if tc.len() <= keep || tc.len() < 2 {
        0
    } else {
        let first = cs[tc[0]];
        let last = cs[tc.last()];
        let fdev = abs_i(comp_h(first) - med);
        let ldev = abs_i(comp_h(last) - med);
        let front = fdev >= ldev;
        let d = if front { fdev } else { ldev };
        let g = gaps_of(cs, tc);
        let mg = median(inner_gaps(g));
        if d > 2 && 5 * d > med {
            if front { 1 } else { 2 }
        } else if tc.len() >= 3 && 5 * g[0] >= 10 + 8 * mg && g[0] >= g.last() {
            1
        } else if tc.len() >= 3 && 5 * g.last() >= 10 + 8 * mg {
            2
        } else if squarish(first) && !squarish(last) {
            1
        } else if squarish(last) && !squarish(first) {
            2
        } else {
            0
        }
    }
}

/// Strip ends (see `strip_action`) until no rule applies. Returns the chain
/// and the stripped components in stripping order.
pub open spec fn strip_spec(cs: Seq<CView>, tc: Seq<int>, stripped: Seq<int>, keep: int, med: int) -> (
    Seq<int>,
    Seq<int>,
)
    decreases tc.len(),
{
    let a = strip_action(cs, tc, keep, med);
    if a == 1 && tc.len() > 0 {
        strip_spec(cs, tc.drop_first(), stripped.push(tc[0]), keep, med)
    } else if a == 2 && tc.len() > 0 {
        strip_spec(cs, tc.drop_last(), stripped.push(tc.last()), keep, med)
    } else {
        (tc, stripped)
    }
}

/// Splitting only ever takes components off the ends: what remains is a
/// contiguous part of the chain with at least `min(len, keep)` members, and
/// every removed member is recorded.
pub proof fn lemma_strip_ends(cs: Seq<CView>, tc: Seq<int>, stripped: Seq<int>, keep: int, med: int)
    requires
        keep >= 1,
    ensures
        exists|a: int, b: int|
            0 <= a <= b <= tc.len() && #[trigger] strip_spec(cs, tc, stripped, keep, med).0 == tc.subrange(
                a,
                b,
            ) && strip_spec(cs, tc, stripped, keep, med).1.len() == stripped.len() + tc.len() - (b - a),
        strip_spec(cs, tc, stripped, keep, med).0.len() >= (if tc.len() < keep { tc.len() as int } else { keep }),
    decreases tc.len(),
{
    let r = strip_spec(cs, tc, stripped, keep, med);
    let act = strip_action(cs, tc, keep, med);
    if act == 1 && tc.len() > 0 {
        let t2 = tc.drop_first();
        let s2 = stripped.push(tc[0]);
        lemma_strip_ends(cs, t2, s2, keep, med);
        let (a, b) = choose|a: int, b: int|
            0 <= a <= b <= t2.len() && #[trigger] strip_spec(cs, t2, s2, keep, med).0 == t2.subrange(a, b)
                && strip_spec(cs, t2, s2, keep, med).1.len() == s2.len() + t2.len() - (b - a);
        assert(t2.subrange(a, b) =~= tc.subrange(a + 1, b + 1));
    } else if act == 2 && tc.len() > 0 {
        let t2 = tc.drop_last();
        let s2 = stripped.push(tc.last());
        lemma_strip_ends(cs, t2, s2, keep, med);
        let (a, b) = choose|a: int, b: int|
            0 <= a <= b <= t2.len() && #[trigger] strip_spec(cs, t2, s2, keep, med).0 == t2.subrange(a, b)
                && strip_spec(cs, t2, s2, keep, med).1.len() == s2.len() + t2.len() - (b - a);
        assert(t2.subrange(a, b) =~= tc.subrange(a, b));
    } else {
        assert(r.0 =~= tc.subrange(0, tc.len() as int));
    }
}

pub open spec fn heights_of(cs: Seq<CView>, tc: Seq<int>) -> Seq<int> {
    Seq::new(tc.len(), |k: int| comp_h(cs[tc[k]]))
}

fn squarish_exec(c: &C) -> (r: bool)
    requires
        0 <= c.x0 <= c.x1 <= u32::MAX,
        0 <= c.y0 <= c.y1 <= u32::MAX,
    ensures
        r == squarish(cview(*c)),
{
    let w = c.w();
    let h = c.h();
    let d = if w >= h { w - h } else { h - w };
    4 * d <= h || d <= 2
}

/// Split components off the ends of the caption chain (see `strip_spec`);
/// `glyphs` is the caption's expected glyph count. Returns the remaining
/// chain and the stripped components.
#[verifier::spinoff_prover]
#[verifier::rlimit(50)]
pub fn strip_juxtaposed(comps: &[C], tc: Vec<usize>, glyphs: usize) -> (r: (Vec<usize>, Vec<usize>))
    requires
        cs_ok(comps@),
        tc@.len() > 0,
        in_range(ints(tc@), comps@.len() as int),
    ensures
        (ints(r.0@), ints(r.1@)) == strip_spec(
            cviews(comps@),
            ints(tc@),
            Seq::empty(),
            if glyphs >= 1 { glyphs as int } else { 1 },
            median(heights_of(cviews(comps@), ints(tc@))),
        ),
        r.0@.len() > 0,
        in_range(ints(r.0@), comps@.len() as int),
{
    let ghost v = cviews(comps@);
    let keep = if glyphs >= 1 { glyphs } else { 1 };
    let mut heights: Vec<i64> = Vec::new();
    let mut i: usize = 0;
    while i < tc.len()
        invariant
            cs_ok(comps@),
            v == cviews(comps@),
            in_range(ints(tc@), comps@.len() as int),
            i <= tc@.len(),
            i64s(heights@) == heights_of(v, ints(tc@)).take(i as int),
            forall|k: int| 0 <= k < heights@.len() ==> 1 <= #[trigger] heights@[k] <= u32::MAX + 1,
        decreases tc.len() - i,
    {
        assert(ints(tc@)[i as int] == tc@[i as int]);
        assert(v[tc@[i as int] as int] == cview(comps@[tc@[i as int] as int]));
        let hh = comps[tc[i]].h();
        let ghost h0 = heights@;
        heights.push(hh);
        proof {
            lemma_i64s_push(h0, hh);
            assert(heights_of(v, ints(tc@)).take(i as int + 1) =~= heights_of(v, ints(tc@)).take(
                i as int,
            ).push(hh as int));
        }
        i = i + 1;
    }
    assert(i64s(heights@) =~= heights_of(v, ints(tc@)));
    let med = median_of(&heights);
    proof {
        lemma_sort_ints_len(i64s(heights@));
        lemma_sorted_member(i64s(heights@), heights@.len() as int / 2);
    }
    assert(1 <= med <= u32::MAX + 1) by {
        let k = choose|k: int| 0 <= k < heights@.len() && i64s(heights@)[k] == med as int;
        assert(1 <= heights@[k] <= u32::MAX + 1);
    }
    let mut tc = tc;
    let mut stripped: Vec<usize> = Vec::new();
    let ghost target = strip_spec(v, ints(tc@), Seq::empty(), keep as int, med as int);
    assert(ints(stripped@) =~= Seq::<int>::empty());
    let mut done = false;
    while !done && tc.len() > keep && tc.len() >= 2
        invariant
            cs_ok(comps@),
            v == cviews(comps@),
            in_range(ints(tc@), comps@.len() as int),
            tc@.len() > 0,
            keep >= 1,
            1 <= med <= u32::MAX + 1,
            strip_spec(v, ints(tc@), ints(stripped@), keep as int, med as int) == target,
            done ==> target == (ints(tc@), ints(stripped@)),
        decreases tc.len(), if done { 0int } else { 1int },
    {
        let ghost t0 = ints(tc@);
        let ghost s0 = ints(stripped@);
        let f = tc[0];
        let l = tc[tc.len() - 1];
        assert(t0[0] == f && t0.last() == l);
        assert(v[f as int] == cview(comps@[f as int]) && v[l as int] == cview(comps@[l as int]));
        let first = &comps[f];
        let last = &comps[l];
        let fh = first.h();
        let lh = last.h();
        let fdev = if fh >= med { fh - med } else { med - fh };
        let ldev = if lh >= med { lh - med } else { med - lh };
        let front = fdev >= ldev;
        let d = if front { fdev } else { ldev };
        let mut action: u8 = 0;  // 0 none, 1 strip front, 2 strip back
        if d > 2 && 5 * d > med {
            action = if front { 1 } else { 2 };
        } else {
            if tc.len() >= 3 {
                let mut gaps: Vec<i64> = Vec::new();
                let mut k: usize = 0;
                while k + 1 < tc.len()
                    invariant
                        cs_ok(comps@),
                        v == cviews(comps@),
                        in_range(ints(tc@), comps@.len() as int),
                        t0 == ints(tc@),
                        tc@.len() >= 3,
                        k + 1 <= tc@.len(),
                        i64s(gaps@) == gaps_of(v, t0).take(k as int),
                        forall|j: int| 0 <= j < gaps@.len() ==> -0x1_0000_0000 <= #[trigger] gaps@[j]
                            <= 0x1_0000_0000,
                    decreases tc.len() - k,
                {
                    assert(t0[k as int] == tc@[k as int] && t0[k + 1] == tc@[k + 1]);
                    assert(v[tc@[k as int] as int] == cview(comps@[tc@[k as int] as int]));
                    assert(v[tc@[k + 1] as int] == cview(comps@[tc@[k + 1] as int]));
                    let g = comps[tc[k + 1]].x0 - comps[tc[k]].x1;
                    let ghost g0s = gaps@;
                    gaps.push(g);
                    proof {
                        lemma_i64s_push(g0s, g);
                        assert(gaps_of(v, t0).take(k as int + 1) =~= gaps_of(v, t0).take(k as int).push(
                            g as int,
                        ));
                    }
                    k = k + 1;
                }
                assert(i64s(gaps@) =~= gaps_of(v, t0));
                let gl = gaps.len();
                let mut inner: Vec<i64> = Vec::new();
                let (lo, hi) = if gl > 2 { (1, gl - 1) } else { (0, gl) };
                let mut j: usize = lo;
                while j < hi
                    invariant
                        lo <= j <= hi <= gaps@.len(),
                        i64s(inner@) == i64s(gaps@).subrange(lo as int, j as int),
                    decreases hi - j,
                {
                    let ghost in0 = inner@;
                    inner.push(gaps[j]);
                    proof {
                        lemma_i64s_push(in0, gaps@[j as int]);
                        assert(i64s(gaps@).subrange(lo as int, j as int + 1) =~= i64s(gaps@).subrange(
                            lo as int,
                            j as int,
                        ).push(gaps@[j as int] as int));
                    }
                    j = j + 1;
                }
                assert(i64s(inner@) =~= inner_gaps(gaps_of(v, t0)));
                let mg = median_of(&inner);
                proof {
                    lemma_sort_ints_len(i64s(inner@));
                    lemma_sorted_member(i64s(inner@), inner@.len() as int / 2);
                    let kk = choose|kk: int| 0 <= kk < inner@.len() && i64s(inner@)[kk] == mg as int;
                    assert(i64s(inner@)[kk] == i64s(gaps@).subrange(lo as int, hi as int)[kk]);
                    assert(-0x1_0000_0000 <= gaps@[lo + kk] <= 0x1_0000_0000);
                }
                let g0 = gaps[0];
                let gn = gaps[gl - 1];
                assert(g0 as int == gaps_of(v, t0)[0]);
                assert(gn as int == gaps_of(v, t0).last());
                assert(mg as int == median(inner_gaps(gaps_of(v, t0))));
                assert(-0x1_0000_0000 <= g0 <= 0x1_0000_0000 && -0x1_0000_0000 <= gn <= 0x1_0000_0000);
                if 5 * g0 >= 10 + 8 * mg && g0 >= gn {
                    action = 1;
                } else if 5 * gn >= 10 + 8 * mg {
                    action = 2;
                }
            }
            if action == 0 {
                let fsq = squarish_exec(first);
                let lsq = squarish_exec(last);
                if fsq && !lsq {
                    action = 1;
                } else if lsq && !fsq {
                    action = 2;
                }
            }
        }
        assert(action as int == strip_action(v, t0, keep as int, med as int));
        if action == 0 {
            done = true;
        } else if action == 1 {
            let x = tc.remove(0);
            stripped.push(x);
            assert(ints(tc@) =~= t0.drop_first());
            assert(ints(stripped@) =~= s0.push(t0[0]));
        } else {
            let x = tc.pop().unwrap();
            stripped.push(x);
            assert(ints(tc@) =~= t0.drop_last());
            assert(ints(stripped@) =~= s0.push(t0.last()));
        }
        assert(in_range(ints(tc@), comps@.len() as int)) by {
            assert forall|k: int| 0 <= k < ints(tc@).len() implies 0 <= #[trigger] ints(tc@)[k]
                < comps@.len() by {
                if action == 1 {
                    assert(ints(tc@)[k] == t0[k + 1]);
                } else if action == 2 {
                    assert(ints(tc@)[k] == t0[k]);
                }
            }
        }
    }
    (tc, stripped)
}

/// The sorted list holds the same entries.
proof fn lemma_sorted_member(s: Seq<int>, k: int)
    requires
        0 <= k < s.len(),
    ensures
        sort_ints(s).len() == s.len(),
        exists|j: int| 0 <= j < s.len() && s[j] == sort_ints(s)[k],
    decreases s.len(),
{
    lemma_sort_ints_len(s);
    let r = sort_ints(s.drop_last());
    lemma_sort_ints_len(s.drop_last());
    lemma_int_slot(r, s.last(), 0);
    let p = int_slot(r, s.last(), 0);
    let t = sort_ints(s);
    assert(t == r.insert(p, s.last()));
    if k < p {
        assert(t[k] == r[k]);
        lemma_sorted_member(s.drop_last(), k);
        let j = choose|j: int| 0 <= j < s.drop_last().len() && s.drop_last()[j] == r[k];
        assert(s[j] == t[k]);
    } else if k == p {
        assert(s[s.len() - 1] == t[k]);
    } else {
        assert(t[k] == r[k - 1]);
        lemma_sorted_member(s.drop_last(), k - 1);
        let j = choose|j: int| 0 <= j < s.drop_last().len() && s.drop_last()[j] == r[k - 1];
        assert(s[j] == t[k]);
    }
}

// ---------------------------------------------------------------------------
// Icon candidates and the caption's horizontal place
// ---------------------------------------------------------------------------

/// Indices below `n` that are not in the chain, ascending.
pub open spec fn outside(n: int, chain: Seq<int>) -> Seq<int>
    decreases n,
{
    if n <= 0 {
        Seq::empty()
    } else if chain.contains(n - 1) {
        outside(n - 1, chain)
    } else {
        outside(n - 1, chain).push(n - 1)
    }
}

/// `c` followed by the entries of `extra` it lacks, in order.
pub open spec fn add_missing(c: Seq<int>, extra: Seq<int>) -> Seq<int>
    decreases extra.len(),
{
    if extra.len() == 0 {
        c
    } else {
        let r = add_missing(c, extra.drop_last());
        if r.contains(extra.last()) {
            r
        } else {
            r.push(extra.last())
        }
    }
}

/// Icon candidates: the components outside the caption chain, then the
/// stripped ones not among them yet.
pub fn icon_candidates(n: usize, chain: &Vec<usize>, stripped: &Vec<usize>) -> (r: Vec<usize>)
    ensures
        ints(r@) == add_missing(outside(n as int, ints(chain@)), ints(stripped@)),
{
    let mut cand: Vec<usize> = Vec::new();
    let mut i: usize = 0;
    while i < n
        invariant
            i <= n,
            ints(cand@) == outside(i as int, ints(chain@)),
        decreases n - i,
    {
        if !contains_idx(chain, i) {
            let ghost c0 = cand@;
            cand.push(i);
            assert(ints(cand@) =~= ints(c0).push(i as int));
        }
        i = i + 1;
    }
    let ghost base = ints(cand@);
    let mut k: usize = 0;
    while k < stripped.len()
        invariant
            k <= stripped@.len(),
            base == outside(n as int, ints(chain@)),
            ints(cand@) == add_missing(base, ints(stripped@).take(k as int)),
        decreases stripped.len() - k,
    {
        let x = stripped[k];
        assert(ints(stripped@).take(k as int + 1).drop_last() =~= ints(stripped@).take(k as int));
        assert(ints(stripped@).take(k as int + 1).last() == x as int);
        if !contains_idx(&cand, x) {
            let ghost c0 = cand@;
            cand.push(x);
            assert(ints(cand@) =~= ints(c0).push(x as int));
        }
        k = k + 1;
    }
    assert(ints(stripped@).take(k as int) =~= ints(stripped@));
    cand
}

/// A cluster that is really bold text: at least 2.2 times as wide as high,
/// at least 12 wide and 4 high, filled at most to 75 %.
pub open spec fn is_text_like(c: CView) -> bool {
    let lw = comp_w(c);
    let lh = comp_h(c);
    5 * lw >= 11 * lh && lw >= 12 && lh >= 4 && 4 * c.4 <= 3 * lw * lh
}

/// The largest text-like cluster among the first `n` other than `skip` (the
/// first one where several are equally large).
pub open spec fn text_like_upto(cs: Seq<CView>, skip: int, n: int) -> Option<int>
    decreases n,
{
    if n <= 0 {
        None
    } else {
        let b = text_like_upto(cs, skip, n - 1);
        if n - 1 != skip && is_text_like(cs[n - 1]) && (b is None || cs[n - 1].4 > cs[b->0].4) {
            Some(n - 1)
        } else {
            b
        }
    }
}

/// The bold-text cluster to take as caption when the icon cluster `skip`
/// was found but no caption chain.
pub fn text_like_cluster(cl: &[C], skip: usize) -> (r: Option<usize>)
    requires
        cs_ok(cl@),
    ensures
        r matches Some(t) ==> text_like_upto(cviews(cl@), skip as int, cl@.len() as int) == Some(
            t as int,
        ) && t < cl@.len(),
        r is None ==> text_like_upto(cviews(cl@), skip as int, cl@.len() as int) is None,
{
    let ghost v = cviews(cl@);
    let mut best: Option<usize> = None;
    let mut i: usize = 0;
    while i < cl.len()
        invariant
            cs_ok(cl@),
            v == cviews(cl@),
            i <= cl@.len(),
            best matches Some(b) ==> text_like_upto(v, skip as int, i as int) == Some(b as int) && b
                < i,
            best is None ==> text_like_upto(v, skip as int, i as int) is None,
        decreases cl.len() - i,
    {
        let c = &cl[i];
        assert(v[i as int] == cview(cl@[i as int]));
        let lw = c.w() as i128;
        let lh = c.h() as i128;
        assert(3 * lw * lh <= 3 * 0x1_0000_0000 * 0x1_0000_0000) by (nonlinear_arith)
            requires
                0 < lw <= 0x1_0000_0000,
                0 < lh <= 0x1_0000_0000,
        ;
        let like = 5 * lw >= 11 * lh && lw >= 12 && lh >= 4 && 4 * (c.n as i128) <= 3 * lw * lh;
        let bigger = match best {
            None => true,
            Some(b) => {
                assert(v[b as int] == cview(cl@[b as int]));
                c.n > cl[b].n
            },
        };
        if i != skip && like && bigger {
            best = Some(i);
        }
        i = i + 1;
    }
    best
}

/// Horizontal place of the caption box `[tx0, tx1]` by its margins in the
/// free area: the whole width, or the part beside an icon centred
/// vertically on the left or right. Centre when the margins differ by at
/// most 18 % of the area, else the side with the smaller margin.
pub open spec fn caption_h_spec(
    tx0: int,
    tx1: int,
    w: int,
    icon: Option<(int, int, int, int)>,
    img_h: i32,
    img_v: i32,
) -> i32 {
    let ax0 = match icon {
        Some(ic) => if img_v == P_CENTER && img_h == P_LEFT { ic.2 + 1 } else { 0 },
        None => 0,
    };
    let ax1 = match icon {
        Some(ic) => if img_v == P_CENTER && img_h == P_RIGHT { ic.0 - 1 } else { w },
        None => w,
    };
    let aw = if ax1 - ax0 >= 1 { ax1 - ax0 } else { 1 };
    let d = tx0 + tx1 - ax0 - ax1;
    if 100 * abs_i(d) <= 18 * aw {
        P_CENTER
    } else if d < 0 {
        P_LEFT
    } else {
        P_RIGHT
    }
}

pub fn caption_h(
    tx0: i64,
    tx1: i64,
    w: usize,
    icon: Option<(i64, i64, i64, i64)>,
    img_h: i32,
    img_v: i32,
) -> (r: i32)
    requires
        0 <= tx0 <= u32::MAX,
        0 <= tx1 <= u32::MAX,
        w <= 0x1_0000_0000,
        icon matches Some(ic) ==> 0 <= ic.0 <= u32::MAX && 0 <= ic.2 <= u32::MAX,
    ensures
        r == caption_h_spec(
            tx0 as int,
            tx1 as int,
            w as int,
            match icon {
                Some(ic) => Some((ic.0 as int, ic.1 as int, ic.2 as int, ic.3 as int)),
                None => None,
            },
            img_h,
            img_v,
        ),
{
    let mut ax0: i128 = 0;
    let mut ax1: i128 = w as i128;
    match icon {
        Some(ic) => {
            if img_v == P_CENTER {
                if img_h == P_LEFT {
                    ax0 = (ic.2 + 1) as i128;
                } else if img_h == P_RIGHT {
                    ax1 = (ic.0 - 1) as i128;
                }
            }
        },
        None => {},
    }
    let aw = if ax1 - ax0 >= 1 { ax1 - ax0 } else { 1 };
    let d = (tx0 as i128) + (tx1 as i128) - ax0 - ax1;
    let ad = if d < 0 { -d } else { d };
    if 100 * ad <= 18 * aw {
        P_CENTER
    } else if d < 0 {
        P_LEFT
    } else {
        P_RIGHT
    }
}

// ---------------------------------------------------------------------------
// The caption chain, end to end
// ---------------------------------------------------------------------------

/// Caption components and the components split off them, for components
/// `cs` of an image `ih` pixels high: letter chains from the letter-like
/// components in `x0` order, the caption choice, and, with a caption text
/// and an image, the split of an icon off the chain's ends.
pub open spec fn text_chain_spec(
    cs: Seq<CView>,
    caption: Option<Seq<u8>>,
    image: bool,
    ih: int,
) -> (Option<Seq<int>>, Seq<int>) {
    let chs = sort_by_len(build_chains(cs, sort_by_x0(cs, letters(cs, ih, cs.len() as int))));
    let has_caption = caption matches Some(c) && c.len() > 0;
    let glyphs = match caption {
        Some(c) => glyphs_spec(c) as int,
        None => 0,
    };
    let t = text_spec(cs, chs, has_caption, glyphs, image, ih);
    match t {
        Some(tc) => if image && caption is Some {
            let r = strip_spec(
                cs,
                tc,
                Seq::empty(),
                if glyphs >= 1 { glyphs } else { 1 },
                median(heights_of(cs, tc)),
            );
            (Some(r.0), r.1)
        } else {
            (t, Seq::empty())
        },
        None => (t, Seq::empty()),
    }
}

/// Whether an icon is looked for: always with an image, and without one
/// once a caption chain is found.
pub open spec fn icon_search_spec(cs: Seq<CView>, caption: Option<Seq<u8>>, image: bool, ih: int) -> bool {
    let chs = sort_by_len(build_chains(cs, sort_by_x0(cs, letters(cs, ih, cs.len() as int))));
    let has_caption = caption matches Some(c) && c.len() > 0;
    let glyphs = match caption {
        Some(c) => glyphs_spec(c) as int,
        None => 0,
    };
    image || (has_caption && chain_choice_spec(cs, chs, glyphs, ih) is Some)
}

/// The caption components (`None`: no caption shown), the components split
/// off the chain as icon parts, and whether an icon is looked for.
pub fn text_chain(comps: &[C], caption: Option<&[u8]>, image_hint: bool, ih: usize) -> (r: (
    Option<Vec<usize>>,
    Vec<usize>,
    bool,
))
    requires
        cs_ok(comps@),
        comps@.len() > 0,
        ih <= 0x1_0000_0000,
        caption matches Some(c) ==> c@.len() <= isize::MAX,
    ensures
        (match r.0 {
            Some(t) => Some(ints(t@)),
            None => None,
        }, ints(r.1@)) == text_chain_spec(
            cviews(comps@),
            match caption {
                Some(c) => Some(c@),
                None => None,
            },
            image_hint,
            ih as int,
        ),
        r.0 matches Some(t) ==> t@.len() > 0 && in_range(ints(t@), comps@.len() as int),
        r.2 == icon_search_spec(
            cviews(comps@),
            match caption {
                Some(c) => Some(c@),
                None => None,
            },
            image_hint,
            ih as int,
        ),
{
    let ghost v = cviews(comps@);
    let order = letter_order(comps, ih);
    proof {
        let l = letters(v, ih as int, comps@.len() as int);
        lemma_sort_len(v, l);
        assert(ints(order@) =~= sort_by_x0(v, l));
    }
    let chains = letter_chains(comps, &order);
    let has_caption = match caption {
        Some(c) => c.len() > 0,
        None => false,
    };
    let e: Vec<usize> = Vec::new();
    assert(ints(e@) =~= Seq::<int>::empty());
    if !has_caption {
        return (None, e, image_hint);
    }
    let cap = caption.unwrap();
    let glyphs = expected_glyphs(cap);
    let t = chain_choice(comps, &chains, glyphs, ih);
    let found = t.is_some();
    if image_hint {
        match t {
            Some(tc) => {
                let (t2, st) = strip_juxtaposed(comps, tc, glyphs);
                (Some(t2), st, true)
            },
            None => (None, e, true),
        }
    } else if found {
        (t, e, true)
    } else {
        let mut all: Vec<usize> = Vec::new();
        let mut i: usize = 0;
        while i < comps.len()
            invariant
                i <= comps@.len(),
                all@.len() == i,
                forall|k: int| 0 <= k < i ==> #[trigger] all@[k] == k,
            decreases comps.len() - i,
        {
            all.push(i);
            i = i + 1;
        }
        assert(ints(all@) =~= Seq::new(v.len(), |i: int| i));
        (Some(all), e, false)
    }
}

} // verus!

verus! {

/// With a caption text and no image, when no caption chain is found every
/// rendered component is caption (so one- or two-glyph captions such as
/// "<" or ">>" are found), nothing is split off and no icon is looked for.
pub proof fn lemma_caption_without_image(cs: Seq<CView>, c: Seq<u8>, ih: int)
    requires
        c.len() > 0,
        chain_choice_spec(
            cs,
            sort_by_len(build_chains(cs, sort_by_x0(cs, letters(cs, ih, cs.len() as int)))),
            glyphs_spec(c) as int,
            ih,
        ) is None,
    ensures
        text_chain_spec(cs, Some(c), false, ih) == (
            Some(Seq::new(cs.len(), |i: int| i)),
            Seq::<int>::empty(),
        ),
        !icon_search_spec(cs, Some(c), false, ih),
{
}

/// Without a caption text no caption is shown.
pub proof fn lemma_no_caption_text(cs: Seq<CView>, image: bool, ih: int)
    ensures
        text_chain_spec(cs, None, image, ih).0 is None,
        text_chain_spec(cs, Some(Seq::empty()), image, ih).0 is None,
{
}

} // verus!

verus! {

// ---------------------------------------------------------------------------
// Islands: regions of a background colour that do not reach the border
// ---------------------------------------------------------------------------

pub open spec fn on_border(w: int, h: int, p: int) -> bool {
    p / w == 0 || p % w == 0 || p / w == h - 1 || p % w == w - 1
}

/// Within mask `m`, pixel `q` is connected to a pixel on the image border.
pub open spec fn reaches_border(m: Seq<bool>, w: int, h: int, q: int) -> bool {
    exists|p: int| 0 <= p < w * h && on_border(w, h, p) && #[trigger] connected(m, w, h, p, q)
}

/// Pixel `q` reaches the border in none of the masks: it is ink.
pub open spec fn island_ink(masks: Seq<Seq<bool>>, w: int, h: int, q: int) -> bool {
    forall|k: int| 0 <= k < masks.len() ==> !reaches_border(#[trigger] masks[k], w, h, q)
}

pub open spec fn masks_view(masks: Seq<Vec<bool>>) -> Seq<Seq<bool>> {
    Seq::new(masks.len(), |k: int| masks[k]@)
}

/// The box of a component touches the image border.
pub open spec fn box_on_border(c: C, w: int, h: int) -> bool {
    c.x0 == 0 || c.y0 == 0 || c.x1 == w - 1 || c.y1 == h - 1
}

proof fn lemma_box_border(c: C, w: int, h: int, r: Set<int>)
    requires
        w > 0,
        c_describes(c, w, r),
        0 <= c.x0 <= c.x1 < w,
        0 <= c.y0 <= c.y1 < h,
        forall|q: int| #[trigger] r.contains(q) ==> 0 <= q < w * h,
    ensures
        box_on_border(c, w, h) <==> exists|p: int| #[trigger] r.contains(p) && on_border(w, h, p),
{
    if box_on_border(c, w, h) {
        if c.x0 == 0 {
            let p = choose|q: int| #[trigger] r.contains(q) && q % w == c.x0;
            assert(r.contains(p) && on_border(w, h, p));
        } else if c.y0 == 0 {
            let p = choose|q: int| #[trigger] r.contains(q) && q / w == c.y0;
            assert(r.contains(p) && on_border(w, h, p));
        } else if c.x1 == w - 1 {
            let p = choose|q: int| #[trigger] r.contains(q) && q % w == c.x1;
            assert(r.contains(p) && on_border(w, h, p));
        } else {
            let p = choose|q: int| #[trigger] r.contains(q) && q / w == c.y1;
            assert(r.contains(p) && on_border(w, h, p));
        }
    }
    if exists|p: int| #[trigger] r.contains(p) && on_border(w, h, p) {
        let p = choose|p: int| #[trigger] r.contains(p) && on_border(w, h, p);
        lemma_grid_pos(w, h, p);
        assert(c.x0 <= p % w <= c.x1 && c.y0 <= p / w <= c.y1);
    }
}

/// A set pixel reaches the border exactly when the region it lies in has a
/// pixel on the border.
proof fn lemma_reaches_region(m: Seq<bool>, w: int, h: int, s: int, q: int)
    requires
        w > 0,
        region(m, w, h, s).contains(q),
    ensures
        reaches_border(m, w, h, q) <==> exists|p: int| #[trigger] region(m, w, h, s).contains(p) && on_border(
            w,
            h,
            p,
        ),
{
    let r = region(m, w, h, s);
    if reaches_border(m, w, h, q) {
        let p = choose|p: int| 0 <= p < w * h && on_border(w, h, p) && #[trigger] connected(m, w, h, p, q);
        lemma_connected_sym(m, w, h, p, q);
        lemma_connected_trans(m, w, h, s, q, p);
        assert(r.contains(p));
    }
    if exists|p: int| #[trigger] r.contains(p) && on_border(w, h, p) {
        let p = choose|p: int| #[trigger] r.contains(p) && on_border(w, h, p);
        lemma_connected_sym(m, w, h, s, p);
        lemma_connected_trans(m, w, h, p, s, q);
        assert(connected(m, w, h, p, q));
    }
}

/// Mark every pixel of `m` that reaches the border.
#[verifier::spinoff_prover]
#[verifier::rlimit(40)]
fn mark_border_regions(m: &Vec<bool>, w: usize, h: usize, bg: &mut Vec<bool>)
    requires
        0 < w <= 0x1_0000_0000,
        h <= 0x1_0000_0000,
        m@.len() == w * h,
        old(bg)@.len() == w * h,
    ensures
        final(bg)@.len() == w * h,
        forall|q: int|
            0 <= q < w * h ==> #[trigger] final(bg)@[q] == (old(bg)@[q] || reaches_border(
                m@,
                w as int,
                h as int,
                q,
            )),
{
    let ghost wi = w as int;
    let ghost hi = h as int;
    let ghost b0 = bg@;
    let n = m.len();
    let comps = components(m, w, h);
    let ghost sd = seeds(m@, wi, hi, 0, wi * hi);
    let mut j: usize = 0;
    while j < comps.len()
        invariant
            0 < w <= 0x1_0000_0000,
            h <= 0x1_0000_0000,
            wi == w,
            hi == h,
            m@.len() == w * h,
            bg@.len() == w * h,
            b0.len() == w * h,
            sd == seeds(m@, wi, hi, 0, wi * hi),
            n == w * h,
            comps@.len() == sd.len(),
            forall|k: int|
                0 <= k < comps@.len() ==> c_describes(#[trigger] comps@[k], wi, region(m@, wi, hi, sd[k])),
            cs_in(comps@, wi, hi),
            j <= comps@.len(),
            forall|q: int|
                0 <= q < w * h ==> #[trigger] bg@[q] == (b0[q] || exists|k: int|
                    0 <= k < j && box_on_border(comps@[k], wi, hi) && #[trigger] region(
                        m@,
                        wi,
                        hi,
                        sd[k],
                    ).contains(q)),
        decreases comps.len() - j,
    {
        let c = &comps[j];
        let ghost r = region(m@, wi, hi, sd[j as int]);
        let ghost before = bg@;
        assert(c_describes(*c, wi, r));
        if c.x0 == 0 || c.y0 == 0 || c.x1 == w as i64 - 1 || c.y1 == h as i64 - 1 {
            let mut t: usize = 0;
            while t < c.px.len()
                invariant
                    0 < w <= 0x1_0000_0000,
                    h <= 0x1_0000_0000,
                    wi == w,
                    n == w * h,
                    bg@.len() == w * h,
                    before.len() == w * h,
                    c_describes(*c, wi, r),
                    forall|q: int| #[trigger] r.contains(q) ==> 0 <= q < w * h,
                    t <= c.px@.len(),
                    forall|q: int|
                        0 <= q < w * h ==> #[trigger] bg@[q] == (before[q] || exists|k: int|
                            0 <= k < t && q == c.px@[k].0 * wi + c.px@[k].1),
                decreases c.px.len() - t,
            {
                let (y, x) = c.px[t];
                assert(c.px@[t as int].1 < wi && r.contains(c.px@[t as int].0 * wi + c.px@[t as int].1));
                assert((y as int) * wi + (x as int) < w * h);
                assert((y as int) * wi <= (y as int) * wi + (x as int));
                let idx = (y as usize) * w + (x as usize);
                bg.set(idx, true);
                assert forall|q: int| 0 <= q < w * h implies #[trigger] bg@[q] == (before[q] || exists|k: int|
                    0 <= k < t + 1 && q == c.px@[k].0 * wi + c.px@[k].1) by {
                    if q == idx {
                        assert(q == c.px@[t as int].0 * wi + c.px@[t as int].1);
                    }
                }
                t = t + 1;
            }
            assert forall|q: int| 0 <= q < w * h implies #[trigger] bg@[q] == (before[q] || r.contains(q)) by {
                if r.contains(q) {
                    assert(c.px@.contains(yx(wi, q)));
                    let k = choose|k: int| 0 <= k < c.px@.len() && c.px@[k] == yx(wi, q);
                    lemma_grid_pos(wi, hi, q);
                    assert(c.px@[k].0 * wi + c.px@[k].1 == q);
                }
                if exists|k: int| 0 <= k < t && q == c.px@[k].0 * wi + c.px@[k].1 {
                    let k = choose|k: int| 0 <= k < t && q == c.px@[k].0 * wi + c.px@[k].1;
                    assert(c.px@[k].1 < wi && r.contains(c.px@[k].0 * wi + c.px@[k].1));
                }
            }
        }
        assert forall|q: int|
            0 <= q < w * h implies #[trigger] bg@[q] == (b0[q] || exists|k: int|
                0 <= k < j + 1 && box_on_border(comps@[k], wi, hi) && #[trigger] region(
                    m@,
                    wi,
                    hi,
                    sd[k],
                ).contains(q)) by {
            if box_on_border(comps@[j as int], wi, hi) && r.contains(q) {
                assert(region(m@, wi, hi, sd[j as int]).contains(q));
            }
        }
        j = j + 1;
    }
    assert forall|q: int| 0 <= q < w * h implies #[trigger] bg@[q] == (b0[q] || reaches_border(
        m@,
        wi,
        hi,
        q,
    )) by {
        if exists|k: int|
            0 <= k < comps@.len() && box_on_border(comps@[k], wi, hi) && #[trigger] region(
                m@,
                wi,
                hi,
                sd[k],
            ).contains(q) {
            let k = choose|k: int|
                0 <= k < comps@.len() && box_on_border(comps@[k], wi, hi) && #[trigger] region(
                    m@,
                    wi,
                    hi,
                    sd[k],
                ).contains(q);
            let r = region(m@, wi, hi, sd[k]);
            assert(comps@[k] == comps@[k]);
            lemma_box_border(comps@[k], wi, hi, r);
            lemma_reaches_region(m@, wi, hi, sd[k], q);
        }
        if reaches_border(m@, wi, hi, q) {
            let p = choose|p: int| 0 <= p < w * h && on_border(wi, hi, p) && #[trigger] connected(
                m@,
                wi,
                hi,
                p,
                q,
            );
            lemma_connected_ends(m@, wi, hi, p, q);
            lemma_regions_partition(m@, wi, hi, q);
            let k = choose|k: int| 0 <= k < sd.len() && #[trigger] region(m@, wi, hi, sd[k]).contains(q);
            let r = region(m@, wi, hi, sd[k]);
            lemma_reaches_region(m@, wi, hi, sd[k], q);
            lemma_box_border(comps@[k], wi, hi, r);
        }
    }
}

/// Ink of the fallback segmentation: the pixels that, in none of the
/// colour masks, are connected to the image border.
pub fn islands(masks: &Vec<Vec<bool>>, w: usize, h: usize) -> (ink: Vec<bool>)
    requires
        0 < w <= 0x1_0000_0000,
        h <= 0x1_0000_0000,
        w * h <= usize::MAX,
        forall|k: int| 0 <= k < masks@.len() ==> (#[trigger] masks@[k])@.len() == w * h,
    ensures
        ink@.len() == w * h,
        forall|q: int|
            0 <= q < w * h ==> #[trigger] ink@[q] == island_ink(masks_view(masks@), w as int, h as int, q),
{
    let n = w * h;
    let mut bg: Vec<bool> = vec![false; n];
    let mut k: usize = 0;
    while k < masks.len()
        invariant
            0 < w <= 0x1_0000_0000,
            h <= 0x1_0000_0000,
            n == w * h,
            bg@.len() == n,
            k <= masks@.len(),
            forall|j: int| 0 <= j < masks@.len() ==> (#[trigger] masks@[j])@.len() == w * h,
            forall|q: int|
                0 <= q < n ==> #[trigger] bg@[q] == exists|j: int|
                    0 <= j < k && reaches_border(#[trigger] masks@[j]@, w as int, h as int, q),
        decreases masks.len() - k,
    {
        mark_border_regions(&masks[k], w, h, &mut bg);
        assert forall|q: int| 0 <= q < n implies #[trigger] bg@[q] == exists|j: int|
            0 <= j < k + 1 && reaches_border(#[trigger] masks@[j]@, w as int, h as int, q) by {
            if reaches_border(masks@[k as int]@, w as int, h as int, q) {
                assert(0 <= k < k + 1);
            }
        }
        k = k + 1;
    }
    let mut ink: Vec<bool> = Vec::new();
    let mut i: usize = 0;
    while i < n
        invariant
            n == w * h,
            bg@.len() == n,
            k == masks@.len(),
            i <= n,
            ink@.len() == i,
            forall|q: int| 0 <= q < i ==> #[trigger] ink@[q] == !bg@[q],
            forall|q: int|
                0 <= q < n ==> #[trigger] bg@[q] == exists|j: int|
                    0 <= j < k && reaches_border(#[trigger] masks@[j]@, w as int, h as int, q),
        decreases n - i,
    {
        ink.push(!bg[i]);
        i = i + 1;
    }
    assert forall|q: int| 0 <= q < w * h implies #[trigger] ink@[q] == island_ink(
        masks_view(masks@),
        w as int,
        h as int,
        q,
    ) by {
        let mv = masks_view(masks@);
        if !ink@[q] {
            let j = choose|j: int| 0 <= j < k && reaches_border(#[trigger] masks@[j]@, w as int, h as int, q);
            assert(mv[j] == masks@[j]@);
        } else {
            assert forall|j: int| 0 <= j < mv.len() implies !reaches_border(#[trigger] mv[j], w as int, h as int, q) by {
                assert(mv[j] == masks@[j]@);
            }
        }
    }
    ink
}

} // verus!

verus! {

// ---------------------------------------------------------------------------
// Dominant colour bins
// ---------------------------------------------------------------------------

/// Number of colour bins of 32 steps per channel.
pub const BINS9: usize = 512;

/// The bin of a pixel: each channel cut to its top 3 bits.
pub open spec fn bin9(p: [u8; 3]) -> int {
    (p[0] / 32) as int * 64 + (p[1] / 32) as int * 8 + (p[2] / 32) as int
}

/// Pixels of `s` in bin `k`.
pub open spec fn bin9_count(s: Seq<[u8; 3]>, k: int) -> nat
    decreases s.len(),
{
    if s.len() == 0 {
        0
    } else {
        bin9_count(s.drop_last(), k) + (if bin9(s.last()) == k { 1nat } else { 0 })
    }
}

/// Sum of channel `c` over the pixels of `s` in bin `k`.
pub open spec fn bin9_sum(s: Seq<[u8; 3]>, k: int, c: int) -> nat
    decreases s.len(),
{
    if s.len() == 0 {
        0
    } else {
        bin9_sum(s.drop_last(), k, c) + (if bin9(s.last()) == k { s.last()[c] as nat } else { 0 })
    }
}

/// Bins below `n` holding pixels, ascending.
pub open spec fn used_bins(s: Seq<[u8; 3]>, n: int) -> Seq<int>
    decreases n,
{
    if n <= 0 {
        Seq::empty()
    } else if bin9_count(s, n - 1) > 0 {
        used_bins(s, n - 1).push(n - 1)
    } else {
        used_bins(s, n - 1)
    }
}

/// Position of bin `e` among bins sorted by decreasing count: after those
/// with at least its count.
pub open spec fn count_slot(s: Seq<[u8; 3]>, sorted: Seq<int>, e: int, k: int) -> int
    decreases sorted.len() - k,
{
    if k >= sorted.len() || k < 0 {
        sorted.len() as int
    } else if bin9_count(s, sorted[k]) < bin9_count(s, e) {
        k
    } else {
        count_slot(s, sorted, e, k + 1)
    }
}

/// Stable sort of bins by decreasing count.
pub open spec fn sort_by_count(s: Seq<[u8; 3]>, bins: Seq<int>) -> Seq<int>
    decreases bins.len(),
{
    if bins.len() == 0 {
        bins
    } else {
        let r = sort_by_count(s, bins.drop_last());
        r.insert(count_slot(s, r, bins.last(), 0), bins.last())
    }
}

/// The longest prefix of `sorted` whose bins hold at least 6 % of the
/// pixels each.
pub open spec fn share_prefix(s: Seq<[u8; 3]>, sorted: Seq<int>, k: int) -> int
    decreases sorted.len() - k,
{
    if k >= sorted.len() || k < 0 || 100 * bin9_count(s, sorted[k]) < 6 * s.len() {
        k
    } else {
        share_prefix(s, sorted, k + 1)
    }
}

/// The dominant bins: those with at least 6 % of the pixels, most frequent
/// first, equally frequent ones by ascending bin.
pub open spec fn dominant_bins_spec(s: Seq<[u8; 3]>) -> Seq<int> {
    let sorted = sort_by_count(s, used_bins(s, BINS9 as int));
    sorted.take(share_prefix(s, sorted, 0))
}

proof fn lemma_count_slot(s: Seq<[u8; 3]>, sorted: Seq<int>, e: int, k: int)
    requires
        0 <= k <= sorted.len(),
    ensures
        k <= count_slot(s, sorted, e, k) <= sorted.len(),
    decreases sorted.len() - k,
{
    if k < sorted.len() && bin9_count(s, sorted[k]) >= bin9_count(s, e) {
        lemma_count_slot(s, sorted, e, k + 1);
    }
}

proof fn lemma_sort_by_count(s: Seq<[u8; 3]>, bins: Seq<int>)
    ensures
        sort_by_count(s, bins).len() == bins.len(),
        forall|k: int| 0 <= k < bins.len() ==> bins.contains(#[trigger] sort_by_count(s, bins)[k]),
    decreases bins.len(),
{
    if bins.len() > 0 {
        let r = sort_by_count(s, bins.drop_last());
        lemma_sort_by_count(s, bins.drop_last());
        lemma_count_slot(s, r, bins.last(), 0);
        let p = count_slot(s, r, bins.last(), 0);
        assert forall|k: int| 0 <= k < bins.len() implies bins.contains(#[trigger] sort_by_count(s, bins)[k]) by {
            let t = sort_by_count(s, bins);
            assert(t == r.insert(p, bins.last()));
            if k < p {
                assert(t[k] == r[k]);
                let j = choose|j: int| 0 <= j < bins.drop_last().len() && bins.drop_last()[j] == r[k];
                assert(bins[j] == r[k]);
            } else if k == p {
                assert(bins[bins.len() - 1] == t[k]);
            } else {
                assert(t[k] == r[k - 1]);
                let j = choose|j: int| 0 <= j < bins.drop_last().len() && bins.drop_last()[j] == r[k - 1];
                assert(bins[j] == r[k - 1]);
            }
        }
    }
}

proof fn lemma_used_bins(s: Seq<[u8; 3]>, n: int)
    requires
        0 <= n,
    ensures
        forall|k: int| 0 <= k < used_bins(s, n).len() ==> 0 <= #[trigger] used_bins(s, n)[k] < n,
    decreases n,
{
    if n > 0 {
        lemma_used_bins(s, n - 1);
        let r = used_bins(s, n - 1);
        if bin9_count(s, n - 1) > 0 {
            assert forall|k: int| 0 <= k < used_bins(s, n).len() implies 0 <= #[trigger] used_bins(s, n)[k] < n by {
                if k < r.len() {
                    assert(used_bins(s, n)[k] == r[k]);
                }
            }
        }
    }
}

proof fn lemma_share_prefix(s: Seq<[u8; 3]>, sorted: Seq<int>, k: int)
    requires
        0 <= k <= sorted.len(),
    ensures
        k <= share_prefix(s, sorted, k) <= sorted.len(),
    decreases sorted.len() - k,
{
    if k < sorted.len() && 100 * bin9_count(s, sorted[k]) >= 6 * s.len() {
        lemma_share_prefix(s, sorted, k + 1);
    }
}

proof fn lemma_bin9_bounds(s: Seq<[u8; 3]>, k: int)
    ensures
        bin9_count(s, k) <= s.len(),
        forall|c: int| 0 <= c < 3 ==> #[trigger] bin9_sum(s, k, c) <= 255 * s.len(),
    decreases s.len(),
{
    if s.len() > 0 {
        lemma_bin9_bounds(s.drop_last(), k);
        assert forall|c: int| 0 <= c < 3 implies #[trigger] bin9_sum(s, k, c) <= 255 * s.len() by {
            assert(bin9_sum(s.drop_last(), k, c) <= 255 * s.drop_last().len());
            assert(s.last()[c] <= 255);
        }
    }
}

/// The dominant colour bins of a pixel list, as (bin, pixel count, channel
/// sums), most frequent first (see `dominant_bins_spec`).
#[verifier::spinoff_prover]
#[verifier::rlimit(50)]
pub fn dominant_bins(rgb: &[[u8; 3]]) -> (out: Vec<(usize, usize, [u64; 3])>)
    requires
        rgb@.len() <= 0x100_0000_0000_0000,
    ensures
        out@.len() == dominant_bins_spec(rgb@).len(),
        forall|i: int|
            0 <= i < out@.len() ==> (#[trigger] out@[i]).0 == dominant_bins_spec(rgb@)[i] && out@[i].1
                == bin9_count(rgb@, out@[i].0 as int) && out@[i].2[0] == bin9_sum(rgb@, out@[i].0 as int, 0)
                && out@[i].2[1] == bin9_sum(rgb@, out@[i].0 as int, 1) && out@[i].2[2] == bin9_sum(
                rgb@,
                out@[i].0 as int,
                2,
            ),
{
    let ghost s = rgb@;
    let mut count: Vec<usize> = vec![0usize; BINS9];
    let mut s0: Vec<u64> = vec![0u64; BINS9];
    let mut s1: Vec<u64> = vec![0u64; BINS9];
    let mut s2: Vec<u64> = vec![0u64; BINS9];
    let mut i: usize = 0;
    while i < rgb.len()
        invariant
            s == rgb@,
            rgb@.len() <= 0x100_0000_0000_0000,
            i <= rgb@.len(),
            count@.len() == BINS9 && s0@.len() == BINS9 && s1@.len() == BINS9 && s2@.len() == BINS9,
            forall|k: int| 0 <= k < BINS9 ==> #[trigger] count@[k] == bin9_count(s.take(i as int), k),
            forall|k: int| 0 <= k < BINS9 ==> #[trigger] s0@[k] == bin9_sum(s.take(i as int), k, 0),
            forall|k: int| 0 <= k < BINS9 ==> #[trigger] s1@[k] == bin9_sum(s.take(i as int), k, 1),
            forall|k: int| 0 <= k < BINS9 ==> #[trigger] s2@[k] == bin9_sum(s.take(i as int), k, 2),
        decreases rgb.len() - i,
    {
        let p = rgb[i];
        let key = (p[0] / 32) as usize * 64 + (p[1] / 32) as usize * 8 + (p[2] / 32) as usize;
        assert(key == bin9(s[i as int]));
        proof {
            lemma_bin9_bounds(s.take(i as int), key as int);
            assert(s.take(i as int + 1).drop_last() =~= s.take(i as int));
            assert(s.take(i as int + 1).last() == p);
        }
        let ghost oc = count@;
        let ghost o0 = s0@;
        let ghost o1 = s1@;
        let ghost o2 = s2@;
        assert(oc[key as int] == bin9_count(s.take(i as int), key as int));
        let c = count[key];
        count.set(key, c + 1);
        let a = s0[key];
        s0.set(key, a + p[0] as u64);
        let b = s1[key];
        s1.set(key, b + p[1] as u64);
        let d = s2[key];
        s2.set(key, d + p[2] as u64);
        proof {
            let tn = s.take(i as int + 1);
            let ti = s.take(i as int);
            assert(bin9(tn.last()) == key);
            assert(tn.last()[0] == p[0] && tn.last()[1] == p[1] && tn.last()[2] == p[2]);
            assert(tn.drop_last() == ti);
            assert forall|k: int| 0 <= k < BINS9 implies #[trigger] count@[k] == bin9_count(tn, k) by {
                assert(oc[k] == bin9_count(ti, k));
            }
            assert forall|k: int| 0 <= k < BINS9 implies #[trigger] s0@[k] == bin9_sum(tn, k, 0) by {
                assert(o0[k] == bin9_sum(ti, k, 0));
            }
            assert forall|k: int| 0 <= k < BINS9 implies #[trigger] s1@[k] == bin9_sum(tn, k, 1) by {
                assert(o1[k] == bin9_sum(ti, k, 1));
            }
            assert forall|k: int| 0 <= k < BINS9 implies #[trigger] s2@[k] == bin9_sum(tn, k, 2) by {
                assert(o2[k] == bin9_sum(ti, k, 2));
            }
        }
        i = i + 1;
    }
    assert(s.take(i as int) =~= s);
    // bins holding pixels, ascending
    let mut used: Vec<usize> = Vec::new();
    let mut k: usize = 0;
    while k < BINS9
        invariant
            count@.len() == BINS9,
            forall|j: int| 0 <= j < BINS9 ==> #[trigger] count@[j] == bin9_count(s, j),
            k <= BINS9,
            ints(used@) == used_bins(s, k as int),
        decreases BINS9 - k,
    {
        if count[k] > 0 {
            let ghost u0 = used@;
            used.push(k);
            assert(ints(used@) =~= ints(u0).push(k as int));
        }
        k = k + 1;
    }
    // stable sort by decreasing count
    let ghost ub = ints(used@);
    proof {
        lemma_used_bins(s, BINS9 as int);
    }
    let mut sorted: Vec<usize> = Vec::new();
    let mut t: usize = 0;
    while t < used.len()
        invariant
            count@.len() == BINS9,
            forall|j: int| 0 <= j < BINS9 ==> #[trigger] count@[j] == bin9_count(s, j),
            ub == ints(used@),
            forall|j: int| 0 <= j < ub.len() ==> 0 <= #[trigger] ub[j] < BINS9,
            t <= used@.len(),
            ints(sorted@) == sort_by_count(s, ub.take(t as int)),
            forall|j: int| 0 <= j < sorted@.len() ==> #[trigger] sorted@[j] < BINS9,
        decreases used.len() - t,
    {
        let e = used[t];
        let ghost r = ints(sorted@);
        proof {
            assert(ub.take(t as int + 1).drop_last() =~= ub.take(t as int));
            assert(ub.take(t as int + 1).last() == e as int);
            assert(ub[t as int] == e as int);
            lemma_count_slot(s, r, e as int, 0);
        }
        let mut p: usize = 0;
        while p < sorted.len() && count[sorted[p]] >= count[e]
            invariant
                count@.len() == BINS9,
                forall|j: int| 0 <= j < BINS9 ==> #[trigger] count@[j] == bin9_count(s, j),
                r == ints(sorted@),
                forall|j: int| 0 <= j < sorted@.len() ==> #[trigger] sorted@[j] < BINS9,
                e < BINS9,
                p <= sorted@.len(),
                count_slot(s, r, e as int, 0) == count_slot(s, r, e as int, p as int),
            decreases sorted.len() - p,
        {
            assert(r[p as int] == sorted@[p as int]);
            p = p + 1;
        }
        proof {
            if p < sorted@.len() {
                assert(r[p as int] == sorted@[p as int]);
            }
        }
        let ghost so = sorted@;
        sorted.insert(p, e);
        assert(ints(sorted@) =~= r.insert(p as int, e as int)) by {
            assert forall|j: int| 0 <= j < sorted@.len() implies ints(sorted@)[j] == r.insert(
                p as int,
                e as int,
            )[j] by {
                if j < p {
                    assert(sorted@[j] == so[j]);
                } else if j > p {
                    assert(sorted@[j] == so[j - 1]);
                }
            }
        }
        assert forall|j: int| 0 <= j < sorted@.len() implies #[trigger] sorted@[j] < BINS9 by {
            if j < p {
                assert(sorted@[j] == so[j]);
            } else if j > p {
                assert(sorted@[j] == so[j - 1]);
            }
        }
        t = t + 1;
    }
    assert(ub.take(t as int) =~= ub);
    // keep the prefix of bins with a share of at least 6 %
    let ghost sv = ints(sorted@);
    let total = rgb.len() as u128;
    let mut out: Vec<(usize, usize, [u64; 3])> = Vec::new();
    let mut q: usize = 0;
    proof {
        lemma_sort_by_count(s, ub);
        lemma_share_prefix(s, sv, 0);
    }
    while q < sorted.len() && 100 * (count[sorted[q]] as u128) >= 6 * total
        invariant
            count@.len() == BINS9 && s0@.len() == BINS9 && s1@.len() == BINS9 && s2@.len() == BINS9,
            forall|k: int|
                0 <= k < BINS9 ==> #[trigger] count@[k] == bin9_count(s, k) && s0@[k] == bin9_sum(s, k, 0)
                    && s1@[k] == bin9_sum(s, k, 1) && s2@[k] == bin9_sum(s, k, 2),
            forall|j: int| 0 <= j < sorted@.len() ==> #[trigger] sorted@[j] < BINS9,
            sv == ints(sorted@),
            total == s.len(),
            total <= 0x100_0000_0000_0000,
            s == rgb@,
            q <= sorted@.len(),
            share_prefix(s, sv, 0) == share_prefix(s, sv, q as int),
            out@.len() == q,
            forall|i: int|
                0 <= i < q ==> (#[trigger] out@[i]).0 == sv[i] && out@[i].1 == bin9_count(s, out@[i].0 as int)
                    && out@[i].2[0] == bin9_sum(s, out@[i].0 as int, 0) && out@[i].2[1] == bin9_sum(
                    s,
                    out@[i].0 as int,
                    1,
                ) && out@[i].2[2] == bin9_sum(s, out@[i].0 as int, 2),
        decreases sorted.len() - q,
    {
        let b = sorted[q];
        assert(sv[q as int] == b as int);
        let item: (usize, usize, [u64; 3]) = (b, count[b], [s0[b], s1[b], s2[b]]);
        let ghost o0 = out@;
        out.push(item);
        assert forall|i: int|
            0 <= i < q + 1 implies (#[trigger] out@[i]).0 == sv[i] && out@[i].1 == bin9_count(
                s,
                out@[i].0 as int,
            ) && out@[i].2[0] == bin9_sum(s, out@[i].0 as int, 0) && out@[i].2[1] == bin9_sum(
                s,
                out@[i].0 as int,
                1,
            ) && out@[i].2[2] == bin9_sum(s, out@[i].0 as int, 2) by {
            if i < q {
                assert(out@[i] == o0[i]);
            } else {
                assert(out@[i] == item);
            }
        }
        q = q + 1;
    }
    proof {
        if q < sorted@.len() {
            assert(sv[q as int] == sorted@[q as int]);
        }
        assert(share_prefix(s, sv, q as int) == q);
    }
    out
}

} // verus!

verus! {

// ---------------------------------------------------------------------------
// Median colour of a pixel set
// ---------------------------------------------------------------------------

/// Twice the median of a non-empty list: twice the middle entry for an odd
/// count, the sum of the two middle entries for an even one.
pub open spec fn median2(s: Seq<int>) -> int {
    let t = sort_ints(s);
    if s.len() % 2 == 1 {
        2 * t[s.len() as int / 2]
    } else {
        t[s.len() as int / 2 - 1] + t[s.len() as int / 2]
    }
}

/// Channel `ch` of the pixels `(y, x)` of a `w`-wide image.
pub open spec fn channel_values(rgb: Seq<[u8; 3]>, w: int, px: Seq<(u32, u32)>, ch: int) -> Seq<int> {
    Seq::new(px.len(), |k: int| rgb[px[k].0 * w + px[k].1][ch] as int)
}

/// Twice the per-channel median colour of the given pixels.
#[verifier::spinoff_prover]
#[verifier::rlimit(50)]
pub fn median_colour2(rgb: &[[u8; 3]], w: usize, px: &Vec<(u32, u32)>) -> (r: [i64; 3])
    requires
        px@.len() > 0,
        forall|k: int|
            0 <= k < px@.len() ==> (#[trigger] px@[k]).0 * w + px@[k].1 < rgb@.len(),
    ensures
        forall|ch: int| 0 <= ch < 3 ==> #[trigger] r[ch] == median2(channel_values(rgb@, w as int, px@, ch)),
{
    let mut out: [i64; 3] = [0, 0, 0];
    let rl = rgb.len();
    let mut ch: usize = 0;
    while ch < 3
        invariant
            rl == rgb@.len(),
            ch <= 3,
            px@.len() > 0,
            forall|k: int|
                0 <= k < px@.len() ==> (#[trigger] px@[k]).0 * w + px@[k].1 < rgb@.len(),
            forall|c: int| 0 <= c < ch ==> #[trigger] out[c] == median2(channel_values(rgb@, w as int, px@, c)),
        decreases 3 - ch,
    {
        let mut v: Vec<i64> = Vec::new();
        let mut k: usize = 0;
        while k < px.len()
            invariant
                rl == rgb@.len(),
                ch < 3,
                k <= px@.len(),
                forall|j: int|
                    0 <= j < px@.len() ==> (#[trigger] px@[j]).0 * w + px@[j].1 < rgb@.len(),
                i64s(v@) == channel_values(rgb@, w as int, px@, ch as int).take(k as int),
            decreases px.len() - k,
        {
            let (y, x) = px[k];
            assert(px@[k as int].0 * w + px@[k as int].1 < rgb@.len());
            assert((y as int) * (w as int) <= (y as int) * (w as int) + (x as int));
            let idx = (y as usize) * w + (x as usize);
            let val = rgb[idx][ch] as i64;
            let ghost v0 = v@;
            v.push(val);
            proof {
                lemma_i64s_push(v0, val);
                assert(channel_values(rgb@, w as int, px@, ch as int).take(k as int + 1) =~= channel_values(
                    rgb@,
                    w as int,
                    px@,
                    ch as int,
                ).take(k as int).push(val as int));
            }
            k = k + 1;
        }
        assert(i64s(v@) =~= channel_values(rgb@, w as int, px@, ch as int));
        let sorted = sort_i64(&v);
        let n = sorted.len();
        proof {
            lemma_sort_ints_len(i64s(v@));
            lemma_sorted_member(i64s(v@), n as int / 2);
        }
        assert(0 <= sorted@[(n / 2) as int] <= 255) by {
            let j = choose|j: int| 0 <= j < v@.len() && i64s(v@)[j] == sort_ints(i64s(v@))[n as int / 2];
            assert(i64s(v@)[j] == channel_values(rgb@, w as int, px@, ch as int)[j]);
        }
        let m = if n % 2 == 1 {
            2 * sorted[n / 2]
        } else {
            proof {
                lemma_sorted_member(i64s(v@), n as int / 2 - 1);
            }
            assert(0 <= sorted@[(n / 2 - 1) as int] <= 255) by {
                let j = choose|j: int|
                    0 <= j < v@.len() && i64s(v@)[j] == sort_ints(i64s(v@))[n as int / 2 - 1];
                assert(i64s(v@)[j] == channel_values(rgb@, w as int, px@, ch as int)[j]);
            }
            sorted[n / 2 - 1] + sorted[n / 2]
        };
        let ghost o0 = out;
        out[ch] = m;
        assert forall|c: int| 0 <= c < ch + 1 implies #[trigger] out[c] == median2(
            channel_values(rgb@, w as int, px@, c),
        ) by {
            if c < ch {
                assert(out[c] == o0[c]);
            }
        }
        ch = ch + 1;
    }
    out
}

} // verus!

verus! {

// ---------------------------------------------------------------------------
// The packed positions
// ---------------------------------------------------------------------------

/// A box `(x0, y0, x1, y1)` as integers.
pub open spec fn box_int(b: Option<(i64, i64, i64, i64)>) -> Option<(int, int, int, int)> {
    match b {
        Some(t) => Some((t.0 as int, t.1 as int, t.2 as int, t.3 as int)),
        None => None,
    }
}

/// (caption shown, caption h, caption v, image present, image h, image v)
/// from the caption box `tb` and the icon box `ib` of a `w` x `h` image: the
/// icon by its centre in the image, the caption by its margins beside the
/// icon and by its centre vertically.
pub open spec fn positions3_spec(w: int, h: int, tb: Option<(int, int, int, int)>, ib: Option<(int, int, int, int)>) -> (
    bool,
    i32,
    i32,
    bool,
    i32,
    i32,
) {
    let img_h = match ib {
        Some(b) => h_class_spec(b.0 + b.2, 2 * w),
        None => P_NONE,
    };
    let img_v = match ib {
        Some(b) => v_class_spec(b.1 + b.3, 2 * h),
        None => P_NONE,
    };
    match tb {
        None => (false, P_NONE, P_NONE, ib is Some, img_h, img_v),
        Some(t) => (
            true,
            caption_h_spec(t.0, t.2, w, ib, img_h, img_v),
            v_class_spec(t.1 + t.3, 2 * h),
            ib is Some,
            img_h,
            img_v,
        ),
    }
}

/// Boxes with coordinates that fit in `u32`.
pub open spec fn box_ok(b: Option<(i64, i64, i64, i64)>) -> bool {
    b matches Some(t) ==> 0 <= t.0 <= u32::MAX && 0 <= t.1 <= u32::MAX && 0 <= t.2 <= u32::MAX && 0 <= t.3
        <= u32::MAX
}

/// The six position fields of the v3 result.
pub fn positions3(
    w: usize,
    h: usize,
    text_box: Option<(i64, i64, i64, i64)>,
    icon_box: Option<(i64, i64, i64, i64)>,
) -> (r: (bool, i32, i32, bool, i32, i32))
    requires
        0 < w <= 0x1_0000_0000,
        0 < h <= 0x1_0000_0000,
        box_ok(text_box),
        box_ok(icon_box),
    ensures
        r == positions3_spec(w as int, h as int, box_int(text_box), box_int(icon_box)),
{
    let (img_present, img_h, img_v) = match icon_box {
        Some(b) => (true, h_class(b.0, b.2, w as i64), v_class(b.1, b.3, h as i64)),
        None => (false, P_NONE, P_NONE),
    };
    match text_box {
        None => (false, P_NONE, P_NONE, img_present, img_h, img_v),
        Some(t) => {
            let cap_h = caption_h(t.0, t.2, w, icon_box, img_h, img_v);
            let cap_v = v_class(t.1, t.3, h as i64);
            (true, cap_h, cap_v, img_present, img_h, img_v)
        },
    }
}

} // verus!

verus! {

/// An icon found without an assigned image is taken only when it stands
/// apart from the caption box (at least one pixel of gap on some side) or
/// there are more components than the caption has glyphs; with an image it
/// is always taken.
pub open spec fn icon_accepted_spec(
    image: bool,
    ib: (int, int, int, int),
    tb: Option<(int, int, int, int)>,
    n_comps: int,
    glyphs: int,
) -> bool {
    image || n_comps > glyphs || match tb {
        Some(t) => ib.0 > t.2 + 1 || t.0 > ib.2 + 1 || ib.1 > t.3 + 1 || t.1 > ib.3 + 1,
        None => true,
    }
}

pub fn icon_accepted(
    image_hint: bool,
    ib: (i64, i64, i64, i64),
    text_box: Option<(i64, i64, i64, i64)>,
    n_comps: usize,
    glyphs: usize,
) -> (r: bool)
    requires
        0 <= ib.0 <= u32::MAX && 0 <= ib.1 <= u32::MAX && 0 <= ib.2 <= u32::MAX && 0 <= ib.3 <= u32::MAX,
        box_ok(text_box),
    ensures
        r == icon_accepted_spec(
            image_hint,
            (ib.0 as int, ib.1 as int, ib.2 as int, ib.3 as int),
            box_int(text_box),
            n_comps as int,
            glyphs as int,
        ),
{
    if image_hint || n_comps > glyphs {
        return true;
    }
    match text_box {
        Some(t) => ib.0 > t.2 + 1 || t.0 > ib.2 + 1 || ib.1 > t.3 + 1 || t.1 > ib.3 + 1,
        None => true,
    }
}

} // verus!

verus! {

/// Bin `a` comes before bin `b`: more pixels, or as many and a lower bin.
pub open spec fn bin_before(s: Seq<[u8; 3]>, a: int, b: int) -> bool {
    bin9_count(s, a) > bin9_count(s, b) || (bin9_count(s, a) == bin9_count(s, b) && a < b)
}

/// Every bin of `q` comes before each later one.
pub open spec fn bins_ordered(s: Seq<[u8; 3]>, q: Seq<int>) -> bool {
    forall|a: int, b: int| 0 <= a < b < q.len() ==> bin_before(s, #[trigger] q[a], #[trigger] q[b])
}

proof fn lemma_used_bins_facts(s: Seq<[u8; 3]>, n: int)
    requires
        0 <= n,
    ensures
        forall|a: int, b: int|
            0 <= a < b < used_bins(s, n).len() ==> #[trigger] used_bins(s, n)[a] < #[trigger] used_bins(s, n)[b],
        forall|k: int| 0 <= k < used_bins(s, n).len() ==> 0 <= #[trigger] used_bins(s, n)[k] < n,
        forall|k: int|
            0 <= k < used_bins(s, n).len() ==> bin9_count(s, #[trigger] used_bins(s, n)[k]) > 0,
        forall|b: int| 0 <= b < n && bin9_count(s, b) > 0 ==> #[trigger] used_bins(s, n).contains(b),
    decreases n,
{
    if n > 0 {
        lemma_used_bins_facts(s, n - 1);
        let r = used_bins(s, n - 1);
        let u = used_bins(s, n);
        if bin9_count(s, n - 1) > 0 {
            assert(u == r.push(n - 1));
            assert forall|a: int, b: int| 0 <= a < b < u.len() implies #[trigger] u[a] < #[trigger] u[b] by {
                assert(u[a] == r[a]);
                if b < r.len() {
                    assert(u[b] == r[b]);
                }
            }
            assert forall|k: int| 0 <= k < u.len() implies 0 <= #[trigger] u[k] < n && bin9_count(s, u[k]) > 0 by {
                if k < r.len() {
                    assert(u[k] == r[k]);
                }
            }
            assert forall|b: int| 0 <= b < n && bin9_count(s, b) > 0 implies #[trigger] u.contains(b) by {
                if b < n - 1 {
                    assert(r.contains(b));
                    let k = choose|k: int| 0 <= k < r.len() && r[k] == b;
                    assert(u[k] == r[k]);
                } else {
                    assert(u[u.len() - 1] == b);
                }
            }
        }
    }
}

proof fn lemma_count_slot_facts(s: Seq<[u8; 3]>, r: Seq<int>, e: int, k: int)
    requires
        0 <= k <= r.len(),
    ensures
        forall|x: int| k <= x < count_slot(s, r, e, k) ==> bin9_count(s, #[trigger] r[x]) >= bin9_count(s, e),
        count_slot(s, r, e, k) < r.len() ==> bin9_count(s, r[count_slot(s, r, e, k)]) < bin9_count(s, e),
        k <= count_slot(s, r, e, k) <= r.len(),
    decreases r.len() - k,
{
    if k < r.len() && bin9_count(s, r[k]) >= bin9_count(s, e) {
        lemma_count_slot_facts(s, r, e, k + 1);
    }
}

/// Sorting bins given in ascending order keeps every bin and orders them by
/// `bin_before`.
proof fn lemma_sort_by_count_ordered(s: Seq<[u8; 3]>, bins: Seq<int>)
    requires
        forall|a: int, b: int| 0 <= a < b < bins.len() ==> #[trigger] bins[a] < #[trigger] bins[b],
    ensures
        bins_ordered(s, sort_by_count(s, bins)),
        sort_by_count(s, bins).len() == bins.len(),
        forall|k: int| 0 <= k < bins.len() ==> bins.contains(#[trigger] sort_by_count(s, bins)[k]),
        forall|k: int| 0 <= k < bins.len() ==> sort_by_count(s, bins).contains(#[trigger] bins[k]),
    decreases bins.len(),
{
    lemma_sort_by_count(s, bins);
    if bins.len() > 0 {
        let d = bins.drop_last();
        let e = bins.last();
        assert forall|a: int, b: int| 0 <= a < b < d.len() implies #[trigger] d[a] < #[trigger] d[b] by {
            assert(d[a] == bins[a] && d[b] == bins[b]);
        }
        lemma_sort_by_count_ordered(s, d);
        let r = sort_by_count(s, d);
        lemma_count_slot_facts(s, r, e, 0);
        let p = count_slot(s, r, e, 0);
        let t = sort_by_count(s, bins);
        assert(t == r.insert(p, e));
        // every earlier bin is below e
        assert forall|x: int| 0 <= x < r.len() implies #[trigger] r[x] < e by {
            assert(d.contains(r[x]));
            let j = choose|j: int| 0 <= j < d.len() && d[j] == r[x];
            assert(bins[j] < bins[bins.len() - 1]);
        }
        assert forall|a: int, b: int| 0 <= a < b < t.len() implies bin_before(s, #[trigger] t[a], #[trigger] t[b]) by {
            if b < p {
                assert(t[a] == r[a] && t[b] == r[b]);
            } else if b == p {
                assert(t[a] == r[a] && t[b] == e);
                assert(r[a] < e);
            } else if a == p {
                assert(t[a] == e && t[b] == r[b - 1]);
                if b - 1 > p {
                    assert(bin_before(s, r[p], r[b - 1]));
                }
            } else if a < p {
                assert(t[a] == r[a] && t[b] == r[b - 1]);
            } else {
                assert(t[a] == r[a - 1] && t[b] == r[b - 1]);
            }
        }
        assert forall|k: int| 0 <= k < bins.len() implies t.contains(#[trigger] bins[k]) by {
            if k < bins.len() - 1 {
                assert(d[k] == bins[k]);
                assert(r.contains(d[k]));
                let x = choose|x: int| 0 <= x < r.len() && r[x] == d[k];
                if x < p {
                    assert(t[x] == bins[k]);
                } else {
                    assert(t[x + 1] == bins[k]);
                }
            } else {
                assert(t[p] == bins[k]);
            }
        }
    }
}

proof fn lemma_share_prefix_facts(s: Seq<[u8; 3]>, q: Seq<int>, k: int)
    requires
        0 <= k <= q.len(),
    ensures
        k <= share_prefix(s, q, k) <= q.len(),
        forall|x: int| k <= x < share_prefix(s, q, k) ==> 100 * bin9_count(s, #[trigger] q[x]) >= 6 * s.len(),
        share_prefix(s, q, k) < q.len() ==> 100 * bin9_count(s, q[share_prefix(s, q, k)]) < 6 * s.len(),
    decreases q.len() - k,
{
    if k < q.len() && 100 * bin9_count(s, q[k]) >= 6 * s.len() {
        lemma_share_prefix_facts(s, q, k + 1);
    }
}

/// The dominant bins are exactly the bins with pixels that hold at least
/// 6 % of them, ordered by decreasing count, equal counts by lower bin.
pub proof fn lemma_dominant_bins(s: Seq<[u8; 3]>)
    ensures
        bins_ordered(s, dominant_bins_spec(s)),
        forall|k: int|
            0 <= k < dominant_bins_spec(s).len() ==> 0 <= #[trigger] dominant_bins_spec(s)[k] < BINS9
                && bin9_count(s, dominant_bins_spec(s)[k]) > 0 && 100 * bin9_count(
                s,
                dominant_bins_spec(s)[k],
            ) >= 6 * s.len(),
        forall|b: int|
            0 <= b < BINS9 && bin9_count(s, b) > 0 && 100 * bin9_count(s, b) >= 6 * s.len()
                ==> #[trigger] dominant_bins_spec(s).contains(b),
{
    let u = used_bins(s, BINS9 as int);
    lemma_used_bins_facts(s, BINS9 as int);
    lemma_sort_by_count_ordered(s, u);
    let q = sort_by_count(s, u);
    lemma_share_prefix_facts(s, q, 0);
    let n = share_prefix(s, q, 0);
    let d = q.take(n);
    assert(d == dominant_bins_spec(s));
    assert forall|a: int, b: int| 0 <= a < b < d.len() implies bin_before(s, #[trigger] d[a], #[trigger] d[b]) by {
        assert(d[a] == q[a] && d[b] == q[b]);
    }
    assert forall|k: int| 0 <= k < d.len() implies 0 <= #[trigger] d[k] < BINS9 && bin9_count(s, d[k]) > 0
        && 100 * bin9_count(s, d[k]) >= 6 * s.len() by {
        assert(d[k] == q[k]);
        assert(u.contains(q[k]));
        let j = choose|j: int| 0 <= j < u.len() && u[j] == q[k];
        assert(0 <= u[j] < BINS9 && bin9_count(s, u[j]) > 0);
    }
    assert forall|b: int|
        0 <= b < BINS9 && bin9_count(s, b) > 0 && 100 * bin9_count(s, b) >= 6 * s.len() implies #[trigger] d.contains(
        b,
    ) by {
        assert(u.contains(b));
        let j = choose|j: int| 0 <= j < u.len() && u[j] == b;
        assert(q.contains(u[j]));
        let x = choose|x: int| 0 <= x < q.len() && q[x] == b;
        if x >= n {
            if x > n {
                assert(bin_before(s, q[n], q[x]));
            }
            assert(false);
        }
        assert(d[x] == b);
    }
}

} // verus!

verus! {

// ---------------------------------------------------------------------------
// Law: the caption is placed in the area beside the icon
// ---------------------------------------------------------------------------

/// The caption class beside an icon centred vertically at a side is its
/// class in the free area alone: right of a left icon the area starts one
/// pixel right of the icon (everything shifts by that much), left of a right
/// icon it ends at the icon's left edge less one; elsewhere the whole width
/// counts.
pub proof fn lemma_caption_h_beside_icon(
    tx0: int,
    tx1: int,
    w: int,
    ic: (int, int, int, int),
    img_h: i32,
    img_v: i32,
)
    ensures
        img_v == P_CENTER && img_h == P_LEFT ==> caption_h_spec(tx0, tx1, w, Some(ic), img_h, img_v)
            == caption_h_spec(tx0 - (ic.2 + 1), tx1 - (ic.2 + 1), w - (ic.2 + 1), None, img_h, img_v),
        img_v == P_CENTER && img_h == P_RIGHT ==> caption_h_spec(tx0, tx1, w, Some(ic), img_h, img_v)
            == caption_h_spec(tx0, tx1, ic.0 - 1, None, img_h, img_v),
        !(img_v == P_CENTER && (img_h == P_LEFT || img_h == P_RIGHT)) ==> caption_h_spec(
            tx0,
            tx1,
            w,
            Some(ic),
            img_h,
            img_v,
        ) == caption_h_spec(tx0, tx1, w, None, img_h, img_v),
{
}

/// Without an icon the caption `[tx0, tx1]` of a `w` wide image is judged by
/// its margins `tx0` (left) and `w - tx1` (right): centre when they differ
/// by at most 18 % of the width, else the side of the smaller margin; and
/// mirroring the caption mirrors the class.
pub proof fn lemma_caption_h_margins(tx0: int, tx1: int, w: int, img_h: i32, img_v: i32)
    ensures
        ({
            let m0 = tx0;
            let m1 = w - tx1;
            let diff = if m0 >= m1 { m0 - m1 } else { m1 - m0 };
            let width = if w >= 1 { w } else { 1 };
            let r = caption_h_spec(tx0, tx1, w, None, img_h, img_v);
            &&& r == P_CENTER <==> 100 * diff <= 18 * width
            &&& r == P_LEFT <==> 100 * diff > 18 * width && m0 < m1
            &&& r == P_RIGHT <==> 100 * diff > 18 * width && m0 > m1
        }),
        caption_h_spec(w - tx1, w - tx0, w, None, img_h, img_v) == (match caption_h_spec(
            tx0,
            tx1,
            w,
            None,
            img_h,
            img_v,
        ) {
            1i32 => P_RIGHT,
            3i32 => P_LEFT,
            r => r,
        }),
{
}

} // verus!
