//! 8-connectivity on a pixel mask, and the flood fill that collects one
//! connected region.
//!
//! Pixels are numbered row by row: pixel `p` of a `w`-wide grid sits in row
//! `p / w`, column `p % w`.
use vstd::prelude::*;

verus! {

pub open spec fn in_grid(w: int, h: int, p: int) -> bool {
    0 <= p < w * h
}

/// `p` and `q` touch, sideways or diagonally (or are the same pixel).
pub open spec fn adjacent(w: int, h: int, p: int, q: int) -> bool {
    &&& in_grid(w, h, p)
    &&& in_grid(w, h, q)
    &&& -1 <= p / w - q / w <= 1
    &&& -1 <= p % w - q % w <= 1
}

/// A chain of set pixels, each touching the next.
pub open spec fn is_path(m: Seq<bool>, w: int, h: int, path: Seq<int>) -> bool {
    &&& path.len() > 0
    &&& forall|k: int| 0 <= k < path.len() ==> in_grid(w, h, #[trigger] path[k]) && m[path[k]]
    &&& forall|k: int| 0 <= k < path.len() - 1 ==> adjacent(w, h, #[trigger] path[k], path[k + 1])
}

/// `a` and `b` lie in the same 8-connected region of set pixels.
pub open spec fn connected(m: Seq<bool>, w: int, h: int, a: int, b: int) -> bool {
    exists|path: Seq<int>| #[trigger] is_path(m, w, h, path) && path[0] == a && path.last() == b
}

/// Every set pixel that touches a marked pixel is marked too.
pub open spec fn closed(m: Seq<bool>, w: int, h: int, seen: Seq<bool>) -> bool {
    forall|p: int, q: int|
        #![trigger seen[p], adjacent(w, h, p, q)]
        0 <= p < w * h && seen[p] && adjacent(w, h, p, q) && m[q] ==> seen[q]
}

/// Only set pixels are marked.
pub open spec fn marks_set_only(m: Seq<bool>, w: int, h: int, seen: Seq<bool>) -> bool {
    forall|q: int| 0 <= q < w * h && #[trigger] seen[q] ==> m[q]
}

pub proof fn lemma_connected_refl(m: Seq<bool>, w: int, h: int, a: int)
    requires
        in_grid(w, h, a),
        m[a],
    ensures
        connected(m, w, h, a, a),
{
    let path = seq![a];
    assert(is_path(m, w, h, path));
}

pub proof fn lemma_connected_step(m: Seq<bool>, w: int, h: int, a: int, b: int, c: int)
    requires
        connected(m, w, h, a, b),
        adjacent(w, h, b, c),
        m[c],
    ensures
        connected(m, w, h, a, c),
{
    let path = choose|path: Seq<int>| #[trigger] is_path(m, w, h, path) && path[0] == a && path.last() == b;
    let p2 = path.push(c);
    assert(p2[p2.len() - 2] == b);
    assert(is_path(m, w, h, p2));
}

pub proof fn lemma_connected_sym(m: Seq<bool>, w: int, h: int, a: int, b: int)
    requires
        w > 0,
        connected(m, w, h, a, b),
    ensures
        connected(m, w, h, b, a),
{
    let path = choose|path: Seq<int>| #[trigger] is_path(m, w, h, path) && path[0] == a && path.last() == b;
    let r = path.reverse();
    assert forall|k: int| 0 <= k < r.len() - 1 implies adjacent(w, h, #[trigger] r[k], r[k + 1]) by {
        let j = path.len() - 2 - k;
        assert(adjacent(w, h, path[j], path[j + 1]));
    }
    assert(is_path(m, w, h, r));
}

pub proof fn lemma_connected_trans(m: Seq<bool>, w: int, h: int, a: int, b: int, c: int)
    requires
        connected(m, w, h, a, b),
        connected(m, w, h, b, c),
    ensures
        connected(m, w, h, a, c),
{
    let p1 = choose|path: Seq<int>| #[trigger] is_path(m, w, h, path) && path[0] == a && path.last() == b;
    let p2 = choose|path: Seq<int>| #[trigger] is_path(m, w, h, path) && path[0] == b && path.last() == c;
    let p = p1 + p2.drop_first();
    assert forall|k: int| 0 <= k < p.len() - 1 implies adjacent(w, h, #[trigger] p[k], p[k + 1]) by {
        if k < p1.len() - 1 {
            assert(adjacent(w, h, p1[k], p1[k + 1]));
        } else if k == p1.len() - 1 {
            assert(adjacent(w, h, p2[0], p2[1]));
        } else {
            let j = k - p1.len() + 1;
            assert(adjacent(w, h, p2[j], p2[j + 1]));
        }
    }
    assert forall|k: int| 0 <= k < p.len() implies in_grid(w, h, #[trigger] p[k]) && m[p[k]] by {
        if k >= p1.len() {
            assert(p[k] == p2[k - p1.len() + 1]);
        }
    }
    assert(is_path(m, w, h, p));
}

/// A path that starts in a closed set of marked pixels stays in it.
pub proof fn lemma_closed_path(m: Seq<bool>, w: int, h: int, seen: Seq<bool>, path: Seq<int>)
    requires
        closed(m, w, h, seen),
        is_path(m, w, h, path),
        seen[path[0]],
    ensures
        forall|k: int| 0 <= k < path.len() ==> seen[#[trigger] path[k]],
    decreases path.len(),
{
    if path.len() > 1 {
        let pre = path.drop_last();
        assert(is_path(m, w, h, pre));
        lemma_closed_path(m, w, h, seen, pre);
        let n = path.len() - 1;
        assert(adjacent(w, h, path[n - 1], path[n]));
        assert(pre[n - 1] == path[n - 1]);
        assert(seen[path[n - 1]]);
        assert forall|k: int| 0 <= k < path.len() implies seen[#[trigger] path[k]] by {
            if k < n {
                assert(pre[k] == path[k]);
            }
        }
    }
}

/// Marked pixels reach only marked pixels.
pub proof fn lemma_closed_connected(m: Seq<bool>, w: int, h: int, seen: Seq<bool>, a: int, b: int)
    requires
        closed(m, w, h, seen),
        seen[a],
        connected(m, w, h, a, b),
    ensures
        seen[b],
{
    let path = choose|path: Seq<int>| #[trigger] is_path(m, w, h, path) && path[0] == a && path.last() == b;
    lemma_closed_path(m, w, h, seen, path);
    assert(seen[path[path.len() - 1]]);
}

/// Number of unmarked pixels.
pub open spec fn unmarked(seen: Seq<bool>) -> nat
    decreases seen.len(),
{
    if seen.len() == 0 {
        0
    } else {
        unmarked(seen.drop_last()) + (if seen.last() { 0nat } else { 1 })
    }
}

proof fn lemma_mark_one(seen: Seq<bool>, i: int)
    requires
        0 <= i < seen.len(),
        !seen[i],
    ensures
        unmarked(seen.update(i, true)) + 1 == unmarked(seen),
    decreases seen.len(),
{
    let u = seen.update(i, true);
    if i < seen.len() - 1 {
        assert(u.drop_last() =~= seen.drop_last().update(i, true));
        lemma_mark_one(seen.drop_last(), i);
    } else {
        assert(u.drop_last() =~= seen.drop_last());
    }
}

/// Row and column of pixel `q` are inside the grid.
pub proof fn lemma_grid_pos(w: int, h: int, q: int)
    requires
        w > 0,
        0 <= q < w * h,
    ensures
        0 <= q / w < h,
        0 <= q % w < w,
        q == (q / w) * w + q % w,
{
    vstd::arithmetic::div_mod::lemma_fundamental_div_mod(q, w);
    let d = q / w;
    let r = q % w;
    assert(0 <= d < h) by (nonlinear_arith)
        requires
            q == w * d + r,
            0 <= r < w,
            0 <= q < w * h,
            w > 0,
    ;
    assert(w * d == d * w) by (nonlinear_arith);
}

/// Both ends of a connection are set pixels of the grid.
pub proof fn lemma_connected_ends(m: Seq<bool>, w: int, h: int, a: int, b: int)
    requires
        connected(m, w, h, a, b),
    ensures
        in_grid(w, h, a) && m[a],
        in_grid(w, h, b) && m[b],
{
    let path = choose|path: Seq<int>| #[trigger] is_path(m, w, h, path) && path[0] == a && path.last() == b;
    assert(in_grid(w, h, path[0]) && m[path[0]]);
    assert(in_grid(w, h, path[path.len() - 1]) && m[path[path.len() - 1]]);
}

/// Collect the region of set pixels that contains `s`, marking each pixel
/// of it in `seen`. The region is returned as pixel numbers in the order in
/// which a depth-first walk (stack, neighbours row by row) takes them.
#[verifier::spinoff_prover]
#[verifier::rlimit(50)]
pub fn flood(m: &[bool], w: usize, h: usize, seen: &mut Vec<bool>, s: usize) -> (px: Vec<usize>)
    requires
        w > 0,
        m@.len() == w * h,
        old(seen)@.len() == w * h,
        s < w * h,
        m@[s as int],
        !old(seen)@[s as int],
        closed(m@, w as int, h as int, old(seen)@),
        marks_set_only(m@, w as int, h as int, old(seen)@),
    ensures
        final(seen)@.len() == w * h,
        forall|q: int|
            0 <= q < w * h ==> #[trigger] final(seen)@[q] == (old(seen)@[q] || px@.contains(q as usize)),
        px@.no_duplicates(),
        px@.len() >= 1,
        px@[0] == s,
        forall|q: int| 0 <= q < w * h ==> (px@.contains(q as usize) <==> connected(
            m@,
            w as int,
            h as int,
            s as int,
            q,
        )),
        forall|k: int| 0 <= k < px@.len() ==> #[trigger] px@[k] < w * h,
        closed(m@, w as int, h as int, final(seen)@),
        marks_set_only(m@, w as int, h as int, final(seen)@),
{
    let ghost old_seen = seen@;
    let ghost mm = m@;
    let ghost wi = w as int;
    let ghost hi = h as int;
    let mut px: Vec<usize> = Vec::new();
    let mut stack: Vec<usize> = Vec::new();
    proof {
        lemma_mark_one(seen@, s as int);
        lemma_connected_refl(mm, wi, hi, s as int);
    }
    let total = m.len();
    seen.set(s, true);
    stack.push(s);
    assert(stack@ =~= seq![s]);
    assert forall|q: int| 0 <= q < w * h implies #[trigger] seen@[q] == (old_seen[q] || px@.contains(
        q as usize,
    ) || stack@.contains(q as usize)) by {
        if q == s {
            assert(stack@[0] == s);
        }
    }
    while stack.len() > 0
        invariant
            w > 0,
            total == w * h,
            mm == m@,
            wi == w,
            hi == h,
            m@.len() == w * h,
            seen@.len() == w * h,
            old_seen.len() == w * h,
            closed(mm, wi, hi, old_seen),
            marks_set_only(mm, wi, hi, old_seen),
            forall|q: int|
                0 <= q < w * h ==> #[trigger] seen@[q] == (old_seen[q] || px@.contains(q as usize)
                    || stack@.contains(q as usize)),
            px@.no_duplicates(),
            stack@.no_duplicates(),
            forall|q: usize| !(#[trigger] px@.contains(q) && stack@.contains(q)),
            forall|k: int| 0 <= k < px@.len() ==> #[trigger] px@[k] < w * h,
            forall|k: int| 0 <= k < stack@.len() ==> #[trigger] stack@[k] < w * h,
            forall|q: usize| #[trigger] px@.contains(q) ==> !old_seen[q as int] && connected(
                mm,
                wi,
                hi,
                s as int,
                q as int,
            ),
            forall|q: usize| #[trigger] stack@.contains(q) ==> !old_seen[q as int] && connected(
                mm,
                wi,
                hi,
                s as int,
                q as int,
            ),
            forall|p: int, q: int|
                #![trigger px@.contains(p as usize), adjacent(wi, hi, p, q)]
                0 <= p < w * h && px@.contains(p as usize) && adjacent(wi, hi, p, q) && mm[q]
                    ==> seen@[q],
            px@.len() == 0 ==> stack@ == seq![s],
            px@.len() > 0 ==> px@[0] == s,
        decreases 2 * unmarked(seen@) + stack@.len(),
    {
        let ghost old_px = px@;
        let ghost old_stack = stack@;
        let p = stack.pop().unwrap();
        assert(old_stack == stack@.push(p));
        assert(old_stack.contains(p));
        assert(!stack@.contains(p)) by {
            if stack@.contains(p) {
                let k = choose|k: int| 0 <= k < stack@.len() && stack@[k] == p;
                assert(old_stack[k] == p && old_stack[old_stack.len() - 1] == p);
            }
        }
        assert(!old_px.contains(p));
        px.push(p);
        assert(px@ == old_px.push(p));
        assert forall|q: usize| px@.contains(q) <==> (old_px.contains(q) || q == p) by {
            if px@.contains(q) && q != p {
                let k = choose|k: int| 0 <= k < px@.len() && px@[k] == q;
                assert(old_px[k] == q);
            }
            if old_px.contains(q) {
                let k = choose|k: int| 0 <= k < old_px.len() && old_px[k] == q;
                assert(px@[k] == q);
            }
            if q == p {
                assert(px@[px@.len() - 1] == p);
            }
        }
        assert forall|q: usize| old_stack.contains(q) <==> (stack@.contains(q) || q == p) by {
            if old_stack.contains(q) && q != p {
                let k = choose|k: int| 0 <= k < old_stack.len() && old_stack[k] == q;
                assert(stack@[k] == q);
            }
            if stack@.contains(q) {
                let k = choose|k: int| 0 <= k < stack@.len() && stack@[k] == q;
                assert(old_stack[k] == q);
            }
            if q == p {
                assert(old_stack[old_stack.len() - 1] == p);
            }
        }
        assert(px@.last() == p);
        assert(px@.no_duplicates()) by {
            assert forall|i: int, j: int|
                0 <= i < px@.len() && 0 <= j < px@.len() && i != j implies px@[i] != px@[j] by {
                if i < old_px.len() && j < old_px.len() {
                    assert(old_px[i] == px@[i] && old_px[j] == px@[j]);
                } else if i < old_px.len() {
                    assert(old_px[i] == px@[i]);
                    assert(old_px.contains(px@[i]));
                } else if j < old_px.len() {
                    assert(old_px[j] == px@[j]);
                    assert(old_px.contains(px@[j]));
                }
            }
        }
        assert(stack@.no_duplicates()) by {
            assert forall|i: int, j: int|
                0 <= i < stack@.len() && 0 <= j < stack@.len() && i != j implies stack@[i]
                != stack@[j] by {
                assert(old_stack[i] == stack@[i] && old_stack[j] == stack@[j]);
            }
        }
        assert forall|k: int| 0 <= k < stack@.len() implies #[trigger] stack@[k] < w * h by {
            assert(old_stack[k] == stack@[k]);
        }
        assert forall|k: int| 0 <= k < px@.len() implies #[trigger] px@[k] < w * h by {
            if k < old_px.len() {
                assert(old_px[k] == px@[k]);
            } else {
                assert(old_stack[old_stack.len() - 1] == p);
            }
        }
        assert forall|q: usize| !(#[trigger] px@.contains(q) && stack@.contains(q)) by {
            if px@.contains(q) && stack@.contains(q) {
                assert(old_stack.contains(q));
                if q != p {
                    assert(old_px.contains(q));
                    assert(!(old_px.contains(q) && old_stack.contains(q)));
                }
            }
        }
        assert forall|q: usize| #[trigger] stack@.contains(q) implies !old_seen[q as int] && connected(
            mm,
            wi,
            hi,
            s as int,
            q as int,
        ) by {
            assert(old_stack.contains(q));
        }
        assert forall|q: usize| #[trigger] px@.contains(q) implies !old_seen[q as int] && connected(
            mm,
            wi,
            hi,
            s as int,
            q as int,
        ) by {
            if !old_px.contains(q) {
                assert(old_stack.contains(q));
            }
        }
        let x = p % w;
        let y = p / w;
        proof {
            lemma_grid_pos(wi, hi, p as int);
        }
        let yt = if y > 0 { y - 1 } else { 0 };
        let yb = if y + 1 < h { y + 1 } else { h - 1 };
        let xl = if x > 0 { x - 1 } else { 0 };
        let xr = if x + 1 < w { x + 1 } else { w - 1 };
        assert forall|pp: int, q: int|
            0 <= pp < w * h && pp != p && px@.contains(pp as usize) && adjacent(wi, hi, pp, q) && mm[q]
                implies seen@[q] by {
            assert(old_px.contains(pp as usize));
        }
        let ghost meas = 2 * unmarked(seen@) + stack@.len();
        let mut ny = yt;
        while ny <= yb
            invariant
                w > 0,
                total == w * h,
                mm == m@,
                wi == w,
                hi == h,
                m@.len() == w * h,
                seen@.len() == w * h,
                old_seen.len() == w * h,
                closed(mm, wi, hi, old_seen),
                marks_set_only(mm, wi, hi, old_seen),
                forall|q: int|
                    0 <= q < w * h ==> #[trigger] seen@[q] == (old_seen[q] || px@.contains(
                        q as usize,
                    ) || stack@.contains(q as usize)),
                px@.no_duplicates(),
                stack@.no_duplicates(),
                forall|q: usize| !(#[trigger] px@.contains(q) && stack@.contains(q)),
                forall|k: int| 0 <= k < px@.len() ==> #[trigger] px@[k] < w * h,
                forall|k: int| 0 <= k < stack@.len() ==> #[trigger] stack@[k] < w * h,
                forall|q: usize| #[trigger] px@.contains(q) ==> !old_seen[q as int] && connected(
                    mm,
                    wi,
                    hi,
                    s as int,
                    q as int,
                ),
                forall|q: usize| #[trigger] stack@.contains(q) ==> !old_seen[q as int] && connected(
                    mm,
                    wi,
                    hi,
                    s as int,
                    q as int,
                ),
                forall|pp: int, q: int|
                    #![trigger px@.contains(pp as usize), adjacent(wi, hi, pp, q)]
                    0 <= pp < w * h && pp != p && px@.contains(pp as usize) && adjacent(wi, hi, pp, q)
                        && mm[q] ==> seen@[q],
                px@.len() > 0,
                px@.last() == p,
                px@[0] == s,
                2 * unmarked(seen@) + stack@.len() <= meas,
                p < w * h,
                x == p % w,
                y == p / w,
                y < h,
                x < w,
                yt <= y <= yb < h,
                xl <= x <= xr < w,
                yt == (if y > 0 { y - 1 } else { 0 }),
                yb == (if y + 1 < h { y + 1 } else { h - 1 }),
                xl == (if x > 0 { x - 1 } else { 0 }),
                xr == (if x + 1 < w { x + 1 } else { w - 1 }),
                yt <= ny <= yb + 1,
                forall|q: int|
                    0 <= q < w * h && yt <= q / wi < ny && xl <= q % wi <= xr && mm[q]
                        ==> #[trigger] seen@[q],
            decreases yb + 1 - ny, 2 * unmarked(seen@) + stack@.len(),
        {
            let mut nx = xl;
            while nx <= xr
                invariant
                    w > 0,
                    total == w * h,
                    mm == m@,
                    wi == w,
                    hi == h,
                    m@.len() == w * h,
                    seen@.len() == w * h,
                    old_seen.len() == w * h,
                    closed(mm, wi, hi, old_seen),
                    marks_set_only(mm, wi, hi, old_seen),
                    forall|q: int|
                        0 <= q < w * h ==> #[trigger] seen@[q] == (old_seen[q] || px@.contains(
                            q as usize,
                        ) || stack@.contains(q as usize)),
                    px@.no_duplicates(),
                    stack@.no_duplicates(),
                    forall|q: usize| !(#[trigger] px@.contains(q) && stack@.contains(q)),
                    forall|k: int| 0 <= k < px@.len() ==> #[trigger] px@[k] < w * h,
                    forall|k: int| 0 <= k < stack@.len() ==> #[trigger] stack@[k] < w * h,
                    forall|q: usize| #[trigger] px@.contains(q) ==> !old_seen[q as int] && connected(
                        mm,
                        wi,
                        hi,
                        s as int,
                        q as int,
                    ),
                    forall|q: usize| #[trigger] stack@.contains(q) ==> !old_seen[q as int]
                        && connected(mm, wi, hi, s as int, q as int),
                    forall|pp: int, q: int|
                        #![trigger px@.contains(pp as usize), adjacent(wi, hi, pp, q)]
                        0 <= pp < w * h && pp != p && px@.contains(pp as usize) && adjacent(
                            wi,
                            hi,
                            pp,
                            q,
                        ) && mm[q] ==> seen@[q],
                    px@.len() > 0,
                    px@.last() == p,
                    px@[0] == s,
                    2 * unmarked(seen@) + stack@.len() <= meas,
                    p < w * h,
                    x == p % w,
                    y == p / w,
                    y < h,
                    x < w,
                    yt <= y <= yb < h,
                    xl <= x <= xr < w,
                    yt == (if y > 0 { y - 1 } else { 0 }),
                    yb == (if y + 1 < h { y + 1 } else { h - 1 }),
                    xl == (if x > 0 { x - 1 } else { 0 }),
                    xr == (if x + 1 < w { x + 1 } else { w - 1 }),
                    yt <= ny <= yb,
                    xl <= nx <= xr + 1,
                    forall|q: int|
                        0 <= q < w * h && yt <= q / wi < ny && xl <= q % wi <= xr && mm[q]
                            ==> #[trigger] seen@[q],
                    forall|q: int|
                        0 <= q < w * h && q / wi == ny && xl <= q % wi < nx && mm[q]
                            ==> #[trigger] seen@[q],
                decreases xr + 1 - nx, 2 * unmarked(seen@) + stack@.len(),
            {
                assert(ny * w + nx < w * h) by (nonlinear_arith)
                    requires
                        ny < h,
                        nx < w,
                ;
                let ni = ny * w + nx;
                proof {
                    vstd::arithmetic::div_mod::lemma_fundamental_div_mod_converse(
                        ni as int,
                        wi,
                        ny as int,
                        nx as int,
                    );
                }
                if m[ni] && !seen[ni] {
                    proof {
                        lemma_mark_one(seen@, ni as int);
                        assert(adjacent(wi, hi, p as int, ni as int));
                        assert(px@[px@.len() - 1] == p);
                        assert(px@.contains(p));
                        lemma_connected_step(mm, wi, hi, s as int, p as int, ni as int);
                        assert(!px@.contains(ni));
                        assert(!stack@.contains(ni));
                    }
                    let ghost st0 = stack@;
                    seen.set(ni, true);
                    stack.push(ni);
                    assert(stack@ == st0.push(ni));
                    assert forall|q: usize| #[trigger] stack@.contains(q) implies !old_seen[q as int]
                        && connected(mm, wi, hi, s as int, q as int) by {
                        if q != ni {
                            let k = choose|k: int| 0 <= k < stack@.len() && stack@[k] == q;
                            assert(st0[k] == q);
                            assert(st0.contains(q));
                        }
                    }
                    assert forall|q: int|
                        0 <= q < w * h implies #[trigger] seen@[q] == (old_seen[q] || px@.contains(
                            q as usize,
                        ) || stack@.contains(q as usize)) by {
                        if q != ni {
                            if stack@.contains(q as usize) {
                                let k = choose|k: int|
                                    0 <= k < stack@.len() && stack@[k] == q as usize;
                                assert(st0[k] == q as usize);
                            }
                            if st0.contains(q as usize) {
                                let k = choose|k: int| 0 <= k < st0.len() && st0[k] == q as usize;
                                assert(stack@[k] == q as usize);
                            }
                        } else {
                            assert(stack@[stack@.len() - 1] == ni);
                        }
                    }
                    assert forall|k: int| 0 <= k < stack@.len() implies #[trigger] stack@[k] < w
                        * h by {
                        if k < stack@.len() - 1 {
                            assert(stack@.drop_last()[k] == stack@[k]);
                        }
                    }
                }
                assert forall|q: int|
                    0 <= q < w * h && q / wi == ny && xl <= q % wi < nx + 1 && mm[q]
                        implies #[trigger] seen@[q] by {
                    if q % wi == nx {
                        vstd::arithmetic::div_mod::lemma_fundamental_div_mod(q, wi);
                        assert(q == ni) by (nonlinear_arith)
                            requires
                                q == wi * (q / wi) + q % wi,
                                q / wi == ny,
                                q % wi == nx,
                                ni == ny * wi + nx,
                        ;
                    }
                }
                nx = nx + 1;
            }
            ny = ny + 1;
        }
        assert forall|q: int|
            0 <= q < w * h && adjacent(wi, hi, p as int, q) && mm[q] implies #[trigger] seen@[q] by {
            lemma_grid_pos(wi, hi, q);
        }
    }
    assert forall|q: int| 0 <= q < w * h implies (px@.contains(q as usize) <==> connected(
        mm,
        wi,
        hi,
        s as int,
        q,
    )) by {
        if connected(mm, wi, hi, s as int, q) && !px@.contains(q as usize) {
            // the region of `s` would leave the closed set of marked pixels
            let path = choose|path: Seq<int>|
                #[trigger] is_path(mm, wi, hi, path) && path[0] == s as int && path.last() == q;
            assert(px@.contains(s));
            if old_seen[q] {
                lemma_connected_sym(mm, wi, hi, s as int, q);
                lemma_closed_connected(mm, wi, hi, old_seen, q, s as int);
                assert(false);
            }
            let newly = Seq::new(
                (w * h) as nat,
                |r: int| px@.contains(r as usize),
            );
            assert(closed(mm, wi, hi, newly)) by {
                assert forall|a: int, b: int|
                    #![trigger newly[a], adjacent(wi, hi, a, b)]
                    0 <= a < w * h && newly[a] && adjacent(wi, hi, a, b) && mm[b] implies newly[b] by {
                    assert(seen@[b]);
                    if old_seen[b] {
                        assert(px@.contains(a as usize));
                        lemma_connected_ends(mm, wi, hi, s as int, a);
                        lemma_connected_refl(mm, wi, hi, b);
                        lemma_connected_step(mm, wi, hi, b, b, a);
                        assert(adjacent(wi, hi, b, a));
                        lemma_closed_connected(mm, wi, hi, old_seen, b, a);
                    }
                }
            }
            lemma_closed_connected(mm, wi, hi, newly, s as int, q);
        }
    }
    assert forall|q: int| 0 <= q < w * h implies #[trigger] seen@[q] == (old_seen[q] || px@.contains(
        q as usize,
    )) by {}
    assert(marks_set_only(mm, wi, hi, seen@)) by {
        assert forall|q: int| 0 <= q < w * h && #[trigger] seen@[q] implies mm[q] by {
            if !old_seen[q] {
                assert(px@.contains(q as usize));
                lemma_connected_ends(mm, wi, hi, s as int, q);
            }
        }
    }
    assert(closed(mm, wi, hi, seen@)) by {
        assert forall|a: int, b: int|
            #![trigger seen@[a], adjacent(wi, hi, a, b)]
            0 <= a < w * h && seen@[a] && adjacent(wi, hi, a, b) && mm[b] implies seen@[b] by {
            if old_seen[a] {
                assert(old_seen[b]);
            }
        }
    }
    px
}

} // verus!
