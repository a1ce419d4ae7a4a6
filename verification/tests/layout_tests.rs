use wd_style::layout::{
    classify_layout, components as components2, detect_components, dominant_bg, pack, pack_result,
    parse_bmp, raw_pixels, union, Comp, P_CENTER, P_LEFT, P_NONE, P_RIGHT,
};
use wd_style::layout3::{
    caption_h, chain_box, clear_frame, cluster_boxes, components, dominant_bins, expected_glyphs, h_class,
    icon_accepted, icon_candidates, islands, keep_filter, letter_chains, letter_order, median_colour2,
    positions3, strip_juxtaposed, text_chain, text_like_cluster, v_class, C,
};
use wd_style::steps::write_bmp;

/// A 24-bit BMP of `w` x `h` RGB pixels given top row first.
fn bmp_of(w: usize, h: usize, px: &dyn Fn(usize, usize) -> [u8; 3]) -> Vec<u8> {
    let rows: Vec<Vec<u8>> = (0..h)
        .map(|y| {
            let mut r = Vec::new();
            for x in 0..w {
                let c = px(x, y);
                r.extend_from_slice(&[c[2], c[1], c[0]]);
            }
            r
        })
        .collect();
    write_bmp(w, h, 24, &rows)
}

fn in_box(x: usize, y: usize, b: (usize, usize, usize, usize)) -> bool {
    b.0 <= x && x <= b.2 && b.1 <= y && y <= b.3
}

#[test]
fn bmp_pixels_top_row_first_in_rgb() {
    let d = bmp_of(3, 2, &|x, y| [x as u8, y as u8, 7]);
    let (w, h, rgb) = parse_bmp(&d).unwrap();
    assert_eq!((w, h), (3, 2));
    assert_eq!(rgb[0], [0, 0, 7]);
    assert_eq!(rgb[2], [2, 0, 7]);
    assert_eq!(rgb[4], [1, 1, 7]);
    assert!(parse_bmp(&d[..40]).is_none());
}

#[test]
fn background_is_middle_of_most_frequent_bin() {
    let mut rgb = vec![[200u8, 100, 50]; 30];
    rgb.extend(vec![[0u8, 0, 0]; 10]);
    assert_eq!(dominant_bg(&rgb), [204, 100, 52]);
    // no pixels: the first bin
    assert_eq!(dominant_bg(&[]), [4, 4, 4]);
    // a tie goes to the lower bin
    let tie = [[255u8, 255, 255], [0, 0, 0]];
    assert_eq!(dominant_bg(&tie), [4, 4, 4]);
}

#[test]
fn packing_fields() {
    assert_eq!(pack((true, P_CENTER, P_CENTER, false, P_NONE, P_NONE)), 2 + 8 + 16);
    assert_eq!(pack_result(false, P_NONE, P_NONE, true, P_RIGHT, P_LEFT), 96 + 128 + 512);
    let p = pack((true, P_LEFT, P_RIGHT, true, P_CENTER, P_CENTER));
    assert_eq!(((p >> 4) & 1, p & 3, (p >> 2) & 3, (p >> 9) & 1, (p >> 5) & 3, (p >> 7) & 3), (1, 1, 3, 1, 2, 2));
}

#[test]
fn eight_connected_regions() {
    // 5 x 4 mask: a diagonal pair (one region), a single pixel, a 2-pixel bar
    let w = 5;
    let h = 4;
    let mut m = vec![false; w * h];
    for &(x, y) in &[(0usize, 0usize), (1, 1), (4, 0), (2, 3), (3, 3)] {
        m[y * w + x] = true;
    }
    let cs = components2(&m, w, h, 1);
    let got: Vec<(usize, usize, usize, usize, usize)> =
        cs.iter().map(|c| (c.x0, c.y0, c.x1, c.y1, c.area)).collect();
    assert_eq!(got, vec![(0, 0, 1, 1, 2), (4, 0, 4, 0, 1), (2, 3, 3, 3, 2)]);
    // the regions share no pixel and cover all set pixels
    let total: usize = cs.iter().map(|c| c.area).sum();
    assert_eq!(total, m.iter().filter(|&&b| b).count());
    // a minimum area drops the single pixel
    assert_eq!(components2(&m, w, h, 2).len(), 2);
    let cs3 = components(&m, w, h);
    assert_eq!(cs3.len(), 3);
    assert_eq!((cs3[0].n, cs3[0].px.len()), (2, 2));
    assert!(cs3[0].px.contains(&(1, 1)));
}

#[test]
fn caption_only_button_is_centred() {
    // 60 x 30 white button, dark text block in the middle
    let tb = (22, 11, 37, 18);
    let d = bmp_of(60, 30, &|x, y| if in_box(x, y, tb) { [20, 20, 20] } else { [240, 240, 240] });
    let (w, h, rgb) = parse_bmp(&d).unwrap();
    let comps = detect_components(w, h, &rgb);
    assert_eq!(comps.len(), 1);
    assert_eq!((comps[0].x0, comps[0].y0, comps[0].x1, comps[0].y1), tb);
    let r = classify_layout(w, h, &comps, 1, 0, 0);
    assert_eq!(r, (true, P_CENTER, P_CENTER, false, P_NONE, P_NONE));
}

#[test]
fn icon_right_caption_centred_in_rest() {
    // icon at the right, caption centred in the space left of it
    let icon = (48, 8, 57, 21);
    let text = (10, 12, 36, 17);
    let d = bmp_of(60, 30, &|x, y| {
        if in_box(x, y, icon) || in_box(x, y, text) { [10, 10, 10] } else { [250, 250, 250] }
    });
    let (w, h, rgb) = parse_bmp(&d).unwrap();
    let comps = detect_components(w, h, &rgb);
    assert_eq!(comps.len(), 2);
    let ic = comps.iter().position(|c| c.x0 == 48).unwrap();
    let r = classify_layout(w, h, &comps, 1, 1, ic);
    assert_eq!(r, (true, P_CENTER, P_CENTER, true, P_RIGHT, P_CENTER));
    // icon-only: everything is the icon, no caption
    let r = classify_layout(w, h, &comps, 0, 1, 0);
    assert_eq!(r.0, false);
    assert!(r.3);
}

#[test]
fn tiny_or_empty_images_have_no_components() {
    let rgb = vec![[0u8, 0, 0]; 25];
    assert!(detect_components(5, 5, &rgb).is_empty());
    let plain = vec![[9u8, 9, 9]; 100];
    assert!(detect_components(10, 10, &plain).is_empty());
}

#[test]
fn union_of_boxes() {
    let a = Comp { x0: 3, y0: 4, x1: 5, y1: 6, area: 9 };
    let b = Comp { x0: 1, y0: 5, x1: 4, y1: 9, area: 9 };
    assert_eq!(union(&[a, b]), Some((1, 4, 5, 9)));
    assert_eq!(union(&[]), None);
}

#[test]
fn raw_formats() {
    // one row, two pixels, BGR
    let d = [1u8, 2, 3, 4, 5, 6];
    assert_eq!(raw_pixels(&d, 2, 1, 6, 1), vec![[3, 2, 1], [6, 5, 4]]);
    assert_eq!(raw_pixels(&d, 2, 1, 6, 0), vec![[1, 2, 3], [4, 5, 6]]);
    // RGBA with a row stride
    let d4 = [1u8, 2, 3, 0, 9, 9, 9, 9, 5, 6, 7, 0];
    assert_eq!(raw_pixels(&d4, 1, 2, 8, 3), vec![[1, 2, 3], [5, 6, 7]]);
}

fn cbox(x0: i64, y0: i64, x1: i64, y1: i64) -> C {
    let mut px = Vec::new();
    for y in y0..=y1 {
        for x in x0..=x1 {
            px.push((y as u32, x as u32));
        }
    }
    C { x0, y0, x1, y1, n: px.len(), px }
}

#[test]
fn glyph_counts() {
    assert_eq!(expected_glyphs(b"XX XX"), 4);
    assert_eq!(expected_glyphs(b"ij"), 4);
    assert_eq!(expected_glyphs(&[0xE4, b'a', 0xA0, b'\t']), 3);
    assert_eq!(expected_glyphs(b""), 0);
}

#[test]
fn position_classes() {
    // centre 10 of 40: 0.25 -> left; 20 of 40 -> centre; 30 of 40 -> right
    assert_eq!(h_class(8, 12, 40), P_LEFT);
    assert_eq!(h_class(18, 22, 40), P_CENTER);
    assert_eq!(h_class(28, 32, 40), P_RIGHT);
    // 0.35 is still the middle band vertically, below it is the top
    assert_eq!(v_class(7, 7, 20), P_CENTER);
    assert_eq!(v_class(6, 7, 20), P_LEFT);
    assert_eq!(v_class(13, 14, 20), P_RIGHT);
}

#[test]
fn caption_margins() {
    // text 20..39 in 60: margins 20 and 20 -> centre
    assert_eq!(caption_h(20, 39, 60, None, P_NONE, P_NONE), P_CENTER);
    assert_eq!(caption_h(2, 20, 60, None, P_NONE, P_NONE), P_LEFT);
    assert_eq!(caption_h(40, 58, 60, None, P_NONE, P_NONE), P_RIGHT);
    // an icon at the right (centred vertically) shrinks the area to 0..47
    assert_eq!(caption_h(14, 33, 60, Some((49, 10, 58, 20)), P_RIGHT, P_CENTER), P_CENTER);
}

#[test]
fn clusters_join_near_boxes() {
    let cl = vec![cbox(0, 0, 2, 2), cbox(20, 20, 22, 22), cbox(5, 0, 6, 1)];
    let out = cluster_boxes(cl, 4);
    assert_eq!(out.len(), 2);
    assert_eq!((out[0].x0, out[0].y0, out[0].x1, out[0].y1, out[0].n), (0, 0, 6, 2, 13));
    assert_eq!(out[0].px.len(), 13);
    assert_eq!((out[1].x0, out[1].x1), (20, 22));
    // no two clusters left near each other; no pixel lost
    let near = |a: &C, b: &C| a.x0 - 4 <= b.x1 && b.x0 - 4 <= a.x1 && a.y0 - 4 <= b.y1 && b.y0 - 4 <= a.y1;
    assert!(!near(&out[0], &out[1]));
    assert_eq!(out.iter().map(|c| c.n).sum::<usize>(), 9 + 9 + 4);
    // nothing near: unchanged
    let far = cluster_boxes(vec![cbox(0, 0, 1, 1), cbox(10, 10, 11, 11)], 4);
    assert_eq!(far.len(), 2);
}

#[test]
fn frame_cleared_and_filters() {
    let w = 8;
    let h = 6;
    let mut m = vec![true; w * h];
    clear_frame(&mut m, w, h);
    let set: Vec<usize> = (0..w * h).filter(|&i| m[i]).collect();
    assert_eq!(set, vec![2 * 8 + 2, 2 * 8 + 3, 2 * 8 + 4, 2 * 8 + 5, 3 * 8 + 2, 3 * 8 + 3, 3 * 8 + 4, 3 * 8 + 5]);
    // a small speck and a long thin line are dropped, a letter stays
    let kept = keep_filter(vec![cbox(1, 1, 2, 1), cbox(0, 10, 39, 11), cbox(5, 5, 8, 12)], 40, 20);
    assert_eq!(kept.len(), 1);
    assert_eq!(kept[0].x0, 5);
}

#[test]
fn letters_form_a_chain() {
    // four letters 6 high in a row, a square icon far right
    let comps = vec![
        cbox(40, 5, 50, 15),
        cbox(10, 6, 13, 11),
        cbox(2, 6, 5, 11),
        cbox(6, 6, 9, 11),
        cbox(14, 6, 17, 11),
    ];
    let order = letter_order(&comps, 20);
    assert_eq!(order, vec![2, 3, 1, 4, 0]);
    let chains = letter_chains(&comps, &order);
    assert_eq!(chains[0], vec![2, 3, 1, 4]);
    assert_eq!(chains[1], vec![0]);
    let bx = chain_box(&comps, &chains[0]);
    assert_eq!(bx, (2, 6, 17, 11, 6));
    // caption and image: the chain is the caption, the icon is a candidate
    let (t, st, search) = text_chain(&comps, Some(b"Abcd"), true, 20);
    assert_eq!(t, Some(vec![2, 3, 1, 4]));
    assert!(st.is_empty());
    assert!(search);
    let cands = icon_candidates(comps.len(), &t.unwrap(), &st);
    assert_eq!(cands, vec![0]);
    // caption without image: the chain is the caption, an icon is still looked for
    let (t, _, search) = text_chain(&comps, Some(b"Abcd"), false, 20);
    assert_eq!(t, Some(vec![2, 3, 1, 4]));
    assert!(search);
    // no caption text: no caption
    assert_eq!(text_chain(&comps, None, true, 20).0, None);
    assert!(!text_chain(&comps, None, false, 20).2);
}

#[test]
fn single_glyph_caption_is_everything() {
    // one glyph, no image: no chain, so everything rendered is the caption
    let comps = vec![cbox(10, 5, 15, 14)];
    let (t, st, search) = text_chain(&comps, Some(b"<"), false, 20);
    assert_eq!(t, Some(vec![0]));
    assert!(st.is_empty());
    assert!(!search);
    // with an image assigned and no chain there is no caption
    assert_eq!(text_chain(&comps, Some(b"<"), true, 20).0, None);
}

#[test]
fn icon_guard_without_image() {
    let tb = Some((10i64, 5i64, 30i64, 12i64));
    // touching the caption box, as many components as glyphs: refused
    assert!(!icon_accepted(false, (31, 5, 40, 12), tb, 4, 4));
    // one column of gap: taken
    assert!(icon_accepted(false, (32, 5, 40, 12), tb, 4, 4));
    // more components than glyphs: taken
    assert!(icon_accepted(false, (31, 5, 40, 12), tb, 5, 4));
    // with an image: always taken
    assert!(icon_accepted(true, (31, 5, 40, 12), tb, 1, 4));
}

#[test]
fn juxtaposed_icon_split_off() {
    // three letters and a taller last component: two glyphs expected
    let comps = vec![cbox(0, 5, 3, 10), cbox(5, 5, 8, 10), cbox(10, 5, 13, 10), cbox(15, 1, 24, 14)];
    let (tc, st) = strip_juxtaposed(&comps, vec![0, 1, 2, 3], 3);
    assert_eq!(tc, vec![0, 1, 2]);
    assert_eq!(st, vec![3]);
    // already short enough: nothing to do
    let (tc, st) = strip_juxtaposed(&comps, vec![0, 1, 2, 3], 4);
    assert_eq!(tc.len(), 4);
    assert!(st.is_empty());
}

#[test]
fn bold_text_cluster() {
    let cl = vec![cbox(0, 0, 9, 9), cbox(20, 0, 49, 7)];
    // the wide cluster is text-like (filled completely it is not)
    assert_eq!(text_like_cluster(&cl, 0), None);
    let mut holey = cbox(20, 0, 49, 7);
    holey.px.truncate(100);
    holey.n = 100;
    let cl = vec![cbox(0, 0, 9, 9), holey];
    assert_eq!(text_like_cluster(&cl, 0), Some(1));
    assert_eq!(text_like_cluster(&cl, 1), None);
}

#[test]
fn islands_do_not_reach_the_border() {
    let w = 5;
    let h = 5;
    let ring: Vec<bool> =
        (0..w * h).map(|i| i / w == 0 || i / w == 4 || i % w == 0 || i % w == 4 || i == 12).collect();
    let ink = islands(&vec![ring], w, h);
    let inner: Vec<usize> = (0..w * h).filter(|&i| ink[i]).collect();
    assert_eq!(inner, vec![6, 7, 8, 11, 12, 13, 16, 17, 18]);
    // a pixel of a second mask that reaches the border is no ink
    let col: Vec<bool> = (0..w * h).map(|i| i % w == 2).collect();
    let ring2: Vec<bool> = (0..w * h).map(|i| i / w == 0 || i / w == 4 || i % w == 0 || i % w == 4).collect();
    let ink2 = islands(&vec![ring2, col], w, h);
    assert!(!ink2[12]);
    assert!(ink2[6]);
    // no masks: everything is ink
    assert!(islands(&vec![], w, h).iter().all(|&b| b));
}

#[test]
fn dominant_bins_by_share() {
    // 50 white, 30 red, 15 blue, 5 green pixels (5 % is below the share)
    let mut rgb = vec![[255u8, 255, 255]; 50];
    rgb.extend(vec![[200u8, 10, 10]; 30]);
    rgb.extend(vec![[0u8, 0, 250]; 15]);
    rgb.extend(vec![[0u8, 250, 0]; 5]);
    let bins = dominant_bins(&rgb);
    assert_eq!(bins.len(), 3);
    assert_eq!(bins[0], (511, 50, [255 * 50, 255 * 50, 255 * 50]));
    assert_eq!(bins[1], (6 * 64, 30, [6000, 300, 300]));
    assert_eq!(bins[2], (7, 15, [0, 0, 3750]));
    // equal counts: the lower bin first; exactly 6 % is kept
    let mut tie = vec![[255u8, 255, 255]; 47];
    tie.extend(vec![[0u8, 0, 0]; 47]);
    tie.extend(vec![[0u8, 0, 200]; 6]);
    let b = dominant_bins(&tie);
    assert_eq!(b.iter().map(|x| x.0).collect::<Vec<_>>(), vec![0, 511, 6]);
    assert!(dominant_bins(&[]).is_empty());
}

#[test]
fn median_colour_twice() {
    let rgb = vec![[10u8, 0, 7], [20, 0, 7], [30, 1, 7], [200, 1, 9]];
    // pixels 0, 1, 3 of a 2-wide image: medians 20, 0, 7
    let px = vec![(0u32, 0u32), (0, 1), (1, 1)];
    assert_eq!(median_colour2(&rgb, 2, &px), [40, 0, 14]);
    // all four: even count, mean of the two middle values (doubled)
    let px4 = vec![(0u32, 0u32), (0, 1), (1, 0), (1, 1)];
    assert_eq!(median_colour2(&rgb, 2, &px4), [50, 1, 14]);
}

#[test]
fn positions_from_boxes() {
    // icon at the right, vertically centred; caption centred beside it
    let r = positions3(60, 30, Some((14, 12, 33, 17)), Some((49, 10, 58, 20)));
    assert_eq!(r, (true, P_CENTER, P_CENTER, true, P_RIGHT, P_CENTER));
    // no caption box: caption not shown
    let r = positions3(60, 30, None, Some((1, 1, 10, 10)));
    assert_eq!(r, (false, P_NONE, P_NONE, true, P_LEFT, P_LEFT));
    // nothing
    assert_eq!(positions3(60, 30, None, None), (false, P_NONE, P_NONE, false, P_NONE, P_NONE));
}

#[test]
fn zero_width_mask_has_no_regions() {
    assert!(components2(&[], 0, 5, 1).is_empty());
    assert!(components2(&[], 0, 0, 0).is_empty());
    assert!(components(&[], 0, 3).is_empty());
    assert!(components(&[], 4, 0).is_empty());
}
