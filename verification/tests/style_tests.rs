use wd_style::huffman::{Huff, MAX_FREQ, N_CHAR, ROOT, T};
use wd_style::style::{
    base_hash, caption_position, coltitle_image_flag, coltitle_image_id, find, has_coltitle_image,
    uncompress, uncompressed_size, CaptionPosition, ERR_BAD_HEADER, ERR_DECODE,
};
use wd_style::lzhuf::lzhuf_decode_all;
use wd_style::style::CaptionPosition as P;

/// Literal-only LZHUF encoding of `raw` (MSB-first bit stream), using the
/// library's adaptive tree to pick each code.
fn encode_literals(raw: &[u8]) -> Vec<u8> {
    let mut huf = Huff::new();
    let mut bits: Vec<bool> = Vec::new();
    for &b in raw {
        let c = b as usize;
        let mut path: Vec<bool> = Vec::new();
        let mut k = huf.prnt[c + T];
        loop {
            path.push(k & 1 == 1);
            k = huf.prnt[k];
            if k == ROOT {
                break;
            }
        }
        path.reverse();
        bits.extend(path);
        huf.update(c);
    }
    let mut out = vec![0u8; (bits.len() + 7) / 8];
    for (i, bit) in bits.iter().enumerate() {
        if *bit {
            out[i / 8] |= 0x80 >> (i % 8);
        }
    }
    out
}

/// A style buffer: type 0x04, compressed size, declared first-block size,
/// two zero bytes, then the LZHUF stream.
fn style_buffer(raw: &[u8], declared: u32) -> Vec<u8> {
    let payload = encode_literals(raw);
    let mut buf = vec![4u8];
    buf.extend_from_slice(&(payload.len() as u32).to_le_bytes());
    buf.extend_from_slice(&declared.to_le_bytes());
    buf.extend_from_slice(&[0, 0]);
    buf.extend_from_slice(&payload);
    buf
}

const TOK_CAPTION: [u8; 6] = [0x34, 0xB4, 0x81, 0x77, 0xF4, 0xC4];
const VAL_NO_CAPTION: [u8; 4] = [0x24, 0x00, 0x00, 0x00];
const VAL_CAPTION_ON: [u8; 4] = [0x9A, 0xA9, 0xC4, 0x22];
const TOK_POSITION: [u8; 10] = [0x6D, 0xEF, 0x5F, 0xA4, 0xDD, 0x79, 0x9F, 0xD0, 0x18, 0x77];
const POSVAL_TOP: [u8; 4] = [0x8F, 0x97, 0x5F, 0xD9];
const POSVAL_BOTTOM: [u8; 4] = [0x8F, 0xC8, 0xE6, 0x00];
const POSVAL_CENTER: [u8; 4] = [0x8F, 0xC8, 0x49, 0x00];
const POSVAL_RIGHT: [u8; 4] = [0x8F, 0xCD, 0xC8, 0x00];
const POSVAL_LEFT: [u8; 4] = [0x50, 0x00, 0x00, 0x00];
const SIG_JUXTAPOSED: [u8; 6] = [0x9A, 0xA9, 0x12, 0xB4, 0xF2, 0xF3];
const SIG_IMG_LEFT: [u8; 4] = [0x50, 0xA5, 0x3E, 0xB6];
const SIG_IMG_RIGHT: [u8; 4] = [0x50, 0xA5, 0x3E, 0x2C];
const SIG_LEFT_LEFT: [u8; 8] = [0x65, 0xFD, 0x2C, 0xD8, 0xC4, 0xED, 0x7E, 0xDD];
const SIG_RIGHT_RIGHT: [u8; 8] = [0xD8, 0xEC, 0x70, 0x1C, 0xBE, 0xFA, 0xEB, 0xD8];
const IMG_ANCHOR: [u8; 5] = [0x9A, 0xD4, 0x0B, 0x7E, 0x4D];

/// A decoded stream of `len` filler bytes with the given pieces placed at
/// the given offsets.
fn stream(len: usize, pieces: &[(usize, &[u8])]) -> Vec<u8> {
    let mut raw: Vec<u8> = (0..len).map(|i| (i % 7) as u8 + 1).collect();
    for (at, p) in pieces {
        raw[*at..*at + p.len()].copy_from_slice(p);
    }
    raw
}

fn button(cap: Option<&[u8; 4]>, pos: Option<&[u8; 4]>, extra: &[&[u8]], declared: u32) -> Vec<u8> {
    let mut pieces: Vec<(usize, &[u8])> = Vec::new();
    let mut cap_piece = Vec::new();
    if let Some(c) = cap {
        cap_piece.extend_from_slice(&TOK_CAPTION);
        cap_piece.extend_from_slice(c);
    }
    let mut pos_piece = Vec::new();
    if let Some(p) = pos {
        pos_piece.extend_from_slice(&TOK_POSITION);
        pos_piece.extend_from_slice(p);
    }
    pieces.push((100, &cap_piece));
    pieces.push((200, &pos_piece));
    for (k, e) in extra.iter().enumerate() {
        pieces.push((400 + 40 * k, e));
    }
    style_buffer(&stream(700, &pieces), declared)
}

fn check(buf: &[u8], expected: CaptionPosition) {
    assert_eq!(caption_position(buf), expected as i32, "expected {:?}", expected);
}

// One button of each kind, each built as a synthetic style buffer.
#[test]
fn alle_samples() {
    let on = Some(&VAL_CAPTION_ON);
    check(&button(Some(&VAL_NO_CAPTION), Some(&POSVAL_TOP), &[], 600), P::NoCaption);
    check(&button(on, Some(&POSVAL_TOP), &[], 600), P::Top);
    check(&button(on, Some(&POSVAL_BOTTOM), &[], 600), P::Bottom);
    check(&button(on, Some(&POSVAL_LEFT), &[], 600), P::Left);
    check(&button(on, Some(&POSVAL_RIGHT), &[], 600), P::Right);
    check(&button(on, Some(&POSVAL_CENTER), &[], 600), P::Center);
    check(&button(on, Some(&POSVAL_CENTER), &[&SIG_JUXTAPOSED], 600), P::CenterJuxtaposedImage);
    check(&button(on, Some(&POSVAL_CENTER), &[&SIG_IMG_LEFT], 600), P::CenterLeftImage);
    check(&button(on, Some(&POSVAL_CENTER), &[&SIG_IMG_RIGHT], 600), P::CenterRightImage);
    check(&button(on, Some(&POSVAL_LEFT), &[&SIG_LEFT_LEFT], 600), P::LeftLeftImage);
    check(&button(on, Some(&POSVAL_RIGHT), &[&SIG_RIGHT_RIGHT], 600), P::RightRightImage);
    // free positioning: the declared first block is larger than 1600 bytes
    let mut big: Vec<(usize, &[u8])> = Vec::new();
    let mut cap_piece = TOK_CAPTION.to_vec();
    cap_piece.extend_from_slice(&VAL_CAPTION_ON);
    big.push((100, &cap_piece));
    let free = style_buffer(&stream(2200, &big), 2114);
    check(&free, P::FreePositioning);
    // without a position override the position is inherited
    check(&button(on, None, &[], 600), P::PositionInherited);
    check(&button(None, None, &[], 600), P::Inherited);
    // neither value known
    check(&button(Some(&[1, 2, 3, 4]), Some(&POSVAL_TOP), &[], 600), P::Unknown);
    check(&button(on, Some(&[9, 9, 9, 9]), &[], 600), P::Unknown);
}

// Synthetic buffers with and without the image anchor.
#[test]
fn coltitle_image() {
    let with1 = style_buffer(&stream(900, &[(300, &IMG_ANCHOR), (320, &[0x11, 0x22])]), 600);
    let with2 = style_buffer(&stream(900, &[(300, &IMG_ANCHOR), (320, &[0x11, 0x23])]), 600);
    let without = style_buffer(&stream(900, &[]), 600);
    assert!(has_coltitle_image(&with1));
    assert!(!has_coltitle_image(&without));
    let id1 = coltitle_image_id(&with1);
    let id2 = coltitle_image_id(&with2);
    assert!(id1 > 0 && id2 > 0);
    assert_ne!(id1, id2);
    assert_eq!(coltitle_image_id(&without), 0);
    assert_eq!(coltitle_image_id(&with1), id1);
    assert_eq!(coltitle_image_flag(&with1), 1);
    assert_eq!(coltitle_image_flag(&without), 0);
}

#[test]
fn fehlerfaelle() {
    let junk = [0u8; 32];
    assert_eq!(caption_position(&junk), ERR_BAD_HEADER);
    assert_eq!(base_hash(&junk), ERR_BAD_HEADER);
    assert_eq!(coltitle_image_id(&junk), ERR_BAD_HEADER);
    assert!(!has_coltitle_image(&junk));
    assert_eq!(coltitle_image_flag(&junk), ERR_BAD_HEADER);
    assert_eq!(uncompressed_size(&junk), ERR_BAD_HEADER);
    assert!(uncompress(&junk).is_err());
}

#[test]
fn lib_ffi_smoke() {
    let buf = button(Some(&VAL_CAPTION_ON), Some(&POSVAL_TOP), &[], 600);
    assert_eq!(caption_position(&buf), CaptionPosition::Top as i32);
    assert_eq!(uncompressed_size(&buf), 600);
    let raw = uncompress(&buf).unwrap();
    assert!(raw.len() >= 600);
}

#[test]
fn literal_stream_round_trip() {
    let raw: Vec<u8> = (0..=255u8).chain(0..=255u8).collect();
    let out = lzhuf_decode_all(&encode_literals(&raw));
    assert_eq!(&out[..raw.len()], &raw[..]);
    assert!(out.len() <= raw.len() + 8 * 60);
}

#[test]
fn declared_size_beyond_stream_is_decode_error() {
    let buf = style_buffer(&stream(300, &[]), 5000);
    assert_eq!(caption_position(&buf), ERR_DECODE);
}

#[test]
fn header_limits() {
    let mut buf = style_buffer(&stream(300, &[]), 100);
    buf[0] = 5;
    assert_eq!(uncompressed_size(&buf), ERR_BAD_HEADER);
    let zero = style_buffer(&stream(300, &[]), 0);
    assert_eq!(uncompressed_size(&zero), ERR_BAD_HEADER);
    let too_big = style_buffer(&stream(300, &[]), (1 << 20) + 1);
    assert_eq!(uncompressed_size(&too_big), ERR_BAD_HEADER);
    let max = style_buffer(&stream(300, &[]), 1 << 20);
    assert_eq!(uncompressed_size(&max), 1 << 20);
}

#[test]
fn base_hash_same_sheet() {
    // overrides after the first 256 decoded bytes do not change the hash
    let a = style_buffer(&stream(700, &[(300, &POSVAL_TOP)]), 600);
    let b = style_buffer(&stream(700, &[(300, &POSVAL_LEFT), (500, &[0xEE])]), 600);
    let c = style_buffer(&stream(700, &[(5, &[0xEE, 0xEE])]), 600);
    let ha = base_hash(&a);
    assert!(ha >= 0);
    assert_eq!(ha, base_hash(&b));
    assert_ne!(ha, base_hash(&c));
}

#[test]
fn fnv_of_known_input() {
    // FNV-1a-32 of "a" is 0xE40C292C; the result keeps the low 31 bits.
    assert_eq!(wd_style::style::fnv1a_window(b"a"), (0xE40C_292Cu32 & 0x7FFF_FFFF) as i32);
    // of the empty input: the offset basis 0x811C9DC5, masked
    assert_eq!(wd_style::style::fnv1a_window(b""), 0x011C_9DC5);
}

#[test]
fn find_first_occurrence() {
    assert_eq!(find(b"abcabc", b"bc"), Some(1));
    assert_eq!(find(b"abc", b""), None);
    assert_eq!(find(b"ab", b"abc"), None);
    assert_eq!(find(b"abc", b"x"), None);
}

fn weight(h: &Huff, s: usize) -> u32 {
    h.freq[h.prnt[s + T]]
}

#[test]
fn update_counts_one_symbol() {
    let mut h = Huff::new();
    assert_eq!(h.freq[ROOT], N_CHAR as u32);
    for s in 0..N_CHAR {
        assert_eq!(weight(&h, s), 1);
    }
    h.update(65);
    assert_eq!(weight(&h, 65), 2);
    for s in (0..N_CHAR).filter(|&s| s != 65) {
        assert_eq!(weight(&h, s), 1);
    }
    assert_eq!(h.freq[ROOT], N_CHAR as u32 + 1);
    h.update(65);
    h.update(7);
    assert_eq!(weight(&h, 65), 3);
    assert_eq!(weight(&h, 7), 2);
    assert_eq!(h.freq[ROOT], N_CHAR as u32 + 3);
}

#[test]
fn reconst_halves_counts_rounding_up() {
    let mut h = Huff::new();
    let mut k: usize = 0;
    while h.freq[ROOT] < MAX_FREQ {
        // uneven counts: symbol 0 gets most, a few others some
        let s = if k % 5 == 0 { 3 + k % 11 } else { 0 };
        h.update(s);
        k += 1;
    }
    assert_eq!(h.freq[ROOT], MAX_FREQ);
    let before: Vec<u32> = (0..N_CHAR).map(|s| weight(&h, s)).collect();
    assert!(before.iter().any(|w| w % 2 == 1));
    h.reconst();
    for s in 0..N_CHAR {
        assert_eq!(weight(&h, s), (before[s] + 1) / 2);
    }
    assert!(h.freq[ROOT] < MAX_FREQ);
    // the next update at the limit halves first, then counts
    let mut g = Huff::new();
    let mut k: usize = 0;
    while g.freq[ROOT] < MAX_FREQ {
        g.update(k % 2);
        k += 1;
    }
    let w0: Vec<u32> = (0..N_CHAR).map(|s| weight(&g, s)).collect();
    g.update(9);
    for s in 0..N_CHAR {
        let add = if s == 9 { 1 } else { 0 };
        assert_eq!(weight(&g, s), (w0[s] + 1) / 2 + add);
    }
}

#[test]
fn decoded_length_bounded_by_payload() {
    for payload in [vec![], vec![0u8], vec![0xFFu8; 3], vec![0x5Au8; 40]] {
        let out = lzhuf_decode_all(&payload);
        assert!(out.len() <= 480 * payload.len());
    }
    assert!(lzhuf_decode_all(&[]).is_empty());
}

#[test]
fn image_flag_agrees_with_fingerprint() {
    let with = style_buffer(&stream(500, &[(100, &IMG_ANCHOR)]), 400);
    let without = style_buffer(&stream(500, &[]), 400);
    let junk = [7u8; 16];
    for buf in [&with[..], &without[..], &junk[..]] {
        let flag = coltitle_image_flag(buf);
        let id = coltitle_image_id(buf);
        assert_eq!(flag == 1, id > 0);
        assert_eq!(flag == 0, id == 0);
        if flag < 0 {
            assert_eq!(flag, id);
        }
    }
    assert_eq!(coltitle_image_flag(&with), 1);
    assert_eq!(coltitle_image_flag(&junk), ERR_BAD_HEADER);
}

#[test]
fn reconst_below_limit_halves_too() {
    let mut h = Huff::new();
    for _ in 0..6 {
        h.update(40);
    }
    h.update(41);
    let before: Vec<u32> = (0..N_CHAR).map(|s| weight(&h, s)).collect();
    assert_eq!(before[40], 7);
    h.reconst();
    for s in 0..N_CHAR {
        assert_eq!(weight(&h, s), (before[s] + 1) / 2);
    }
    assert_eq!(weight(&h, 40), 4);
    assert_eq!(weight(&h, 41), 1);
    assert_eq!(h.freq[ROOT], 4 + 1 + (N_CHAR as u32 - 2));
}
