//! The `..Style` buffer: header, substring search, the signature rules for
//! the caption position, and the fingerprints.
use vstd::prelude::*;
use crate::bytes::le32;
use crate::lzhuf::{lzhuf_decode, lzhuf_decode_all, MAX_OUTPUT};

verus! {

/// The caption positions a style buffer can report (the 12 editor choices,
/// plus "unknown" and the two inherited cases).
#[derive(Clone, Copy, PartialEq, Eq, Debug)]
pub enum CaptionPosition {
    Unknown,
    NoCaption,
    Top,
    Bottom,
    Center,
    Left,
    Right,
    CenterJuxtaposedImage,
    CenterLeftImage,
    CenterRightImage,
    LeftLeftImage,
    RightRightImage,
    FreePositioning,
    /// Caption visible by override, position not overridden: it comes from
    /// the style sheet.
    PositionInherited,
    /// Neither caption nor position overridden: all from the style sheet.
    Inherited,
}

impl CaptionPosition {
    pub open spec fn code_spec(self) -> i32 {
        match self {
            CaptionPosition::Unknown => 0,
            CaptionPosition::NoCaption => 1,
            CaptionPosition::Top => 2,
            CaptionPosition::Bottom => 3,
            CaptionPosition::Center => 4,
            CaptionPosition::Left => 5,
            CaptionPosition::Right => 6,
            CaptionPosition::CenterJuxtaposedImage => 7,
            CaptionPosition::CenterLeftImage => 8,
            CaptionPosition::CenterRightImage => 9,
            CaptionPosition::LeftLeftImage => 10,
            CaptionPosition::RightRightImage => 11,
            CaptionPosition::FreePositioning => 12,
            CaptionPosition::PositionInherited => 13,
            CaptionPosition::Inherited => 14,
        }
    }

    /// The number reported for this position.
    #[verifier::when_used_as_spec(code_spec)]
    pub fn code(self) -> (r: i32)
        ensures
            r == self.code_spec(),
    {
        match self {
            CaptionPosition::Unknown => 0,
            CaptionPosition::NoCaption => 1,
            CaptionPosition::Top => 2,
            CaptionPosition::Bottom => 3,
            CaptionPosition::Center => 4,
            CaptionPosition::Left => 5,
            CaptionPosition::Right => 6,
            CaptionPosition::CenterJuxtaposedImage => 7,
            CaptionPosition::CenterLeftImage => 8,
            CaptionPosition::CenterRightImage => 9,
            CaptionPosition::LeftLeftImage => 10,
            CaptionPosition::RightRightImage => 11,
            CaptionPosition::FreePositioning => 12,
            CaptionPosition::PositionInherited => 13,
            CaptionPosition::Inherited => 14,
        }
    }
}

/// Null pointer or too short (reported by the C interface).
pub const ERR_BAD_ARGS: i32 = -1;
/// No 0x04 LZHUF header.
pub const ERR_BAD_HEADER: i32 = -2;
/// The stream decodes to less than the declared size.
pub const ERR_DECODE: i32 = -3;

// ---------------------------------------------------------------------------
// Header
// ---------------------------------------------------------------------------

/// Declared size of the first block (bytes 5..9, little endian).
pub open spec fn declared_size(style: Seq<u8>) -> int {
    le32(style, 5)
}

/// A usable header: at least 12 bytes, type 0x04, declared size in
/// `1 ..= MAX_OUTPUT`.
pub open spec fn header_ok(style: Seq<u8>) -> bool {
    &&& style.len() >= 12
    &&& style[0] == 4
    &&& 0 < declared_size(style) <= MAX_OUTPUT
}

/// The decoded stream of a buffer whose header is usable.
pub open spec fn decoded(style: Seq<u8>) -> Seq<u8> {
    lzhuf_decode(style.subrange(11, style.len() as int))
}

/// Check the header; gives the declared size and the payload after byte 11.
pub fn parse_header(data: &[u8]) -> (r: Result<(usize, &[u8]), i32>)
    ensures
        match r {
            Ok((orig, payload)) => header_ok(data@) && orig == declared_size(data@) && payload@
                == data@.subrange(11, data@.len() as int),
            Err(e) => !header_ok(data@) && e == ERR_BAD_HEADER,
        },
{
    if data.len() < 12 {
        return Err(ERR_BAD_HEADER);
    }
    if data[0] != 4 {
        return Err(ERR_BAD_HEADER);
    }
    let orig = crate::bytes::u32_le(data, 5) as usize;
    if orig == 0 || orig > MAX_OUTPUT {
        return Err(ERR_BAD_HEADER);
    }
    let (_, payload) = data.split_at(11);
    Ok((orig, payload))
}

// ---------------------------------------------------------------------------
// Substring search
// ---------------------------------------------------------------------------

/// `n` occurs in `h` at position `i`.
pub open spec fn matches_at(h: Seq<u8>, n: Seq<u8>, i: int) -> bool {
    &&& 0 <= i
    &&& i + n.len() <= h.len()
    &&& forall|k: int| 0 <= k < n.len() ==> h[i + k] == n[k]
}

/// First occurrence of `n` in `h` at or after `i`.
pub open spec fn find_from(h: Seq<u8>, n: Seq<u8>, i: int) -> Option<int>
    decreases h.len() - i,
{
    if i < 0 || i + n.len() > h.len() {
        None
    } else if matches_at(h, n, i) {
        Some(i)
    } else {
        find_from(h, n, i + 1)
    }
}

/// First occurrence of a non-empty `n` in `h`.
pub open spec fn spec_find(h: Seq<u8>, n: Seq<u8>) -> Option<int> {
    if n.len() == 0 || h.len() < n.len() {
        None
    } else {
        find_from(h, n, 0)
    }
}

/// The search result is an occurrence at or after the start.
pub proof fn lemma_find_from(h: Seq<u8>, n: Seq<u8>, i: int)
    ensures
        find_from(h, n, i) matches Some(j) ==> i <= j && matches_at(h, n, j),
    decreases h.len() - i,
{
    if !(i < 0 || i + n.len() > h.len()) && !matches_at(h, n, i) {
        lemma_find_from(h, n, i + 1);
    }
}

/// Whether `n` occurs in `h` at `i`.
pub fn eq_at(h: &[u8], i: usize, n: &[u8]) -> (r: bool)
    ensures
        r == matches_at(h@, n@, i as int),
{
    if i > h.len() || n.len() > h.len() - i {
        return false;
    }
    let hl = h.len();
    let mut k: usize = 0;
    while k < n.len()
        invariant
            i + n@.len() <= h@.len(),
            hl == h@.len(),
            k <= n@.len(),
            forall|x: int| 0 <= x < k ==> h@[i + x] == n@[x],
        decreases n.len() - k,
    {
        if h[i + k] != n[k] {
            return false;
        }
        k = k + 1;
    }
    true
}

/// Position of the first occurrence of `needle` in `haystack`.
pub fn find(haystack: &[u8], needle: &[u8]) -> (r: Option<usize>)
    ensures
        r.is_some() == spec_find(haystack@, needle@).is_some(),
        r.is_some() ==> r.unwrap() as int == spec_find(haystack@, needle@).unwrap(),
{
    if needle.len() == 0 || haystack.len() < needle.len() {
        return None;
    }
    let last = haystack.len() - needle.len();
    let mut i: usize = 0;
    while i <= last
        invariant
            last == haystack@.len() - needle@.len(),
            last < usize::MAX,
            needle@.len() > 0,
            i <= last + 1,
            find_from(haystack@, needle@, i as int) == find_from(haystack@, needle@, 0),
        decreases last + 1 - i,
    {
        if eq_at(haystack, i, needle) {
            return Some(i);
        }
        i = i + 1;
    }
    None
}

} // verus!

verus! {

// ---------------------------------------------------------------------------
// Signatures (verified on 41 sample buffers)
// ---------------------------------------------------------------------------

pub open spec fn tok_caption() -> Seq<u8> {
    seq![0x34u8, 0xB4u8, 0x81u8, 0x77u8, 0xF4u8, 0xC4u8]
}

pub open spec fn val_no_caption() -> Seq<u8> {
    seq![0x24u8, 0x00u8, 0x00u8, 0x00u8]
}

pub open spec fn val_caption_on() -> Seq<u8> {
    seq![0x9Au8, 0xA9u8, 0xC4u8, 0x22u8]
}

pub open spec fn tok_position() -> Seq<u8> {
    seq![0x6Du8, 0xEFu8, 0x5Fu8, 0xA4u8, 0xDDu8, 0x79u8, 0x9Fu8, 0xD0u8, 0x18u8, 0x77u8]
}

pub open spec fn posval_top() -> Seq<u8> {
    seq![0x8Fu8, 0x97u8, 0x5Fu8, 0xD9u8]
}

pub open spec fn posval_bottom() -> Seq<u8> {
    seq![0x8Fu8, 0xC8u8, 0xE6u8, 0x00u8]
}

pub open spec fn posval_center() -> Seq<u8> {
    seq![0x8Fu8, 0xC8u8, 0x49u8, 0x00u8]
}

pub open spec fn posval_right() -> Seq<u8> {
    seq![0x8Fu8, 0xCDu8, 0xC8u8, 0x00u8]
}

pub open spec fn posval_left() -> Seq<u8> {
    seq![0x50u8, 0x00u8, 0x00u8, 0x00u8]
}

pub open spec fn sig_juxtaposed() -> Seq<u8> {
    seq![0x9Au8, 0xA9u8, 0x12u8, 0xB4u8, 0xF2u8, 0xF3u8]
}

pub open spec fn sig_img_left() -> Seq<u8> {
    seq![0x50u8, 0xA5u8, 0x3Eu8, 0xB6u8]
}

pub open spec fn sig_img_right() -> Seq<u8> {
    seq![0x50u8, 0xA5u8, 0x3Eu8, 0x2Cu8]
}

pub open spec fn sig_left_left() -> Seq<u8> {
    seq![0x65u8, 0xFDu8, 0x2Cu8, 0xD8u8, 0xC4u8, 0xEDu8, 0x7Eu8, 0xDDu8]
}

pub open spec fn sig_right_right() -> Seq<u8> {
    seq![0xD8u8, 0xECu8, 0x70u8, 0x1Cu8, 0xBEu8, 0xFAu8, 0xEBu8, 0xD8u8]
}

/// Anchor that appears when a column-title image is set.
pub open spec fn img_anchor() -> Seq<u8> {
    seq![0x9Au8, 0xD4u8, 0x0Bu8, 0x7Eu8, 0x4Du8]
}

/// Free positioning makes the declared first block larger than this.
pub const FREE_THRESHOLD: usize = 1600;
/// Length of the window hashed behind the image anchor.
pub const IMG_WINDOW: usize = 256;

fn tok_caption_bytes() -> (r: [u8; 6])
    ensures
        r@ == tok_caption(),
{
    let r = [0x34u8, 0xB4, 0x81, 0x77, 0xF4, 0xC4];
    assert(r@ =~= tok_caption());
    r
}

fn val_no_caption_bytes() -> (r: [u8; 4])
    ensures
        r@ == val_no_caption(),
{
    let r = [0x24u8, 0x00, 0x00, 0x00];
    assert(r@ =~= val_no_caption());
    r
}

fn val_caption_on_bytes() -> (r: [u8; 4])
    ensures
        r@ == val_caption_on(),
{
    let r = [0x9Au8, 0xA9, 0xC4, 0x22];
    assert(r@ =~= val_caption_on());
    r
}

fn tok_position_bytes() -> (r: [u8; 10])
    ensures
        r@ == tok_position(),
{
    let r = [0x6Du8, 0xEF, 0x5F, 0xA4, 0xDD, 0x79, 0x9F, 0xD0, 0x18, 0x77];
    assert(r@ =~= tok_position());
    r
}

fn posval_top_bytes() -> (r: [u8; 4])
    ensures
        r@ == posval_top(),
{
    let r = [0x8Fu8, 0x97, 0x5F, 0xD9];
    assert(r@ =~= posval_top());
    r
}

fn posval_bottom_bytes() -> (r: [u8; 4])
    ensures
        r@ == posval_bottom(),
{
    let r = [0x8Fu8, 0xC8, 0xE6, 0x00];
    assert(r@ =~= posval_bottom());
    r
}

fn posval_center_bytes() -> (r: [u8; 4])
    ensures
        r@ == posval_center(),
{
    let r = [0x8Fu8, 0xC8, 0x49, 0x00];
    assert(r@ =~= posval_center());
    r
}

fn posval_right_bytes() -> (r: [u8; 4])
    ensures
        r@ == posval_right(),
{
    let r = [0x8Fu8, 0xCD, 0xC8, 0x00];
    assert(r@ =~= posval_right());
    r
}

fn posval_left_bytes() -> (r: [u8; 4])
    ensures
        r@ == posval_left(),
{
    let r = [0x50u8, 0x00, 0x00, 0x00];
    assert(r@ =~= posval_left());
    r
}

fn sig_juxtaposed_bytes() -> (r: [u8; 6])
    ensures
        r@ == sig_juxtaposed(),
{
    let r = [0x9Au8, 0xA9, 0x12, 0xB4, 0xF2, 0xF3];
    assert(r@ =~= sig_juxtaposed());
    r
}

fn sig_img_left_bytes() -> (r: [u8; 4])
    ensures
        r@ == sig_img_left(),
{
    let r = [0x50u8, 0xA5, 0x3E, 0xB6];
    assert(r@ =~= sig_img_left());
    r
}

fn sig_img_right_bytes() -> (r: [u8; 4])
    ensures
        r@ == sig_img_right(),
{
    let r = [0x50u8, 0xA5, 0x3E, 0x2C];
    assert(r@ =~= sig_img_right());
    r
}

fn sig_left_left_bytes() -> (r: [u8; 8])
    ensures
        r@ == sig_left_left(),
{
    let r = [0x65u8, 0xFD, 0x2C, 0xD8, 0xC4, 0xED, 0x7E, 0xDD];
    assert(r@ =~= sig_left_left());
    r
}

fn sig_right_right_bytes() -> (r: [u8; 8])
    ensures
        r@ == sig_right_right(),
{
    let r = [0xD8u8, 0xEC, 0x70, 0x1C, 0xBE, 0xFA, 0xEB, 0xD8];
    assert(r@ =~= sig_right_right());
    r
}

fn img_anchor_bytes() -> (r: [u8; 5])
    ensures
        r@ == img_anchor(),
{
    let r = [0x9Au8, 0xD4, 0x0B, 0x7E, 0x4D];
    assert(r@ =~= img_anchor());
    r
}

// ---------------------------------------------------------------------------
// Caption position
// ---------------------------------------------------------------------------

/// The signature `sig` occurs somewhere in `raw`.
pub open spec fn has_sig(raw: Seq<u8>, sig: Seq<u8>) -> bool {
    spec_find(raw, sig) is Some
}

/// The 4 value bytes at offset `off` behind the first token `tok`, if the
/// token occurs and the value fits in `raw`.
pub open spec fn token_value(raw: Seq<u8>, tok: Seq<u8>, off: int) -> Option<Seq<u8>> {
    match spec_find(raw, tok) {
        Some(i) => if raw.len() >= i + off + 4 {
            Some(raw.subrange(i + off, i + off + 4))
        } else {
            None
        },
        None => None,
    }
}

/// The caption position read from a decoded stream whose first block has the
/// declared size `orig`.  Tokens are overrides: a missing token means the
/// value is inherited from the style sheet.
pub open spec fn classify(orig: int, raw: Seq<u8>) -> CaptionPosition {
    let cap = token_value(raw, tok_caption(), 6);
    if cap == Some(val_no_caption()) {
        CaptionPosition::NoCaption
    } else if cap is Some && cap != Some(val_caption_on()) {
        CaptionPosition::Unknown
    } else if orig > FREE_THRESHOLD {
        CaptionPosition::FreePositioning
    } else {
        match token_value(raw, tok_position(), 10) {
            None => if cap is Some {
                CaptionPosition::PositionInherited
            } else {
                CaptionPosition::Inherited
            },
            Some(pos) => if pos == posval_top() {
                CaptionPosition::Top
            } else if pos == posval_bottom() {
                CaptionPosition::Bottom
            } else if pos == posval_center() {
                if has_sig(raw, sig_juxtaposed()) {
                    CaptionPosition::CenterJuxtaposedImage
                } else if has_sig(raw, sig_img_left()) {
                    CaptionPosition::CenterLeftImage
                } else if has_sig(raw, sig_img_right()) {
                    CaptionPosition::CenterRightImage
                } else {
                    CaptionPosition::Center
                }
            } else if pos == posval_left() {
                if has_sig(raw, sig_left_left()) {
                    CaptionPosition::LeftLeftImage
                } else {
                    CaptionPosition::Left
                }
            } else if pos == posval_right() {
                if has_sig(raw, sig_right_right()) {
                    CaptionPosition::RightRightImage
                } else {
                    CaptionPosition::Right
                }
            } else {
                CaptionPosition::Unknown
            },
        }
    }
}

/// What `caption_position` reports for a style buffer.
pub open spec fn caption_position_spec(style: Seq<u8>) -> i32 {
    if !header_ok(style) {
        ERR_BAD_HEADER
    } else if decoded(style).len() < declared_size(style) {
        ERR_DECODE
    } else {
        classify(declared_size(style), decoded(style)).code_spec()
    }
}

/// Value behind the first `tok`, like `token_value`.
fn find_token_value(raw: &Vec<u8>, tok: &[u8], off: usize) -> (r: Option<usize>)
    requires
        off <= 10,
    ensures
        match token_value(raw@, tok@, off as int) {
            Some(v) => r.is_some() && r.unwrap() == spec_find(raw@, tok@).unwrap() + off,
            None => r.is_none(),
        },
{
    let rsl = raw.as_slice();
    let f = find(rsl, tok);
    match f {
        Some(i) => {
            assert(spec_find(raw@, tok@) == Some(i as int));
            if raw.len() >= off + 4 && i <= raw.len() - off - 4 {
                Some(i + off)
            } else {
                None
            }
        },
        None => None,
    }
}

/// The 4 bytes at `at` equal `val`.
fn value_is(raw: &Vec<u8>, at: usize, val: &[u8]) -> (r: bool)
    requires
        at + 4 <= raw@.len(),
        val@.len() == 4,
    ensures
        r == (raw@.subrange(at as int, at + 4) == val@),
{
    let r = eq_at(raw.as_slice(), at, val);
    assert(r == (raw@.subrange(at as int, at + 4) =~= val@));
    r
}

/// Caption position code of a style buffer (see `CaptionPosition`), or a
/// negative error code.
pub fn caption_position(style: &[u8]) -> (r: i32)
    ensures
        r == caption_position_spec(style@),
{
    let (orig, payload) = match parse_header(style) {
        Ok(v) => v,
        Err(e) => return e,
    };
    let raw = lzhuf_decode_all(payload);
    if raw.len() < orig {
        return ERR_DECODE;
    }
    let ghost rs = raw@;
    // 1) caption override
    let tc = tok_caption_bytes();
    let cap_at = find_token_value(&raw, tc.as_slice(), 6);
    let ghost cap = token_value(rs, tok_caption(), 6);
    if let Some(a) = cap_at {
        let nc = val_no_caption_bytes();
        if value_is(&raw, a, nc.as_slice()) {
            return CaptionPosition::NoCaption.code();
        }
        let on = val_caption_on_bytes();
        if !value_is(&raw, a, on.as_slice()) {
            assert(cap != Some(val_no_caption()));
            return CaptionPosition::Unknown.code();
        }
    }
    // 2) free positioning
    if orig > FREE_THRESHOLD {
        return CaptionPosition::FreePositioning.code();
    }
    // 3) text position override
    let tp = tok_position_bytes();
    let pos_at = match find_token_value(&raw, tp.as_slice(), 10) {
        Some(a) => a,
        None => {
            return if cap_at.is_some() {
                CaptionPosition::PositionInherited.code()
            } else {
                CaptionPosition::Inherited.code()
            };
        },
    };
    let ghost pos = token_value(rs, tok_position(), 10).unwrap();
    let top = posval_top_bytes();
    if value_is(&raw, pos_at, top.as_slice()) {
        return CaptionPosition::Top.code();
    }
    let bottom = posval_bottom_bytes();
    if value_is(&raw, pos_at, bottom.as_slice()) {
        return CaptionPosition::Bottom.code();
    }
    let center = posval_center_bytes();
    if value_is(&raw, pos_at, center.as_slice()) {
        let s1 = sig_juxtaposed_bytes();
        if find(raw.as_slice(), s1.as_slice()).is_some() {
            return CaptionPosition::CenterJuxtaposedImage.code();
        }
        let s2 = sig_img_left_bytes();
        if find(raw.as_slice(), s2.as_slice()).is_some() {
            return CaptionPosition::CenterLeftImage.code();
        }
        let s3 = sig_img_right_bytes();
        if find(raw.as_slice(), s3.as_slice()).is_some() {
            return CaptionPosition::CenterRightImage.code();
        }
        return CaptionPosition::Center.code();
    }
    let left = posval_left_bytes();
    if value_is(&raw, pos_at, left.as_slice()) {
        let s4 = sig_left_left_bytes();
        if find(raw.as_slice(), s4.as_slice()).is_some() {
            return CaptionPosition::LeftLeftImage.code();
        }
        return CaptionPosition::Left.code();
    }
    let right = posval_right_bytes();
    if value_is(&raw, pos_at, right.as_slice()) {
        let s5 = sig_right_right_bytes();
        if find(raw.as_slice(), s5.as_slice()).is_some() {
            return CaptionPosition::RightRightImage.code();
        }
        return CaptionPosition::Right.code();
    }
    CaptionPosition::Unknown.code()
}

} // verus!

verus! {

// ---------------------------------------------------------------------------
// Fingerprints (FNV-1a, 32 bit)
// ---------------------------------------------------------------------------

pub open spec fn fnv_step(h: u32, b: u8) -> u32 {
    vstd::wrapping::u32_specs::wrapping_mul(h ^ (b as u32), 0x0100_0193u32)
}

/// FNV-1a-32 of `s`.
pub open spec fn fnv32(s: Seq<u8>) -> u32
    decreases s.len(),
{
    if s.len() == 0 {
        0x811C_9DC5u32
    } else {
        fnv_step(fnv32(s.drop_last()), s.last())
    }
}

fn fnv32_exec(buf: &[u8], n: usize) -> (h: u32)
    requires
        n <= buf@.len(),
    ensures
        h == fnv32(buf@.subrange(0, n as int)),
{
    let mut h: u32 = 0x811C_9DC5;
    let mut i: usize = 0;
    assert(buf@.subrange(0, 0) =~= Seq::<u8>::empty());
    while i < n
        invariant
            i <= n <= buf@.len(),
            h == fnv32(buf@.subrange(0, i as int)),
        decreases n - i,
    {
        assert(buf@.subrange(0, i + 1).drop_last() =~= buf@.subrange(0, i as int));
        h = h ^ (buf[i] as u32);
        h = h.wrapping_mul(0x0100_0193);
        i = i + 1;
    }
    h
}

/// 31-bit mask of a hash, as a non-negative `i32`.
pub open spec fn mask31(h: u32) -> i32 {
    (h & 0x7FFF_FFFFu32) as i32
}

fn mask31_exec(h: u32) -> (r: i32)
    ensures
        r == mask31(h),
        r >= 0,
        r as int == (h & 0x7FFF_FFFFu32) as int,
{
    let m = h & 0x7FFF_FFFF;
    assert(m <= 0x7FFF_FFFF) by (bit_vector)
        requires
            m == h & 0x7FFF_FFFFu32,
    ;
    m as i32
}

/// What `base_hash` reports.
pub open spec fn base_hash_spec(style: Seq<u8>) -> i32 {
    if !header_ok(style) {
        ERR_BAD_HEADER
    } else {
        let raw = decoded(style);
        let n = if raw.len() < 256 {
            raw.len() as int
        } else {
            256
        };
        mask31(fnv32(raw.subrange(0, n)))
    }
}

/// FNV-1a-32 over the first 256 decoded bytes, masked to 31 bits (never
/// negative).  This region holds the style-sheet reference but no position
/// override, so buttons of one style sheet share the hash.
pub fn base_hash(style: &[u8]) -> (r: i32)
    ensures
        r == base_hash_spec(style@),
{
    let payload = match parse_header(style) {
        Ok((_, p)) => p,
        Err(e) => return e,
    };
    let raw = lzhuf_decode_all(payload);
    let n = if raw.len() < 256 {
        raw.len()
    } else {
        256
    };
    let h = fnv32_exec(raw.as_slice(), n);
    mask31_exec(h)
}

/// The masked hash of a window, with 0 (reserved for "no image") mapped to 1.
pub open spec fn fnv_window_spec(buf: Seq<u8>) -> i32 {
    let r = mask31(fnv32(buf));
    if r == 0 {
        1
    } else {
        r
    }
}

pub fn fnv1a_window(buf: &[u8]) -> (r: i32)
    ensures
        r == fnv_window_spec(buf@),
        r > 0,
{
    let h = fnv32_exec(buf, buf.len());
    assert(buf@.subrange(0, buf@.len() as int) =~= buf@);
    let r = mask31_exec(h);
    if r == 0 {
        1
    } else {
        r
    }
}

/// A column-title image is set: the header is usable and the anchor occurs
/// in the decoded stream.
pub open spec fn has_coltitle_image_spec(style: Seq<u8>) -> bool {
    header_ok(style) && has_sig(decoded(style), img_anchor())
}

/// Whether a column-title / border background image is set.
pub fn has_coltitle_image(style: &[u8]) -> (r: bool)
    ensures
        r == has_coltitle_image_spec(style@),
{
    match parse_header(style) {
        Ok((_, payload)) => {
            let raw = lzhuf_decode_all(payload);
            let a = img_anchor_bytes();
            find(raw.as_slice(), a.as_slice()).is_some()
        },
        Err(_) => false,
    }
}

/// What `coltitle_image_id` reports: the error code, 0 without anchor, else
/// the window hash from the anchor on (at most `IMG_WINDOW` bytes).
pub open spec fn coltitle_image_id_spec(style: Seq<u8>) -> i32 {
    if !header_ok(style) {
        ERR_BAD_HEADER
    } else {
        let raw = decoded(style);
        match spec_find(raw, img_anchor()) {
            None => 0,
            Some(i) => {
                let end = if i + IMG_WINDOW < raw.len() {
                    i + IMG_WINDOW
                } else {
                    raw.len() as int
                };
                fnv_window_spec(raw.subrange(i, end))
            },
        }
    }
}

/// Fingerprint of the column-title image for a lookup table: 0 = none,
/// negative = error, positive = hash of the image field.
pub fn coltitle_image_id(style: &[u8]) -> (r: i32)
    ensures
        r == coltitle_image_id_spec(style@),
{
    let payload = match parse_header(style) {
        Ok((_, p)) => p,
        Err(e) => return e,
    };
    let raw = lzhuf_decode_all(payload);
    let a = img_anchor_bytes();
    match find(raw.as_slice(), a.as_slice()) {
        None => 0,
        Some(i) => {
            proof {
                lemma_find_from(raw@, img_anchor(), 0);
            }
            let end = if i < raw.len() && IMG_WINDOW < raw.len() - i {
                i + IMG_WINDOW
            } else {
                raw.len()
            };
            let rsl = raw.as_slice();
            let (head, _) = rsl.split_at(end);
            let (_, win) = head.split_at(i);
            assert(win@ =~= raw@.subrange(i as int, end as int));
            fnv1a_window(win)
        },
    }
}

} // verus!

verus! {

// ---------------------------------------------------------------------------
// The remaining computations behind the C interface
// ---------------------------------------------------------------------------

/// The declared size of the first block, or the header error.
pub fn uncompressed_size(style: &[u8]) -> (r: i32)
    ensures
        header_ok(style@) ==> r == declared_size(style@),
        !header_ok(style@) ==> r == ERR_BAD_HEADER,
{
    match parse_header(style) {
        Ok((orig, _)) => orig as i32,
        Err(e) => e,
    }
}

/// The complete decoded stream, or the header error.
pub fn uncompress(style: &[u8]) -> (r: Result<Vec<u8>, i32>)
    ensures
        match r {
            Ok(raw) => header_ok(style@) && raw@ == decoded(style@) && raw@.len() <= MAX_OUTPUT + 59,
            Err(e) => !header_ok(style@) && e == ERR_BAD_HEADER,
        },
{
    match parse_header(style) {
        Ok((_, payload)) => Ok(lzhuf_decode_all(payload)),
        Err(e) => Err(e),
    }
}

/// 1 = image set, 0 = none, or the header error.
pub fn coltitle_image_flag(style: &[u8]) -> (r: i32)
    ensures
        !header_ok(style@) ==> r == ERR_BAD_HEADER,
        header_ok(style@) ==> r == (if has_coltitle_image_spec(style@) { 1i32 } else { 0i32 }),
        r == 1 <==> coltitle_image_id_spec(style@) > 0,
        r == 0 <==> coltitle_image_id_spec(style@) == 0,
        r < 0 ==> r == coltitle_image_id_spec(style@),
{
    proof {
        lemma_coltitle_consistent(style@);
    }
    match parse_header(style) {
        Ok(_) => {
            if has_coltitle_image(style) {
                1
            } else {
                0
            }
        },
        Err(e) => e,
    }
}

// ---------------------------------------------------------------------------
// Laws
// ---------------------------------------------------------------------------

/// An image is reported as set exactly when its fingerprint is positive;
/// without an image the fingerprint is 0, and it is negative exactly when
/// the header is unusable.
pub proof fn lemma_coltitle_consistent(style: Seq<u8>)
    ensures
        has_coltitle_image_spec(style) <==> coltitle_image_id_spec(style) > 0,
        header_ok(style) && !has_coltitle_image_spec(style) ==> coltitle_image_id_spec(style) == 0,
        coltitle_image_id_spec(style) < 0 <==> !header_ok(style),
{
    if header_ok(style) {
        let raw = decoded(style);
        if let Some(i) = spec_find(raw, img_anchor()) {
            let end = if i + IMG_WINDOW < raw.len() {
                i + IMG_WINDOW
            } else {
                raw.len() as int
            };
            lemma_fnv_window_pos(raw.subrange(i, end));
        }
    }
}

/// The decoded bytes from position `i` on, at most `IMG_WINDOW` of them.
pub open spec fn image_field(raw: Seq<u8>, i: int) -> Seq<u8> {
    raw.subrange(i, if i + IMG_WINDOW < raw.len() { i + IMG_WINDOW as int } else { raw.len() as int })
}

/// The image fingerprint depends only on the image field: two usable
/// buffers whose decoded streams hold the same bytes from their first image
/// anchor on (at most `IMG_WINDOW` of them) get the same fingerprint,
/// whatever comes before the anchor and wherever it stands.
pub proof fn lemma_coltitle_id_from_anchor(a: Seq<u8>, b: Seq<u8>)
    requires
        header_ok(a),
        header_ok(b),
        spec_find(decoded(a), img_anchor()) is Some,
        spec_find(decoded(b), img_anchor()) is Some,
        image_field(decoded(a), spec_find(decoded(a), img_anchor()).unwrap()) == image_field(
            decoded(b),
            spec_find(decoded(b), img_anchor()).unwrap(),
        ),
    ensures
        coltitle_image_id_spec(a) == coltitle_image_id_spec(b),
{
}

/// With an image set, the fingerprint is the window hash of the image
/// field: the decoded bytes from the first anchor on (the field starts with
/// the anchor itself), at most `IMG_WINDOW` of them.
pub proof fn lemma_coltitle_id_hashes_field(style: Seq<u8>)
    requires
        header_ok(style),
        spec_find(decoded(style), img_anchor()) is Some,
    ensures
        ({
            let raw = decoded(style);
            let i = spec_find(raw, img_anchor()).unwrap();
            &&& forall|k: int| 0 <= k < 5 ==> #[trigger] image_field(raw, i)[k] == img_anchor()[k]
            &&& image_field(raw, i).len() == (if raw.len() - i < IMG_WINDOW { raw.len() - i } else {
                IMG_WINDOW as int
            })
            &&& coltitle_image_id_spec(style) == fnv_window_spec(image_field(raw, i))
        }),
{
    let raw = decoded(style);
    lemma_find_from(raw, img_anchor(), 0);
    let i = spec_find(raw, img_anchor()).unwrap();
    assert(matches_at(raw, img_anchor(), i));
    assert forall|k: int| 0 <= k < 5 implies #[trigger] image_field(raw, i)[k] == img_anchor()[k] by {
        assert(raw[i + k] == img_anchor()[k]);
    }
}

/// The window hash is always positive.
pub proof fn lemma_fnv_window_pos(buf: Seq<u8>)
    ensures
        fnv_window_spec(buf) > 0,
{
    let h = fnv32(buf);
    let m = h & 0x7FFF_FFFFu32;
    assert(m <= 0x7FFF_FFFF) by (bit_vector)
        requires
            m == h & 0x7FFF_FFFFu32,
    ;
}

/// The style-sheet hash is never negative for a usable header and is the
/// header error otherwise; buffers whose decoded streams agree on the first
/// 256 bytes (the style-sheet region) get the same hash.
pub proof fn lemma_base_hash(a: Seq<u8>, b: Seq<u8>)
    ensures
        header_ok(a) ==> base_hash_spec(a) >= 0,
        !header_ok(a) ==> base_hash_spec(a) == ERR_BAD_HEADER,
        header_ok(a) && header_ok(b) && decoded(a).len() >= 256 && decoded(b).len() >= 256
            && decoded(a).subrange(0, 256) == decoded(b).subrange(0, 256) ==> base_hash_spec(a)
            == base_hash_spec(b),
{
    if header_ok(a) {
        let raw = decoded(a);
        let n = if raw.len() < 256 {
            raw.len() as int
        } else {
            256
        };
        let h = fnv32(raw.subrange(0, n));
        let m = h & 0x7FFF_FFFFu32;
        assert(m <= 0x7FFF_FFFF) by (bit_vector)
            requires
                m == h & 0x7FFF_FFFFu32,
        ;
    }
}

/// The reported caption position is a valid code (`0 ..= 14`) exactly when
/// the header is usable and the stream covers the declared size; otherwise
/// it is the header or the decode error.
pub proof fn lemma_caption_position_range(style: Seq<u8>)
    ensures
        -3 <= caption_position_spec(style) <= 14,
        caption_position_spec(style) >= 0 <==> header_ok(style) && decoded(style).len()
            >= declared_size(style),
{
}

} // verus!
