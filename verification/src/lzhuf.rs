//! LZHUF stream decoding: position codes, the ring buffer and the whole run.
use vstd::prelude::*;
use crate::bits::{bit_at, bits_val, Bits};
use crate::huffman::{decode_char_spec, init_model, lemma_decode_char, lemma_init_wf, wf, Huff, HuffModel, N_CHAR};

verus! {

/// Size of the ring buffer.
pub const RING: usize = 4096;
/// Longest match.
pub const F: usize = 60;
/// Matches are at least `THRESHOLD + 1` bytes long.
pub const THRESHOLD: usize = 2;
/// Safety limit on the decoded length.
pub const MAX_OUTPUT: usize = 1048576;

// ---------------------------------------------------------------------------
// Position codes: the upper 6 bits of a position have a static canonical
// code (lengths 1x3, 3x4, 8x5, 12x6, 24x7, 16x8 bits)
// ---------------------------------------------------------------------------

/// Code length of the upper position bits `v`.
pub open spec fn plen(v: int) -> int {
    if v == 0 {
        3
    } else if v <= 3 {
        4
    } else if v <= 11 {
        5
    } else if v <= 23 {
        6
    } else if v <= 47 {
        7
    } else {
        8
    }
}

/// First 8-bit table index whose code starts with the code of `v`.
pub open spec fn pstart(v: int) -> int {
    if v == 0 {
        0
    } else if v <= 3 {
        32 + 16 * (v - 1)
    } else if v <= 11 {
        80 + 8 * (v - 4)
    } else if v <= 23 {
        144 + 4 * (v - 12)
    } else if v <= 47 {
        192 + 2 * (v - 24)
    } else {
        240 + (v - 48)
    }
}

/// Number of 8-bit table indices that start with the code of `v`.
pub open spec fn pspan(v: int) -> int {
    if v == 0 {
        32
    } else if v <= 3 {
        16
    } else if v <= 11 {
        8
    } else if v <= 23 {
        4
    } else if v <= 47 {
        2
    } else {
        1
    }
}

/// Upper position bits for the 8-bit prefix `i`.
pub open spec fn dcode_of(i: int) -> int {
    if i < 32 {
        0
    } else if i < 80 {
        1 + (i - 32) / 16
    } else if i < 144 {
        4 + (i - 80) / 8
    } else if i < 192 {
        12 + (i - 144) / 4
    } else if i < 240 {
        24 + (i - 192) / 2
    } else {
        48 + (i - 240)
    }
}

/// Code length for the 8-bit prefix `i`.
pub open spec fn dlen_of(i: int) -> int {
    if i < 32 {
        3
    } else if i < 80 {
        4
    } else if i < 144 {
        5
    } else if i < 192 {
        6
    } else if i < 240 {
        7
    } else {
        8
    }
}

proof fn lemma_pos_code(v: int, i: int)
    requires
        0 <= v < 64,
        pstart(v) <= i < pstart(v) + pspan(v),
    ensures
        dcode_of(i) == v,
        dlen_of(i) == plen(v),
{
}

/// The tables are filled correctly below index `n`.
pub open spec fn tables_upto(d_code: Seq<u8>, d_len: Seq<u8>, n: int) -> bool {
    forall|x: int| 0 <= x < n ==> #[trigger] d_code[x] == dcode_of(x) && d_len[x] == dlen_of(x)
}

/// Where the fill for `v` ends: the start of `v + 1`, or the table end.
pub open spec fn pend(v: int) -> int {
    if v < 64 {
        pstart(v)
    } else {
        256
    }
}

/// The decode tables of the position code: `d_code[i]` holds the upper 6
/// position bits and `d_len[i]` the code length for each 8-bit prefix `i`.
pub fn build_pos_tables() -> (r: (Vec<u8>, Vec<u8>))
    ensures
        r.0@.len() == 256,
        r.1@.len() == 256,
        forall|i: int| 0 <= i < 256 ==> r.0@[i] == dcode_of(i) && r.1@[i] == dlen_of(i),
{
    let mut p_len: Vec<u8> = vec![0u8; 64];
    for v in 0..64usize
        invariant
            p_len@.len() == 64,
            forall|x: int| 0 <= x < v ==> #[trigger] p_len@[x] == plen(x),
    {
        let l: u8 = if v == 0 {
            3
        } else if v <= 3 {
            4
        } else if v <= 11 {
            5
        } else if v <= 23 {
            6
        } else if v <= 47 {
            7
        } else {
            8
        };
        p_len.set(v, l);
    }
    let mut d_code: Vec<u8> = vec![0u8; 256];
    let mut d_len: Vec<u8> = vec![0u8; 256];
    let mut code: usize = 0;
    let mut v: usize = 0;
    while v < 64
        invariant
            v <= 64,
            p_len@.len() == 64,
            forall|x: int| 0 <= x < 64 ==> #[trigger] p_len@[x] == plen(x),
            d_code@.len() == 256,
            d_len@.len() == 256,
            v < 64 ==> code * pspan(v as int) == pstart(v as int),
            v < 64 ==> code < 256,
            tables_upto(d_code@, d_len@, pend(v as int)),
        decreases 64 - v,
    {
        let l = p_len[v] as usize;
        let span: usize = 1usize << (8 - l) as usize;
        assert(span == pspan(v as int)) by {
            assert(l == plen(v as int));
            assert(1usize << 5usize == 32) by (bit_vector);
            assert(1usize << 4usize == 16) by (bit_vector);
            assert(1usize << 3usize == 8) by (bit_vector);
            assert(1usize << 2usize == 4) by (bit_vector);
            assert(1usize << 1usize == 2) by (bit_vector);
            assert(1usize << 0usize == 1) by (bit_vector);
        }
        let from = code * span;
        let mut i = from;
        while i < from + span
            invariant
                from == pstart(v as int),
                span == pspan(v as int),
                from <= i <= from + span,
                v < 64,
                l == plen(v as int),
                d_code@.len() == 256,
                d_len@.len() == 256,
                tables_upto(d_code@, d_len@, i as int),
            decreases from + span - i,
        {
            proof {
                lemma_pos_code(v as int, i as int);
            }
            let ghost dc0 = d_code@;
            let ghost dl0 = d_len@;
            d_code.set(i, v as u8);
            d_len.set(i, l as u8);
            assert(tables_upto(d_code@, d_len@, i + 1)) by {
                assert forall|x: int| 0 <= x < i + 1 implies #[trigger] d_code@[x] == dcode_of(x)
                    && d_len@[x] == dlen_of(x) by {
                    if x < i {
                        assert(dc0[x] == dcode_of(x) && dl0[x] == dlen_of(x));
                    }
                }
            }
            i = i + 1;
        }
        assert(pstart(v as int) + pspan(v as int) == pend(v + 1));
        let ghost old_code = code;
        code = code + 1;
        proof {
            assert(code * span == old_code * span + span) by (nonlinear_arith)
                requires
                    code == old_code + 1,
            ;
            assert(code * span <= 256);
            assert(code <= code * span) by (nonlinear_arith)
                requires
                    span >= 1,
            ;
        }
        if v < 63 && p_len[v + 1] > p_len[v] {
            let sh = (p_len[v + 1] - p_len[v]) as usize;
            assert(sh == 1);
            assert(pspan(v as int) == 2 * pspan(v + 1));
            assert(code << 1usize == code * 2) by (bit_vector)
                requires
                    code <= 256,
            ;
            let ghost c1 = code;
            code = code << sh;
            proof {
                assert(code * pspan(v + 1) == c1 * pspan(v as int)) by (nonlinear_arith)
                    requires
                        code == c1 * 2,
                        pspan(v as int) == 2 * pspan(v + 1),
                ;
                assert(code <= code * pspan(v + 1)) by (nonlinear_arith)
                    requires
                        pspan(v + 1) >= 1,
                ;
            }
        } else if v < 63 {
            assert(pspan(v as int) == pspan(v + 1));
            assert(code <= code * pspan(v + 1)) by (nonlinear_arith)
                requires
                    pspan(v + 1) >= 1,
            ;
        }
        v = v + 1;
    }
    (d_code, d_len)
}

} // verus!

verus! {

/// Append the `t` bits from bit `p` on to the prefix `i0`.
pub open spec fn pos_bits(data: Seq<u8>, p: int, i0: int, t: nat) -> int
    decreases t,
{
    if t == 0 {
        i0
    } else {
        pos_bits(data, p, i0, (t - 1) as nat) * 2 + bit_at(data, p + t - 1) as int
    }
}

/// Decode a match position from bit `p`: an 8-bit prefix selects the upper 6
/// bits and how many further bits follow; the last 6 bits read are the lower
/// 6 bits.  Returns the position and the next bit position.
pub open spec fn pos_decode(data: Seq<u8>, p: int) -> (int, int) {
    let i0 = bits_val(data, p, 8);
    let n = dlen_of(i0) - 2;
    let i1 = pos_bits(data, p + 8, i0, n as nat);
    (dcode_of(i0) * 64 + i1 % 64, p + 8 + n)
}

pub fn decode_position(bits: &mut Bits, d_code: &Vec<u8>, d_len: &Vec<u8>) -> (r: usize)
    requires
        old(bits).ok(),
        d_code@.len() == 256,
        d_len@.len() == 256,
        forall|i: int| 0 <= i < 256 ==> d_code@[i] == dcode_of(i) && d_len@[i] == dlen_of(i),
    ensures
        final(bits).ok(),
        final(bits).data@ == old(bits).data@,
        (r as int, final(bits).at@) == pos_decode(old(bits).data@, old(bits).at@),
        r < RING,
{
    let ghost data = bits.data@;
    let ghost p0 = bits.at@;
    let i8 = bits.get(8);
    proof {
        crate::bits::lemma_bits_val_range(data, p0, 8);
        vstd::arithmetic::power2::lemma2_to64();
    }
    let mut i = i8 as usize;
    let ghost i0 = i as int;
    assert(d_len@[i as int] == dlen_of(i as int) && d_code@[i as int] == dcode_of(i as int));
    let dc = d_code[i] as usize;
    let c = dc << 6usize;
    let n = d_len[i] - 2;
    let mut t: u8 = 0;
    let ghost mut bnd: int = 256;
    while t < n
        invariant
            bits.ok(),
            bits.data@ == data,
            bits.at@ == p0 + 8 + t,
            0 <= i0 < 256,
            n == dlen_of(i0) - 2,
            t <= n <= 6,
            i == pos_bits(data, p0 + 8, i0, t as nat),
            i < bnd,
            bnd == 256 * vstd::arithmetic::power2::pow2(t as nat),
        decreases n - t,
    {
        proof {
            vstd::arithmetic::power2::lemma2_to64();
            vstd::arithmetic::power2::lemma_pow2_unfold((t + 1) as nat);
        }
        let b = bits.get1();
        i = i * 2 + b as usize;
        proof {
            bnd = bnd * 2;
        }
        t = t + 1;
    }
    let r = c | (i & 0x3F);
    assert(r == dc * 64 + i % 64) by (bit_vector)
        requires
            dc < 64,
            c == dc << 6usize,
            r == c | (i & 0x3F),
    ;
    r
}

} // verus!

verus! {

// ---------------------------------------------------------------------------
// The decoding run
// ---------------------------------------------------------------------------

/// Decoder state: tree, bit position, ring buffer with write index, output.
pub struct DecState {
    pub m: HuffModel,
    pub p: int,
    pub ring: Seq<u8>,
    pub r: int,
    pub out: Seq<u8>,
}

/// Copy `len` bytes from the ring, starting at `idx`, to the output and to
/// the ring (byte by byte, so a copy may overlap its own output).
pub open spec fn copy_run(ring: Seq<u8>, r: int, out: Seq<u8>, idx: int, len: int, k: int) -> (
    Seq<u8>,
    int,
    Seq<u8>,
)
    decreases len - k,
{
    if k >= len {
        (ring, r, out)
    } else {
        let ch = ring[(idx + k) % 4096];
        copy_run(ring.update(r, ch), (r + 1) % 4096, out.push(ch), idx, len, k + 1)
    }
}

/// One decoding step: a literal byte, or a match of `c - 253` bytes at
/// distance `pos + 1` behind the write index.
pub open spec fn dec_step(data: Seq<u8>, s: DecState) -> DecState {
    let (c, m2, p1) = decode_char_spec(s.m, data, s.p);
    if c < 256 {
        DecState {
            m: m2,
            p: p1,
            ring: s.ring.update(s.r, c as u8),
            r: (s.r + 1) % 4096,
            out: s.out.push(c as u8),
        }
    } else {
        let (pos, p2) = pos_decode(data, p1);
        let idx = (s.r + 4096 - pos - 1) % 4096;
        let len = c - 255 + THRESHOLD;
        let (ring2, r2, out2) = copy_run(s.ring, s.r, s.out, idx, len, 0);
        DecState { m: m2, p: p2, ring: ring2, r: r2, out: out2 }
    }
}

pub open spec fn dec_measure(data: Seq<u8>, s: DecState) -> int {
    if s.p < 8 * data.len() {
        8 * data.len() - s.p
    } else {
        0
    }
}

/// Decode until the bits run out or the output reaches the limit.
pub open spec fn dec_run(data: Seq<u8>, s: DecState) -> Seq<u8>
    decreases dec_measure(data, s),
{
    if s.p >= 8 * data.len() || s.out.len() >= MAX_OUTPUT {
        s.out
    } else {
        let s2 = dec_step(data, s);
        if s2.p <= s.p {
            s2.out
        } else {
            dec_run(data, s2)
        }
    }
}

/// The start: initial tree, empty output, zeroed ring, write index
/// `RING - F`.
pub open spec fn dec_init() -> DecState {
    DecState {
        m: init_model(),
        p: 0,
        ring: Seq::new(RING as nat, |x: int| 0u8),
        r: (RING - F) as int,
        out: Seq::empty(),
    }
}

/// The complete decoded stream of an LZHUF payload.
pub open spec fn lzhuf_decode(data: Seq<u8>) -> Seq<u8> {
    dec_run(data, dec_init())
}

proof fn lemma_and_mask(x: usize)
    ensures
        x & 4095 == x % 4096,
{
    assert(x & 4095 == x % 4096) by (bit_vector);
}

/// Decode the whole stream (also past the size declared in a header).
pub fn lzhuf_decode_all(payload: &[u8]) -> (out: Vec<u8>)
    ensures
        out@ == lzhuf_decode(payload@),
        out@.len() <= MAX_OUTPUT + 59,
        out@.len() <= 480 * payload@.len(),
{
    let (d_code, d_len) = build_pos_tables();
    let mut bits = Bits::new(payload);
    let mut huf = Huff::new();
    let mut ring: Vec<u8> = vec![0u8; RING];
    let mut r: usize = RING - F;
    let mut out: Vec<u8> = Vec::with_capacity(4096);
    let ghost data = payload@;
    proof {
        assert(ring@ =~= dec_init().ring);
    }
    while !bits.exhausted() && out.len() < MAX_OUTPUT
        invariant
            bits.ok(),
            bits.data@ == data,
            wf(huf@),
            ring@.len() == RING,
            r < RING,
            out@.len() <= MAX_OUTPUT + 59,
            out@.len() <= 60 * (if bits.at@ < 8 * data.len() { bits.at@ } else { 8 * data.len() as int }),
            d_code@.len() == 256,
            d_len@.len() == 256,
            forall|i: int| 0 <= i < 256 ==> d_code@[i] == dcode_of(i) && d_len@[i] == dlen_of(i),
            dec_run(data, DecState { m: huf@, p: bits.at@, ring: ring@, r: r as int, out: out@ })
                == lzhuf_decode(data),
        decreases dec_measure(data, DecState { m: huf@, p: bits.at@, ring: ring@, r: r as int, out: out@ }),
    {
        let ghost s0 = DecState { m: huf@, p: bits.at@, ring: ring@, r: r as int, out: out@ };
        let ghost at0 = bits.at@;
        proof {
            lemma_decode_char(huf@, data, bits.at@);
        }
        let c = huf.decode_char(&mut bits);
        if c < 256 {
            let ch = c as u8;
            out.push(ch);
            ring.set(r, ch);
            proof {
                lemma_and_mask((r + 1) as usize);
            }
            r = (r + 1) & (RING - 1);
        } else {
            let pos = decode_position(&mut bits, &d_code, &d_len);
            proof {
                lemma_and_mask((r + RING - pos - 1) as usize);
            }
            let idx = (r + RING - pos - 1) & (RING - 1);
            let len = c - 255 + THRESHOLD;
            let ghost ring0 = ring@;
            let ghost r0 = r as int;
            let ghost out0 = out@;
            let mut k: usize = 0;
            while k < len
                invariant
                    len <= 60,
                    k <= len,
                    idx < RING,
                    ring@.len() == RING,
                    r < RING,
                    out@.len() == out0.len() + k,
                    out0.len() <= MAX_OUTPUT,
                    copy_run(ring@, r as int, out@, idx as int, len as int, k as int) == copy_run(
                        ring0,
                        r0,
                        out0,
                        idx as int,
                        len as int,
                        0,
                    ),
                decreases len - k,
            {
                proof {
                    lemma_and_mask((idx + k) as usize);
                    lemma_and_mask((r + 1) as usize);
                }
                let ch = ring[(idx + k) & (RING - 1)];
                out.push(ch);
                ring.set(r, ch);
                r = (r + 1) & (RING - 1);
                k = k + 1;
            }
        }
        assert(bits.at@ > at0 && out@.len() <= s0.out.len() + 60);
        proof {
            let s1 = DecState { m: huf@, p: bits.at@, ring: ring@, r: r as int, out: out@ };
            assert(s1.ring =~= dec_step(data, s0).ring);
            assert(s1.out =~= dec_step(data, s0).out);
            assert(s1 == dec_step(data, s0));
        }
    }
    out
}

} // verus!

verus! {

// ---------------------------------------------------------------------------
// Law: matches copy from the bytes already decoded
// ---------------------------------------------------------------------------

/// Output byte `i`, or 0 before the start of the output (the ring starts
/// zero-filled).
pub open spec fn out_at(out: Seq<u8>, i: int) -> u8 {
    if 0 <= i < out.len() {
        out[i]
    } else {
        0u8
    }
}

/// How many writes ago ring slot `q` was written, seen from the write index
/// `r`: 1 for the slot just before `r`, up to 4096 for slot `r` itself.
pub open spec fn ring_age(q: int, r: int) -> int {
    (r - q - 1 + 4096) % 4096 + 1
}

/// The ring holds the last 4096 output bytes (zeros before the output's
/// start), the next write going to slot `r`.
pub open spec fn ring_holds(ring: Seq<u8>, r: int, out: Seq<u8>) -> bool {
    &&& ring.len() == RING
    &&& 0 <= r < RING
    &&& forall|q: int| 0 <= q < RING ==> #[trigger] ring[q] == out_at(out, out.len() - ring_age(q, r))
}

/// Writing one byte to the ring and to the output keeps the ring in step.
proof fn lemma_ring_push(ring: Seq<u8>, r: int, out: Seq<u8>, ch: u8)
    requires
        ring_holds(ring, r, out),
    ensures
        ring_holds(ring.update(r, ch), (r + 1) % 4096, out.push(ch)),
{
    let ring2 = ring.update(r, ch);
    let r2 = (r + 1) % 4096;
    let out2 = out.push(ch);
    assert forall|q: int| 0 <= q < RING implies #[trigger] ring2[q] == out_at(out2, out2.len() - ring_age(q, r2)) by {
        if q == r {
            assert(ring_age(q, r2) == 1);
        } else {
            assert(1 <= ring_age(q, r) <= 4095);
            assert(ring_age(q, r2) == ring_age(q, r) + 1);
            assert(ring2[q] == ring[q]);
        }
    }
}

/// The copy of a match: every copied byte is the output byte `pos + 1`
/// places before it, and the ring stays in step.
proof fn lemma_copy_run_back(ring: Seq<u8>, r: int, out: Seq<u8>, idx: int, len: int, k: int, pos: int)
    requires
        ring_holds(ring, r, out),
        0 <= idx < 4096,
        0 <= k <= len,
        0 <= pos < 4096,
        (idx + k) % 4096 == (r + 4095 - pos) % 4096,
    ensures
        ({
            let (ring2, r2, out2) = copy_run(ring, r, out, idx, len, k);
            &&& ring_holds(ring2, r2, out2)
            &&& out2.len() == out.len() + (len - k)
            &&& out2.subrange(0, out.len() as int) == out
            &&& forall|j: int| out.len() <= j < out2.len() ==> #[trigger] out2[j] == out_at(out2, j - pos - 1)
        }),
    decreases len - k,
{
    if k < len {
        let q = (idx + k) % 4096;
        let ch = ring[q];
        assert(ring_age(q, r) == pos + 1);
        assert(ch == out_at(out, out.len() - pos - 1));
        lemma_ring_push(ring, r, out, ch);
        let ring1 = ring.update(r, ch);
        let r1 = (r + 1) % 4096;
        let out1 = out.push(ch);
        assert((idx + k + 1) % 4096 == (r1 + 4095 - pos) % 4096);
        lemma_copy_run_back(ring1, r1, out1, idx, len, k + 1, pos);
        let (ring2, r2, out2) = copy_run(ring, r, out, idx, len, k);
        assert((ring2, r2, out2) == copy_run(ring1, r1, out1, idx, len, k + 1));
        assert(out2.subrange(0, out1.len() as int) == out1);
        assert forall|i: int| 0 <= i < out1.len() implies out2[i] == out1[i] by {
            assert(out2.subrange(0, out1.len() as int)[i] == out2[i]);
        }
        assert(out2.subrange(0, out.len() as int) =~= out);
        assert forall|j: int| out.len() <= j < out2.len() implies #[trigger] out2[j] == out_at(out2, j - pos - 1) by {
            if j == out.len() {
                assert(out2[j] == out1[j]);
                if 0 <= j - pos - 1 {
                    assert(out2[j - pos - 1] == out1[j - pos - 1]);
                }
            }
        }
    } else {
        assert(out.subrange(0, out.len() as int) =~= out);
    }
}

/// Match positions are below the ring size.
proof fn lemma_pos_range(data: Seq<u8>, p: int)
    ensures
        0 <= pos_decode(data, p).0 < 4096,
{
    crate::bits::lemma_bits_val_range(data, p, 8);
    vstd::arithmetic::power2::lemma2_to64();
}

/// The decoder starts with the zero-filled ring in step with the empty
/// output.
pub proof fn lemma_dec_init_ring()
    ensures
        ring_holds(dec_init().ring, dec_init().r, dec_init().out),
{
}

/// One decoding step of an LZSS stream: a literal symbol `c < 256` appends
/// the byte `c`; a match symbol `c` appends `c - 253` bytes, each equal to
/// the output byte `pos + 1` places before it (0 before the start), where
/// `pos` is the decoded match position; the ring keeps the last 4096 output
/// bytes.
pub proof fn lemma_dec_step_lzss(data: Seq<u8>, s: DecState)
    requires
        wf(s.m),
        ring_holds(s.ring, s.r, s.out),
    ensures
        ring_holds(dec_step(data, s).ring, dec_step(data, s).r, dec_step(data, s).out),
        decode_char_spec(s.m, data, s.p).0 < 256 ==> dec_step(data, s).out == s.out.push(
            decode_char_spec(s.m, data, s.p).0 as u8,
        ),
        decode_char_spec(s.m, data, s.p).0 >= 256 ==> ({
            let c = decode_char_spec(s.m, data, s.p).0;
            let pos = pos_decode(data, decode_char_spec(s.m, data, s.p).2).0;
            let o = dec_step(data, s).out;
            &&& o.len() == s.out.len() + c - 253
            &&& o.subrange(0, s.out.len() as int) == s.out
            &&& forall|j: int| s.out.len() <= j < o.len() ==> #[trigger] o[j] == out_at(o, j - pos - 1)
        }),
{
    lemma_decode_char(s.m, data, s.p);
    let (c, m2, p1) = decode_char_spec(s.m, data, s.p);
    if c < 256 {
        lemma_ring_push(s.ring, s.r, s.out, c as u8);
    } else {
        lemma_pos_range(data, p1);
        let (pos, p2) = pos_decode(data, p1);
        let idx = (s.r + 4096 - pos - 1) % 4096;
        let len = c - 255 + THRESHOLD;
        assert((idx + 0) % 4096 == (s.r + 4095 - pos) % 4096);
        lemma_copy_run_back(s.ring, s.r, s.out, idx, len, 0, pos);
    }
}

} // verus!
