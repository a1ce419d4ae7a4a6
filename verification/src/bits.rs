//! MSB-first bit reader over a byte slice; past the end it reads zeros.
use vstd::prelude::*;

verus! {

/// Bit number `p` of `data`, most significant bit of each byte first; zero
/// beyond the end.
pub open spec fn bit_at(data: Seq<u8>, p: int) -> u32 {
    if 0 <= p && p / 8 < data.len() {
        ((data[p / 8] >> ((7 - p % 8) as u8)) & 1u8) as u32
    } else {
        0
    }
}

/// The `n` bits from bit `p` on, read as a binary number (first bit highest).
pub open spec fn bits_val(data: Seq<u8>, p: int, n: nat) -> int
    decreases n,
{
    if n == 0 {
        0
    } else {
        bits_val(data, p, (n - 1) as nat) * 2 + bit_at(data, p + n - 1) as int
    }
}

pub proof fn lemma_bit_at_range(data: Seq<u8>, p: int)
    ensures
        bit_at(data, p) <= 1,
{
    if 0 <= p && p / 8 < data.len() {
        let b = data[p / 8];
        let s = (7 - p % 8) as u8;
        assert((b >> s) & 1u8 <= 1u8) by (bit_vector);
    }
}

pub proof fn lemma_bits_val_range(data: Seq<u8>, p: int, n: nat)
    ensures
        0 <= bits_val(data, p, n) < vstd::arithmetic::power2::pow2(n),
    decreases n,
{
    if n > 0 {
        lemma_bits_val_range(data, p, (n - 1) as nat);
        lemma_bit_at_range(data, p + n - 1);
        vstd::arithmetic::power2::lemma_pow2_unfold(n);
    } else {
        vstd::arithmetic::power2::lemma2_to64();
    }
}

/// Reader state: `at` counts the bits read so far; `pos`/`bit` locate the
/// next bit, `pos` stopping at the end of the data.
pub struct Bits<'a> {
    pub data: &'a [u8],
    pub pos: usize,
    pub bit: u8,
    pub at: Ghost<int>,
}

impl<'a> Bits<'a> {
    pub open spec fn ok(&self) -> bool {
        &&& 0 <= self.at@
        &&& self.bit as int == self.at@ % 8
        &&& self.pos as int == if self.at@ / 8 < self.data@.len() {
            self.at@ / 8
        } else {
            self.data@.len() as int
        }
    }

    pub fn new(data: &'a [u8]) -> (b: Self)
        ensures
            b.ok(),
            b.data@ == data@,
            b.at@ == 0,
    {
        Bits { data, pos: 0, bit: 0, at: Ghost(0) }
    }

    pub fn exhausted(&self) -> (r: bool)
        requires
            self.ok(),
        ensures
            r == (self.at@ >= 8 * self.data@.len()),
    {
        self.pos >= self.data.len()
    }

    pub fn get1(&mut self) -> (r: u32)
        requires
            old(self).ok(),
        ensures
            final(self).ok(),
            final(self).data@ == old(self).data@,
            final(self).at@ == old(self).at@ + 1,
            r == bit_at(old(self).data@, old(self).at@),
            r <= 1,
    {
        proof {
            lemma_bit_at_range(self.data@, self.at@);
        }
        let b = if self.pos < self.data.len() {
            (self.data[self.pos] >> (7 - self.bit)) & 1
        } else {
            0
        };
        self.bit = self.bit + 1;
        if self.bit == 8 {
            self.bit = 0;
            if self.pos < self.data.len() {
                self.pos = self.pos + 1;
            }
        }
        self.at = Ghost(self.at@ + 1);
        b as u32
    }

    pub fn get(&mut self, n: u32) -> (r: u32)
        requires
            old(self).ok(),
            n <= 16,
        ensures
            final(self).ok(),
            final(self).data@ == old(self).data@,
            final(self).at@ == old(self).at@ + n,
            r == bits_val(old(self).data@, old(self).at@, n as nat),
    {
        let ghost p0 = self.at@;
        let mut v: u32 = 0;
        let mut i: u32 = 0;
        while i < n
            invariant
                self.ok(),
                self.data@ == old(self).data@,
                i <= n <= 16,
                self.at@ == p0 + i,
                v == bits_val(self.data@, p0, i as nat),
            decreases n - i,
        {
            proof {
                lemma_bits_val_range(self.data@, p0, i as nat);
                vstd::arithmetic::power2::lemma_pow2_strictly_increases(i as nat, 16);
                vstd::arithmetic::power2::lemma2_to64();
            }
            let b = self.get1();
            v = v * 2 + b;
            i = i + 1;
        }
        v
    }
}

} // verus!
