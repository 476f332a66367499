//! A storage loop: 4096 bits, addressed modulo the loop length.

use vstd::prelude::*;
use crate::bits::{
    bit_u8, bit_val, bits_to_bytes_lsb, byte_of_bits_lsb, bytes_to_bits_lsb, lemma_bits_bytes_lsb_roundtrip,
    lemma_bytes_bits_lsb_roundtrip,
};

verus! {

/// Bit `n` (0 = least significant) of a 64-bit word.
pub open spec fn bit_u64(w: u64, n: u64) -> bool {
    (w >> n) & 1u64 == 1u64
}

/// The 4096 bits of a storage loop.
#[derive(Clone, Copy)]
pub struct Loop {
    bits: [u64; 64],
}

impl View for Loop {
    type V = Seq<bool>;

    closed spec fn view(&self) -> Seq<bool> {
        Seq::new(4096, |i: int| bit_u64(self.bits@[i / 64], (i % 64) as u64))
    }
}

/// A loop whose bits are all clear.
pub open spec fn empty_loop() -> Seq<bool> {
    Seq::new(4096, |i: int| false)
}

proof fn lemma_bit_get(w: u64, k: u64)
    by (bit_vector)
    requires
        k < 64,
    ensures
        (((1u64 << k) & w) != 0u64) == bit_u64(w, k),
{
}

proof fn lemma_bit_set(w: u64, k: u64, j: u64)
    by (bit_vector)
    requires
        k < 64,
        j < 64,
    ensures
        bit_u64(w | (1u64 << k), j) == (j == k || bit_u64(w, j)),
        bit_u64(w & !(1u64 << k), j) == (j != k && bit_u64(w, j)),
{
}

proof fn lemma_zero_bits(j: u64)
    by (bit_vector)
    ensures
        !bit_u64(0u64, j),
{
}

proof fn lemma_mask_idx(idx: usize)
    by (bit_vector)
    ensures
        idx & 4095usize == idx % 4096usize,
{
}

impl Loop {
    /// The view always has the loop's length.
    pub proof fn lemma_len(&self)
        ensures
            self@.len() == 4096,
    {
    }

    /// A loop with every bit clear.
    pub fn new() -> (r: Loop)
        ensures
            r@ == empty_loop(),
    {
        let r = Loop { bits: [0u64; 64] };
        assert forall|i: int| 0 <= i < 4096 implies r@[i] == false by {
            lemma_zero_bits((i % 64) as u64);
        }
        assert(r@ =~= empty_loop());
        r
    }

    fn get_mask_off(idx: usize) -> (r: (u64, usize))
        requires
            idx < 4096,
        ensures
            r.1 == idx / 64,
            r.0 == 1u64 << ((idx % 64) as u64),
        no_unwind
    {
        let mask = 1u64 << ((idx % 64) as u64);
        let off = idx / 64;
        (mask, off)
    }

    /// The bit at position `idx` modulo the loop length.
    pub fn get(&self, idx: usize) -> (b: bool)
        ensures
            b == self@[(idx % 4096) as int],
    {
        proof {
            lemma_mask_idx(idx);
        }
        let (mask, off) = Self::get_mask_off(idx & 4095);
        proof {
            lemma_bit_get(self.bits@[off as int], ((idx % 4096) % 64) as u64);
        }
        mask & self.bits[off] != 0
    }

    /// Sets the bit at position `idx` modulo the loop length.
    pub fn set(&mut self, idx: usize, bit: bool)
        ensures
            final(self)@ == old(self)@.update((idx % 4096) as int, bit),
        no_unwind
    {
        proof {
            lemma_mask_idx(idx);
        }
        let p = idx & 4095;
        let (mask, off) = Self::get_mask_off(p);
        let ghost old_bits = self.bits;
        if bit {
            self.bits[off] = self.bits[off] | mask;
        } else {
            self.bits[off] = self.bits[off] & !mask;
        }
        proof {
            let k = (p % 64) as u64;
            assert forall|i: int| 0 <= i < 4096 implies self@[i] == old(self)@.update(
                p as int,
                bit,
            )[i] by {
                if i / 64 == off as int {
                    lemma_bit_set(old_bits@[off as int], k, (i % 64) as u64);
                }
            }
            assert(self@ =~= old(self)@.update(p as int, bit));
        }
    }

    /// Fills the loop from its 512-byte encoding, least significant bit of each byte first.
    pub fn decode(&mut self, inp: &[u8; 512])
        ensures
            final(self)@ == bytes_to_bits_lsb(inp@),
    {
        let mut i: usize = 0;
        while i < 4096
            invariant
                i <= 4096,
                inp@.len() == 512,
                self@.len() == 4096,
                forall|j: int| 0 <= j < i ==> self@[j] == bit_u8(inp@[j / 8], (j % 8) as u8),
            decreases 4096 - i,
        {
            let b = inp[i / 8];
            self.set(i, (b >> ((i % 8) as u8)) & 1 == 1);
            i += 1;
        }
        assert(self@ =~= bytes_to_bits_lsb(inp@));
    }

    fn bit01(&self, i: usize) -> (r: u8)
        requires
            i < 4096,
        ensures
            r == bit_val(self@, i as int),
    {
        if self.get(i) {
            1
        } else {
            0
        }
    }

    fn byte_lsb_at(&self, j: usize) -> (r: u8)
        requires
            j < 512,
        ensures
            r == byte_of_bits_lsb(self@, j as int),
    {
        let base = 8 * j;
        let x0 = self.bit01(base);
        let x1 = self.bit01(base + 1);
        let x2 = self.bit01(base + 2);
        let x3 = self.bit01(base + 3);
        let x4 = self.bit01(base + 4);
        let x5 = self.bit01(base + 5);
        let x6 = self.bit01(base + 6);
        let x7 = self.bit01(base + 7);
        (x7 << 7u8) | (x6 << 6u8) | (x5 << 5u8) | (x4 << 4u8) | (x3 << 3u8) | (x2 << 2u8) | (x1
            << 1u8) | x0
    }

    /// Writes the 512-byte encoding of the loop, least significant bit of each byte first.
    pub fn encode(&self, out: &mut [u8; 512])
        ensures
            final(out)@ == bits_to_bytes_lsb(self@),
    {
        let mut j: usize = 0;
        while j < 512
            invariant
                j <= 512,
                out@.len() == 512,
                self@.len() == 4096,
                forall|k: int| 0 <= k < j ==> out@[k] == byte_of_bits_lsb(self@, k),
            decreases 512 - j,
        {
            out[j] = self.byte_lsb_at(j);
            j += 1;
        }
        assert(out@ =~= bits_to_bytes_lsb(self@));
    }
}

impl Default for Loop {
    fn default() -> (r: Loop)
        ensures
            r@ == empty_loop(),
    {
        Loop::new()
    }
}

/// Decoding the bytes that encoding a loop writes gives the loop back.
pub proof fn lemma_encode_decode(l: Loop)
    ensures
        bytes_to_bits_lsb(bits_to_bytes_lsb(l@)) == l@,
{
    lemma_bits_bytes_lsb_roundtrip(l@);
}

/// Encoding the loop that decoding 512 bytes fills gives the bytes back.
pub proof fn lemma_decode_encode(b: Seq<u8>)
    requires
        b.len() == 512,
    ensures
        bits_to_bytes_lsb(bytes_to_bits_lsb(b)) == b,
{
    lemma_bytes_bits_lsb_roundtrip(b);
}

} // verus!
