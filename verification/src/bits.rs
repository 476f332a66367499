//! Conversions between bits and bytes, and between bytes and hexadecimal text.

use vstd::prelude::*;

verus! {

/// Bit `n` (0 = least significant) of byte `b`.
pub open spec fn bit_u8(b: u8, n: u8) -> bool {
    (b >> n) & 1u8 == 1u8
}

/// Bit `k` (0 = most significant) of byte `b`.
pub open spec fn msb_bit(b: u8, k: int) -> bool {
    bit_u8(b, (7 - k) as u8)
}

/// `1` when `s[i]` exists and is set, `0` otherwise.
pub open spec fn bit_val(s: Seq<bool>, i: int) -> u8 {
    if 0 <= i < s.len() && s[i] { 1u8 } else { 0u8 }
}

/// The byte made of eight values in `0..=1`, most significant first.
pub open spec fn pack8(x0: u8, x1: u8, x2: u8, x3: u8, x4: u8, x5: u8, x6: u8, x7: u8) -> u8 {
    (x0 << 7u8) | (x1 << 6u8) | (x2 << 5u8) | (x3 << 4u8) | (x4 << 3u8) | (x5 << 2u8) | (x6 << 1u8) | x7
}

/// Byte `i` of the bit string `s`, most significant bit first; missing bits count as 0.
pub open spec fn byte_of_bits(s: Seq<bool>, i: int) -> u8 {
    pack8(
        bit_val(s, 8 * i), bit_val(s, 8 * i + 1), bit_val(s, 8 * i + 2), bit_val(s, 8 * i + 3),
        bit_val(s, 8 * i + 4), bit_val(s, 8 * i + 5), bit_val(s, 8 * i + 6), bit_val(s, 8 * i + 7),
    )
}

/// The bytes of a bit string, most significant bit first, the last byte padded with 0s.
pub open spec fn bits_to_bytes(s: Seq<bool>) -> Seq<u8> {
    Seq::new(((s.len() + 7) / 8) as nat, |i: int| byte_of_bits(s, i))
}

/// The bits of a byte string, most significant bit of each byte first.
pub open spec fn bytes_to_bits(b: Seq<u8>) -> Seq<bool> {
    Seq::new(8 * b.len(), |i: int| msb_bit(b[i / 8], i % 8))
}

proof fn lemma_pack8_bits(x0: u8, x1: u8, x2: u8, x3: u8, x4: u8, x5: u8, x6: u8, x7: u8)
    by (bit_vector)
    requires
        x0 <= 1, x1 <= 1, x2 <= 1, x3 <= 1, x4 <= 1, x5 <= 1, x6 <= 1, x7 <= 1,
    ensures
        bit_u8(pack8(x0, x1, x2, x3, x4, x5, x6, x7), 7u8) == (x0 == 1),
        bit_u8(pack8(x0, x1, x2, x3, x4, x5, x6, x7), 6u8) == (x1 == 1),
        bit_u8(pack8(x0, x1, x2, x3, x4, x5, x6, x7), 5u8) == (x2 == 1),
        bit_u8(pack8(x0, x1, x2, x3, x4, x5, x6, x7), 4u8) == (x3 == 1),
        bit_u8(pack8(x0, x1, x2, x3, x4, x5, x6, x7), 3u8) == (x4 == 1),
        bit_u8(pack8(x0, x1, x2, x3, x4, x5, x6, x7), 2u8) == (x5 == 1),
        bit_u8(pack8(x0, x1, x2, x3, x4, x5, x6, x7), 1u8) == (x6 == 1),
        bit_u8(pack8(x0, x1, x2, x3, x4, x5, x6, x7), 0u8) == (x7 == 1),
{
}

/// The byte whose bits (most significant first) are `bits[8 * i .. 8 * i + 8]`.
fn byte_at(bits: &[bool], i: usize) -> (b: u8)
    requires
        8 * i + 8 <= bits.len(),
    ensures
        b == byte_of_bits(bits@, i as int),
{
    let x0: u8 = if bits[8 * i] { 1 } else { 0 };
    let x1: u8 = if bits[8 * i + 1] { 1 } else { 0 };
    let x2: u8 = if bits[8 * i + 2] { 1 } else { 0 };
    let x3: u8 = if bits[8 * i + 3] { 1 } else { 0 };
    let x4: u8 = if bits[8 * i + 4] { 1 } else { 0 };
    let x5: u8 = if bits[8 * i + 5] { 1 } else { 0 };
    let x6: u8 = if bits[8 * i + 6] { 1 } else { 0 };
    let x7: u8 = if bits[8 * i + 7] { 1 } else { 0 };
    (x0 << 7u8) | (x1 << 6u8) | (x2 << 5u8) | (x3 << 4u8) | (x4 << 3u8) | (x5 << 2u8) | (x6 << 1u8) | x7
}

/// The first `N` bytes of a bit string, most significant bit first.
pub fn slicebool_to_arru8<const N: usize>(inp: &[bool]) -> (out: [u8; N])
    requires
        8 * N <= inp@.len(),
    ensures
        out@ == Seq::new(N as nat, |i: int| byte_of_bits(inp@, i)),
{
    let mut out = [0u8; N];
    let mut idx: usize = 0;
    while idx < N
        invariant
            idx <= N,
            8 * N <= inp@.len(),
            out@.len() == N,
            forall|j: int| 0 <= j < idx ==> out@[j] == byte_of_bits(inp@, j),
        decreases N - idx,
    {
        out[idx] = byte_at(inp, idx);
        idx += 1;
    }
    assert(out@ =~= Seq::new(N as nat, |i: int| byte_of_bits(inp@, i)));
    out
}

/// The bits of a byte string, most significant bit of each byte first.
pub fn sliceu8_to_vecbool(s: &[u8]) -> (out: Vec<bool>)
    ensures
        out@ == bytes_to_bits(s@),
{
    let mut out: Vec<bool> = Vec::new();
    let mut i: usize = 0;
    while i < s.len()
        invariant
            i <= s.len(),
            out@.len() == 8 * i,
            forall|j: int| 0 <= j < out@.len() ==> out@[j] == msb_bit(s@[j / 8], j % 8),
        decreases s.len() - i,
    {
        let byt = s[i];
        let mut k: u8 = 0;
        while k < 8
            invariant
                i < s.len(),
                byt == s@[i as int],
                k <= 8,
                out@.len() == 8 * i + k,
                forall|j: int| 0 <= j < out@.len() ==> out@[j] == msb_bit(s@[j / 8], j % 8),
            decreases 8 - k,
        {
            out.push((byt >> (7 - k)) & 1 == 1);
            k += 1;
        }
        i += 1;
    }
    assert(out@ =~= bytes_to_bits(s@));
    out
}

/// The byte whose bits (most significant first) are `bits[8 * i .. 8 * i + 8]`, bits past the
/// end counting as 0.
fn byte_at_padded(bits: &[bool], i: usize) -> (b: u8)
    requires
        8 * i < bits.len(),
    ensures
        b == byte_of_bits(bits@, i as int),
{
    let n = bits.len();
    let base = 8 * i;
    let x0: u8 = if bits[base] { 1 } else { 0 };
    let x1: u8 = if base + 1 < n && bits[base + 1] { 1 } else { 0 };
    let x2: u8 = if base + 2 < n && bits[base + 2] { 1 } else { 0 };
    let x3: u8 = if base + 3 < n && bits[base + 3] { 1 } else { 0 };
    let x4: u8 = if base + 4 < n && bits[base + 4] { 1 } else { 0 };
    let x5: u8 = if base + 5 < n && bits[base + 5] { 1 } else { 0 };
    let x6: u8 = if base + 6 < n && bits[base + 6] { 1 } else { 0 };
    let x7: u8 = if base + 7 < n && bits[base + 7] { 1 } else { 0 };
    (x0 << 7u8) | (x1 << 6u8) | (x2 << 5u8) | (x3 << 4u8) | (x4 << 3u8) | (x5 << 2u8) | (x6 << 1u8) | x7
}

/// The bytes of a bit string, most significant bit first; a last incomplete byte is padded
/// with 0s.
pub fn slicebool_to_vecu8(sl: &[bool]) -> (out: Vec<u8>)
    ensures
        out@ == bits_to_bytes(sl@),
{
    let mut out: Vec<u8> = Vec::new();
    let n = sl.len();
    let nbytes = n / 8 + if n % 8 == 0 { 0 } else { 1 };
    let mut i: usize = 0;
    while i < nbytes
        invariant
            n == sl@.len(),
            nbytes == (n + 7) / 8,
            i <= nbytes,
            out@.len() == i,
            forall|j: int| 0 <= j < i ==> out@[j] == byte_of_bits(sl@, j),
        decreases nbytes - i,
    {
        out.push(byte_at_padded(sl, i));
        i += 1;
    }
    assert(out@ =~= bits_to_bytes(sl@));
    out
}

proof fn lemma_unpack8(x: u8)
    by (bit_vector)
    ensures
        pack8((x >> 7u8) & 1u8, (x >> 6u8) & 1u8, (x >> 5u8) & 1u8, (x >> 4u8) & 1u8,
            (x >> 3u8) & 1u8, (x >> 2u8) & 1u8, (x >> 1u8) & 1u8, x & 1u8) == x,
        (x >> 7u8) & 1u8 <= 1, (x >> 6u8) & 1u8 <= 1, (x >> 5u8) & 1u8 <= 1,
        (x >> 4u8) & 1u8 <= 1, (x >> 3u8) & 1u8 <= 1, (x >> 2u8) & 1u8 <= 1,
        (x >> 1u8) & 1u8 <= 1, (x >> 0u8) & 1u8 <= 1, x & 1u8 == (x >> 0u8) & 1u8,
{
}

proof fn lemma_byte_bit(s: Seq<bool>, i: int)
    requires
        0 <= i < s.len(),
    ensures
        msb_bit(byte_of_bits(s, i / 8), i % 8) == s[i],
        bit_u8(byte_of_bits_lsb(s, i / 8), (i % 8) as u8) == s[i],
{
    let base = 8 * (i / 8);
    lemma_pack8_bits(bit_val(s, base), bit_val(s, base + 1), bit_val(s, base + 2),
        bit_val(s, base + 3), bit_val(s, base + 4), bit_val(s, base + 5),
        bit_val(s, base + 6), bit_val(s, base + 7));
    lemma_pack8_bits(bit_val(s, base + 7), bit_val(s, base + 6), bit_val(s, base + 5),
        bit_val(s, base + 4), bit_val(s, base + 3), bit_val(s, base + 2),
        bit_val(s, base + 1), bit_val(s, base));
}

/// Reading back the bits of the bytes made from a bit string gives the bit string, when its
/// length is a whole number of bytes.
pub proof fn lemma_bits_bytes_roundtrip(s: Seq<bool>)
    requires
        s.len() % 8 == 0,
    ensures
        bytes_to_bits(bits_to_bytes(s)) == s,
{
    let b = bits_to_bytes(s);
    let r = bytes_to_bits(b);
    assert forall|i: int| 0 <= i < s.len() implies r[i] == s[i] by {
        lemma_byte_bit(s, i);
        assert(b[i / 8] == byte_of_bits(s, i / 8));
    }
    assert(r =~= s);
}

/// Making bytes from the bits of a byte string gives the byte string back.
pub proof fn lemma_bytes_bits_roundtrip(b: Seq<u8>)
    ensures
        bits_to_bytes(bytes_to_bits(b)) == b,
{
    let s = bytes_to_bits(b);
    let r = bits_to_bytes(s);
    assert forall|i: int| 0 <= i < b.len() implies r[i] == b[i] by {
        let x = b[i];
        lemma_unpack8(x);
        assert(bit_val(s, 8 * i) == (x >> 7u8) & 1u8);
        assert(bit_val(s, 8 * i + 1) == (x >> 6u8) & 1u8);
        assert(bit_val(s, 8 * i + 2) == (x >> 5u8) & 1u8);
        assert(bit_val(s, 8 * i + 3) == (x >> 4u8) & 1u8);
        assert(bit_val(s, 8 * i + 4) == (x >> 3u8) & 1u8);
        assert(bit_val(s, 8 * i + 5) == (x >> 2u8) & 1u8);
        assert(bit_val(s, 8 * i + 6) == (x >> 1u8) & 1u8);
        assert(bit_val(s, 8 * i + 7) == x & 1u8);
    }
    assert(r =~= b);
}

/// The bits of a byte string, least significant bit of each byte first.
pub open spec fn bytes_to_bits_lsb(b: Seq<u8>) -> Seq<bool> {
    Seq::new(8 * b.len(), |i: int| bit_u8(b[i / 8], (i % 8) as u8))
}

/// Byte `j` of the bit string `s`, least significant bit first; missing bits count as 0.
pub open spec fn byte_of_bits_lsb(s: Seq<bool>, j: int) -> u8 {
    pack8(
        bit_val(s, 8 * j + 7), bit_val(s, 8 * j + 6), bit_val(s, 8 * j + 5), bit_val(s, 8 * j + 4),
        bit_val(s, 8 * j + 3), bit_val(s, 8 * j + 2), bit_val(s, 8 * j + 1), bit_val(s, 8 * j),
    )
}

/// The whole bytes of a bit string, least significant bit first.
pub open spec fn bits_to_bytes_lsb(s: Seq<bool>) -> Seq<u8> {
    Seq::new(s.len() / 8, |j: int| byte_of_bits_lsb(s, j))
}

/// Reading back, least significant bit first, the bits of the bytes made from a bit string
/// gives the bit string, when its length is a whole number of bytes.
pub proof fn lemma_bits_bytes_lsb_roundtrip(s: Seq<bool>)
    requires
        s.len() % 8 == 0,
    ensures
        bytes_to_bits_lsb(bits_to_bytes_lsb(s)) == s,
{
    let b = bits_to_bytes_lsb(s);
    let r = bytes_to_bits_lsb(b);
    assert forall|i: int| 0 <= i < s.len() implies r[i] == s[i] by {
        lemma_byte_bit(s, i);
        assert(b[i / 8] == byte_of_bits_lsb(s, i / 8));
    }
    assert(r =~= s);
}

/// Making bytes, least significant bit first, from the bits of a byte string gives the byte
/// string back.
pub proof fn lemma_bytes_bits_lsb_roundtrip(b: Seq<u8>)
    ensures
        bits_to_bytes_lsb(bytes_to_bits_lsb(b)) == b,
{
    let s = bytes_to_bits_lsb(b);
    let r = bits_to_bytes_lsb(s);
    assert forall|i: int| 0 <= i < b.len() implies r[i] == b[i] by {
        let x = b[i];
        lemma_unpack8(x);
        assert(bit_val(s, 8 * i + 7) == (x >> 7u8) & 1u8);
        assert(bit_val(s, 8 * i + 6) == (x >> 6u8) & 1u8);
        assert(bit_val(s, 8 * i + 5) == (x >> 5u8) & 1u8);
        assert(bit_val(s, 8 * i + 4) == (x >> 4u8) & 1u8);
        assert(bit_val(s, 8 * i + 3) == (x >> 3u8) & 1u8);
        assert(bit_val(s, 8 * i + 2) == (x >> 2u8) & 1u8);
        assert(bit_val(s, 8 * i + 1) == (x >> 1u8) & 1u8);
        assert(bit_val(s, 8 * i) == x & 1u8);
    }
    assert(r =~= b);
}

} // verus!
