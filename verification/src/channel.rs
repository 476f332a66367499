//! The contents of one channel: its bootloop, its 160 storage loops and the offset at which
//! its loops were synchronised; the logical and physical address maps; page access.

use vstd::prelude::*;
use crate::bits::{
    bits_to_bytes_lsb, bytes_to_bits_lsb, lemma_bits_bytes_lsb_roundtrip,
    lemma_bytes_bits_lsb_roundtrip,
};
use crate::bootloop::{Bootloop, Channel, ChannelBootloop, ch_index, channel_bits, count_ones};
use crate::storage_loop::{Loop, empty_loop};
use crate::sync::{lemma_save_load, load_scan, saved_loop};
use crate::Address;

verus! {

/// Bits of a page: 270 with error correction, 272 without.
pub open spec fn bits_per_ch_spec(ec: bool) -> nat {
    if ec {
        270
    } else {
        272
    }
}

/// `pa + off` on the loop of 4096 positions.
pub open spec fn pa_off_spec(pa: int, off: int) -> int {
    (pa + off) % 4096
}

/// The physical position, in the loops, of a physical address once the loops are shifted by
/// the offset `o` found at synchronisation.
pub open spec fn offset_pa(o: u16, pa: u16) -> u16 {
    pa_off_spec(pa_off_spec(pa as int, o as int), 362) as u16
}

/// The physical address of logical page `la`.
pub open spec fn la_to_pa_spec(la: u16) -> u16 {
    let pa0 = (((la as u32) * 185u32) as u32) % 2048u32;
    (((pa0 & 0x7feu32) << 1u32) | (pa0 & 1u32)) as u16
}

/// The logical page of physical address `pa`, and which of its two halves it holds
/// (0: none, 1: the first, 2: the second).
pub open spec fn pa_to_la_spec(pa: u16) -> (u16, u8) {
    let b0 = pa & 1u16;
    let p1 = pa >> 1u16;
    let b1 = p1 & 1u16;
    let n = ((p1 & 0x7feu16) | b0) as u32;
    (((((n * 1417u32) as u32) % 2048u32) as u16), if b1 != 0 {
        (b0 + 1) as u8
    } else {
        0u8
    })
}

/// The bootloop restricted to its first `k` good loops.
pub open spec fn masked_bits(bl: Seq<bool>, k: nat) -> Seq<bool> {
    Seq::new(160, |i: int| bl[i] && count_ones(bl.take(i)) < k)
}

/// Position in the bootloop of bit `i` of a page (four page bits per pair of loops).
pub open spec fn page_blr(i: int) -> int {
    2 * (i / 4) + i % 2
}

/// Page bit slot `i` is used: its loop pair is kept in the masked bootloop.
pub open spec fn page_sel(mbl: Seq<bool>, i: int) -> bool {
    mbl[page_blr(i)]
}

/// Number of used page bit slots among the first `n`.
pub open spec fn page_count(mbl: Seq<bool>, n: int) -> nat
    decreases n,
{
    if n <= 0 {
        0
    } else {
        page_count(mbl, n - 1) + if page_sel(mbl, n - 1) {
            1nat
        } else {
            0nat
        }
    }
}

/// The quad that holds page bit slot `i`.
pub open spec fn page_quad(i: int) -> int {
    1 - i % 2
}

/// The loop, in its quad, that holds page bit slot `i`.
pub open spec fn page_loop(i: int) -> int {
    79 - i / 4
}

/// The loop position that holds page bit slot `i` of the page at position `pa`.
pub open spec fn page_pos(pa: int, i: int) -> int {
    if (i / 2) % 2 == 0 {
        pa
    } else {
        (pa + 2) % 4096
    }
}

/// The page bit slot of the page at position `pa` held at quad `q`, loop `l`, position `p`,
/// or -1 when that cell holds no bit of the page.
pub open spec fn page_slot_of(pa: int, q: int, l: int, p: int) -> int {
    if p == pa {
        4 * (79 - l) + (1 - q)
    } else if p == (pa + 2) % 4096 {
        4 * (79 - l) + 2 + (1 - q)
    } else {
        -1
    }
}

/// Bootloop bit `i` takes part in a physical page read or write.
pub open spec fn pa_sel(bl: Seq<bool>, skip_bad: bool, i: int) -> bool {
    !skip_bad || bl[i]
}

/// Number of bootloop bits among the first `n` that take part in a physical page access.
pub open spec fn pa_count(bl: Seq<bool>, skip_bad: bool, n: int) -> nat
    decreases n,
{
    if n <= 0 {
        0
    } else {
        pa_count(bl, skip_bad, n - 1) + if pa_sel(bl, skip_bad, n - 1) {
            1nat
        } else {
            0nat
        }
    }
}

proof fn lemma_page_count_mono(mbl: Seq<bool>, a: int, b: int)
    requires
        a <= b,
    ensures
        page_count(mbl, a) <= page_count(mbl, b),
    decreases b - a,
{
    if a < b {
        lemma_page_count_mono(mbl, a, b - 1);
    }
}

proof fn lemma_pa_count_mono(bl: Seq<bool>, skip_bad: bool, a: int, b: int)
    requires
        a <= b,
    ensures
        pa_count(bl, skip_bad, a) <= pa_count(bl, skip_bad, b),
    decreases b - a,
{
    if a < b {
        lemma_pa_count_mono(bl, skip_bad, a, b - 1);
    }
}

proof fn lemma_page_slot(pa: int, i: int)
    requires
        0 <= pa < 4096,
        0 <= i < 320,
    ensures
        page_slot_of(pa, page_quad(i), page_loop(i), page_pos(pa, i)) == i,
        0 <= page_quad(i) < 2,
        0 <= page_loop(i) < 80,
        0 <= page_pos(pa, i) < 4096,
        0 <= page_blr(i) < 160,
{
    assert(pa != (pa + 2) % 4096);
}

proof fn lemma_page_slot_inv(pa: int, q: int, l: int, p: int)
    requires
        0 <= pa < 4096,
        0 <= q < 2,
        0 <= l < 80,
        0 <= p < 4096,
        page_slot_of(pa, q, l, p) >= 0,
    ensures
        0 <= page_slot_of(pa, q, l, p) < 320,
        q == page_quad(page_slot_of(pa, q, l, p)),
        l == page_loop(page_slot_of(pa, q, l, p)),
        p == page_pos(pa, page_slot_of(pa, q, l, p)),
{
    assert(pa != (pa + 2) % 4096);
}

/// Page bits read from a channel: `v` holds, in slot order, the bits of the used slots of the
/// page at position `pa`, for the masked bootloop `mbl`.
pub open spec fn page_bits_match(c: ChannelMemory, pa: int, mbl: Seq<bool>, sz: nat, v: Seq<bool>) -> bool {
    &&& v.len() == sz
    &&& forall|i: int|
        0 <= i < 320 && page_sel(mbl, i) && page_count(mbl, i) < sz ==> v[page_count(mbl, i) as int]
            == c.cell(page_quad(i), page_loop(i), page_pos(pa, i))
}

/// `c2` is `c1` with the bits of `page` written, in slot order, into the used slots of the
/// page at position `pa`, for the masked bootloop `mbl`; nothing else changes.
pub open spec fn page_written(
    c1: ChannelMemory,
    c2: ChannelMemory,
    pa: int,
    mbl: Seq<bool>,
    sz: nat,
    page: Seq<bool>,
) -> bool {
    &&& c2.bl_view() == c1.bl_view()
    &&& c2.offset_view() == c1.offset_view()
    &&& c2.shape()
    &&& forall|q: int, l: int, p: int|
        0 <= q < 2 && 0 <= l < 80 && 0 <= p < 4096 ==> #[trigger] c2.cell(q, l, p) == ({
            let i = page_slot_of(pa, q, l, p);
            if 0 <= i < 320 && page_sel(mbl, i) && page_count(mbl, i) < sz {
                page[page_count(mbl, i) as int]
            } else {
                c1.cell(q, l, p)
            }
        })
}

/// Bits read from a physical page: `v` holds, in bootloop order, the bit at position `ppa` of
/// the loop of every bootloop bit that takes part.
pub open spec fn pa_bits_match(c: ChannelMemory, ppa: int, skip_bad: bool, v: Seq<bool>) -> bool {
    &&& v.len() == pa_count(c.bl_view(), skip_bad, 160)
    &&& forall|i: int|
        0 <= i < 160 && pa_sel(c.bl_view(), skip_bad, i) ==> v[pa_count(c.bl_view(), skip_bad, i) as int]
            == c.cell(1 - i % 2, 79 - i / 2, ppa)
}

/// `c2` is `c1` with a physical page written at position `ppa`: the loop of every bootloop bit
/// that takes part gets the next bit of `page`, every other loop a clear bit; nothing else
/// changes.
pub open spec fn pa_written(c1: ChannelMemory, c2: ChannelMemory, ppa: int, skip_bad: bool, page: Seq<bool>) -> bool {
    &&& c2.bl_view() == c1.bl_view()
    &&& c2.offset_view() == c1.offset_view()
    &&& c2.shape()
    &&& forall|q: int, l: int, p: int|
        0 <= q < 2 && 0 <= l < 80 && 0 <= p < 4096 ==> #[trigger] c2.cell(q, l, p) == if p == ppa {
            let i = 2 * (79 - l) + (1 - q);
            if pa_sel(c1.bl_view(), skip_bad, i) {
                page[pa_count(c1.bl_view(), skip_bad, i) as int]
            } else {
                false
            }
        } else {
            c1.cell(q, l, p)
        }
}

/// Smallest page length that a physical page write takes.
pub open spec fn pa_min_len(bl: Seq<bool>, skip_bad: bool) -> nat {
    if skip_bad {
        count_ones(bl)
    } else {
        160
    }
}

proof fn lemma_pa_count_total(bl: Seq<bool>, skip_bad: bool, n: int)
    requires
        0 <= n <= bl.len(),
    ensures
        pa_count(bl, skip_bad, n) == if skip_bad {
            count_ones(bl.take(n))
        } else {
            n as nat
        },
    decreases n,
{
    if n > 0 {
        lemma_pa_count_total(bl, skip_bad, n - 1);
        crate::bootloop::lemma_count_ones_take(bl, n - 1);
    } else {
        assert(bl.take(0) =~= Seq::<bool>::empty());
    }
}

/// Encoded bytes of a channel: the loop with the recorded bootloop, then the 160 storage
/// loops, quad by quad, 512 bytes each.
pub open spec fn saved_bytes(c: ChannelMemory, bl: Seq<bool>) -> Seq<u8> {
    Seq::new(
        82432,
        |k: int|
            if k < 512 {
                bits_to_bytes_lsb(saved_loop(bl, c.offset_view().unwrap() as int))[k]
            } else {
                bits_to_bytes_lsb(c.loop_view((k / 512 - 1) / 80, (k / 512 - 1) % 80))[k % 512]
            },
    )
}

/// Chunk `k` (512 bytes) of an encoded channel.
pub open spec fn chunk(inp: Seq<u8>, k: int) -> Seq<u8> {
    inp.subrange(512 * k, 512 * k + 512)
}

/// The channel that loading the encoded bytes `inp` for channel `ch` gives: the offset and
/// bootloop found in the first loop (a clear bootloop when none is found), and the storage
/// loops decoded from the next 160 chunks.
pub open spec fn loaded_from(c: ChannelMemory, inp: Seq<u8>, ch: Channel) -> bool {
    let scan = load_scan(bytes_to_bits_lsb(chunk(inp, 0)), Seq::new(320, |i: int| false));
    &&& c.offset_view() == match scan.0 {
        Some(o) => Some(o as u16),
        None => None,
    }
    &&& c.bl_view() == if scan.0 is Some {
        channel_bits(scan.1, ch_index(ch))
    } else {
        Seq::new(160, |i: int| false)
    }
    &&& forall|q: int, l: int|
        0 <= q < 2 && 0 <= l < 80 ==> #[trigger] c.loop_view(q, l) == bytes_to_bits_lsb(
            chunk(inp, 1 + 80 * q + l),
        )
}

fn clear_loops() -> (r: [[Loop; 80]; 2])
    ensures
        forall|q: int, l: int| 0 <= q < 2 && 0 <= l < 80 ==> #[trigger] r@[q]@[l]@ == empty_loop(),
{
    let mut r = [[Loop::new();80];2];
    let mut q: usize = 0;
    while q < 2
        invariant
            q <= 2,
            forall|i: int, l: int| 0 <= i < q && 0 <= l < 80 ==> #[trigger] r@[i]@[l]@ == empty_loop(),
        decreases 2 - q,
    {
        let mut quad = [Loop::new();80];
        let mut l: usize = 0;
        while l < 80
            invariant
                l <= 80,
                forall|j: int| 0 <= j < l ==> #[trigger] quad@[j]@ == empty_loop(),
            decreases 80 - l,
        {
            quad[l] = Loop::new();
            l += 1;
        }
        r[q] = quad;
        q += 1;
    }
    r
}

fn read_chunk(inp: &[u8], k: usize) -> (r: [u8; 512])
    requires
        512 * k + 512 <= inp.len(),
    ensures
        r@ == chunk(inp@, k as int),
{
    let mut r = [0u8; 512];
    let base = 512 * k;
    let mut j: usize = 0;
    while j < 512
        invariant
            j <= 512,
            base == 512 * k,
            base + 512 <= inp.len(),
            r@.len() == 512,
            forall|t: int| 0 <= t < j ==> r@[t] == inp@[base + t],
        decreases 512 - j,
    {
        r[j] = inp[base + j];
        j += 1;
    }
    assert(r@ =~= chunk(inp@, k as int));
    r
}

fn append_loop(out: &mut Vec<u8>, lp: &Loop)
    ensures
        final(out)@ == old(out)@ + bits_to_bytes_lsb(lp@),
{
    let mut pezzo = [0u8; 512];
    lp.encode(&mut pezzo);
    let mut j: usize = 0;
    while j < 512
        invariant
            j <= 512,
            pezzo@ == bits_to_bytes_lsb(lp@),
            pezzo@.len() == 512,
            out@ == old(out)@ + pezzo@.take(j as int),
        decreases 512 - j,
    {
        out.push(pezzo[j]);
        j += 1;
        assert(out@ =~= old(out)@ + pezzo@.take(j as int));
    }
    assert(pezzo@.take(512) =~= pezzo@);
}

/// A channel: its bootloop, its two quads of 80 storage loops, and the offset found when its
/// bootloop was synchronised (none when it was not).
#[derive(Clone, Copy)]
pub struct ChannelMemory {
    bl: ChannelBootloop,
    data_loops: [[Loop; 80]; 2],
    offset: Option<u16>,
}

impl ChannelMemory {
    #[verifier::type_invariant]
    spec fn offset_in_loop(self) -> bool {
        self.offset matches Some(o) ==> o < 4096
    }

    /// The channel bootloop.
    pub closed spec fn bl_view(&self) -> Seq<bool> {
        self.bl@
    }

    /// The synchronisation offset.
    pub closed spec fn offset_view(&self) -> Option<u16> {
        self.offset
    }

    /// The bits of loop `l` of quad `q`.
    pub closed spec fn loop_view(&self, q: int, l: int) -> Seq<bool> {
        self.data_loops@[q]@[l]@
    }

    /// Bit `p` of loop `l` of quad `q`.
    pub open spec fn cell(&self, q: int, l: int, p: int) -> bool {
        self.loop_view(q, l)[p]
    }

    /// Every loop holds 4096 bits and the bootloop 160.
    pub open spec fn shape(&self) -> bool {
        &&& self.bl_view().len() == 160
        &&& forall|q: int, l: int|
            0 <= q < 2 && 0 <= l < 80 ==> (#[trigger] self.loop_view(q, l)).len() == 4096
    }

    /// The two channels hold the same loops.
    pub open spec fn same_loops(&self, other: &ChannelMemory) -> bool {
        forall|q: int, l: int|
            0 <= q < 2 && 0 <= l < 80 ==> #[trigger] self.loop_view(q, l) == other.loop_view(q, l)
    }

    /// Every loop is clear.
    pub open spec fn loops_clear(&self) -> bool {
        forall|q: int, l: int| 0 <= q < 2 && 0 <= l < 80 ==> #[trigger] self.loop_view(q, l) == empty_loop()
    }

    proof fn lemma_shape(&self)
        ensures
            self.shape(),
    {
        self.bl.lemma_len();
        assert forall|q: int, l: int| 0 <= q < 2 && 0 <= l < 80 implies (#[trigger] self.loop_view(
            q,
            l,
        )).len() == 4096 by {
            self.data_loops@[q]@[l].lemma_len();
        }
    }

    /// The offset is a position in the loop.
    pub fn offset_ok(&self) -> (r: bool)
        ensures
            r,
            self.offset_view() matches Some(o) ==> o < 4096,
            self.shape(),
    {
        proof {
            use_type_invariant(self);
            self.lemma_shape();
        }
        true
    }

    /// An unsynchronised channel with a clear bootloop and clear loops.
    pub fn new() -> (r: ChannelMemory)
        ensures
            r.bl_view() == Seq::new(160, |i: int| false),
            r.offset_view() is None,
            r.loops_clear(),
    {
        let r = ChannelMemory { bl: ChannelBootloop::new(), data_loops: clear_loops(), offset: None };
        r
    }

    /// The channel bootloop.
    pub fn get_bl(&self) -> (r: &ChannelBootloop)
        ensures
            r@ == self.bl_view(),
    {
        &self.bl
    }

    /// The synchronisation offset.
    pub fn get_offset(&self) -> (r: Option<Address>)
        ensures
            r == self.offset_view(),
    {
        self.offset
    }

    /// Clears every loop and sets the offset to 0.
    pub fn clear_data(&mut self)
        ensures
            final(self).bl_view() == old(self).bl_view(),
            final(self).offset_view() == Some(0u16),
            final(self).loops_clear(),
    {
        proof {
            use_type_invariant(&*self);
        }
        self.data_loops = clear_loops();
        self.offset = Some(0);
    }

    /// Sets the bootloop, clears every loop and sets the offset to 0.
    pub fn set_bl(&mut self, chbl: &ChannelBootloop)
        ensures
            final(self).bl_view() == chbl@,
            final(self).offset_view() == Some(0u16),
            final(self).loops_clear(),
    {
        proof {
            use_type_invariant(&*self);
        }
        self.bl = *chbl;
        self.clear_data();
    }

    /// The logical page of a physical address, and which of its halves the address holds
    /// (0: none, 1: the first, 2: the second).
    pub fn pa_to_la(pa: Address) -> (r: (Address, u8))
        ensures
            r == pa_to_la_spec(pa),
    {
        let b0 = pa & 1;
        let p1 = pa >> 1;
        let b1 = p1 & 1;
        let n_steps = ((p1 & 0x7fe) | b0) as u32;
        assert(n_steps * 1417u32 <= u32::MAX) by (bit_vector)
            requires
                n_steps == ((p1 & 0x7feu16) | b0) as u32,
                b0 == pa & 1u16;
        let la = ((n_steps * 1417) % 2048) as u16;
        assert(b0 <= 1) by (bit_vector)
            requires
                b0 == pa & 1u16;
        (la, if b1 != 0 {
            b0 as u8 + 1
        } else {
            0
        })
    }

    /// The physical address of a logical page.
    pub fn la_to_pa(la: Address) -> (r: Address)
        ensures
            r == la_to_pa_spec(la),
            r < 4096,
    {
        let pa0 = (la as u32 * 185) % 2048;
        let pa_b0 = pa0 & 1;
        proof {
            lemma_pa_bits(pa0);
            lemma_pa_split(pa0);
        }
        assert(pa_b0 <= pa0 && (pa0 - pa_b0) * 2 + pa_b0 < 4096) by (bit_vector)
            requires
                pa0 < 2048u32,
                pa_b0 == pa0 & 1u32;
        ((pa0 - pa_b0) * 2 + pa_b0) as Address
    }

    /// `pa + off` on the loop of 4096 positions.
    pub fn pa_off(pa: Address, off: Address) -> (r: Address)
        requires
            pa + off <= u16::MAX,
        ensures
            r == pa_off_spec(pa as int, off as int),
    {
        let s = pa + off;
        assert(s & 4095u16 == s % 4096u16) by (bit_vector);
        s & 4095
    }

    fn get_offset_pa(&self, pa: Address) -> (r: Option<Address>)
        requires
            self.offset_view() matches Some(o) ==> pa + o <= u16::MAX,
        ensures
            match self.offset_view() {
                Some(o) => r == Some(offset_pa(o, pa)),
                None => r is None,
            },
            r matches Some(p) ==> p < 4096,
    {
        proof {
            use_type_invariant(self);
        }
        let off = self.offset?;
        Some(Self::pa_off(Self::pa_off(pa, off), 362))
    }

    /// Bits of a page: 270 with error correction, 272 without.
    pub fn bits_per_ch(ec: bool) -> (r: usize)
        ensures
            r == bits_per_ch_spec(ec),
    {
        if ec {
            270
        } else {
            272
        }
    }

    fn set_cell(&mut self, q: usize, l: usize, p: usize, bit: bool)
        requires
            q < 2,
            l < 80,
            p < 4096,
        ensures
            final(self).bl_view() == old(self).bl_view(),
            final(self).offset_view() == old(self).offset_view(),
            final(self).shape(),
            forall|a: int, b: int, c: int|
                0 <= a < 2 && 0 <= b < 80 && 0 <= c < 4096 ==> #[trigger] final(self).cell(a, b, c)
                    == if a == q && b == l && c == p {
                    bit
                } else {
                    old(self).cell(a, b, c)
                },
        no_unwind
    {
        proof {
            use_type_invariant(&*self);
            self.lemma_shape();
        }
        self.data_loops[q][l].set(p, bit);
        proof {
            self.lemma_shape();
            assert(forall|a: int, b: int|
                0 <= a < 2 && 0 <= b < 80 && (a != q || b != l) ==> self.data_loops@[a]@[b]
                    == old(self).data_loops@[a]@[b]);
            assert(self.data_loops@[q as int]@[l as int]@ == old(self).data_loops@[q as int]@[l as int]@.update(
                p as int,
                bit,
            ));
            assert forall|a: int, b: int, c: int|
                0 <= a < 2 && 0 <= b < 80 && 0 <= c < 4096 implies #[trigger] self.cell(a, b, c) == if a
                == q && b == l && c == p {
                bit
            } else {
                old(self).cell(a, b, c)
            } by {
                assert(old(self).loop_view(a, b).len() == 4096);
                if a == q && b == l {
                } else {
                    assert(self.data_loops@[a]@[b] == old(self).data_loops@[a]@[b]);
                }
            }
        }
    }

    fn get_cell(&self, q: usize, l: usize, p: usize) -> (b: bool)
        requires
            q < 2,
            l < 80,
            p < 4096,
        ensures
            b == self.cell(q as int, l as int, p as int),
    {
        self.data_loops[q][l].get(p)
    }

    /// Loads a channel from its encoded bytes (the first 82432 are read); fails, changing
    /// nothing, when there are fewer.
    pub fn load(&mut self, inp: &[u8], ch: Channel) -> (r: Result<(), ()>)
        ensures
            r is Err <==> inp@.len() < 82432,
            r is Err ==> *final(self) == *old(self),
            r is Ok ==> loaded_from(*final(self), inp@, ch),
    {
        if inp.len() < 82432 {
            return Err(());
        }
        let pezzo = read_chunk(inp, 0);
        let mut bl_loop = Loop::new();
        bl_loop.decode(&pezzo);
        let mut bl = Bootloop::new();
        let offset = bl.load_from_loop(&bl_loop);
        let mut chbl = ChannelBootloop::new();
        let mut off: Option<u16> = None;
        if let Some(o) = offset {
            off = Some(o as u16);
            chbl = bl.get_channel(ch);
        }
        let mut data_loops = [[Loop::new();80];2];
        let mut i: usize = 0;
        while i < 2
            invariant
                i <= 2,
                inp.len() >= 82432,
                forall|q: int, l: int|
                    0 <= q < i && 0 <= l < 80 ==> #[trigger] data_loops@[q]@[l]@ == bytes_to_bits_lsb(
                        chunk(inp@, 1 + 80 * q + l),
                    ),
            decreases 2 - i,
        {
            let mut j: usize = 0;
            while j < 80
                invariant
                    i < 2,
                    j <= 80,
                    inp.len() >= 82432,
                    forall|q: int, l: int|
                        (0 <= q < i && 0 <= l < 80) || (q == i && 0 <= l < j)
                            ==> #[trigger] data_loops@[q]@[l]@ == bytes_to_bits_lsb(
                            chunk(inp@, 1 + 80 * q + l),
                        ),
                decreases 80 - j,
            {
                let pz = read_chunk(inp, 1 + 80 * i + j);
                data_loops[i][j].decode(&pz);
                j += 1;
            }
            i += 1;
        }
        *self = ChannelMemory { bl: chbl, data_loops, offset: off };
        Ok(())
    }

    /// The encoded bytes of the channel, its bootloop recorded from the device bootloop `bl`;
    /// fails when the channel is not synchronised.
    pub fn save(&self, bl: &Bootloop) -> (r: Result<Vec<u8>, ()>)
        ensures
            r is Err <==> self.offset_view() is None,
            r matches Ok(v) ==> v@ == saved_bytes(*self, bl@),
    {
        proof {
            use_type_invariant(self);
        }
        match self.offset {
            None => Err(()),
            Some(off) => {
                let bl_loop = bl.save_to_loop(off as usize);
                let mut out: Vec<u8> = Vec::new();
                proof {
                    bl_loop.lemma_len();
                }
                append_loop(&mut out, &bl_loop);
                let mut i: usize = 0;
                while i < 2
                    invariant
                        i <= 2,
                        self.offset_view() == Some(off),
                        out@.len() == 512 * (1 + 80 * i),
                        forall|k: int| 0 <= k < out@.len() ==> out@[k] == saved_bytes(*self, bl@)[k],
                    decreases 2 - i,
                {
                    let mut j: usize = 0;
                    while j < 80
                        invariant
                            i < 2,
                            j <= 80,
                            self.offset_view() == Some(off),
                            out@.len() == 512 * (1 + 80 * i + j),
                            forall|k: int| 0 <= k < out@.len() ==> out@[k] == saved_bytes(*self, bl@)[k],
                        decreases 80 - j,
                    {
                        let ghost before = out@;
                        proof {
                            self.data_loops@[i as int]@[j as int].lemma_len();
                        }
                        append_loop(&mut out, &self.data_loops[i][j]);
                        proof {
                            assert forall|k: int| 0 <= k < out@.len() implies out@[k] == saved_bytes(
                                *self,
                                bl@,
                            )[k] by {
                                if k >= before.len() {
                                    let t = 1 + 80 * i + j;
                                    assert(k / 512 == t) by (nonlinear_arith)
                                        requires
                                            512 * t <= k < 512 * t + 512;
                                    assert(k % 512 == k - 512 * t) by (nonlinear_arith)
                                        requires
                                            512 * t <= k < 512 * t + 512;
                                    assert((k / 512 - 1) / 80 == i);
                                    assert((k / 512 - 1) % 80 == j);
                                }
                            }
                        }
                        j += 1;
                    }
                    i += 1;
                }
                assert(out@ =~= saved_bytes(*self, bl@));
                Ok(out)
            },
        }
    }

    /// The bootloop has at least 136 good loops.
    pub(crate) fn is_bl_valid(&self) -> (r: bool)
        ensures
            r == (count_ones(self.bl_view()) >= 136),
    {
        self.bl.ones() >= 136
    }

    /// The bits at physical address `pa` of the loops of every bootloop bit (of the good
    /// loops only, with `skip_bad`), in bootloop order; none when the channel is not
    /// synchronised.
    #[verifier::rlimit(50)]
    pub fn get_page_pa(&self, pa: Address, skip_bad: bool) -> (r: Option<Vec<bool>>)
        requires
            self.offset_view() matches Some(o) ==> pa + o <= u16::MAX,
        ensures
            r is Some <==> self.offset_view() is Some,
            r matches Some(v) ==> pa_bits_match(
                *self,
                offset_pa(self.offset_view().unwrap(), pa) as int,
                skip_bad,
                v@,
            ),
    {
        let ok = self.offset_ok();
        let off_pa = self.get_offset_pa(pa)?;
        let mut out: Vec<bool> = Vec::new();
        let mut idx: usize = 0;
        while idx < 160
            invariant
                idx <= 160,
                self.shape(),
                off_pa < 4096,
                self.offset_view() is Some,
                off_pa == offset_pa(self.offset_view().unwrap(), pa),
                out@.len() == pa_count(self.bl_view(), skip_bad, idx as int),
                forall|i: int|
                    0 <= i < idx && pa_sel(self.bl_view(), skip_bad, i) ==> out@[pa_count(
                        self.bl_view(),
                        skip_bad,
                        i,
                    ) as int] == self.cell(1 - i % 2, 79 - i / 2, off_pa as int),
            decreases 160 - idx,
        {
            if !skip_bad || self.bl.get(idx) {
                let odd = idx % 2;
                let bit = self.get_cell(1 - odd, 79 - idx / 2, off_pa as usize);
                proof {
                    assert forall|i: int|
                        0 <= i < idx && pa_sel(self.bl_view(), skip_bad, i) implies pa_count(
                        self.bl_view(),
                        skip_bad,
                        i,
                    ) < pa_count(self.bl_view(), skip_bad, idx as int) by {
                        lemma_pa_count_mono(self.bl_view(), skip_bad, i + 1, idx as int);
                    }
                }
                out.push(bit);
            }
            idx += 1;
        }
        Some(out)
    }

    /// Writes a physical page at address `pa`: the loop of every bootloop bit takes the next
    /// bit of the page (with `skip_bad`, only the good loops do, the others take a clear bit).
    /// Fails, changing nothing, when the page is shorter than the bits it must give, or the
    /// channel is not synchronised.
    pub fn set_page_pa(&mut self, pa: Address, skip_bad: bool, page: &[bool]) -> (r: Result<(), ()>)
        requires
            (old(self).offset_view() is Some && page@.len() >= pa_min_len(
                old(self).bl_view(),
                skip_bad,
            )) ==> pa + old(self).offset_view().unwrap() <= u16::MAX,
        ensures
            r is Ok <==> (page@.len() >= pa_min_len(old(self).bl_view(), skip_bad)
                && old(self).offset_view() is Some),
            r is Err ==> *final(self) == *old(self),
            r is Ok ==> pa_written(
                *old(self),
                *final(self),
                offset_pa(old(self).offset_view().unwrap(), pa) as int,
                skip_bad,
                page@,
            ),
    {
        let ok = self.offset_ok();
        let min_len = if skip_bad {
            self.bl.ones() as usize
        } else {
            160
        };
        if page.len() < min_len {
            return Err(());
        }
        let off_pa = match self.get_offset_pa(pa) {
            Some(p) => p,
            None => {
                return Err(());
            },
        };
        proof {
            lemma_pa_count_total(self.bl_view(), skip_bad, 160);
            assert(self.bl_view().take(160) =~= self.bl_view());
        }
        let mut k: usize = 0;
        let mut idx: usize = 0;
        while idx < 160
            invariant
                idx <= 160,
                self.shape(),
                self.bl_view() == old(self).bl_view(),
                self.offset_view() == old(self).offset_view(),
                off_pa < 4096,
                off_pa == offset_pa(old(self).offset_view().unwrap(), pa),
                pa_count(self.bl_view(), skip_bad, 160) <= page@.len(),
                k == pa_count(self.bl_view(), skip_bad, idx as int),
                forall|q: int, l: int, p: int|
                    0 <= q < 2 && 0 <= l < 80 && 0 <= p < 4096 ==> #[trigger] self.cell(q, l, p) == if p
                        == off_pa && 2 * (79 - l) + (1 - q) < idx {
                        let i = 2 * (79 - l) + (1 - q);
                        if pa_sel(old(self).bl_view(), skip_bad, i) {
                            page@[pa_count(old(self).bl_view(), skip_bad, i) as int]
                        } else {
                            false
                        }
                    } else {
                        old(self).cell(q, l, p)
                    },
            decreases 160 - idx,
        {
            let sel = !skip_bad || self.bl.get(idx);
            proof {
                lemma_pa_count_mono(self.bl_view(), skip_bad, idx as int + 1, 160);
            }
            let bit = if sel {
                let b = page[k];
                k += 1;
                b
            } else {
                false
            };
            let odd = idx % 2;
            self.set_cell(1 - odd, 79 - idx / 2, off_pa as usize, bit);
            idx += 1;
        }
        Ok(())
    }

    /// Position of the page of logical address `la` in the loops, when the channel is
    /// synchronised.
    pub open spec fn page_pa(&self, la: u16) -> int {
        offset_pa(self.offset_view().unwrap(), la_to_pa_spec(la)) as int
    }

    /// The masked bootloop used for pages.
    pub open spec fn page_mask(&self, ec: bool) -> Seq<bool> {
        masked_bits(self.bl_view(), bits_per_ch_spec(ec) / 2)
    }

    /// A page can be read: the channel is synchronised and enough slots are used before the
    /// last one.
    pub open spec fn page_ok(&self, ec: bool) -> bool {
        &&& self.offset_view() is Some
        &&& page_count(self.page_mask(ec), 319) >= bits_per_ch_spec(ec)
    }

    /// The bits of logical page `la`: the bits of its used slots, in slot order; none when
    /// the channel is not synchronised or too few slots are used before the last one.
    pub fn get_page(&self, la: Address, ec: bool) -> (r: Option<Vec<bool>>)
        ensures
            r is Some <==> self.page_ok(ec),
            r matches Some(v) ==> page_bits_match(
                *self,
                self.page_pa(la),
                self.page_mask(ec),
                bits_per_ch_spec(ec),
                v@,
            ),
    {
        let ok = self.offset_ok();
        let pa = self.get_offset_pa(Self::la_to_pa(la))?;
        let masked_bl = self.get_masked_bl(ec);
        let ghost mbl = masked_bl@;
        let sz = Self::bits_per_ch(ec);
        let mut out: Vec<bool> = Vec::new();
        let mut idx: usize = 0;
        while out.len() < sz
            invariant
                self.shape(),
                pa < 4096,
                pa == self.page_pa(la),
                mbl == masked_bl@,
                mbl == self.page_mask(ec),
                mbl.len() == 160,
                sz == bits_per_ch_spec(ec),
                idx < 320,
                out@.len() == page_count(mbl, idx as int),
                out@.len() <= sz,
                forall|i: int|
                    0 <= i < idx && page_sel(mbl, i) ==> out@[page_count(mbl, i) as int]
                        == self.cell(page_quad(i), page_loop(i), page_pos(pa as int, i)),
            decreases 320 - idx,
        {
            proof {
                lemma_page_slot(pa as int, idx as int);
            }
            let odd = idx % 2;
            let blr_idx = (idx / 4) * 2 + odd;
            if masked_bl.get(blr_idx) {
                let eff_pa = if (idx / 2) % 2 == 0 {
                    pa
                } else {
                    Self::pa_off(pa, 2)
                };
                let bit = self.get_cell(1 - odd, 79 - idx / 4, eff_pa as usize);
                proof {
                    assert forall|i: int| 0 <= i < idx && page_sel(mbl, i) implies page_count(mbl, i)
                        < page_count(mbl, idx as int) by {
                        lemma_page_count_mono(mbl, i + 1, idx as int);
                    }
                }
                out.push(bit);
            }
            idx += 1;
            if idx == 320 {
                return None;
            }
        }
        proof {
            lemma_page_count_mono(mbl, idx as int, 319);
            assert forall|i: int|
                0 <= i < 320 && page_sel(mbl, i) && page_count(mbl, i) < sz implies i < idx by {
                if i >= idx {
                    lemma_page_count_mono(mbl, idx as int, i);
                }
            }
        }
        Some(out)
    }

    /// Writes the bits of a page into the used slots of logical page `la`, in slot order.
    /// Fails, changing nothing, when the page has not `bits_per_ch(ec)` bits or the channel is
    /// not synchronised; fails after writing when too few slots are used before the last one.
    pub fn set_page(&mut self, la: Address, ec: bool, page: &[bool]) -> (r: Result<(), ()>)
        ensures
            (page@.len() != bits_per_ch_spec(ec) || old(self).offset_view() is None) ==> (r is Err
                && *final(self) == *old(self)),
            (page@.len() == bits_per_ch_spec(ec) && old(self).offset_view() is Some) ==> (
            (r is Ok <==> old(self).page_ok(ec)) && page_written(
                *old(self),
                *final(self),
                old(self).page_pa(la),
                old(self).page_mask(ec),
                bits_per_ch_spec(ec),
                page@,
            )),
    {
        let ok = self.offset_ok();
        let sz = Self::bits_per_ch(ec);
        if page.len() != sz {
            return Err(());
        }
        let pa = match self.get_offset_pa(Self::la_to_pa(la)) {
            Some(p) => p,
            None => {
                return Err(());
            },
        };
        let masked_bl = self.get_masked_bl(ec);
        let ghost mbl = masked_bl@;
        let mut idx: usize = 0;
        let mut page_idx: usize = 0;
        while page_idx < sz
            invariant
                self.shape(),
                self.bl_view() == old(self).bl_view(),
                self.offset_view() == old(self).offset_view(),
                old(self).offset_view() is Some,
                pa < 4096,
                pa == old(self).page_pa(la),
                mbl == masked_bl@,
                mbl == old(self).page_mask(ec),
                mbl.len() == 160,
                sz == bits_per_ch_spec(ec),
                page@.len() == sz,
                idx < 320,
                page_idx == page_count(mbl, idx as int),
                page_idx <= sz,
                forall|q: int, l: int, p: int|
                    0 <= q < 2 && 0 <= l < 80 && 0 <= p < 4096 ==> #[trigger] self.cell(q, l, p) == ({
                        let i = page_slot_of(pa as int, q, l, p);
                        if 0 <= i < idx && page_sel(mbl, i) {
                            page@[page_count(mbl, i) as int]
                        } else {
                            old(self).cell(q, l, p)
                        }
                    }),
            decreases 320 - idx,
        {
            proof {
                lemma_page_slot(pa as int, idx as int);
                use_type_invariant(&*self);
            }
            let odd = idx % 2;
            let blr_idx = (idx / 4) * 2 + odd;
            if masked_bl.get(blr_idx) {
                let eff_pa = if (idx / 2) % 2 == 0 {
                    pa
                } else {
                    Self::pa_off(pa, 2)
                };
                let bit = page[page_idx];
                page_idx += 1;
                self.set_cell(1 - odd, 79 - idx / 4, eff_pa as usize, bit);
                proof {
                    assert forall|q: int, l: int, p: int|
                        0 <= q < 2 && 0 <= l < 80 && 0 <= p < 4096 && page_slot_of(pa as int, q, l, p)
                            >= 0 implies page_quad(page_slot_of(pa as int, q, l, p)) == q && page_loop(
                        page_slot_of(pa as int, q, l, p),
                    ) == l && page_pos(pa as int, page_slot_of(pa as int, q, l, p)) == p by {
                        lemma_page_slot_inv(pa as int, q, l, p);
                    }
                }
            }
            idx += 1;
            if idx == 320 {
                proof {
                    self.lemma_shape();
                    assert forall|q: int, l: int, p: int|
                        0 <= q < 2 && 0 <= l < 80 && 0 <= p < 4096 implies #[trigger] self.cell(q, l, p)
                        == ({
                        let i = page_slot_of(pa as int, q, l, p);
                        if 0 <= i < 320 && page_sel(mbl, i) && page_count(mbl, i) < sz {
                            page@[page_count(mbl, i) as int]
                        } else {
                            old(self).cell(q, l, p)
                        }
                    }) by {
                        let i = page_slot_of(pa as int, q, l, p);
                        if 0 <= i < 320 && page_sel(mbl, i) {
                            lemma_page_count_mono(mbl, i + 1, 320);
                        }
                    }
                }
                return Err(());
            }
        }
        proof {
            self.lemma_shape();
            lemma_page_count_mono(mbl, idx as int, 319);
            assert forall|q: int, l: int, p: int|
                0 <= q < 2 && 0 <= l < 80 && 0 <= p < 4096 implies #[trigger] self.cell(q, l, p) == ({
                let i = page_slot_of(pa as int, q, l, p);
                if 0 <= i < 320 && page_sel(mbl, i) && page_count(mbl, i) < sz {
                    page@[page_count(mbl, i) as int]
                } else {
                    old(self).cell(q, l, p)
                }
            }) by {
                let i = page_slot_of(pa as int, q, l, p);
                if 0 <= i < 320 && page_sel(mbl, i) {
                    if i >= idx {
                        lemma_page_count_mono(mbl, idx as int, i);
                    } else {
                        lemma_page_count_mono(mbl, i + 1, idx as int);
                    }
                }
            }
        }
        Ok(())
    }

    /// The bootloop reduced to its first `bits_per_ch(ec) / 2` good loops.
    pub fn get_masked_bl(&self, ec: bool) -> (r: ChannelBootloop)
        ensures
            r@ == masked_bits(self.bl_view(), bits_per_ch_spec(ec) / 2),
    {
        proof {
            self.bl.lemma_len();
        }
        let mut cnt = Self::bits_per_ch(ec) / 2;
        let mut out = ChannelBootloop::new();
        let ghost k = bits_per_ch_spec(ec) / 2;
        let mut i: usize = 0;
        while i < 160
            invariant
                i <= 160,
                self.bl_view().len() == 160,
                out@.len() == 160,
                k == bits_per_ch_spec(ec) / 2,
                cnt == if count_ones(self.bl_view().take(i as int)) < k {
                    k - count_ones(self.bl_view().take(i as int))
                } else {
                    0
                },
                forall|j: int| 0 <= j < i ==> out@[j] == masked_bits(self.bl_view(), k)[j],
                forall|j: int| i <= j < 160 ==> out@[j] == false,
            decreases 160 - i,
        {
            proof {
                crate::bootloop::lemma_count_ones_take(self.bl_view(), i as int);
            }
            let mut b = self.bl.get(i);
            if cnt != 0 && b {
                cnt -= 1;
            } else {
                b = false;
            }
            out.set(i, b);
            i += 1;
        }
        assert(out@ =~= masked_bits(self.bl_view(), k));
        out
    }
}

} // verus!

verus! {

proof fn lemma_la_steps(x: u32)
    by (bit_vector)
    requires
        x < 65536u32,
    ensures
        (((((x * 185u32) as u32) % 2048u32) * 1417u32) as u32) % 2048u32 == x % 2048u32,
{
}

proof fn lemma_pa_bits(pa0: u32)
    by (bit_vector)
    requires
        pa0 < 2048u32,
    ensures
        ((pa0 - (pa0 & 1u32)) * 2u32 + (pa0 & 1u32)) as u32 == ((pa0 & 0x7feu32) << 1u32) | (pa0 & 1u32),
{
}

proof fn lemma_pa_split(pa0: u32)
    by (bit_vector)
    requires
        pa0 < 2048u32,
    ensures
        ({
            let pa = ((pa0 & 0x7feu32) << 1u32) | (pa0 & 1u32);
            &&& pa < 4096u32
            &&& (((pa as u16) >> 1u16) & 1u16) == 0u16
            &&& ((((pa as u16) >> 1u16) & 0x7feu16) | ((pa as u16) & 1u16)) as u32 == pa0
        }),
{
}

/// The physical address of a logical page maps back to that page (modulo the 2048 logical
/// pages), as the holder of neither half.
pub proof fn lemma_la_pa_roundtrip(la: u16)
    ensures
        pa_to_la_spec(la_to_pa_spec(la)) == ((la % 2048) as u16, 0u8),
        la_to_pa_spec(la) < 4096,
{
    let x = la as u32;
    let pa0 = (((la as u32) * 185u32) as u32) % 2048u32;
    lemma_la_steps(x);
    lemma_pa_bits(pa0);
    lemma_pa_split(pa0);
}

proof fn lemma_page_count_onto(mbl: Seq<bool>, n: int, j: int) -> (i: int)
    requires
        0 <= j < page_count(mbl, n),
    ensures
        0 <= i < n,
        page_sel(mbl, i),
        page_count(mbl, i) == j,
    decreases n,
{
    if page_count(mbl, n - 1) > j {
        lemma_page_count_onto(mbl, n - 1, j)
    } else {
        n - 1
    }
}

proof fn lemma_pa_count_onto(bl: Seq<bool>, skip_bad: bool, n: int, j: int) -> (i: int)
    requires
        0 <= j < pa_count(bl, skip_bad, n),
    ensures
        0 <= i < n,
        pa_sel(bl, skip_bad, i),
        pa_count(bl, skip_bad, i) == j,
    decreases n,
{
    if pa_count(bl, skip_bad, n - 1) > j {
        lemma_pa_count_onto(bl, skip_bad, n - 1, j)
    } else {
        n - 1
    }
}

/// What a page read of a channel returns is determined by the channel: two reads of the same
/// page agree.
pub proof fn lemma_page_read_unique(
    c: ChannelMemory,
    pa: int,
    mbl: Seq<bool>,
    sz: nat,
    v1: Seq<bool>,
    v2: Seq<bool>,
)
    requires
        page_count(mbl, 319) >= sz,
        page_bits_match(c, pa, mbl, sz, v1),
        page_bits_match(c, pa, mbl, sz, v2),
    ensures
        v1 == v2,
{
    assert forall|j: int| 0 <= j < sz implies v1[j] == v2[j] by {
        let i = lemma_page_count_onto(mbl, 319, j);
    }
    assert(v1 =~= v2);
}

/// Reading a logical page after writing it gives back what was written, when the write
/// succeeded.
pub proof fn lemma_page_set_get(c1: ChannelMemory, c2: ChannelMemory, la: u16, ec: bool, page: Seq<bool>, v: Seq<bool>)
    requires
        c1.offset_view() matches Some(o) && o < 4096,
        c1.page_ok(ec),
        page.len() == bits_per_ch_spec(ec),
        page_written(c1, c2, c1.page_pa(la), c1.page_mask(ec), bits_per_ch_spec(ec), page),
        page_bits_match(c2, c2.page_pa(la), c2.page_mask(ec), bits_per_ch_spec(ec), v),
    ensures
        c2.page_ok(ec),
        v == page,
{
    let pa = c1.page_pa(la);
    let mbl = c1.page_mask(ec);
    let sz = bits_per_ch_spec(ec);
    assert(0 <= pa < 4096);
    assert forall|j: int| 0 <= j < sz implies v[j] == page[j] by {
        let i = lemma_page_count_onto(mbl, 319, j);
        lemma_page_slot(pa, i);
        lemma_page_count_mono(mbl, i + 1, 319);
        assert(c2.cell(page_quad(i), page_loop(i), page_pos(pa, i)) == page[j]);
    }
    assert(v =~= page);
}

/// Reading a physical page after writing it gives back what was written (the bits that the
/// write used), when the write succeeded.
pub proof fn lemma_page_pa_set_get(c1: ChannelMemory, c2: ChannelMemory, ppa: int, skip_bad: bool, page: Seq<bool>, v: Seq<bool>)
    requires
        0 <= ppa < 4096,
        c1.bl_view().len() == 160,
        page.len() >= pa_min_len(c1.bl_view(), skip_bad),
        pa_written(c1, c2, ppa, skip_bad, page),
        pa_bits_match(c2, ppa, skip_bad, v),
    ensures
        v == page.take(pa_count(c1.bl_view(), skip_bad, 160) as int),
{
    let bl = c1.bl_view();
    lemma_pa_count_total(bl, skip_bad, 160);
    assert(bl.take(160) =~= bl);
    let n = pa_count(bl, skip_bad, 160);
    assert forall|j: int| 0 <= j < n implies v[j] == page[j] by {
        let i = lemma_pa_count_onto(bl, skip_bad, 160, j);
        let q = 1 - i % 2;
        let l = 79 - i / 2;
        assert(2 * (79 - l) + (1 - q) == i);
        assert(c2.cell(q, l, ppa) == page[j]);
    }
    assert(v =~= page.take(n as int));
}

/// Loading the encoded bytes that saving a synchronised channel writes, with any device
/// bootloop, gives back its offset and its loops, and as bootloop the channel's bits of the
/// device bootloop.
#[verifier::spinoff_prover]
#[verifier::rlimit(40)]
pub proof fn lemma_channel_save_load(c: ChannelMemory, bl: Seq<bool>, ch: Channel, c2: ChannelMemory)
    requires
        c.offset_view() matches Some(o) && o < 4096,
        c.shape(),
        bl.len() == 320,
        loaded_from(c2, saved_bytes(c, bl), ch),
    ensures
        c2.offset_view() == c.offset_view(),
        c2.bl_view() == channel_bits(bl, ch_index(ch)),
        c2.same_loops(&c),
{
    let o = c.offset_view().unwrap();
    let b = saved_bytes(c, bl);
    let lp = saved_loop(bl, o as int);
    assert(chunk(b, 0) =~= bits_to_bytes_lsb(lp));
    lemma_bits_bytes_lsb_roundtrip(lp);
    lemma_save_load(bl, o as int, Seq::new(320, |i: int| false));
    assert forall|q: int, l: int| 0 <= q < 2 && 0 <= l < 80 implies #[trigger] c2.loop_view(q, l)
        == c.loop_view(q, l) by {
        let t = 1 + 80 * q + l;
        let lv = c.loop_view(q, l);
        assert forall|k: int| 0 <= k < 512 implies chunk(b, t)[k] == bits_to_bytes_lsb(lv)[k] by {
            assert((512 * t + k) / 512 == t) by (nonlinear_arith)
                requires
                    0 <= k < 512;
            assert((512 * t + k) % 512 == k) by (nonlinear_arith)
                requires
                    0 <= k < 512;
        }
        assert(chunk(b, t) =~= bits_to_bytes_lsb(lv));
        lemma_bits_bytes_lsb_roundtrip(lv);
    }
}

} // verus!

verus! {

/// The logical page whose page holds position `p` of the loops of a channel synchronised at
/// offset `o` (every position belongs to the page of exactly one logical address).
pub open spec fn la_at(o: u16, p: int) -> u16 {
    pa_to_la_spec((((p - o - 362) % 4096) as u16) & 0xffdu16).0
}

proof fn lemma_bit1_clear(x: u16)
    by (bit_vector)
    requires
        x < 4096u16,
        (x >> 1u16) & 1u16 == 0u16,
    ensures
        x & 0xffdu16 == x,
        x + 2 < 4096,
        ((x + 2) as u16) & 0xffdu16 == x,
{
}

/// Both positions of the page of logical address `la` belong to `la`.
pub proof fn lemma_la_at(o: u16, la: u16, p: int)
    requires
        o < 4096,
        la < 2048,
        p == offset_pa(o, la_to_pa_spec(la)) || p == (offset_pa(o, la_to_pa_spec(la)) + 2) % 4096,
    ensures
        la_at(o, p) == la,
{
    let pa0 = (((la as u32) * 185u32) as u32) % 2048u32;
    lemma_pa_split(pa0);
    lemma_la_pa_roundtrip(la);
    let x = la_to_pa_spec(la);
    assert(x == (((pa0 & 0x7feu32) << 1u32) | (pa0 & 1u32)) as u16);
    assert(((x >> 1u16) & 1u16) == 0u16);
    lemma_bit1_clear(x);
    let pp = offset_pa(o, x) as int;
    assert(pp == ((x + o) % 4096 + 362) % 4096);
    if p == pp {
        assert((p - o - 362) % 4096 == x as int);
    } else {
        assert((p - o - 362) % 4096 == x as int + 2);
    }
}

/// The bit that cell (`q`, `l`, `p`) holds once the pages of the logical addresses marked
/// `active` are written, each with `page_of` its address, into channel `c` (page length by
/// `ec`); the cells of other pages keep their bits.
pub open spec fn written_cell(
    c: ChannelMemory,
    ec: bool,
    page_of: spec_fn(u16) -> Seq<bool>,
    active: spec_fn(u16) -> bool,
    q: int,
    l: int,
    p: int,
) -> bool {
    let la = la_at(c.offset_view().unwrap(), p);
    let i = page_slot_of(c.page_pa(la), q, l, p);
    let mbl = c.page_mask(ec);
    if active(la) && 0 <= i < 320 && page_sel(mbl, i) && page_count(mbl, i) < bits_per_ch_spec(ec) {
        page_of(la)[page_count(mbl, i) as int]
    } else {
        c.cell(q, l, p)
    }
}

/// `c2` is `c1` with the pages of the logical addresses marked `active` written, each with
/// `page_of` its address; a channel that is not synchronised is left as it is.
pub open spec fn pages_written(
    c1: ChannelMemory,
    c2: ChannelMemory,
    ec: bool,
    page_of: spec_fn(u16) -> Seq<bool>,
    active: spec_fn(u16) -> bool,
) -> bool {
    if c1.offset_view() is None {
        c2 == c1
    } else {
        &&& c2.bl_view() == c1.bl_view()
        &&& c2.offset_view() == c1.offset_view()
        &&& c2.shape()
        &&& forall|q: int, l: int, p: int|
            0 <= q < 2 && 0 <= l < 80 && 0 <= p < 4096 ==> #[trigger] c2.cell(q, l, p)
                == written_cell(c1, ec, page_of, active, q, l, p)
    }
}

/// The effect of a page write on a channel: with a page of the right length on a
/// synchronised channel, its bits are written; otherwise nothing changes.
pub open spec fn page_update(c1: ChannelMemory, c2: ChannelMemory, la: u16, ec: bool, page: Seq<bool>) -> bool {
    if page.len() == bits_per_ch_spec(ec) && c1.offset_view() is Some {
        page_written(c1, c2, c1.page_pa(la), c1.page_mask(ec), bits_per_ch_spec(ec), page)
    } else {
        c2 == c1
    }
}

/// Writing nothing leaves the channel as it is.
pub proof fn lemma_pages_written_none(c: ChannelMemory, ec: bool, page_of: spec_fn(u16) -> Seq<bool>, active: spec_fn(u16) -> bool)
    requires
        c.shape(),
        c.offset_view() matches Some(o) ==> o < 4096,
        forall|x: u16| !#[trigger] active(x),
    ensures
        pages_written(c, c, ec, page_of, active),
{
}

/// One more page write extends a run of page writes.
pub proof fn lemma_pages_written_step(
    c0: ChannelMemory,
    c1: ChannelMemory,
    c2: ChannelMemory,
    ec: bool,
    page_of: spec_fn(u16) -> Seq<bool>,
    active: spec_fn(u16) -> bool,
    active2: spec_fn(u16) -> bool,
    la: u16,
)
    requires
        c0.offset_view() matches Some(o) ==> o < 4096,
        la < 2048,
        !active(la),
        forall|x: u16| #[trigger] active2(x) == (active(x) || x == la),
        page_of(la).len() == bits_per_ch_spec(ec),
        pages_written(c0, c1, ec, page_of, active),
        page_update(c1, c2, la, ec, page_of(la)),
    ensures
        pages_written(c0, c2, ec, page_of, active2),
{
    if c0.offset_view() is Some {
        let o = c0.offset_view().unwrap();
        assert forall|q: int, l: int, p: int|
            0 <= q < 2 && 0 <= l < 80 && 0 <= p < 4096 implies #[trigger] c2.cell(q, l, p)
                == written_cell(c0, ec, page_of, active2, q, l, p) by {
            let pa = c1.page_pa(la);
            let i = page_slot_of(pa, q, l, p);
            if 0 <= i < 320 {
                lemma_la_at(o, la, p);
            }
        }
    }
}

/// A page whose logical address was not among those written reads as before.
pub proof fn lemma_pages_written_read(
    c1: ChannelMemory,
    c2: ChannelMemory,
    ec: bool,
    page_of: spec_fn(u16) -> Seq<bool>,
    active: spec_fn(u16) -> bool,
    la: u16,
    ec2: bool,
    v: Seq<bool>,
)
    requires
        c1.offset_view() matches Some(o) && o < 4096,
        la < 2048,
        !active(la),
        pages_written(c1, c2, ec, page_of, active),
    ensures
        page_bits_match(c1, c1.page_pa(la), c1.page_mask(ec2), bits_per_ch_spec(ec2), v)
            == page_bits_match(c2, c2.page_pa(la), c2.page_mask(ec2), bits_per_ch_spec(ec2), v),
{
    let o = c1.offset_view().unwrap();
    let pa = c1.page_pa(la);
    assert forall|i: int| 0 <= i < 320 implies #[trigger] c2.cell(page_quad(i), page_loop(i), page_pos(pa, i))
        == c1.cell(page_quad(i), page_loop(i), page_pos(pa, i)) by {
        lemma_page_slot(pa, i);
        lemma_la_at(o, la, page_pos(pa, i));
    }
}

/// After the pages of some logical addresses are written, a page read of one of them gives
/// what was written, when the channel has enough used slots.
pub proof fn lemma_pages_written_get(
    c1: ChannelMemory,
    c2: ChannelMemory,
    ec: bool,
    page_of: spec_fn(u16) -> Seq<bool>,
    active: spec_fn(u16) -> bool,
    la: u16,
    v: Seq<bool>,
)
    requires
        c1.offset_view() matches Some(o) && o < 4096,
        c1.page_ok(ec),
        la < 2048,
        active(la),
        page_of(la).len() == bits_per_ch_spec(ec),
        pages_written(c1, c2, ec, page_of, active),
        page_bits_match(c2, c2.page_pa(la), c2.page_mask(ec), bits_per_ch_spec(ec), v),
    ensures
        v == page_of(la),
{
    let o = c1.offset_view().unwrap();
    let pa = c1.page_pa(la);
    let mbl = c1.page_mask(ec);
    let sz = bits_per_ch_spec(ec);
    assert forall|j: int| 0 <= j < sz implies v[j] == page_of(la)[j] by {
        let i = lemma_page_count_onto(mbl, 319, j);
        lemma_page_slot(pa, i);
        lemma_la_at(o, la, page_pos(pa, i));
        lemma_page_count_mono(mbl, i + 1, 319);
        assert(c2.cell(page_quad(i), page_loop(i), page_pos(pa, i)) == page_of(la)[j]);
    }
    assert(v =~= page_of(la));
}

} // verus!

verus! {

/// What a physical page read of a channel returns is determined by the channel: two reads of
/// the same position agree.
pub proof fn lemma_pa_read_unique(c: ChannelMemory, ppa: int, skip_bad: bool, v1: Seq<bool>, v2: Seq<bool>)
    requires
        pa_bits_match(c, ppa, skip_bad, v1),
        pa_bits_match(c, ppa, skip_bad, v2),
    ensures
        v1 == v2,
{
    let bl = c.bl_view();
    assert forall|j: int| 0 <= j < v1.len() implies v1[j] == v2[j] by {
        let i = lemma_pa_count_onto(bl, skip_bad, 160, j);
    }
    assert(v1 =~= v2);
}

} // verus!

verus! {

/// After the pages of some logical addresses are written, each of them reads as written.
pub proof fn lemma_pages_written_match(
    c1: ChannelMemory,
    c2: ChannelMemory,
    ec: bool,
    page_of: spec_fn(u16) -> Seq<bool>,
    active: spec_fn(u16) -> bool,
    la: u16,
)
    requires
        c1.offset_view() matches Some(o) && o < 4096,
        la < 2048,
        active(la),
        page_of(la).len() == bits_per_ch_spec(ec),
        pages_written(c1, c2, ec, page_of, active),
    ensures
        page_bits_match(c2, c2.page_pa(la), c2.page_mask(ec), bits_per_ch_spec(ec), page_of(la)),
{
    let o = c1.offset_view().unwrap();
    let pa = c1.page_pa(la);
    assert forall|i: int|
        0 <= i < 320 && page_sel(c2.page_mask(ec), i) && page_count(c2.page_mask(ec), i) < bits_per_ch_spec(ec)
            implies page_of(la)[page_count(c2.page_mask(ec), i) as int] == c2.cell(
            page_quad(i),
            page_loop(i),
            page_pos(pa, i),
        ) by {
        lemma_page_slot(pa, i);
        lemma_la_at(o, la, page_pos(pa, i));
    }
}

} // verus!

verus! {

impl Default for ChannelMemory {
    fn default() -> (r: ChannelMemory)
        ensures
            r.bl_view() == Seq::new(160, |i: int| false),
            r.offset_view() is None,
            r.loops_clear(),
    {
        ChannelMemory::new()
    }
}

} // verus!

verus! {

/// Writing the page of one logical address leaves what a read of any other logical address
/// gives.
pub proof fn lemma_page_write_other(
    c1: ChannelMemory,
    c2: ChannelMemory,
    la_w: u16,
    la_r: u16,
    ec_w: bool,
    ec_r: bool,
    page: Seq<bool>,
    v: Seq<bool>,
)
    requires
        c1.offset_view() matches Some(o) && o < 4096,
        la_w < 2048,
        la_r < 2048,
        la_w != la_r,
        page_written(c1, c2, c1.page_pa(la_w), c1.page_mask(ec_w), bits_per_ch_spec(ec_w), page),
    ensures
        page_bits_match(c1, c1.page_pa(la_r), c1.page_mask(ec_r), bits_per_ch_spec(ec_r), v)
            == page_bits_match(c2, c2.page_pa(la_r), c2.page_mask(ec_r), bits_per_ch_spec(ec_r), v),
{
    let o = c1.offset_view().unwrap();
    let pa_r = c1.page_pa(la_r);
    let pa_w = c1.page_pa(la_w);
    assert forall|i: int| 0 <= i < 320 implies #[trigger] c2.cell(page_quad(i), page_loop(i), page_pos(pa_r, i))
        == c1.cell(page_quad(i), page_loop(i), page_pos(pa_r, i)) by {
        lemma_page_slot(pa_r, i);
        let p = page_pos(pa_r, i);
        lemma_la_at(o, la_r, p);
        let j = page_slot_of(pa_w, page_quad(i), page_loop(i), p);
        if 0 <= j < 320 {
            lemma_la_at(o, la_w, p);
        }
    }
}

} // verus!

verus! {

proof fn lemma_masked_count(bl: Seq<bool>, k: nat, n: int)
    requires
        bl.len() == 160,
        0 <= n <= 160,
    ensures
        count_ones(masked_bits(bl, k).take(n)) == if count_ones(bl.take(n)) < k {
            count_ones(bl.take(n))
        } else {
            k
        },
    decreases n,
{
    let m = masked_bits(bl, k);
    if n > 0 {
        lemma_masked_count(bl, k, n - 1);
        crate::bootloop::lemma_count_ones_take(bl, n - 1);
        crate::bootloop::lemma_count_ones_take(m, n - 1);
    } else {
        assert(m.take(0) =~= Seq::<bool>::empty());
        assert(bl.take(0) =~= Seq::<bool>::empty());
    }
}

proof fn lemma_page_count_quads(mbl: Seq<bool>, j: int)
    requires
        mbl.len() == 160,
        0 <= j <= 80,
    ensures
        page_count(mbl, 4 * j) == 2 * count_ones(mbl.take(2 * j)),
    decreases j,
{
    if j > 0 {
        lemma_page_count_quads(mbl, j - 1);
        crate::bootloop::lemma_count_ones_take(mbl, 2 * j - 2);
        crate::bootloop::lemma_count_ones_take(mbl, 2 * j - 1);
        assert(page_count(mbl, 4 * j) == page_count(mbl, 4 * j - 4) + (if page_sel(mbl, 4 * j - 4) {
            1nat
        } else {
            0nat
        }) + (if page_sel(mbl, 4 * j - 3) {
            1nat
        } else {
            0nat
        }) + (if page_sel(mbl, 4 * j - 2) {
            1nat
        } else {
            0nat
        }) + (if page_sel(mbl, 4 * j - 1) {
            1nat
        } else {
            0nat
        })) by {
            reveal_with_fuel(page_count, 5);
        }
        assert(page_blr(4 * j - 4) == 2 * j - 2);
        assert(page_blr(4 * j - 3) == 2 * j - 1);
        assert(page_blr(4 * j - 2) == 2 * j - 2);
        assert(page_blr(4 * j - 1) == 2 * j - 1);
    } else {
        assert(mbl.take(0) =~= Seq::<bool>::empty());
    }
}

/// A synchronised channel whose bootloop has at least 135 good loops among its first 157
/// can hold pages with error correction.
pub proof fn lemma_enough_good_loops(c: ChannelMemory)
    requires
        c.offset_view() is Some,
        c.bl_view().len() == 160,
        count_ones(c.bl_view().take(157)) >= 135,
    ensures
        c.page_ok(true),
{
    let bl = c.bl_view();
    let mbl = c.page_mask(true);
    lemma_masked_count(bl, 135, 158);
    crate::bootloop::lemma_count_ones_take(bl, 157);
    lemma_page_count_quads(mbl, 79);
    lemma_page_count_mono(mbl, 316, 319);
}

} // verus!

verus! {

/// A synchronised channel can give and take pages exactly when enough slots are used: it can
/// when its bootloop has more good loops than half a page's bits, and it cannot when it has
/// fewer.
pub proof fn lemma_page_ok_ones(c: ChannelMemory, ec: bool)
    requires
        c.offset_view() is Some,
        c.bl_view().len() == 160,
    ensures
        count_ones(c.bl_view()) > bits_per_ch_spec(ec) / 2 ==> c.page_ok(ec),
        count_ones(c.bl_view()) < bits_per_ch_spec(ec) / 2 ==> !c.page_ok(ec),
{
    let bl = c.bl_view();
    let k = bits_per_ch_spec(ec) / 2;
    let mbl = c.page_mask(ec);
    assert(bl.take(160) =~= bl);
    assert(mbl.take(160) =~= mbl);
    crate::bootloop::lemma_count_ones_take(bl, 159);
    crate::bootloop::lemma_count_ones_take(mbl, 158);
    lemma_masked_count(bl, k, 159);
    lemma_masked_count(bl, k, 160);
    lemma_page_count_quads(mbl, 79);
    lemma_page_count_quads(mbl, 80);
    lemma_page_count_mono(mbl, 319, 320);
    assert(page_count(mbl, 319) == page_count(mbl, 316) + (if page_sel(mbl, 316) {
        1nat
    } else {
        0nat
    }) + (if page_sel(mbl, 317) {
        1nat
    } else {
        0nat
    }) + (if page_sel(mbl, 318) {
        1nat
    } else {
        0nat
    })) by {
        reveal_with_fuel(page_count, 4);
    }
    assert(page_blr(316) == 158 && page_blr(317) == 159 && page_blr(318) == 158);
}

/// Writing a physical page leaves what a read of any other physical position gives.
pub proof fn lemma_page_pa_write_other(
    c1: ChannelMemory,
    c2: ChannelMemory,
    ppa: int,
    ppa2: int,
    skip_bad: bool,
    skip2: bool,
    page: Seq<bool>,
    v: Seq<bool>,
)
    requires
        0 <= ppa2 < 4096,
        ppa2 != ppa,
        pa_written(c1, c2, ppa, skip_bad, page),
    ensures
        pa_bits_match(c1, ppa2, skip2, v) == pa_bits_match(c2, ppa2, skip2, v),
{
    assert forall|i: int| 0 <= i < 160 implies #[trigger] c2.cell(1 - i % 2, 79 - i / 2, ppa2) == c1.cell(
        1 - i % 2,
        79 - i / 2,
        ppa2,
    ) by {}
}

} // verus!

verus! {

/// The page bit slot whose bit lands at position `j` of the page.
spec fn slot_with_count(mbl: Seq<bool>, j: int) -> int {
    choose|i: int| 0 <= i < 320 && page_sel(mbl, i) && page_count(mbl, i) == j
}

/// A channel with enough used slots has a page to read at every position.
pub proof fn lemma_page_read_exists(c: ChannelMemory, pa: int, mbl: Seq<bool>, sz: nat)
    requires
        page_count(mbl, 319) >= sz,
    ensures
        exists|v: Seq<bool>| page_bits_match(c, pa, mbl, sz, v),
{
    assert forall|j: int| #![trigger slot_with_count(mbl, j)] 0 <= j < sz implies exists|i: int|
        0 <= i < 320 && page_sel(mbl, i) && #[trigger] page_count(mbl, i) == j by {
        let i = lemma_page_count_onto(mbl, 319, j);
        assert(page_count(mbl, i) == j);
    }
    let v = Seq::new(
        sz,
        |j: int|
            c.cell(
                page_quad(slot_with_count(mbl, j)),
                page_loop(slot_with_count(mbl, j)),
                page_pos(pa, slot_with_count(mbl, j)),
            ),
    );
    assert forall|i: int|
        0 <= i < 320 && page_sel(mbl, i) && page_count(mbl, i) < sz implies v[page_count(mbl, i) as int]
        == c.cell(page_quad(i), page_loop(i), page_pos(pa, i)) by {
        let j = page_count(mbl, i) as int;
        let i2 = slot_with_count(mbl, j);
        assert(0 <= i2 < 320 && page_sel(mbl, i2) && page_count(mbl, i2) == j);
        if i2 < i {
            lemma_page_count_mono(mbl, i2 + 1, i);
        } else if i < i2 {
            lemma_page_count_mono(mbl, i + 1, i2);
        }
    }
    assert(page_bits_match(c, pa, mbl, sz, v));
}

} // verus!

verus! {

/// Writing a logical page leaves what a physical read gives at any position other than the
/// two that hold the page.
pub proof fn lemma_page_write_pa_other(
    c1: ChannelMemory,
    c2: ChannelMemory,
    pa: int,
    mbl: Seq<bool>,
    sz: nat,
    page: Seq<bool>,
    ppa2: int,
    skip2: bool,
    v: Seq<bool>,
)
    requires
        0 <= ppa2 < 4096,
        ppa2 != pa,
        ppa2 != (pa + 2) % 4096,
        page_written(c1, c2, pa, mbl, sz, page),
    ensures
        pa_bits_match(c1, ppa2, skip2, v) == pa_bits_match(c2, ppa2, skip2, v),
{
    assert forall|i: int| 0 <= i < 160 implies #[trigger] c2.cell(1 - i % 2, 79 - i / 2, ppa2) == c1.cell(
        1 - i % 2,
        79 - i / 2,
        ppa2,
    ) by {}
}

/// After a physical page is written skipping the bad loops, a read of that position over all
/// loops finds the bit of every bad loop clear and the bit of the `k`-th good loop equal to
/// bit `k` of the page.
pub proof fn lemma_pa_write_masks(c1: ChannelMemory, c2: ChannelMemory, ppa: int, page: Seq<bool>, v: Seq<bool>)
    requires
        0 <= ppa < 4096,
        pa_written(c1, c2, ppa, true, page),
        pa_bits_match(c2, ppa, false, v),
    ensures
        forall|i: int| 0 <= i < 160 && !c1.bl_view()[i] ==> !#[trigger] v[i],
        forall|i: int| 0 <= i < 160 && c1.bl_view()[i] ==> #[trigger] v[i] == page[count_ones(c1.bl_view().take(i)) as int],
{
    let bl = c1.bl_view();
    assert(bl.len() == 160);
    lemma_pa_count_total(bl, false, 160);
    assert forall|i: int| 0 <= i < 160 implies #[trigger] v[i] == (if bl[i] {
        page[count_ones(bl.take(i)) as int]
    } else {
        false
    }) by {
        lemma_pa_count_total(bl, false, i);
        lemma_pa_count_total(bl, true, i);
        assert(pa_sel(c2.bl_view(), false, i));
        assert(v[pa_count(c2.bl_view(), false, i) as int] == c2.cell(1 - i % 2, 79 - i / 2, ppa));
        let q = 1 - i % 2;
        let l = 79 - i / 2;
        assert(2 * (79 - l) + (1 - q) == i);
        assert(0 <= q < 2 && 0 <= l < 80);
        assert(c2.cell(q, l, ppa) == (if pa_sel(bl, true, i) {
            page[pa_count(bl, true, i) as int]
        } else {
            false
        }));
    }
}

} // verus!

verus! {

/// Logical addresses repeat every 2048 pages: an address and its remainder by 2048 name the
/// same physical page of a synchronised channel.
pub proof fn lemma_la_wraps(c: ChannelMemory, la: u16)
    ensures
        la_to_pa_spec(la) == la_to_pa_spec((la % 2048) as u16),
        c.offset_view() is Some ==> c.page_pa(la) == c.page_pa((la % 2048) as u16),
{
    assert((((la as u32) * 185u32) as u32) % 2048u32 == ((((la % 2048u16) as u32) * 185u32) as u32)
        % 2048u32) by (bit_vector);
}

} // verus!

verus! {

/// Where the bits of a logical page lie: used page slot `i` of the page at position `pa` is
/// the bit at position `pa` (the first two slots of every four) or `pa + 2` (the other two) of
/// loop `79 - i / 4` of quad 1 for an even slot and of quad 0 for an odd one. So with the first
/// pair of loops good, page bit 0 is bit `pa` of loop 79 of quad 1 and page bit 1 is bit `pa`
/// of loop 79 of quad 0.
pub proof fn lemma_page_cells(c: ChannelMemory, pa: int, mbl: Seq<bool>, sz: nat, v: Seq<bool>)
    requires
        page_bits_match(c, pa, mbl, sz, v),
    ensures
        forall|i: int|
            0 <= i < 320 && page_sel(mbl, i) && page_count(mbl, i) < sz ==> v[#[trigger] page_count(
                mbl,
                i,
            ) as int] == c.cell(
                if i % 2 == 0 {
                    1
                } else {
                    0
                },
                79 - i / 4,
                if i % 4 < 2 {
                    pa
                } else {
                    (pa + 2) % 4096
                },
            ),
        mbl[0] && sz > 0 ==> v[0] == c.cell(1, 79, pa),
        mbl[0] && mbl[1] && sz > 1 ==> v[1] == c.cell(0, 79, pa),
{
    assert forall|i: int|
        0 <= i < 320 && page_sel(mbl, i) && page_count(mbl, i) < sz implies v[#[trigger] page_count(
            mbl,
            i,
        ) as int] == c.cell(
            if i % 2 == 0 {
                1
            } else {
                0
            },
            79 - i / 4,
            if i % 4 < 2 {
                pa
            } else {
                (pa + 2) % 4096
            },
        ) by {
        assert((i / 2) % 2 == 0 <==> i % 4 < 2);
    }
    assert(page_count(mbl, 0) == 0);
    assert(page_count(mbl, 1) == if mbl[0] {
        1nat
    } else {
        0nat
    });
    assert(page_blr(0) == 0 && page_blr(1) == 1);
}

/// Where the bits of a physical page lie: bit `i` of the full physical page at position `ppa`
/// is bit `ppa` of loop `79 - i / 2` of quad 1 for an even `i` and of quad 0 for an odd one; so
/// bit 0 is bit `ppa` of loop 79 of quad 1. Skipping bad loops keeps the bits of the good ones,
/// in order.
pub proof fn lemma_pa_cells(c: ChannelMemory, ppa: int, skip_bad: bool, v: Seq<bool>)
    requires
        c.bl_view().len() == 160,
        pa_bits_match(c, ppa, skip_bad, v),
    ensures
        !skip_bad ==> v.len() == 160,
        !skip_bad ==> forall|i: int|
            0 <= i < 160 ==> #[trigger] v[i] == c.cell(
                if i % 2 == 0 {
                    1
                } else {
                    0
                },
                79 - i / 2,
                ppa,
            ),
        !skip_bad ==> v[0] == c.cell(1, 79, ppa) && v[1] == c.cell(0, 79, ppa),
        skip_bad ==> v.len() == count_ones(c.bl_view()),
        skip_bad ==> forall|i: int|
            0 <= i < 160 && c.bl_view()[i] ==> v[#[trigger] count_ones(c.bl_view().take(i)) as int]
                == c.cell(
                if i % 2 == 0 {
                    1
                } else {
                    0
                },
                79 - i / 2,
                ppa,
            ),
{
    let bl = c.bl_view();
    lemma_pa_count_total(bl, skip_bad, 160);
    assert(bl.take(160) =~= bl);
    assert forall|i: int| 0 <= i < 160 && pa_sel(bl, skip_bad, i) implies v[pa_count(bl, skip_bad, i) as int]
        == c.cell(
        if i % 2 == 0 {
            1
        } else {
            0
        },
        79 - i / 2,
        ppa,
    ) by {}
    if !skip_bad {
        assert forall|i: int| 0 <= i < 160 implies #[trigger] v[i] == c.cell(
            if i % 2 == 0 {
                1
            } else {
                0
            },
            79 - i / 2,
            ppa,
        ) by {
            lemma_pa_count_total(bl, false, i);
            assert(pa_sel(bl, false, i));
            assert(v[pa_count(bl, false, i) as int] == c.cell(1 - i % 2, 79 - i / 2, ppa));
            assert((if i % 2 == 0 { 1int } else { 0int }) == 1 - i % 2);
        }
        assert(v[0] == c.cell(1, 79, ppa));
        assert(v[1] == c.cell(0, 79, ppa));
    } else {
        assert forall|i: int| 0 <= i < 160 && c.bl_view()[i] implies v[#[trigger] count_ones(
            c.bl_view().take(i),
        ) as int] == c.cell(
            if i % 2 == 0 {
                1
            } else {
                0
            },
            79 - i / 2,
            ppa,
        ) by {
            lemma_pa_count_total(bl, true, i);
            assert(pa_sel(bl, true, i));
            assert(v[pa_count(bl, true, i) as int] == c.cell(1 - i % 2, 79 - i / 2, ppa));
            assert((if i % 2 == 0 { 1int } else { 0int }) == 1 - i % 2);
        }
    }
}

/// A logical page read and the full physical reads of the two positions that hold the page
/// agree: used page slot `i` is bit `2 (i / 4) + i % 2` of the physical page at the page's
/// position for the first two slots of every four, and at two positions further for the
/// others.
pub proof fn lemma_page_pa_agree(
    c: ChannelMemory,
    pa: int,
    mbl: Seq<bool>,
    sz: nat,
    w: Seq<bool>,
    u0: Seq<bool>,
    u2: Seq<bool>,
    i: int,
)
    requires
        c.bl_view().len() == 160,
        page_bits_match(c, pa, mbl, sz, w),
        pa_bits_match(c, pa, false, u0),
        pa_bits_match(c, (pa + 2) % 4096, false, u2),
        0 <= i < 320,
        page_sel(mbl, i),
        page_count(mbl, i) < sz,
    ensures
        w[page_count(mbl, i) as int] == if i % 4 < 2 {
            u0[2 * (i / 4) + i % 2]
        } else {
            u2[2 * (i / 4) + i % 2]
        },
{
    lemma_page_cells(c, pa, mbl, sz, w);
    lemma_pa_cells(c, pa, false, u0);
    lemma_pa_cells(c, (pa + 2) % 4096, false, u2);
    let b = 2 * (i / 4) + i % 2;
    assert(0 <= b < 160);
    assert(b % 2 == i % 2);
    assert(b / 2 == i / 4);
    assert(u0[b] == c.cell(if b % 2 == 0 { 1 } else { 0 }, 79 - b / 2, pa));
    assert(u2[b] == c.cell(if b % 2 == 0 { 1 } else { 0 }, 79 - b / 2, (pa + 2) % 4096));
}

/// The layout of an encoded channel as loaded: the 512 bytes from byte
/// `512 + 40960 q + 512 l` hold loop `l` of quad `q`, bit `p` of the loop being bit `p % 8`
/// (least significant first) of byte `p / 8` of them.
pub proof fn lemma_loaded_layout(c: ChannelMemory, inp: Seq<u8>, ch: Channel, q: int, l: int, p: int)
    requires
        inp.len() >= 82432,
        loaded_from(c, inp, ch),
        0 <= q < 2,
        0 <= l < 80,
        0 <= p < 4096,
    ensures
        c.cell(q, l, p) == ((inp[512 + 40960 * q + 512 * l + p / 8] >> ((p % 8) as u8)) & 1u8 == 1u8),
{
    let ch_bytes = chunk(inp, 1 + 80 * q + l);
    assert(c.loop_view(q, l) == bytes_to_bits_lsb(ch_bytes));
    assert(ch_bytes[p / 8] == inp[512 * (1 + 80 * q + l) + p / 8]);
    assert(512 * (1 + 80 * q + l) == 512 + 40960 * q + 512 * l);
}

/// The bootloop of a loaded channel comes from its first 512 bytes: when their bits, least
/// significant first, are laid out as a recording of the device bootloop `bl` for offset
/// `off` (3158 set bits from position `off + 363`, 242 clear bits, the pattern
/// `10101010101010`, the 320 bits of `bl`, clear bits to the end), the channel is synchronised
/// at `off` and its bootloop is every other bit of `bl`, from bit 0 for channel A and from
/// bit 1 for channel B.
pub proof fn lemma_loaded_bootloop(c: ChannelMemory, inp: Seq<u8>, ch: Channel, bl: Seq<bool>, off: int)
    requires
        inp.len() >= 82432,
        loaded_from(c, inp, ch),
        bl.len() == 320,
        0 <= off < 4096,
        forall|q: int| 0 <= q < 3158 ==> #[trigger] crate::bits::bit_u8(inp[((off + 363 + q) % 4096) / 8], (((off + 363 + q) % 4096) % 8) as u8),
        forall|q: int| 3158 <= q < 3400 ==> !#[trigger] crate::bits::bit_u8(inp[((off + 363 + q) % 4096) / 8], (((off + 363 + q) % 4096) % 8) as u8),
        forall|k: int| 0 <= k < 7 ==> #[trigger] crate::bits::bit_u8(inp[((off + 3763 + 2 * k) % 4096) / 8], (((off + 3763 + 2 * k) % 4096) % 8) as u8),
        forall|k: int| 0 <= k < 7 ==> !#[trigger] crate::bits::bit_u8(inp[((off + 3764 + 2 * k) % 4096) / 8], (((off + 3764 + 2 * k) % 4096) % 8) as u8),
        forall|j: int| 0 <= j < 320 ==> #[trigger] crate::bits::bit_u8(inp[((off + 3777 + j) % 4096) / 8], (((off + 3777 + j) % 4096) % 8) as u8) == bl[j],
        forall|q: int| 3734 <= q < 4096 ==> !#[trigger] crate::bits::bit_u8(inp[((off + 363 + q) % 4096) / 8], (((off + 363 + q) % 4096) % 8) as u8),
    ensures
        c.offset_view() == Some(off as u16),
        forall|i: int| 0 <= i < 160 ==> #[trigger] c.bl_view()[i] == bl[2 * i + match ch {
            Channel::ChannelA => 0int,
            Channel::ChannelB => 1int,
        }],
{
    let lp = bytes_to_bits_lsb(chunk(inp, 0));
    assert(lp.len() == 4096);
    assert forall|x: int| 0 <= x < 4096 implies #[trigger] lp[x] == crate::bits::bit_u8(inp[x / 8], (x % 8) as u8) by {
        assert(chunk(inp, 0)[x / 8] == inp[x / 8]);
    }
    assert forall|q: int| 0 <= q < 3158 implies lp[#[trigger] ((off + 363 + q) % 4096)] by {
        assert(lp[(off + 363 + q) % 4096] == crate::bits::bit_u8(inp[((off + 363 + q) % 4096) / 8], (((off + 363 + q) % 4096) % 8) as u8));
    }
    assert forall|q: int| 3158 <= q < 3400 implies !lp[#[trigger] ((off + 363 + q) % 4096)] by {
        assert(lp[(off + 363 + q) % 4096] == crate::bits::bit_u8(inp[((off + 363 + q) % 4096) / 8], (((off + 363 + q) % 4096) % 8) as u8));
    }
    assert forall|q: int| 3734 <= q < 4096 implies !lp[#[trigger] ((off + 363 + q) % 4096)] by {
        assert(lp[(off + 363 + q) % 4096] == crate::bits::bit_u8(inp[((off + 363 + q) % 4096) / 8], (((off + 363 + q) % 4096) % 8) as u8));
    }
    assert forall|k: int| 0 <= k < 7 implies lp[#[trigger] ((off + 3763 + 2 * k) % 4096)] by {
        assert(lp[(off + 3763 + 2 * k) % 4096] == crate::bits::bit_u8(inp[((off + 3763 + 2 * k) % 4096) / 8], (((off + 3763 + 2 * k) % 4096) % 8) as u8));
    }
    assert forall|k: int| 0 <= k < 7 implies !lp[#[trigger] ((off + 3764 + 2 * k) % 4096)] by {
        assert(lp[(off + 3764 + 2 * k) % 4096] == crate::bits::bit_u8(inp[((off + 3764 + 2 * k) % 4096) / 8], (((off + 3764 + 2 * k) % 4096) % 8) as u8));
    }
    assert forall|j: int| 0 <= j < 320 implies lp[#[trigger] ((off + 3777 + j) % 4096)] == bl[j] by {
        assert(lp[(off + 3777 + j) % 4096] == crate::bits::bit_u8(inp[((off + 3777 + j) % 4096) / 8], (((off + 3777 + j) % 4096) % 8) as u8));
    }
    crate::sync::lemma_find_recorded(lp, bl, off, Seq::new(320, |i: int| false));
}

/// The layout of an encoded channel as saved: the 512 bytes from byte `512 + 40960 q + 512 l`
/// hold loop `l` of quad `q`, bit `p` of the loop as bit `p % 8` (least significant first) of
/// byte `p / 8` of them; the first 512 bytes hold, in the same way, the loop in which the
/// device bootloop is recorded for the channel's offset.
pub proof fn lemma_saved_layout(c: ChannelMemory, bl: Seq<bool>, q: int, l: int, p: int)
    requires
        c.shape(),
        c.offset_view() is Some,
        bl.len() == 320,
        0 <= q < 2,
        0 <= l < 80,
        0 <= p < 4096,
    ensures
        saved_bytes(c, bl).len() == 82432,
        ((saved_bytes(c, bl)[512 + 40960 * q + 512 * l + p / 8] >> ((p % 8) as u8)) & 1u8 == 1u8)
            == c.cell(q, l, p),
        ((saved_bytes(c, bl)[p / 8] >> ((p % 8) as u8)) & 1u8 == 1u8) == saved_loop(
            bl,
            c.offset_view().unwrap() as int,
        )[p],
{
    let k = 512 + 40960 * q + 512 * l + p / 8;
    let t = 1 + 80 * q + l;
    assert(k == 512 * t + p / 8);
    assert(k / 512 == t) by {
        vstd::arithmetic::div_mod::lemma_fundamental_div_mod_converse(k, 512, t, p / 8);
    }
    assert(k % 512 == p / 8) by {
        vstd::arithmetic::div_mod::lemma_fundamental_div_mod_converse(k, 512, t, p / 8);
    }
    assert((t - 1) / 80 == q) by {
        vstd::arithmetic::div_mod::lemma_fundamental_div_mod_converse(t - 1, 80, q, l);
    }
    assert((t - 1) % 80 == l) by {
        vstd::arithmetic::div_mod::lemma_fundamental_div_mod_converse(t - 1, 80, q, l);
    }
    let s = c.loop_view(q, l);
    lemma_bits_bytes_lsb_roundtrip(s);
    assert(bytes_to_bits_lsb(bits_to_bytes_lsb(s))[p] == s[p]);
    assert(saved_bytes(c, bl)[k] == bits_to_bytes_lsb(s)[p / 8]);
    let o = c.offset_view().unwrap() as int;
    let sl = saved_loop(bl, o);
    lemma_bits_bytes_lsb_roundtrip(sl);
    assert(bytes_to_bits_lsb(bits_to_bytes_lsb(sl))[p] == sl[p]);
    assert(saved_bytes(c, bl)[p / 8] == bits_to_bytes_lsb(sl)[p / 8]);
}

} // verus!

verus! {

/// Which loops carry logical pages: the masked bootloop keeps the good loops of the bootloop
/// up to the first `n / 2` of them (`n` the bits of a page), and page slot `i` is used when
/// the masked bootloop keeps loop `2 (i / 4) + i % 2`.
pub proof fn lemma_page_mask_loops(c: ChannelMemory, ec: bool, i: int)
    requires
        c.bl_view().len() == 160,
        0 <= i < 320,
    ensures
        forall|b: int| 0 <= b < 160 ==> #[trigger] c.page_mask(ec)[b] == (c.bl_view()[b] && count_ones(
            c.bl_view().take(b),
        ) < bits_per_ch_spec(ec) / 2),
        page_sel(c.page_mask(ec), i) == c.page_mask(ec)[2 * (i / 4) + i % 2],
{
}

} // verus!
