//! A whole device: its two channels, the Fire code of the page last read from each, the page
//! being edited, and whether the device changed since it was last loaded or saved.

use vstd::prelude::*;
use crate::bits::{
    bits_to_bytes, bytes_to_bits, lemma_bytes_bits_roundtrip, slicebool_to_vecu8, sliceu8_to_vecbool,
};
use crate::bootloop::{
    Bootloop, Channel, ChannelBootloop, count_ones, default_channel_bits, lemma_channel_set_get,
    with_channel_bits,
};
use crate::channel::{
    ChannelMemory, bits_per_ch_spec, chunk, lemma_channel_save_load, lemma_pa_read_unique, lemma_page_read_unique, loaded_from,
    offset_pa, page_loop, page_pos, page_quad, pa_bits_match, pa_min_len, pa_written, page_bits_match, page_update, pages_written,
    saved_bytes, lemma_pages_written_match, lemma_pages_written_none, lemma_pages_written_read,
    lemma_pages_written_step,
};
use crate::fire::{
    FireCode, FireCodeView, FireResult, apply_spec, code_bits, code_of, code_tail, correct_spec, enc_from,
    lemma_load_codeword, loaded, payload_of,
    regen_spec, set_fire_spec, set_payload_spec, syn_from,
};
use crate::hex::{
    hex4_text, hex_pairs_bytes, hex_pairs_split_char, hex_text, hex_u16_value, parse_hex_u16,
    string_push, string_to_vecu8, to_hex_string, u16_to_hex4,
};
use vstd::string::StringSliceAdditionalSpecFns;
use crate::Address;

verus! {

/// The page being edited: none, a logical page, or a physical page.
#[derive(Clone, Copy, Debug, PartialEq, Eq, Structural)]
pub enum CurrentAddr {
    Unset,
    LA(Address),
    PA(Address),
}

/// The model of a device.
pub struct MemoryView {
    pub ch_a: ChannelMemory,
    pub ch_b: ChannelMemory,
    pub fire_a: FireCodeView,
    pub fire_b: FireCodeView,
    pub addr: CurrentAddr,
    pub ec: bool,
    pub skip: bool,
    pub dirty: bool,
}

impl MemoryView {
    /// The channel `ch`.
    pub open spec fn chan(self, ch: Channel) -> ChannelMemory {
        match ch {
            Channel::ChannelA => self.ch_a,
            Channel::ChannelB => self.ch_b,
        }
    }

    /// The Fire code of channel `ch`.
    pub open spec fn fire(self, ch: Channel) -> FireCodeView {
        match ch {
            Channel::ChannelA => self.fire_a,
            Channel::ChannelB => self.fire_b,
        }
    }

    /// The model with channel `ch` replaced.
    pub open spec fn with_chan(self, ch: Channel, c: ChannelMemory) -> MemoryView {
        match ch {
            Channel::ChannelA => MemoryView { ch_a: c, ..self },
            Channel::ChannelB => MemoryView { ch_b: c, ..self },
        }
    }

    /// The model with the Fire code of channel `ch` replaced.
    pub open spec fn with_fire(self, ch: Channel, f: FireCodeView) -> MemoryView {
        match ch {
            Channel::ChannelA => MemoryView { fire_a: f, ..self },
            Channel::ChannelB => MemoryView { fire_b: f, ..self },
        }
    }
}

/// A Fire code with nothing loaded.
pub open spec fn fresh_fire() -> FireCodeView {
    FireCodeView { state: FireResult::LoadError, uncorr: Seq::empty(), corr: Seq::empty(), accum: 0 }
}

/// An unsynchronised channel with a clear bootloop and clear loops.
pub open spec fn fresh_channel(c: ChannelMemory) -> bool {
    &&& c.bl_view() == Seq::new(160, |i: int| false)
    &&& c.offset_view() is None
    &&& c.loops_clear()
}

/// A channel synchronised at offset 0, with bootloop `bl` and clear loops.
pub open spec fn cleared_channel(c: ChannelMemory, bl: Seq<bool>) -> bool {
    &&& c.bl_view() == bl
    &&& c.offset_view() == Some(0u16)
    &&& c.loops_clear()
}

/// The page of logical address `la` that a read of channel `c` gives.
pub open spec fn page_read(c: ChannelMemory, la: u16, ec: bool) -> Seq<bool> {
    choose|v: Seq<bool>| page_bits_match(c, c.page_pa(la), c.page_mask(ec), bits_per_ch_spec(ec), v)
}

/// Outcome of loading `code` into a Fire code.
pub open spec fn code_result(ec: bool, code: Seq<bool>) -> FireResult {
    if code.len() != bits_per_ch_spec(ec) {
        FireResult::LoadError
    } else if ec {
        if syn_from(0, code) == 0 {
            FireResult::Valid
        } else {
            correct_spec(syn_from(0, code)).0
        }
    } else {
        FireResult::OkNoECC
    }
}

/// Outcome of reading the page of logical address `la` from channel `c` into a Fire code.
pub open spec fn read_result(c: ChannelMemory, la: u16, ec: bool) -> FireResult {
    if c.page_ok(ec) {
        code_result(ec, page_read(c, la, ec))
    } else {
        FireResult::LoadError
    }
}

/// The Fire code `f` after reading the page of logical address `la` from channel `c`.
pub open spec fn read_fire(c: ChannelMemory, f: FireCodeView, la: u16, ec: bool) -> FireCodeView {
    if c.page_ok(ec) {
        loaded(f, ec, page_read(c, la, ec))
    } else {
        f
    }
}

/// Reading the page of logical address `la` with error correction `ec`: both Fire codes load
/// it from their channel, and it becomes the page being edited.
pub open spec fn la_read(m: MemoryView, la: u16, ec: bool) -> MemoryView {
    MemoryView {
        fire_a: read_fire(m.ch_a, m.fire_a, la, ec),
        fire_b: read_fire(m.ch_b, m.fire_b, la, ec),
        addr: CurrentAddr::LA(la),
        ec,
        ..m
    }
}

/// Bits at the even positions.
pub open spec fn evens(s: Seq<bool>) -> Seq<bool> {
    Seq::new(((s.len() + 1) / 2) as nat, |k: int| s[2 * k])
}

/// Bits at the odd positions.
pub open spec fn odds(s: Seq<bool>) -> Seq<bool> {
    Seq::new(s.len() / 2, |k: int| s[2 * k + 1])
}

/// Bits of `a` and `b` taken in turn, as long as both have some.
pub open spec fn interleave_spec(a: Seq<bool>, b: Seq<bool>) -> Seq<bool> {
    let n = if a.len() < b.len() {
        a.len()
    } else {
        b.len()
    };
    Seq::new(2 * n, |i: int| if i % 2 == 0 {
        a[i / 2]
    } else {
        b[i / 2]
    })
}

/// The payload of the page being edited, both channels interleaved, as bytes; none when no
/// logical page is being edited.
pub open spec fn payload_bytes(m: MemoryView) -> Seq<u8> {
    if m.addr is LA {
        bits_to_bytes(interleave_spec(payload_of(m.fire_a), payload_of(m.fire_b)))
    } else {
        Seq::empty()
    }
}

/// The device bootloop that holds the bootloops of both channels.
pub open spec fn device_bootloop(m: MemoryView) -> Seq<bool> {
    with_channel_bits(
        with_channel_bits(Seq::new(320, |i: int| false), 0, m.ch_a.bl_view()),
        1,
        m.ch_b.bl_view(),
    )
}

/// Bytes of an encoded device: both channels, 82432 bytes each.
pub const DEVICE_BYTES: usize = 164864;


/// An update of channel `ch` from its Fire code succeeds: a logical page is being edited,
/// the Fire code holds a page of the right length and the channel can take it.
pub open spec fn update_ok(m: MemoryView, ch: Channel) -> bool {
    &&& m.addr is LA
    &&& m.fire(ch).uncorr.len() == bits_per_ch_spec(m.ec)
    &&& m.chan(ch).page_ok(m.ec)
}

/// The model after an update of channel `ch` that leaves it as `c`: marked as changed when
/// the update succeeds; unchanged when no logical page is being edited.
pub open spec fn after_update(m: MemoryView, c: ChannelMemory, ch: Channel) -> MemoryView {
    if m.addr is LA {
        MemoryView { dirty: m.dirty || update_ok(m, ch), ..m.with_chan(ch, c) }
    } else {
        m
    }
}

/// `m2` is `m1` after writing the page held by the Fire code of channel `ch` back to the
/// logical page being edited.
pub open spec fn updated(m1: MemoryView, m2: MemoryView, ch: Channel) -> bool {
    &&& (m1.addr matches CurrentAddr::LA(la) ==> page_update(
        m1.chan(ch),
        m2.chan(ch),
        la,
        m1.ec,
        m1.fire(ch).uncorr,
    ))
    &&& m2 == after_update(m1, m2.chan(ch), ch)
}

/// `m2` is `m1` after updating channel A and then, if that succeeded, channel B; `ok` tells
/// whether both succeeded.
pub open spec fn updated_both(m1: MemoryView, m2: MemoryView, ok: bool) -> bool {
    let mid = after_update(m1, m2.ch_a, Channel::ChannelA);
    &&& updated(m1, mid, Channel::ChannelA)
    &&& if update_ok(m1, Channel::ChannelA) {
        updated(mid, m2, Channel::ChannelB) && ok == update_ok(mid, Channel::ChannelB)
    } else {
        m2 == mid && !ok
    }
}

/// `m2` is `m1` after setting the payload bytes `pay`: their bits are split between the
/// channels (even bits to A, odd bits to B), loaded as payloads into the Fire codes and, when
/// both loads succeed, written back to the page being edited; `ok` tells whether all of it
/// succeeded.
pub open spec fn payload_set(m1: MemoryView, pay: Seq<u8>, m2: MemoryView, ok: bool) -> bool {
    let bits = bytes_to_bits(pay);
    let fa = set_payload_spec(m1.fire_a, m1.ec, evens(bits));
    let fb = set_payload_spec(m1.fire_b, m1.ec, odds(bits));
    if fa.state == FireResult::LoadError {
        m2 == m1.with_fire(Channel::ChannelA, fa) && !ok
    } else if fb.state == FireResult::LoadError {
        m2 == m1.with_fire(Channel::ChannelA, fa).with_fire(Channel::ChannelB, fb) && !ok
    } else {
        updated_both(m1.with_fire(Channel::ChannelA, fa).with_fire(Channel::ChannelB, fb), m2, ok)
    }
}

/// The text of bytes with each printable ASCII byte as its character and any other byte as
/// a bullet.
pub open spec fn ascii_text(b: Seq<u8>) -> Seq<char> {
    Seq::new(b.len(), |i: int| if 0x20 <= b[i] <= 0x7e {
        b[i] as char
    } else {
        '\u{2022}'
    })
}

/// The physical page at address `pa` that a read of synchronised channel `c` gives.
pub open spec fn pa_read(c: ChannelMemory, pa: u16, skip_bad: bool) -> Seq<bool> {
    choose|v: Seq<bool>| pa_bits_match(c, offset_pa(c.offset_view().unwrap(), pa) as int, skip_bad, v)
}

fn interleave(a: &[bool], b: &[bool]) -> (r: Vec<bool>)
    ensures
        r@ == interleave_spec(a@, b@),
{
    let mut out: Vec<bool> = Vec::new();
    let n = if a.len() < b.len() {
        a.len()
    } else {
        b.len()
    };
    let mut k: usize = 0;
    while k < n
        invariant
            k <= n,
            n == if a@.len() < b@.len() {
                a@.len()
            } else {
                b@.len()
            },
            out@ == interleave_spec(a@, b@).take(2 * k),
        decreases n - k,
    {
        out.push(a[k]);
        out.push(b[k]);
        k += 1;
        assert(out@ =~= interleave_spec(a@, b@).take(2 * k));
    }
    assert(interleave_spec(a@, b@).take(2 * n) =~= interleave_spec(a@, b@));
    out
}

fn deinterleave(inter: &[bool]) -> (r: (Vec<bool>, Vec<bool>))
    ensures
        r.0@ == evens(inter@),
        r.1@ == odds(inter@),
{
    let mut a: Vec<bool> = Vec::new();
    let mut b: Vec<bool> = Vec::new();
    let n = inter.len();
    let mut i: usize = 0;
    while i < n
        invariant
            n == inter@.len(),
            i <= n,
            i % 2 == 0,
            a@ == evens(inter@).take((i / 2) as int),
            b@ == odds(inter@).take((i / 2) as int),
        decreases n - i,
    {
        a.push(inter[i]);
        if i + 1 < n {
            b.push(inter[i + 1]);
            i += 2;
            assert(a@ =~= evens(inter@).take((i / 2) as int));
            assert(b@ =~= odds(inter@).take((i / 2) as int));
        } else {
            assert(a@ =~= evens(inter@));
            assert(b@ =~= odds(inter@));
            return (a, b);
        }
    }
    assert(a@ =~= evens(inter@));
    assert(b@ =~= odds(inter@));
    (a, b)
}

/// A device.
#[derive(Clone)]
pub struct Memory {
    ch_a: ChannelMemory,
    ch_b: ChannelMemory,
    fire_a: FireCode,
    fire_b: FireCode,
    curr_addr: CurrentAddr,
    curr_ec: bool,
    curr_skip: bool,
    dirty: bool,
}

impl View for Memory {
    type V = MemoryView;

    closed spec fn view(&self) -> MemoryView {
        MemoryView {
            ch_a: self.ch_a,
            ch_b: self.ch_b,
            fire_a: self.fire_a@,
            fire_b: self.fire_b@,
            addr: self.curr_addr,
            ec: self.curr_ec,
            skip: self.curr_skip,
            dirty: self.dirty,
        }
    }
}

impl Memory {
    /// A device with unsynchronised clear channels and nothing loaded.
    pub fn new() -> (r: Memory)
        ensures
            fresh_channel(r@.ch_a),
            fresh_channel(r@.ch_b),
            r@.fire_a == fresh_fire(),
            r@.fire_b == fresh_fire(),
            r@.addr == CurrentAddr::Unset,
            !r@.ec,
            !r@.skip,
            !r@.dirty,
    {
        Memory {
            ch_a: ChannelMemory::new(),
            ch_b: ChannelMemory::new(),
            fire_a: FireCode::new(),
            fire_b: FireCode::new(),
            curr_addr: CurrentAddr::Unset,
            curr_ec: false,
            curr_skip: false,
            dirty: false,
        }
    }

    /// The device changed since it was last loaded or saved.
    pub fn is_dirty(&self) -> (r: bool)
        ensures
            r == self@.dirty,
    {
        self.dirty
    }

    /// Channel `ch`.
    pub fn get_ch(&self, ch: Channel) -> (r: &ChannelMemory)
        ensures
            *r == self@.chan(ch),
    {
        match ch {
            Channel::ChannelA => &self.ch_a,
            Channel::ChannelB => &self.ch_b,
        }
    }

    /// Gives each channel its factory bootloop, clear loops and offset 0, and forgets the
    /// loaded pages.
    pub fn clear(&mut self)
        ensures
            cleared_channel(final(self)@.ch_a, default_channel_bits(Channel::ChannelA)),
            cleared_channel(final(self)@.ch_b, default_channel_bits(Channel::ChannelB)),
            final(self)@.fire_a == fresh_fire(),
            final(self)@.fire_b == fresh_fire(),
            final(self)@.addr == CurrentAddr::Unset,
            final(self)@.ec == old(self)@.ec,
            final(self)@.skip == old(self)@.skip,
            !final(self)@.dirty,
    {
        let mut chbl_a = ChannelBootloop::new();
        chbl_a.set_default(Channel::ChannelA);
        self.ch_a = ChannelMemory::new();
        self.ch_a.set_bl(&chbl_a);
        self.fire_a = FireCode::new();
        let mut chbl_b = ChannelBootloop::new();
        chbl_b.set_default(Channel::ChannelB);
        self.ch_b = ChannelMemory::new();
        self.ch_b.set_bl(&chbl_b);
        self.fire_b = FireCode::new();
        self.curr_addr = CurrentAddr::Unset;
        self.dirty = false;
    }

    /// Clears the loops of both channels and sets their offset to 0, keeping their
    /// bootloops, and forgets the loaded pages.
    pub fn data_clear(&mut self)
        ensures
            cleared_channel(final(self)@.ch_a, old(self)@.ch_a.bl_view()),
            cleared_channel(final(self)@.ch_b, old(self)@.ch_b.bl_view()),
            final(self)@.fire_a == fresh_fire(),
            final(self)@.fire_b == fresh_fire(),
            final(self)@.addr == CurrentAddr::Unset,
            final(self)@.ec == old(self)@.ec,
            final(self)@.skip == old(self)@.skip,
            !final(self)@.dirty,
    {
        self.ch_a.clear_data();
        self.fire_a = FireCode::new();
        self.ch_b.clear_data();
        self.fire_b = FireCode::new();
        self.curr_addr = CurrentAddr::Unset;
        self.dirty = false;
    }

    /// Loads a device from its encoded bytes: channel A from the first 82432, channel B from
    /// the next 82432. Fails, changing nothing, when there are fewer; otherwise the device is
    /// as new but for its channels.
    pub fn load(&mut self, inp: &[u8]) -> (r: Result<(), ()>)
        ensures
            r is Err <==> inp@.len() < DEVICE_BYTES,
            r is Err ==> final(self)@ == old(self)@,
            r is Ok ==> ({
                &&& loaded_from(final(self)@.ch_a, inp@, Channel::ChannelA)
                &&& loaded_from(final(self)@.ch_b, inp@.skip(82432), Channel::ChannelB)
                &&& final(self)@.fire_a == fresh_fire()
                &&& final(self)@.fire_b == fresh_fire()
                &&& final(self)@.addr == CurrentAddr::Unset
                &&& !final(self)@.ec
                &&& !final(self)@.skip
                &&& !final(self)@.dirty
            }),
    {
        if inp.len() < DEVICE_BYTES {
            return Err(());
        }
        let mut mem = Self::new();
        let ra = mem.ch_a.load(inp, Channel::ChannelA);
        let rest = vstd::slice::slice_subrange(inp, 82432, inp.len());
        assert(rest@ =~= inp@.skip(82432));
        let rb = mem.ch_b.load(rest, Channel::ChannelB);
        *self = mem;
        Ok(())
    }

    /// The encoded bytes of the device: channel A, then channel B, each recording the device
    /// bootloop made of both channel bootloops; fails when a channel is not synchronised.
    /// The device stays marked as changed until [`Memory::mark_saved`] says the bytes were
    /// written.
    pub fn save(&self) -> (r: Result<Vec<u8>, ()>)
        ensures
            r is Err <==> (self@.ch_a.offset_view() is None || self@.ch_b.offset_view() is None),
            r matches Ok(v) ==> v@ == saved_bytes(self@.ch_a, device_bootloop(self@))
                + saved_bytes(self@.ch_b, device_bootloop(self@)),
    {
        let mut bl = Bootloop::new();
        bl.set_from_channel(Channel::ChannelA, self.ch_a.get_bl());
        bl.set_from_channel(Channel::ChannelB, self.ch_b.get_bl());
        let mut out = self.ch_a.save(&bl)?;
        let mut out_b = self.ch_b.save(&bl)?;
        out.append(&mut out_b);
        Ok(out)
    }

    /// Records that the device's bytes were written: it is no longer marked as changed.
    pub fn mark_saved(&mut self)
        ensures
            final(self)@ == (MemoryView { dirty: false, ..old(self)@ }),
    {
        self.dirty = false;
    }

    /// Sets the bootloop of each channel given (and clears its loops, with offset 0), or, for
    /// a channel not given, only clears its loops; the device is no longer marked as changed.
    pub fn set_ch_bl(&mut self, cha: Option<&ChannelBootloop>, chb: Option<&ChannelBootloop>)
        ensures
            cleared_channel(
                final(self)@.ch_a,
                (match cha {
                    Some(c) => c@,
                    None => old(self)@.ch_a.bl_view(),
                }),
            ),
            cleared_channel(
                final(self)@.ch_b,
                (match chb {
                    Some(c) => c@,
                    None => old(self)@.ch_b.bl_view(),
                }),
            ),
            final(self)@ == (MemoryView {
                ch_a: final(self)@.ch_a,
                ch_b: final(self)@.ch_b,
                dirty: false,
                ..old(self)@
            }),
    {
        match cha {
            Some(chbl) => self.ch_a.set_bl(chbl),
            None => self.ch_a.clear_data(),
        }
        match chb {
            Some(chbl) => self.ch_b.set_bl(chbl),
            None => self.ch_b.clear_data(),
        }
        self.dirty = false;
    }

    /// Both channel bootloops have at least 136 good loops.
    pub fn is_bl_valid(&self) -> (r: bool)
        ensures
            r == (count_ones(self@.ch_a.bl_view()) >= 136 && count_ones(self@.ch_b.bl_view()) >= 136),
    {
        self.ch_a.is_bl_valid() && self.ch_b.is_bl_valid()
    }

    fn read_page(c: &ChannelMemory, f: &mut FireCode, la: Address, ec: bool) -> (r: FireResult)
        ensures
            r == read_result(*c, la, ec),
            final(f)@ == read_fire(*c, old(f)@, la, ec),
            c.page_ok(ec) ==> page_read(*c, la, ec).len() == bits_per_ch_spec(ec),
            c.page_ok(ec) ==> page_bits_match(*c, c.page_pa(la), c.page_mask(ec), bits_per_ch_spec(ec), page_read(*c, la, ec)),
    {
        match c.get_page(la, ec) {
            Some(v) => {
                proof {
                    let w = page_read(*c, la, ec);
                    lemma_page_read_unique(*c, c.page_pa(la), c.page_mask(ec), bits_per_ch_spec(ec), v@, w);
                }
                f.set_page(ec, v.as_slice())
            },
            None => FireResult::LoadError,
        }
    }

    /// Reads the page of logical address `la` from both channels into their Fire codes and
    /// makes it the page being edited; returns the outcome for each channel.
    pub fn get_la_page(&mut self, la: Address, ec: bool) -> (r: (FireResult, FireResult))
        ensures
            r == (read_result(old(self)@.ch_a, la, ec), read_result(old(self)@.ch_b, la, ec)),
            final(self)@ == la_read(old(self)@, la, ec),
            old(self)@.ch_a.page_ok(ec) ==> page_read(old(self)@.ch_a, la, ec).len() == bits_per_ch_spec(ec),
            old(self)@.ch_b.page_ok(ec) ==> page_read(old(self)@.ch_b, la, ec).len() == bits_per_ch_spec(ec),
            old(self)@.ch_a.page_ok(ec) ==> page_bits_match(
                old(self)@.ch_a,
                old(self)@.ch_a.page_pa(la),
                old(self)@.ch_a.page_mask(ec),
                bits_per_ch_spec(ec),
                page_read(old(self)@.ch_a, la, ec),
            ),
            old(self)@.ch_b.page_ok(ec) ==> page_bits_match(
                old(self)@.ch_b,
                old(self)@.ch_b.page_pa(la),
                old(self)@.ch_b.page_mask(ec),
                bits_per_ch_spec(ec),
                page_read(old(self)@.ch_b, la, ec),
            ),
    {
        let res_a = Self::read_page(&self.ch_a, &mut self.fire_a, la, ec);
        let res_b = Self::read_page(&self.ch_b, &mut self.fire_b, la, ec);
        self.curr_addr = CurrentAddr::LA(la);
        self.curr_ec = ec;
        (res_a, res_b)
    }

    /// The payload of the page being edited, both channels interleaved bit by bit, as bytes;
    /// empty when no logical page is being edited.
    pub fn get_payload(&self) -> (r: Vec<u8>)
        ensures
            r@ == payload_bytes(self@),
    {
        if let CurrentAddr::LA(_) = self.curr_addr {
            let pay_a = self.fire_a.get_payload_n_code();
            let pay_b = self.fire_b.get_payload_n_code();
            let interleaved = interleave(pay_a.payload.as_slice(), pay_b.payload.as_slice());
            slicebool_to_vecu8(interleaved.as_slice())
        } else {
            Vec::new()
        }
    }
}

impl Default for Memory {
    fn default() -> (r: Memory)
        ensures
            fresh_channel(r@.ch_a),
            fresh_channel(r@.ch_b),
            r@.fire_a == fresh_fire(),
            r@.fire_b == fresh_fire(),
            r@.addr == CurrentAddr::Unset,
            !r@.ec,
            !r@.skip,
            !r@.dirty,
    {
        Memory::new()
    }
}

} // verus!

verus! {

impl Memory {
    fn update_page(&mut self, ch: Channel) -> (r: Result<(), ()>)
        ensures
            r is Ok <==> update_ok(old(self)@, ch),
            updated(old(self)@, final(self)@, ch),
    {
        if let CurrentAddr::LA(la) = self.curr_addr {
            match ch {
                Channel::ChannelA => {
                    let page = self.fire_a.get_page();
                    self.ch_a.set_page(la, self.curr_ec, page)?;
                },
                Channel::ChannelB => {
                    let page = self.fire_b.get_page();
                    self.ch_b.set_page(la, self.curr_ec, page)?;
                },
            }
            self.dirty = true;
            Ok(())
        } else {
            Err(())
        }
    }

    fn update_both(&mut self) -> (r: Result<(), ()>)
        ensures
            updated_both(old(self)@, final(self)@, r is Ok),
    {
        self.update_page(Channel::ChannelA)?;
        self.update_page(Channel::ChannelB)
    }

    /// Sets the payload of the page being edited from bytes: their bits go alternately to
    /// channel A and channel B, are loaded as payloads into the Fire codes (keeping each
    /// page's check code) and written back to the channels.
    pub fn set_payload(&mut self, pay: &[u8]) -> (r: Result<(), ()>)
        ensures
            payload_set(old(self)@, pay@, final(self)@, r is Ok),
    {
        let pay_bool = sliceu8_to_vecbool(pay);
        let (pay_a, pay_b) = deinterleave(pay_bool.as_slice());
        if let FireResult::LoadError = self.fire_a.set_payload(self.curr_ec, pay_a.as_slice()) {
            Err(())
        } else if let FireResult::LoadError = self.fire_b.set_payload(self.curr_ec, pay_b.as_slice()) {
            Err(())
        } else {
            self.update_both()
        }
    }

    /// The payload of the page being edited as hexadecimal text.
    pub fn payload_to_string(&self) -> (s: String)
        ensures
            s@ == hex_text(payload_bytes(self@)),
    {
        let pay = self.get_payload();
        to_hex_string(pay.as_slice())
    }

    /// The payload of the page being edited as text: printable ASCII bytes as themselves,
    /// other bytes as bullets.
    pub fn payload_to_ascii(&self) -> (s: String)
        ensures
            s@ == ascii_text(payload_bytes(self@)),
    {
        let pay = self.get_payload();
        let mut s = String::new();
        let mut i: usize = 0;
        while i < pay.len()
            invariant
                i <= pay@.len(),
                s@ == ascii_text(pay@.take(i as int)),
            decreases pay@.len() - i,
        {
            let b = pay[i];
            let c = if 0x20 <= b && b <= 0x7e {
                b as char
            } else {
                '\u{2022}'
            };
            string_push(&mut s, c);
            i += 1;
            assert(s@ =~= ascii_text(pay@.take(i as int)));
        }
        assert(pay@.take(pay@.len() as int) =~= pay@);
        s
    }

    /// Sets the payload of the page being edited from hexadecimal text of exactly the
    /// payload's size (128 digits with error correction, 136 without).
    pub fn payload_from_string(&mut self, s: &str) -> (r: Result<(), ()>)
        requires
            s.spec_bytes().len() == (if old(self)@.ec { 128int } else { 136int }) ==> !hex_pairs_split_char(
                s.spec_bytes(),
            ),
        ensures
            ({
                let b = s.spec_bytes();
                if b.len() == (if old(self)@.ec { 128int } else { 136int }) && hex_pairs_bytes(b) is Some {
                    payload_set(old(self)@, hex_pairs_bytes(b).unwrap(), final(self)@, r is Ok)
                } else {
                    r is Err && final(self)@ == old(self)@
                }
            }),
    {
        let exp_len: usize = if self.curr_ec {
            256
        } else {
            272
        };
        let n = s.as_bytes().len();
        if n == exp_len / 2 {
            if let Some(out) = string_to_vecu8(s) {
                return self.set_payload(out.as_slice());
            }
        }
        Err(())
    }

    /// The check code of channel `ch` in the page being edited as four hexadecimal digits;
    /// empty unless a logical page with error correction is being edited.
    pub fn code_to_string(&self, ch: Channel) -> (s: String)
        ensures
            s@ == if self@.addr is LA && self@.ec {
                hex4_text(code_of(self@.fire(ch)))
            } else {
                Seq::empty()
            },
    {
        if let CurrentAddr::LA(_) = self.curr_addr {
            if self.curr_ec {
                let pay_n_code = match ch {
                    Channel::ChannelA => self.fire_a.get_payload_n_code(),
                    Channel::ChannelB => self.fire_b.get_payload_n_code(),
                };
                return u16_to_hex4(pay_n_code.code);
            }
        }
        String::new()
    }

    fn set_fire_of(&mut self, ch: Channel, code: u16) -> (r: FireResult)
        ensures
            final(self)@ == old(self)@.with_fire(ch, set_fire_spec(old(self)@.fire(ch), code)),
            r == final(self)@.fire(ch).state,
    {
        match ch {
            Channel::ChannelA => self.fire_a.set_fire(code),
            Channel::ChannelB => self.fire_b.set_fire(code),
        }
    }

    /// Sets the check code of channel `ch` in the page being edited from hexadecimal text
    /// (as `u16::from_str_radix(_, 16)` reads it) and writes the page back.
    pub fn code_from_string(&mut self, ch: Channel, s: &str) -> (r: Result<(), ()>)
        ensures
            match hex_u16_value(s.spec_bytes()) {
                Some(c) => {
                    let m1 = old(self)@.with_fire(ch, set_fire_spec(old(self)@.fire(ch), c));
                    if m1.fire(ch).state == FireResult::LoadError {
                        r is Err && final(self)@ == m1
                    } else {
                        updated(m1, final(self)@, ch) && (r is Ok <==> update_ok(m1, ch))
                    }
                },
                None => r is Err && final(self)@ == old(self)@,
            },
    {
        let co = parse_hex_u16(s);
        if let Some(c) = co {
            if let FireResult::LoadError = self.set_fire_of(ch, c) {
                Err(())
            } else {
                self.update_page(ch)
            }
        } else {
            Err(())
        }
    }

    /// With error correction on, applies the correction of channel `ch` to its Fire code and,
    /// when the page is then valid, writes it back.
    pub fn apply_correction(&mut self, ch: Channel) -> (r: Result<(), ()>)
        ensures
            ({
                let m1 = old(self)@.with_fire(ch, apply_spec(old(self)@.fire(ch)));
                if !old(self)@.ec {
                    r is Err && final(self)@ == old(self)@
                } else if m1.fire(ch).state == FireResult::Valid {
                    updated(m1, final(self)@, ch) && (r is Ok <==> update_ok(m1, ch))
                } else {
                    r is Err && final(self)@ == m1
                }
            }),
    {
        if self.curr_ec {
            let st = match ch {
                Channel::ChannelA => self.fire_a.apply_correction(),
                Channel::ChannelB => self.fire_b.apply_correction(),
            };
            if let FireResult::Valid = st {
                return self.update_page(ch);
            }
        }
        Err(())
    }

    fn regen_of(&mut self, ch: Channel) -> (r: FireResult)
        ensures
            final(self)@ == old(self)@.with_fire(ch, regen_spec(old(self)@.fire(ch))),
            r == final(self)@.fire(ch).state,
    {
        match ch {
            Channel::ChannelA => self.fire_a.regen_code(),
            Channel::ChannelB => self.fire_b.regen_code(),
        }
    }

    /// With error correction on, recomputes the check code of the page of each channel and
    /// writes back each page that is then valid; stops at the first failed write.
    pub fn regen_code(&mut self) -> (r: Result<(), ()>)
        ensures
            !old(self)@.ec ==> r is Ok && final(self)@ == old(self)@,
            old(self)@.ec ==> ({
                let m1 = old(self)@.with_fire(Channel::ChannelA, regen_spec(old(self)@.fire_a));
                let a_valid = m1.fire_a.state == FireResult::Valid;
                let m2 = if a_valid {
                    after_update(m1, final(self)@.ch_a, Channel::ChannelA)
                } else {
                    m1
                };
                let m3 = m2.with_fire(Channel::ChannelB, regen_spec(m2.fire_b));
                &&& a_valid ==> updated(m1, m2, Channel::ChannelA)
                &&& if a_valid && !update_ok(m1, Channel::ChannelA) {
                    r is Err && final(self)@ == m2
                } else if m3.fire_b.state == FireResult::Valid {
                    updated(m3, final(self)@, Channel::ChannelB) && (r is Ok <==> update_ok(
                        m3,
                        Channel::ChannelB,
                    ))
                } else {
                    r is Ok && final(self)@ == m3
                }
            }),
    {
        if self.curr_ec {
            if let FireResult::Valid = self.regen_of(Channel::ChannelA) {
                self.update_page(Channel::ChannelA)?;
            }
            if let FireResult::Valid = self.regen_of(Channel::ChannelB) {
                self.update_page(Channel::ChannelB)?;
            }
        }
        Ok(())
    }

    fn page_pa_of(&self, ch: Channel, pa: Address, skip_bad: bool) -> (r: Option<Vec<bool>>)
        requires
            self@.chan(ch).offset_view() matches Some(o) ==> pa + o <= u16::MAX,
        ensures
            r is Some <==> self@.chan(ch).offset_view() is Some,
            r matches Some(v) ==> v@ == pa_read(self@.chan(ch), pa, skip_bad),
    {
        let c = match ch {
            Channel::ChannelA => &self.ch_a,
            Channel::ChannelB => &self.ch_b,
        };
        let r = c.get_page_pa(pa, skip_bad);
        proof {
            if r is Some {
                let o = c.offset_view().unwrap();
                let w = pa_read(*c, pa, skip_bad);
                lemma_pa_read_unique(*c, offset_pa(o, pa) as int, skip_bad, r.unwrap()@, w);
            }
        }
        r
    }

    /// The physical page at address `pa` of channel `ch` (the bit of the loop of every
    /// bootloop bit, or of the good loops only with `skip_bad`) as bytes, which becomes the
    /// page being edited; empty, changing nothing, when the channel is not synchronised.
    pub fn get_page_pa(&mut self, ch: Channel, pa: Address, skip_bad: bool) -> (r: Vec<u8>)
        requires
            old(self)@.chan(ch).offset_view() matches Some(o) ==> pa + o <= u16::MAX,
        ensures
            old(self)@.chan(ch).offset_view() is None ==> r@ == Seq::<u8>::empty() && final(self)@
                == old(self)@,
            old(self)@.chan(ch).offset_view() is Some ==> r@ == bits_to_bytes(
                pa_read(old(self)@.chan(ch), pa, skip_bad),
            ) && final(self)@ == (MemoryView {
                addr: CurrentAddr::PA(pa),
                skip: skip_bad,
                ..old(self)@
            }),
    {
        let page_o = self.page_pa_of(ch, pa, skip_bad);
        if let Some(page) = page_o {
            self.curr_addr = CurrentAddr::PA(pa);
            self.curr_skip = skip_bad;
            slicebool_to_vecu8(page.as_slice())
        } else {
            Vec::new()
        }
    }

    /// The physical page at address `pa` of channel `ch` as hexadecimal text, as
    /// [`Memory::get_page_pa`] reads it.
    pub fn page_pa_to_string(&mut self, ch: Channel, pa: Address, skip_bad: bool) -> (s: String)
        requires
            old(self)@.chan(ch).offset_view() matches Some(o) ==> pa + o <= u16::MAX,
        ensures
            old(self)@.chan(ch).offset_view() is None ==> s@ == Seq::<char>::empty() && final(self)@
                == old(self)@,
            old(self)@.chan(ch).offset_view() is Some ==> s@ == hex_text(
                bits_to_bytes(pa_read(old(self)@.chan(ch), pa, skip_bad)),
            ) && final(self)@ == (MemoryView {
                addr: CurrentAddr::PA(pa),
                skip: skip_bad,
                ..old(self)@
            }),
    {
        let page = self.get_page_pa(ch, pa, skip_bad);
        to_hex_string(page.as_slice())
    }

    /// Writes the physical page being edited in channel `ch` from hexadecimal text: the bits
    /// of the bytes it gives, as [`ChannelMemory::set_page_pa`] writes them.
    pub fn page_pa_from_string(&mut self, ch: Channel, s: &str) -> (r: Result<(), ()>)
        requires
            old(self)@.addr is PA ==> !hex_pairs_split_char(s.spec_bytes()),
            old(self)@.addr matches CurrentAddr::PA(pa) ==> (hex_pairs_bytes(s.spec_bytes()) matches Some(
                b,
            ) ==> (bytes_to_bits(b).len() >= pa_min_len(old(self)@.chan(ch).bl_view(), old(self)@.skip) ==> (
            old(self)@.chan(ch).offset_view() matches Some(o) ==> pa + o <= u16::MAX))),
        ensures
            match (old(self)@.addr, hex_pairs_bytes(s.spec_bytes())) {
                (CurrentAddr::PA(pa), Some(b)) => {
                    let c = old(self)@.chan(ch);
                    let page = bytes_to_bits(b);
                    let ok = page.len() >= pa_min_len(c.bl_view(), old(self)@.skip)
                        && c.offset_view() is Some;
                    &&& r is Ok <==> ok
                    &&& ok ==> pa_written(
                        c,
                        final(self)@.chan(ch),
                        offset_pa(c.offset_view().unwrap(), pa) as int,
                        old(self)@.skip,
                        page,
                    ) && final(self)@ == (MemoryView {
                        dirty: true,
                        ..old(self)@.with_chan(ch, final(self)@.chan(ch))
                    })
                    &&& !ok ==> final(self)@ == old(self)@
                },
                _ => r is Err && final(self)@ == old(self)@,
            },
    {
        if let CurrentAddr::PA(pa) = self.curr_addr {
            if let Some(vec) = string_to_vecu8(s) {
                let page = sliceu8_to_vecbool(vec.as_slice());
                match ch {
                    Channel::ChannelA => {
                        self.ch_a.set_page_pa(pa, self.curr_skip, page.as_slice())?;
                    },
                    Channel::ChannelB => {
                        self.ch_b.set_page_pa(pa, self.curr_skip, page.as_slice())?;
                    },
                }
                self.dirty = true;
                return Ok(());
            }
        }
        Err(())
    }
}

} // verus!

verus! {

/// The bits that channel `ch` takes of logical page `la` of an image: every other bit of the
/// page's 64 bytes (the even bits for A, the odd bits for B).
pub open spec fn image_half(img: Seq<u8>, la: u16, ch: Channel) -> Seq<bool> {
    let bits = bytes_to_bits(img.subrange(64 * la, 64 * la + 64));
    match ch {
        Channel::ChannelA => evens(bits),
        Channel::ChannelB => odds(bits),
    }
}

/// The page that channel `ch` stores for logical page `la` of an image: its bits of the page
/// followed by their check code.
pub open spec fn image_page(img: Seq<u8>, la: u16, ch: Channel) -> Seq<bool> {
    let p = image_half(img, la, ch);
    p + code_bits(enc_from(0, p))
}

/// The pages that channel `ch` stores for an image, by logical address.
pub open spec fn image_pages(img: Seq<u8>, ch: Channel) -> spec_fn(u16) -> Seq<bool> {
    |x: u16| image_page(img, x, ch)
}

/// The logical addresses below `n`.
pub open spec fn below(n: int) -> spec_fn(u16) -> bool {
    |x: u16| x < n
}

impl Memory {
    fn write_image_page(&mut self, image: &[u8], la: Address)
        requires
            image@.len() >= 131072,
            la < 2048,
        ensures
            page_update(old(self)@.ch_a, final(self)@.ch_a, la, true, image_page(image@, la, Channel::ChannelA)),
            page_update(old(self)@.ch_b, final(self)@.ch_b, la, true, image_page(image@, la, Channel::ChannelB)),
            final(self)@ == (MemoryView { ch_a: final(self)@.ch_a, ch_b: final(self)@.ch_b, ..old(self)@ }),
    {
        let start = (la as usize) * 64;
        let sl = vstd::slice::slice_subrange(image, start, start + 64);
        let vb = sliceu8_to_vecbool(sl);
        let (mut a, mut b) = deinterleave(vb.as_slice());
        FireCode::add_code_to_payload(&mut a);
        let _ = self.ch_a.set_page(la, true, a.as_slice());
        FireCode::add_code_to_payload(&mut b);
        let _ = self.ch_b.set_page(la, true, b.as_slice());
    }

    /// Imports a raw image (the first 131072 bytes, 64 per logical page): each page is split
    /// between the channels (even bits to A, odd bits to B), given its check code and written
    /// to both channels. Fails, changing nothing, when there are fewer bytes.
    pub fn data_load(&mut self, image: &[u8]) -> (r: Result<(), ()>)
        ensures
            r is Err <==> image@.len() < 131072,
            r is Err ==> final(self)@ == old(self)@,
            r is Ok ==> pages_written(
                old(self)@.ch_a,
                final(self)@.ch_a,
                true,
                image_pages(image@, Channel::ChannelA),
                below(2048),
            ),
            r is Ok ==> pages_written(
                old(self)@.ch_b,
                final(self)@.ch_b,
                true,
                image_pages(image@, Channel::ChannelB),
                below(2048),
            ),
            r is Ok ==> final(self)@ == (MemoryView {
                ch_a: final(self)@.ch_a,
                ch_b: final(self)@.ch_b,
                addr: CurrentAddr::Unset,
                dirty: true,
                ..old(self)@
            }),
    {
        if image.len() < 131072 {
            return Err(());
        }
        let ok_a = self.ch_a.offset_ok();
        let ok_b = self.ch_b.offset_ok();
        proof {
            lemma_pages_written_none(self@.ch_a, true, image_pages(image@, Channel::ChannelA), below(0));
            lemma_pages_written_none(self@.ch_b, true, image_pages(image@, Channel::ChannelB), below(0));
        }
        let mut la: u16 = 0;
        while la < 2048
            invariant
                la <= 2048,
                image@.len() >= 131072,
                old(self)@.ch_a.offset_view() matches Some(o) ==> o < 4096,
                old(self)@.ch_b.offset_view() matches Some(o) ==> o < 4096,
                pages_written(old(self)@.ch_a, self@.ch_a, true, image_pages(image@, Channel::ChannelA), below(la as int)),
                pages_written(old(self)@.ch_b, self@.ch_b, true, image_pages(image@, Channel::ChannelB), below(la as int)),
                self@ == (MemoryView { ch_a: self@.ch_a, ch_b: self@.ch_b, ..old(self)@ }),
            decreases 2048 - la,
        {
            let ghost c_a = self@.ch_a;
            let ghost c_b = self@.ch_b;
            self.write_image_page(image, la);
            proof {
                lemma_image_page_len(image@, la, Channel::ChannelA);
                lemma_image_page_len(image@, la, Channel::ChannelB);
                lemma_pages_written_step(old(self)@.ch_a, c_a, self@.ch_a, true,
                    image_pages(image@, Channel::ChannelA), below(la as int), below(la + 1), la);
                lemma_pages_written_step(old(self)@.ch_b, c_b, self@.ch_b, true,
                    image_pages(image@, Channel::ChannelB), below(la as int), below(la + 1), la);
            }
            la += 1;
        }
        self.curr_addr = CurrentAddr::Unset;
        self.dirty = true;
        Ok(())
    }
}

pub(crate) proof fn lemma_image_page_len(img: Seq<u8>, la: u16, ch: Channel)
    requires
        img.len() >= 131072,
        la < 2048,
    ensures
        image_half(img, la, ch).len() == 256,
        image_page(img, la, ch).len() == 270,
{
}

} // verus!

verus! {

/// A Fire code after loading page `v` with error correction and applying the correction,
/// when the page is correctable.
pub open spec fn fixed_fire(v: Seq<bool>) -> FireCodeView {
    apply_spec(loaded(fresh_fire(), true, v))
}

/// The 64 bytes of logical page `la` in an exported image: the payloads of both channels'
/// pages, corrected where they can be, interleaved bit by bit.
pub open spec fn saved_page(m: MemoryView, la: u16) -> Seq<u8> {
    bits_to_bytes(
        interleave_spec(
            payload_of(fixed_fire(page_read(m.ch_a, la, true))),
            payload_of(fixed_fire(page_read(m.ch_b, la, true))),
        ),
    )
}

/// The exported bytes of the logical pages below `n`.
pub open spec fn saved_image(m: MemoryView, n: int) -> Seq<u8>
    decreases n,
{
    if n <= 0 {
        Seq::empty()
    } else {
        saved_image(m, n - 1) + saved_page(m, (n - 1) as u16)
    }
}

/// Number of logical pages below `n` whose read from channel `c`, with error correction,
/// has outcome `r`.
pub open spec fn count_result(c: ChannelMemory, r: FireResult, n: int) -> nat
    decreases n,
{
    if n <= 0 {
        0
    } else {
        count_result(c, r, n - 1) + if read_result(c, (n - 1) as u16, true) == r {
            1nat
        } else {
            0nat
        }
    }
}

/// Over the logical pages below `n` and both channels: the number of valid pages, of
/// correctable pages and of uncorrectable pages.
pub open spec fn result_counts(m: MemoryView, n: int) -> (nat, nat, nat) {
    (
        count_result(m.ch_a, FireResult::Valid, n) + count_result(m.ch_b, FireResult::Valid, n),
        count_result(m.ch_a, FireResult::Correctable, n) + count_result(
            m.ch_b,
            FireResult::Correctable,
            n,
        ),
        count_result(m.ch_a, FireResult::Uncorrectable, n) + count_result(
            m.ch_b,
            FireResult::Uncorrectable,
            n,
        ),
    )
}

proof fn lemma_count_result_le(c: ChannelMemory, r: FireResult, n: int)
    requires
        n >= 0,
    ensures
        count_result(c, r, n) <= n,
    decreases n,
{
    if n > 0 {
        lemma_count_result_le(c, r, n - 1);
    }
}

impl Memory {
    fn apply_fix(&mut self, ch: Channel)
        ensures
            final(self)@ == old(self)@.with_fire(ch, apply_spec(old(self)@.fire(ch))),
    {
        match ch {
            Channel::ChannelA => {
                self.fire_a.apply_correction();
            },
            Channel::ChannelB => {
                self.fire_b.apply_correction();
            },
        }
    }

    fn count_fix(&mut self, ch: Channel, res: FireResult, fix: bool) -> (r: (usize, usize, usize))
        requires
            res != FireResult::LoadError,
        ensures
            r == ((if res == FireResult::Valid { 1usize } else { 0usize }), (if res
                == FireResult::Correctable { 1usize } else { 0usize }), (if res
                == FireResult::Uncorrectable { 1usize } else { 0usize })),
            final(self)@ == if fix && res == FireResult::Correctable {
                old(self)@.with_fire(ch, apply_spec(old(self)@.fire(ch)))
            } else {
                old(self)@
            },
    {
        match res {
            FireResult::Valid => (1, 0, 0),
            FireResult::Correctable => {
                if fix {
                    self.apply_fix(ch);
                }
                (0, 1, 0)
            },
            FireResult::Uncorrectable => (0, 0, 1),
            _ => (0, 0, 0),
        }
    }

    #[verifier::spinoff_prover]
    fn save_one(&mut self, Ghost(m): Ghost<MemoryView>, la: u16) -> (r: Option<(Vec<u8>, (usize, usize, usize))>)
        requires
            la < 2048,
            old(self)@ == after_save(m, la as int),
            la > 0 ==> m.ch_a.page_ok(true) && m.ch_b.page_ok(true),
        ensures
            r is None <==> !(m.ch_a.page_ok(true) && m.ch_b.page_ok(true)),
            r is None && !m.ch_a.page_ok(true) ==> final(self)@ == la_read(old(self)@, la, true),
            r is None && m.ch_a.page_ok(true) ==> final(self)@ == ({
                let m1 = la_read(old(self)@, la, true);
                MemoryView { fire_a: apply_spec(m1.fire_a), ..m1 }
            }),
            r matches Some((page, c)) ==> page@ == saved_page(m, la) && c == (
                result_inc(m, la, FireResult::Valid),
                result_inc(m, la, FireResult::Correctable),
                result_inc(m, la, FireResult::Uncorrectable),
            ),
            r is Some ==> final(self)@ == after_save(m, la + 1),
    {
        let ghost m0 = self@;
        let (res_a, res_b) = self.get_la_page(la, true);
        if let FireResult::LoadError = res_a {
            return None;
        }
        let (a0, a1, a2) = self.count_fix(Channel::ChannelA, res_a, true);
        if let FireResult::LoadError = res_b {
            return None;
        }
        let (b0, b1, b2) = self.count_fix(Channel::ChannelB, res_b, true);
        let page = self.get_payload();
        proof {
            lemma_save_step(m, m0, la);
        }
        Some((page, (a0 + b0, a1 + b1, a2 + b2)))
    }

    /// Exports the raw image: every logical page is read with error correction from both
    /// channels, corrected where it can be, and its payloads interleaved into 64 bytes.
    /// Returns the image with the number of valid, corrected and uncorrectable pages; fails
    /// when a channel cannot give pages.
    pub fn data_save(&mut self) -> (r: Result<(Vec<u8>, (usize, usize, usize)), ()>)
        ensures
            r is Err <==> !(old(self)@.ch_a.page_ok(true) && old(self)@.ch_b.page_ok(true)),
            !old(self)@.ch_a.page_ok(true) ==> final(self)@ == la_read(old(self)@, 0, true),
            old(self)@.ch_a.page_ok(true) && !old(self)@.ch_b.page_ok(true) ==> final(self)@ == ({
                let m1 = la_read(old(self)@, 0, true);
                MemoryView { fire_a: apply_spec(m1.fire_a), ..m1 }
            }),
            r matches Ok((img, cnt)) ==> img@ == saved_image(old(self)@, 2048) && cnt.0
                == result_counts(old(self)@, 2048).0 && cnt.1 == result_counts(old(self)@, 2048).1
                && cnt.2 == result_counts(old(self)@, 2048).2,
            r is Ok ==> final(self)@ == (MemoryView { addr: CurrentAddr::Unset, ..after_save(old(self)@, 2048) }),
    {
        let ghost m = self@;
        let mut out: Vec<u8> = Vec::new();
        let mut cnt_ok: usize = 0;
        let mut cnt_corrected: usize = 0;
        let mut cnt_uncorrectable: usize = 0;
        let mut la: u16 = 0;
        while la < 2048
            invariant
                la <= 2048,
                m == old(self)@,
                la > 0 ==> m.ch_a.page_ok(true) && m.ch_b.page_ok(true),
                self@ == after_save(m, la as int),
                out@ == saved_image(m, la as int),
                cnt_ok == result_counts(m, la as int).0,
                cnt_corrected == result_counts(m, la as int).1,
                cnt_uncorrectable == result_counts(m, la as int).2,
            decreases 2048 - la,
        {
            proof {
                lemma_counts_le(m, la as int);
            }
            match self.save_one(Ghost(m), la) {
                None => {
                    return Err(());
                },
                Some((mut page, c)) => {
                    cnt_ok += c.0;
                    cnt_corrected += c.1;
                    cnt_uncorrectable += c.2;
                    out.append(&mut page);
                },
            }
            la += 1;
        }
        self.curr_addr = CurrentAddr::Unset;
        Ok((out, (cnt_ok, cnt_corrected, cnt_uncorrectable)))
    }
}

/// 1 for each channel whose read of logical page `la`, with error correction, has outcome
/// `r`.
pub open spec fn result_inc(m: MemoryView, la: u16, r: FireResult) -> usize {
    ((if read_result(m.ch_a, la, true) == r { 1usize } else { 0usize }) + (if read_result(
        m.ch_b,
        la,
        true,
    ) == r { 1usize } else { 0usize })) as usize
}

/// The device after exporting the logical pages below `n`: each Fire code holds the last
/// page read, corrected where it can be.
pub open spec fn after_save(m: MemoryView, n: int) -> MemoryView {
    if n <= 0 {
        m
    } else {
        MemoryView {
            fire_a: fixed_fire(page_read(m.ch_a, (n - 1) as u16, true)),
            fire_b: fixed_fire(page_read(m.ch_b, (n - 1) as u16, true)),
            addr: CurrentAddr::LA((n - 1) as u16),
            ec: true,
            ..m
        }
    }
}

proof fn lemma_counts_le(m: MemoryView, n: int)
    requires
        0 <= n <= 2048,
    ensures
        result_counts(m, n).0 <= 2 * n,
        result_counts(m, n).1 <= 2 * n,
        result_counts(m, n).2 <= 2 * n,
{
    lemma_count_result_le(m.ch_a, FireResult::Valid, n);
    lemma_count_result_le(m.ch_b, FireResult::Valid, n);
    lemma_count_result_le(m.ch_a, FireResult::Correctable, n);
    lemma_count_result_le(m.ch_b, FireResult::Correctable, n);
    lemma_count_result_le(m.ch_a, FireResult::Uncorrectable, n);
    lemma_count_result_le(m.ch_b, FireResult::Uncorrectable, n);
}

/// Loading a page of the right length with error correction does not depend on what the
/// Fire code held.
proof fn lemma_loaded_indep(f: FireCodeView, code: Seq<bool>)
    requires
        code.len() == 270,
    ensures
        loaded(f, true, code) == loaded(fresh_fire(), true, code),
        loaded(f, true, code).state == code_result(true, code),
{
}

proof fn lemma_save_step(m: MemoryView, m0: MemoryView, la: u16)
    requires
        la < 2048,
        m.ch_a.page_ok(true),
        m.ch_b.page_ok(true),
        page_read(m.ch_a, la, true).len() == 270,
        page_read(m.ch_b, la, true).len() == 270,
        m0 == after_save(m, la as int),
    ensures
        ({
            let m1 = la_read(m0, la, true);
            let m2 = if read_result(m.ch_a, la, true) == FireResult::Correctable {
                m1.with_fire(Channel::ChannelA, apply_spec(m1.fire_a))
            } else {
                m1
            };
            let m3 = if read_result(m.ch_b, la, true) == FireResult::Correctable {
                m2.with_fire(Channel::ChannelB, apply_spec(m2.fire_b))
            } else {
                m2
            };
            &&& m3 == after_save(m, la + 1)
            &&& payload_bytes(m3) == saved_page(m, la)
            &&& saved_image(m, la + 1) == saved_image(m, la as int) + saved_page(m, la)
        }),
{
    lemma_loaded_indep(m0.fire_a, page_read(m.ch_a, la, true));
    lemma_loaded_indep(m0.fire_b, page_read(m.ch_b, la, true));
}

} // verus!

verus! {

/// A Fire code after reading logical page `la` of channel `c` with error correction and,
/// with `fix`, applying its correction.
pub open spec fn fix_fire(c: ChannelMemory, la: u16, fix: bool) -> FireCodeView {
    let v = page_read(c, la, true);
    if fix {
        fixed_fire(v)
    } else {
        loaded(fresh_fire(), true, v)
    }
}

/// The corrected pages of channel `c`, by logical address.
pub open spec fn fixed_pages(c: ChannelMemory) -> spec_fn(u16) -> Seq<bool> {
    |x: u16| fixed_fire(page_read(c, x, true)).uncorr
}

/// With `fix`, the logical addresses below `n` whose page in channel `c` is correctable.
pub open spec fn fix_set(c: ChannelMemory, fix: bool, n: int) -> spec_fn(u16) -> bool {
    |x: u16| x < n && fix && read_result(c, x, true) == FireResult::Correctable
}

/// `s` is device `m` once the logical pages below `n` are checked and, with `fix`, the
/// correctable ones corrected in the channels (the address being edited left aside).
pub open spec fn fixed_upto(m: MemoryView, fix: bool, n: int, s: MemoryView) -> bool {
    &&& pages_written(m.ch_a, s.ch_a, true, fixed_pages(m.ch_a), fix_set(m.ch_a, fix, n))
    &&& pages_written(m.ch_b, s.ch_b, true, fixed_pages(m.ch_b), fix_set(m.ch_b, fix, n))
    &&& s.dirty == (m.dirty || (fix && result_counts(m, n).1 > 0))
    &&& s.skip == m.skip
    &&& if n <= 0 {
        s.fire_a == m.fire_a && s.fire_b == m.fire_b && s.ec == m.ec
    } else {
        &&& s.fire_a == fix_fire(m.ch_a, (n - 1) as u16, fix)
        &&& s.fire_b == fix_fire(m.ch_b, (n - 1) as u16, fix)
        &&& s.ec
    }
}

/// Two channels that give the same page reads of a logical address read the same page.
proof fn lemma_page_read_same(c1: ChannelMemory, c2: ChannelMemory, la: u16)
    requires
        c1.page_ok(true),
        c2.page_pa(la) == c1.page_pa(la),
        c2.page_mask(true) == c1.page_mask(true),
        page_bits_match(c2, c2.page_pa(la), c2.page_mask(true), 270, page_read(c2, la, true)),
        forall|v: Seq<bool>|
            page_bits_match(c1, c1.page_pa(la), c1.page_mask(true), 270, v) == #[trigger] page_bits_match(
                c2,
                c2.page_pa(la),
                c2.page_mask(true),
                270,
                v,
            ),
    ensures
        page_read(c1, la, true) == page_read(c2, la, true),
{
    let w = page_read(c2, la, true);
    assert(page_bits_match(c1, c1.page_pa(la), c1.page_mask(true), 270, w));
    let u = page_read(c1, la, true);
    lemma_page_read_unique(c1, c1.page_pa(la), c1.page_mask(true), 270, u, w);
}

/// Changing only which addresses are marked, not the marked set, keeps a run of page
/// writes.
proof fn lemma_pages_written_same(
    c1: ChannelMemory,
    c2: ChannelMemory,
    page_of: spec_fn(u16) -> Seq<bool>,
    active: spec_fn(u16) -> bool,
    active2: spec_fn(u16) -> bool,
)
    requires
        pages_written(c1, c2, true, page_of, active),
        forall|x: u16| #[trigger] active2(x) == active(x),
    ensures
        pages_written(c1, c2, true, page_of, active2),
{
}

impl Memory {
    fn fix_page(&mut self, ch: Channel, la: u16) -> (r: bool)
        requires
            old(self)@.chan(ch).page_ok(true),
            old(self)@.fire(ch).state == FireResult::Correctable,
            old(self)@.fire(ch).corr.len() == 270,
        ensures
            r,
            page_update(
                old(self)@.chan(ch),
                final(self)@.chan(ch),
                la,
                true,
                apply_spec(old(self)@.fire(ch)).uncorr,
            ),
            final(self)@ == (MemoryView {
                dirty: true,
                ..old(self)@.with_fire(ch, apply_spec(old(self)@.fire(ch))).with_chan(
                    ch,
                    final(self)@.chan(ch),
                )
            }),
    {
        self.apply_fix(ch);
        let res = match ch {
            Channel::ChannelA => {
                let page = self.fire_a.get_page();
                self.ch_a.set_page(la, true, page)
            },
            Channel::ChannelB => {
                let page = self.fire_b.get_page();
                self.ch_b.set_page(la, true, page)
            },
        };
        if res.is_err() {
            return false;
        }
        self.dirty = true;
        true
    }
}

} // verus!

verus! {

impl Memory {
    fn check_fix(&mut self, ch: Channel, la: u16, res: FireResult, fix: bool) -> (r: Option<(usize, usize, usize)>)
        requires
            res != FireResult::LoadError,
            res == old(self)@.fire(ch).state,
            old(self)@.chan(ch).page_ok(true),
            old(self)@.fire(ch).corr.len() == 270,
        ensures
            r == Some(
                ((if res == FireResult::Valid { 1usize } else { 0usize }), (if res
                    == FireResult::Correctable { 1usize } else { 0usize }), (if res
                    == FireResult::Uncorrectable { 1usize } else { 0usize })),
            ),
            fix && res == FireResult::Correctable ==> page_update(
                old(self)@.chan(ch),
                final(self)@.chan(ch),
                la,
                true,
                apply_spec(old(self)@.fire(ch)).uncorr,
            ) && final(self)@ == (MemoryView {
                dirty: true,
                ..old(self)@.with_fire(ch, apply_spec(old(self)@.fire(ch))).with_chan(
                    ch,
                    final(self)@.chan(ch),
                )
            }),
            !(fix && res == FireResult::Correctable) ==> final(self)@ == old(self)@,
    {
        match res {
            FireResult::Valid => Some((1, 0, 0)),
            FireResult::Correctable => {
                if fix {
                    if !self.fix_page(ch, la) {
                        return None;
                    }
                }
                Some((0, 1, 0))
            },
            FireResult::Uncorrectable => Some((0, 0, 1)),
            _ => Some((0, 0, 0)),
        }
    }

    #[verifier::spinoff_prover]
    #[verifier::rlimit(50)]
    fn fix_one(&mut self, Ghost(m): Ghost<MemoryView>, la: u16, fix: bool) -> (r: Option<(usize, usize, usize)>)
        requires
            la < 2048,
            m.ch_a.offset_view() matches Some(o) ==> o < 4096,
            m.ch_b.offset_view() matches Some(o) ==> o < 4096,
            fixed_upto(m, fix, la as int, old(self)@),
            la > 0 ==> m.ch_a.page_ok(true) && m.ch_b.page_ok(true),
        ensures
            r is None <==> !(m.ch_a.page_ok(true) && m.ch_b.page_ok(true)),
            r is None && !m.ch_a.page_ok(true) ==> final(self)@ == la_read(old(self)@, la, true),
            r is None && m.ch_a.page_ok(true) ==> ({
                let m1 = la_read(old(self)@, la, true);
                if fix && m1.fire_a.state == FireResult::Correctable {
                    page_update(m1.ch_a, final(self)@.ch_a, la, true, apply_spec(m1.fire_a).uncorr)
                        && final(self)@ == (MemoryView {
                        dirty: true,
                        ..m1.with_fire(Channel::ChannelA, apply_spec(m1.fire_a)).with_chan(
                            Channel::ChannelA,
                            final(self)@.ch_a,
                        )
                    })
                } else {
                    final(self)@ == m1
                }
            }),
            r matches Some(c) ==> c == (
                result_inc(m, la, FireResult::Valid),
                result_inc(m, la, FireResult::Correctable),
                result_inc(m, la, FireResult::Uncorrectable),
            ),
            r is Some ==> fixed_upto(m, fix, la + 1, final(self)@) && final(self)@.addr
                == CurrentAddr::LA(la),
    {
        let ghost m0 = self@;
        let (res_a, res_b) = self.get_la_page(la, true);
        proof {
            if m.ch_a.page_ok(true) {
                assert forall|v: Seq<bool>|
                    page_bits_match(m.ch_a, m.ch_a.page_pa(la), m.ch_a.page_mask(true), 270, v)
                        == #[trigger] page_bits_match(
                        m0.ch_a,
                        m0.ch_a.page_pa(la),
                        m0.ch_a.page_mask(true),
                        270,
                        v,
                    ) by {
                    lemma_pages_written_read(m.ch_a, m0.ch_a, true, fixed_pages(m.ch_a),
                        fix_set(m.ch_a, fix, la as int), la, true, v);
                }
                lemma_page_read_same(m.ch_a, m0.ch_a, la);
                lemma_loaded_indep(m0.fire_a, page_read(m.ch_a, la, true));
            }
            if m.ch_b.page_ok(true) {
                assert forall|v: Seq<bool>|
                    page_bits_match(m.ch_b, m.ch_b.page_pa(la), m.ch_b.page_mask(true), 270, v)
                        == #[trigger] page_bits_match(
                        m0.ch_b,
                        m0.ch_b.page_pa(la),
                        m0.ch_b.page_mask(true),
                        270,
                        v,
                    ) by {
                    lemma_pages_written_read(m.ch_b, m0.ch_b, true, fixed_pages(m.ch_b),
                        fix_set(m.ch_b, fix, la as int), la, true, v);
                }
                lemma_page_read_same(m.ch_b, m0.ch_b, la);
                lemma_loaded_indep(m0.fire_b, page_read(m.ch_b, la, true));
            }
        }
        if let FireResult::LoadError = res_a {
            return None;
        }
        let ghost m1 = self@;
        let ca = self.check_fix(Channel::ChannelA, la, res_a, fix);
        if let FireResult::LoadError = res_b {
            return None;
        }
        let ghost m2 = self@;
        let cb = self.check_fix(Channel::ChannelB, la, res_b, fix);
        match (ca, cb) {
            (Some(a), Some(b)) => {
                proof {
                    lemma_fix_channel(m.ch_a, m0.ch_a, self@.ch_a, fix, la, res_a);
                    lemma_fix_channel(m.ch_b, m0.ch_b, self@.ch_b, fix, la, res_b);
                }
                Some((a.0 + b.0, a.1 + b.1, a.2 + b.2))
            },
            _ => None,
        }
    }
}

proof fn lemma_fix_channel(c: ChannelMemory, c0: ChannelMemory, c1: ChannelMemory, fix: bool, la: u16, res: FireResult)
    requires
        la < 2048,
        c.offset_view() matches Some(o) ==> o < 4096,
        c.page_ok(true),
        res == read_result(c, la, true),
        page_read(c, la, true).len() == 270,
        pages_written(c, c0, true, fixed_pages(c), fix_set(c, fix, la as int)),
        fix && res == FireResult::Correctable ==> page_update(c0, c1, la, true, fixed_pages(c)(la)),
        !(fix && res == FireResult::Correctable) ==> c1 == c0,
    ensures
        pages_written(c, c1, true, fixed_pages(c), fix_set(c, fix, la + 1)),
{
    if fix && res == FireResult::Correctable {
        lemma_pages_written_step(c, c0, c1, true, fixed_pages(c), fix_set(c, fix, la as int),
            fix_set(c, fix, la + 1), la);
    } else {
        lemma_pages_written_same(c, c1, fixed_pages(c), fix_set(c, fix, la as int), fix_set(c, fix, la + 1));
    }
}

} // verus!

verus! {

impl Memory {
    /// Checks every logical page of both channels with error correction and, with
    /// `actually_fix`, writes back the correction of each correctable page. Returns the number
    /// of valid, correctable and uncorrectable pages; none when a channel cannot give pages.
    pub fn data_fix(&mut self, actually_fix: bool) -> (r: Option<(usize, usize, usize)>)
        ensures
            r is None <==> !(old(self)@.ch_a.page_ok(true) && old(self)@.ch_b.page_ok(true)),
            r is None && !old(self)@.ch_a.page_ok(true) ==> final(self)@ == la_read(old(self)@, 0, true),
            r is None && old(self)@.ch_a.page_ok(true) ==> ({
                let m1 = la_read(old(self)@, 0, true);
                if actually_fix && m1.fire_a.state == FireResult::Correctable {
                    page_update(m1.ch_a, final(self)@.ch_a, 0, true, apply_spec(m1.fire_a).uncorr)
                        && final(self)@ == (MemoryView {
                        dirty: true,
                        ..m1.with_fire(Channel::ChannelA, apply_spec(m1.fire_a)).with_chan(
                            Channel::ChannelA,
                            final(self)@.ch_a,
                        )
                    })
                } else {
                    final(self)@ == m1
                }
            }),
            r matches Some(c) ==> c.0 == result_counts(old(self)@, 2048).0 && c.1 == result_counts(
                old(self)@,
                2048,
            ).1 && c.2 == result_counts(old(self)@, 2048).2,
            r is Some ==> fixed_upto(old(self)@, actually_fix, 2048, final(self)@) && final(self)@.addr
                == CurrentAddr::Unset,
    {
        let ghost m = self@;
        let ok_a = self.ch_a.offset_ok();
        let ok_b = self.ch_b.offset_ok();
        proof {
            lemma_pages_written_none(m.ch_a, true, fixed_pages(m.ch_a), fix_set(m.ch_a, actually_fix, 0));
            lemma_pages_written_none(m.ch_b, true, fixed_pages(m.ch_b), fix_set(m.ch_b, actually_fix, 0));
        }
        let mut cnt_ok: usize = 0;
        let mut cnt_corrected: usize = 0;
        let mut cnt_uncorrectable: usize = 0;
        let mut la: u16 = 0;
        while la < 2048
            invariant
                la <= 2048,
                m == old(self)@,
                m.ch_a.offset_view() matches Some(o) ==> o < 4096,
                m.ch_b.offset_view() matches Some(o) ==> o < 4096,
                la == 0 ==> self@ == m,
                la > 0 ==> m.ch_a.page_ok(true) && m.ch_b.page_ok(true),
                fixed_upto(m, actually_fix, la as int, self@),
                cnt_ok == result_counts(m, la as int).0,
                cnt_corrected == result_counts(m, la as int).1,
                cnt_uncorrectable == result_counts(m, la as int).2,
            decreases 2048 - la,
        {
            proof {
                lemma_counts_le(m, la as int);
            }
            match self.fix_one(Ghost(m), la, actually_fix) {
                None => {
                    return None;
                },
                Some(c) => {
                    cnt_ok += c.0;
                    cnt_corrected += c.1;
                    cnt_uncorrectable += c.2;
                },
            }
            la += 1;
        }
        self.curr_addr = CurrentAddr::Unset;
        Some((cnt_ok, cnt_corrected, cnt_uncorrectable))
    }
}

} // verus!

verus! {

proof fn lemma_interleave_split(s: Seq<bool>)
    requires
        s.len() % 2 == 0,
    ensures
        interleave_spec(evens(s), odds(s)) == s,
{
    let r = interleave_spec(evens(s), odds(s));
    assert forall|i: int| 0 <= i < s.len() implies r[i] == s[i] by {
        if i % 2 == 0 {
            assert(2 * (i / 2) == i);
        } else {
            assert(2 * (i / 2) + 1 == i);
        }
    }
    assert(r =~= s);
}

pub(crate) proof fn lemma_image_page_read(c: ChannelMemory, c2: ChannelMemory, img: Seq<u8>, ch: Channel, la: u16)
    requires
        img.len() >= 131072,
        la < 2048,
        c.offset_view() matches Some(o) && o < 4096,
        pages_written(c, c2, true, image_pages(img, ch), below(2048)),
    ensures
        c2.page_ok(true) == c.page_ok(true),
        c.page_ok(true) ==> page_read(c2, la, true) == image_page(img, la, ch),
{
    if c.page_ok(true) {
        lemma_image_page_len(img, la, ch);
        lemma_pages_written_match(c, c2, true, image_pages(img, ch), below(2048), la);
        let w = page_read(c2, la, true);
        lemma_page_read_unique(c2, c2.page_pa(la), c2.page_mask(true), 270, w, image_page(img, la, ch));
    }
}

proof fn lemma_image_page_saved(m2: MemoryView, img: Seq<u8>, la: u16)
    requires
        img.len() >= 131072,
        la < 2048,
        page_read(m2.ch_a, la, true) == image_page(img, la, Channel::ChannelA),
        page_read(m2.ch_b, la, true) == image_page(img, la, Channel::ChannelB),
    ensures
        saved_page(m2, la) == img.subrange(64 * la, 64 * la + 64),
        read_result(m2.ch_a, la, true) == FireResult::Valid || !m2.ch_a.page_ok(true),
        read_result(m2.ch_b, la, true) == FireResult::Valid || !m2.ch_b.page_ok(true),
{
    let b = img.subrange(64 * la, 64 * la + 64);
    let bits = bytes_to_bits(b);
    lemma_image_page_len(img, la, Channel::ChannelA);
    lemma_image_page_len(img, la, Channel::ChannelB);
    let pa = image_half(img, la, Channel::ChannelA);
    let pb = image_half(img, la, Channel::ChannelB);
    lemma_load_codeword(fresh_fire(), pa);
    lemma_load_codeword(fresh_fire(), pb);
    lemma_interleave_split(bits);
    lemma_bytes_bits_roundtrip(b);
}

proof fn lemma_saved_image_prefix(m2: MemoryView, img: Seq<u8>, n: int)
    requires
        img.len() >= 131072,
        0 <= n <= 2048,
        forall|la: u16| la < 2048 ==> #[trigger] saved_page(m2, la) == img.subrange(64 * la, 64 * la + 64),
    ensures
        saved_image(m2, n) == img.take(64 * n),
    decreases n,
{
    if n > 0 {
        lemma_saved_image_prefix(m2, img, n - 1);
        let la = (n - 1) as u16;
        assert(saved_page(m2, la) == img.subrange(64 * la, 64 * la + 64));
        assert(img.take(64 * (n - 1)) + img.subrange(64 * (n - 1), 64 * n) =~= img.take(64 * n));
    } else {
        assert(img.take(0) =~= Seq::<u8>::empty());
    }
}

proof fn lemma_count_all(c: ChannelMemory, r: FireResult, n: int)
    requires
        0 <= n <= 2048,
        forall|la: u16| la < 2048 ==> #[trigger] read_result(c, la, true) == FireResult::Valid,
    ensures
        count_result(c, r, n) == if r == FireResult::Valid {
            n
        } else {
            0
        },
    decreases n,
{
    if n > 0 {
        lemma_count_all(c, r, n - 1);
        assert(read_result(c, (n - 1) as u16, true) == FireResult::Valid);
    }
}

/// A device whose pages read as the pages of an image exports the image, every page valid.
pub(crate) proof fn lemma_pages_give_image(m2: MemoryView, img: Seq<u8>)
    requires
        img.len() == 131072,
        m2.ch_a.page_ok(true),
        m2.ch_b.page_ok(true),
        forall|la: u16| la < 2048 ==> #[trigger] page_read(m2.ch_a, la, true) == image_page(img, la, Channel::ChannelA),
        forall|la: u16| la < 2048 ==> #[trigger] page_read(m2.ch_b, la, true) == image_page(img, la, Channel::ChannelB),
    ensures
        saved_image(m2, 2048) == img,
        result_counts(m2, 2048) == (4096nat, 0nat, 0nat),
{
    assert forall|la: u16| la < 2048 implies #[trigger] saved_page(m2, la) == img.subrange(
        64 * la,
        64 * la + 64,
    ) && read_result(m2.ch_a, la, true) == FireResult::Valid && read_result(m2.ch_b, la, true)
        == FireResult::Valid by {
        assert(page_read(m2.ch_a, la, true) == image_page(img, la, Channel::ChannelA));
        assert(page_read(m2.ch_b, la, true) == image_page(img, la, Channel::ChannelB));
        lemma_image_page_saved(m2, img, la);
    }
    assert forall|la: u16| la < 2048 implies #[trigger] read_result(m2.ch_a, la, true) == FireResult::Valid by {
        assert(saved_page(m2, la) == img.subrange(64 * la, 64 * la + 64));
    }
    assert forall|la: u16| la < 2048 implies #[trigger] read_result(m2.ch_b, la, true) == FireResult::Valid by {
        assert(saved_page(m2, la) == img.subrange(64 * la, 64 * la + 64));
    }
    lemma_saved_image_prefix(m2, img, 2048);
    assert(img.take(131072) =~= img);
    lemma_count_all(m2.ch_a, FireResult::Valid, 2048);
    lemma_count_all(m2.ch_b, FireResult::Valid, 2048);
    lemma_count_all(m2.ch_a, FireResult::Correctable, 2048);
    lemma_count_all(m2.ch_b, FireResult::Correctable, 2048);
    lemma_count_all(m2.ch_a, FireResult::Uncorrectable, 2048);
    lemma_count_all(m2.ch_b, FireResult::Uncorrectable, 2048);
}

/// Exporting a device right after an image was imported into it gives the image back, with
/// every page valid, when both channels can hold pages.
pub proof fn lemma_image_roundtrip(m: MemoryView, img: Seq<u8>, m2: MemoryView)
    requires
        img.len() == 131072,
        m.ch_a.offset_view() matches Some(o) && o < 4096,
        m.ch_b.offset_view() matches Some(o) && o < 4096,
        m.ch_a.page_ok(true),
        m.ch_b.page_ok(true),
        pages_written(m.ch_a, m2.ch_a, true, image_pages(img, Channel::ChannelA), below(2048)),
        pages_written(m.ch_b, m2.ch_b, true, image_pages(img, Channel::ChannelB), below(2048)),
    ensures
        m2.ch_a.page_ok(true),
        m2.ch_b.page_ok(true),
        saved_image(m2, 2048) == img,
        result_counts(m2, 2048) == (4096nat, 0nat, 0nat),
{
    assert forall|la: u16| la < 2048 implies #[trigger] page_read(m2.ch_a, la, true) == image_page(
        img,
        la,
        Channel::ChannelA,
    ) by {
        lemma_image_page_read(m.ch_a, m2.ch_a, img, Channel::ChannelA, la);
    }
    assert forall|la: u16| la < 2048 implies #[trigger] page_read(m2.ch_b, la, true) == image_page(
        img,
        la,
        Channel::ChannelB,
    ) by {
        lemma_image_page_read(m.ch_b, m2.ch_b, img, Channel::ChannelB, la);
    }
    lemma_image_page_read(m.ch_a, m2.ch_a, img, Channel::ChannelA, 0);
    lemma_image_page_read(m.ch_b, m2.ch_b, img, Channel::ChannelB, 0);
    lemma_pages_give_image(m2, img);
}

/// Two channels with the same offset, bootloop and loops read the same pages.
pub(crate) proof fn lemma_same_channel_read(c1: ChannelMemory, c2: ChannelMemory, la: u16)
    requires
        c1.offset_view() == c2.offset_view(),
        c1.bl_view() == c2.bl_view(),
        c2.same_loops(&c1),
        c1.page_ok(true),
        page_bits_match(c1, c1.page_pa(la), c1.page_mask(true), 270, page_read(c1, la, true)),
    ensures
        c2.page_ok(true),
        page_read(c2, la, true) == page_read(c1, la, true),
{
    assert forall|v: Seq<bool>|
        page_bits_match(c2, c2.page_pa(la), c2.page_mask(true), 270, v) == #[trigger] page_bits_match(
            c1,
            c1.page_pa(la),
            c1.page_mask(true),
            270,
            v,
        ) by {
        assert forall|i: int| 0 <= i < 320 implies #[trigger] c2.cell(page_quad(i), page_loop(i), page_pos(c1.page_pa(la), i))
            == c1.cell(page_quad(i), page_loop(i), page_pos(c1.page_pa(la), i)) by {
            assert(c2.loop_view(page_quad(i), page_loop(i)) == c1.loop_view(page_quad(i), page_loop(i)));
        }
    }
    lemma_page_read_same(c2, c1, la);
}

} // verus!

verus! {

/// Loading the bytes that saving a device writes gives back both channels: their offsets,
/// their bootloops and their loops, when both are synchronised.
pub proof fn lemma_memory_save_load(m: MemoryView, bytes: Seq<u8>, m2: MemoryView)
    requires
        m.ch_a.offset_view() matches Some(o) && o < 4096,
        m.ch_b.offset_view() matches Some(o) && o < 4096,
        m.ch_a.shape(),
        m.ch_b.shape(),
        bytes == saved_bytes(m.ch_a, device_bootloop(m)) + saved_bytes(m.ch_b, device_bootloop(m)),
        loaded_from(m2.ch_a, bytes, Channel::ChannelA),
        loaded_from(m2.ch_b, bytes.skip(82432), Channel::ChannelB),
    ensures
        m2.ch_a.offset_view() == m.ch_a.offset_view(),
        m2.ch_b.offset_view() == m.ch_b.offset_view(),
        m2.ch_a.bl_view() == m.ch_a.bl_view(),
        m2.ch_b.bl_view() == m.ch_b.bl_view(),
        m2.ch_a.same_loops(&m.ch_a),
        m2.ch_b.same_loops(&m.ch_b),
{
    let dbl = device_bootloop(m);
    let zeros = Seq::new(320, |i: int| false);
    lemma_channel_set_get(zeros, 0, m.ch_a.bl_view());
    lemma_channel_set_get(with_channel_bits(zeros, 0, m.ch_a.bl_view()), 1, m.ch_b.bl_view());
    let sa = saved_bytes(m.ch_a, dbl);
    let sb = saved_bytes(m.ch_b, dbl);
    assert forall|k: int| 0 <= k < 161 implies #[trigger] chunk(bytes, k) == chunk(sa, k) by {
        assert(chunk(bytes, k) =~= chunk(sa, k));
    }
    assert(bytes.skip(82432) =~= sb);
    lemma_channel_save_load(m.ch_a, dbl, Channel::ChannelA, m2.ch_a);
    lemma_channel_save_load(m.ch_b, dbl, Channel::ChannelB, m2.ch_b);
}

} // verus!

verus! {

proof fn lemma_payload_loaded(v: FireCodeView, ec: bool, p: Seq<bool>)
    requires
        p.len() == (if ec { 256int } else { 272int }),
        set_payload_spec(v, ec, p).state != FireResult::LoadError,
    ensures
        payload_of(set_payload_spec(v, ec, p)) == p,
{
    if ec {
        let page = p + code_tail(v.uncorr);
        assert(page.take(256) =~= p);
    } else {
        assert(p.take(272) =~= p);
    }
}

/// Setting the payload of the logical page being edited and reading it back gives the same
/// bytes, when the setting succeeded.
pub proof fn lemma_payload_roundtrip(m1: MemoryView, pay: Seq<u8>, m2: MemoryView)
    requires
        pay.len() == (if m1.ec { 64int } else { 68int }),
        payload_set(m1, pay, m2, true),
    ensures
        payload_bytes(m2) == pay,
{
    let bits = bytes_to_bits(pay);
    lemma_payload_loaded(m1.fire_a, m1.ec, evens(bits));
    lemma_payload_loaded(m1.fire_b, m1.ec, odds(bits));
    lemma_interleave_split(bits);
    lemma_bytes_bits_roundtrip(pay);
}

} // verus!

verus! {

impl Memory {
    /// The page being edited.
    pub fn current_addr(&self) -> (r: CurrentAddr)
        ensures
            r == self@.addr,
    {
        self.curr_addr
    }

    /// Whether the logical page being edited was read with error correction.
    pub fn current_ec(&self) -> (r: bool)
        ensures
            r == self@.ec,
    {
        self.curr_ec
    }

    /// Whether the physical page being edited was read from the good loops only.
    pub fn current_skip(&self) -> (r: bool)
        ensures
            r == self@.skip,
    {
        self.curr_skip
    }
}

} // verus!

verus! {

/// A device cleared to the factory bootloops has valid bootloops and both channels can hold
/// pages with error correction.
pub proof fn lemma_cleared_device_ok(m: MemoryView)
    requires
        cleared_channel(m.ch_a, default_channel_bits(Channel::ChannelA)),
        cleared_channel(m.ch_b, default_channel_bits(Channel::ChannelB)),
    ensures
        count_ones(m.ch_a.bl_view()) >= 136,
        count_ones(m.ch_b.bl_view()) >= 136,
        m.ch_a.page_ok(true),
        m.ch_b.page_ok(true),
{
    crate::bootloop::lemma_default_good_loops(Channel::ChannelA);
    crate::bootloop::lemma_default_good_loops(Channel::ChannelB);
    crate::channel::lemma_enough_good_loops(m.ch_a);
    crate::channel::lemma_enough_good_loops(m.ch_b);
}

} // verus!

verus! {

/// After an image was imported into a device whose channels can hold pages, reading any
/// logical page with error correction finds both halves valid, and its payload is the
/// image's 64 bytes of that page.
pub proof fn lemma_import_read(m: MemoryView, img: Seq<u8>, m2: MemoryView, la: u16)
    requires
        img.len() == 131072,
        la < 2048,
        m.ch_a.offset_view() matches Some(o) && o < 4096,
        m.ch_b.offset_view() matches Some(o) && o < 4096,
        m.ch_a.page_ok(true),
        m.ch_b.page_ok(true),
        pages_written(m.ch_a, m2.ch_a, true, image_pages(img, Channel::ChannelA), below(2048)),
        pages_written(m.ch_b, m2.ch_b, true, image_pages(img, Channel::ChannelB), below(2048)),
    ensures
        read_result(m2.ch_a, la, true) == FireResult::Valid,
        read_result(m2.ch_b, la, true) == FireResult::Valid,
        payload_bytes(la_read(m2, la, true)) == img.subrange(64 * la, 64 * la + 64),
{
    lemma_image_page_read(m.ch_a, m2.ch_a, img, Channel::ChannelA, la);
    lemma_image_page_read(m.ch_b, m2.ch_b, img, Channel::ChannelB, la);
    lemma_image_page_saved(m2, img, la);
    lemma_image_page_len(img, la, Channel::ChannelA);
    lemma_image_page_len(img, la, Channel::ChannelB);
    lemma_loaded_indep(m2.fire_a, page_read(m2.ch_a, la, true));
    lemma_loaded_indep(m2.fire_b, page_read(m2.ch_b, la, true));
}

} // verus!

verus! {

/// A read of a channel that can give pages is a page of the right length, and its outcome is
/// that of a fresh Fire code loading it.
pub proof fn lemma_read_result_fresh(c: ChannelMemory, la: u16, ec: bool)
    requires
        c.page_ok(ec),
    ensures
        page_read(c, la, ec).len() == bits_per_ch_spec(ec),
        read_result(c, la, ec) == loaded(fresh_fire(), ec, page_read(c, la, ec)).state,
        read_result(c, la, ec) != FireResult::LoadError,
        ec ==> read_result(c, la, ec) != FireResult::OkNoECC,
{
    crate::channel::lemma_page_read_exists(c, c.page_pa(la), c.page_mask(ec), bits_per_ch_spec(ec));
}

proof fn lemma_counts_sum(m: MemoryView, n: int)
    requires
        0 <= n <= 2048,
        m.ch_a.page_ok(true),
        m.ch_b.page_ok(true),
    ensures
        result_counts(m, n).0 + result_counts(m, n).1 + result_counts(m, n).2 == 2 * n,
    decreases n,
{
    if n > 0 {
        lemma_counts_sum(m, n - 1);
        lemma_read_result_fresh(m.ch_a, (n - 1) as u16, true);
        lemma_read_result_fresh(m.ch_b, (n - 1) as u16, true);
    }
}

/// When both channels can give pages, every one of the 4096 page reads of a device check is
/// valid, correctable or uncorrectable: the three counts add up to 4096.
pub proof fn lemma_counts_total(m: MemoryView)
    requires
        m.ch_a.page_ok(true),
        m.ch_b.page_ok(true),
    ensures
        result_counts(m, 2048).0 + result_counts(m, 2048).1 + result_counts(m, 2048).2 == 4096,
{
    lemma_counts_sum(m, 2048);
}

} // verus!

verus! {

proof fn lemma_unfixed_channel(c: ChannelMemory, c2: ChannelMemory)
    requires
        c.shape(),
        pages_written(c, c2, true, fixed_pages(c), fix_set(c, false, 2048)),
    ensures
        c2.bl_view() == c.bl_view(),
        c2.offset_view() == c.offset_view(),
        c2.same_loops(&c),
{
    if c.offset_view() is Some {
        assert forall|q: int, l: int| 0 <= q < 2 && 0 <= l < 80 implies #[trigger] c2.loop_view(q, l)
            == c.loop_view(q, l) by {
            assert forall|p: int| 0 <= p < 4096 implies c2.loop_view(q, l)[p] == c.loop_view(q, l)[p] by {
                assert(c2.cell(q, l, p) == c.cell(q, l, p));
            }
            assert(c2.loop_view(q, l) =~= c.loop_view(q, l));
        }
    }
}

/// Checking the pages of a device without fixing them changes neither channel and leaves
/// the device's changed mark as it was.
pub proof fn lemma_check_only_keeps(m: MemoryView, s: MemoryView)
    requires
        m.ch_a.shape(),
        m.ch_b.shape(),
        fixed_upto(m, false, 2048, s),
    ensures
        s.ch_a.bl_view() == m.ch_a.bl_view(),
        s.ch_b.bl_view() == m.ch_b.bl_view(),
        s.ch_a.offset_view() == m.ch_a.offset_view(),
        s.ch_b.offset_view() == m.ch_b.offset_view(),
        s.ch_a.same_loops(&m.ch_a),
        s.ch_b.same_loops(&m.ch_b),
        s.dirty == m.dirty,
{
    lemma_unfixed_channel(m.ch_a, s.ch_a);
    lemma_unfixed_channel(m.ch_b, s.ch_b);
}

} // verus!

verus! {

/// After the correctable pages of a channel are corrected in place, a read of a page that was
/// correctable gives its corrected page, and a read of any other page gives what it gave
/// before.
pub open spec fn fixed_read(c: ChannelMemory, c2: ChannelMemory, la: u16) -> bool {
    if read_result(c, la, true) == FireResult::Correctable {
        page_read(c2, la, true) == fixed_fire(page_read(c, la, true)).uncorr
    } else {
        page_read(c2, la, true) == page_read(c, la, true)
    }
}

proof fn lemma_fixed_channel_read(c: ChannelMemory, c2: ChannelMemory, la: u16)
    requires
        c.offset_view() matches Some(o) && o < 4096,
        c.page_ok(true),
        la < 2048,
        pages_written(c, c2, true, fixed_pages(c), fix_set(c, true, 2048)),
    ensures
        c2.page_ok(true),
        fixed_read(c, c2, la),
{
    let v = page_read(c, la, true);
    lemma_read_result_fresh(c, la, true);
    crate::channel::lemma_page_read_exists(c, c.page_pa(la), c.page_mask(true), 270);
    assert(page_bits_match(c, c.page_pa(la), c.page_mask(true), 270, v));
    let w = page_read(c2, la, true);
    if read_result(c, la, true) == FireResult::Correctable {
        assert(fix_set(c, true, 2048)(la));
        assert(fixed_pages(c)(la).len() == 270);
        lemma_pages_written_match(c, c2, true, fixed_pages(c), fix_set(c, true, 2048), la);
        lemma_page_read_unique(c2, c2.page_pa(la), c2.page_mask(true), 270, w, fixed_pages(c)(la));
    } else {
        assert(!fix_set(c, true, 2048)(la));
        lemma_pages_written_read(c, c2, true, fixed_pages(c), fix_set(c, true, 2048), la, true, v);
        assert(page_bits_match(c2, c2.page_pa(la), c2.page_mask(true), 270, v));
        lemma_page_read_unique(c2, c2.page_pa(la), c2.page_mask(true), 270, w, v);
    }
}

/// After the pages of a device whose channels can give pages are checked and fixed, a read of
/// each page that was correctable gives its corrected page, a read of every other page gives
/// the page as before, and the device is marked changed exactly when it was already or some
/// page was corrected.
pub proof fn lemma_fix_reads(m: MemoryView, s: MemoryView, la: u16)
    requires
        m.ch_a.offset_view() matches Some(o) && o < 4096,
        m.ch_b.offset_view() matches Some(o) && o < 4096,
        m.ch_a.page_ok(true),
        m.ch_b.page_ok(true),
        fixed_upto(m, true, 2048, s),
        la < 2048,
    ensures
        s.ch_a.page_ok(true),
        s.ch_b.page_ok(true),
        fixed_read(m.ch_a, s.ch_a, la),
        fixed_read(m.ch_b, s.ch_b, la),
        s.dirty == (m.dirty || result_counts(m, 2048).1 > 0),
{
    lemma_fixed_channel_read(m.ch_a, s.ch_a, la);
    lemma_fixed_channel_read(m.ch_b, s.ch_b, la);
}

} // verus!

verus! {

proof fn lemma_saved_page_len(m: MemoryView, la: u16)
    requires
        m.ch_a.page_ok(true),
        m.ch_b.page_ok(true),
    ensures
        saved_page(m, la).len() == 64,
{
    lemma_read_result_fresh(m.ch_a, la, true);
    lemma_read_result_fresh(m.ch_b, la, true);
    let pa = payload_of(fixed_fire(page_read(m.ch_a, la, true)));
    let pb = payload_of(fixed_fire(page_read(m.ch_b, la, true)));
    assert(pa.len() == 256);
    assert(pb.len() == 256);
    assert(interleave_spec(pa, pb).len() == 512);
}

proof fn lemma_saved_image_pages(m: MemoryView, n: int)
    requires
        m.ch_a.page_ok(true),
        m.ch_b.page_ok(true),
        0 <= n <= 2048,
    ensures
        saved_image(m, n).len() == 64 * n,
        forall|la: u16| la < n ==> saved_image(m, n).subrange(64 * la, 64 * la + 64)
            == #[trigger] saved_page(m, la),
    decreases n,
{
    if n > 0 {
        lemma_saved_image_pages(m, n - 1);
        let last = (n - 1) as u16;
        lemma_saved_page_len(m, last);
        let prev = saved_image(m, n - 1);
        let cur = saved_image(m, n);
        assert(cur == prev + saved_page(m, last));
        assert forall|la: u16| la < n implies cur.subrange(64 * la, 64 * la + 64)
            == #[trigger] saved_page(m, la) by {
            if la < n - 1 {
                assert(cur.subrange(64 * la, 64 * la + 64) =~= prev.subrange(64 * la, 64 * la + 64));
            } else {
                assert(cur.subrange(64 * la, 64 * la + 64) =~= saved_page(m, last));
            }
        }
    }
}

/// When both channels of a device can give pages, the exported image is 131072 bytes, and
/// its 64 bytes at each logical page are that page's two channel reads, corrected where they
/// can be, their payloads interleaved.
pub proof fn lemma_saved_image_layout(m: MemoryView)
    requires
        m.ch_a.page_ok(true),
        m.ch_b.page_ok(true),
    ensures
        saved_image(m, 2048).len() == 131072,
        forall|la: u16| la < 2048 ==> saved_image(m, 2048).subrange(64 * la, 64 * la + 64)
            == #[trigger] saved_page(m, la),
{
    lemma_saved_image_pages(m, 2048);
}

} // verus!
