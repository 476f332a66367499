//! Bootloops: the map of the good storage loops, for the whole device and for one channel.

use vstd::prelude::*;
use vstd::string::StringSliceAdditionalSpecFns;
use crate::bits::{bits_to_bytes, byte_of_bits, lemma_bits_bytes_roundtrip, slicebool_to_arru8};
use crate::hex::{
    all_hex, ascii_bytes, hex_value, from_string, hex_bits, hex_text, lemma_hex_text_bits, to_hex_string,
};
use crate::random::{random_below, thread_rng};
use crate::storage_loop::Loop;
use crate::sync::{
    SyncState, lemma_pos, lemma_pos_unique, load_scan, saved_bit, saved_loop, saved_start,
    scan_from,
};

verus! {

/// One of the two channels of a device.
#[derive(Clone, Copy, Debug, PartialEq, Eq, Structural)]
pub enum Channel {
    ChannelA,
    ChannelB,
}

/// Position of a channel: 0 for A, 1 for B.
pub open spec fn ch_index(ch: Channel) -> int {
    match ch {
        Channel::ChannelA => 0,
        Channel::ChannelB => 1,
    }
}

impl Channel {
    /// Position of the channel: 0 for A, 1 for B.
    pub fn index(self) -> (r: usize)
        ensures
            r == ch_index(self),
    {
        match self {
            Channel::ChannelA => 0,
            Channel::ChannelB => 1,
        }
    }
}

/// Number of set bits.
pub open spec fn count_ones(s: Seq<bool>) -> nat
    decreases s.len(),
{
    if s.len() == 0 {
        0
    } else {
        count_ones(s.drop_last()) + if s.last() {
            1nat
        } else {
            0nat
        }
    }
}

/// The bits of one channel: every other bit of the device bootloop, starting at the channel's
/// position.
pub open spec fn channel_bits(bl: Seq<bool>, c: int) -> Seq<bool> {
    Seq::new(160, |i: int| bl[2 * i + c])
}

/// The device bootloop with the bits of channel `c` replaced by `chbl`.
pub open spec fn with_channel_bits(bl: Seq<bool>, c: int, chbl: Seq<bool>) -> Seq<bool> {
    Seq::new(320, |j: int| if j % 2 == c { chbl[j / 2] } else { bl[j] })
}

/// The device bootloop: 320 bits, one per pair of storage loops, interleaving the two channels.
#[derive(Clone, Copy)]
pub struct Bootloop {
    bl: [bool; 320],
}

/// The bootloop of one channel: 160 bits, one per storage loop pair of the channel.
#[derive(Clone, Copy)]
pub struct ChannelBootloop {
    bl: [bool; 160],
}

impl View for Bootloop {
    type V = Seq<bool>;

    closed spec fn view(&self) -> Seq<bool> {
        self.bl@
    }
}

impl View for ChannelBootloop {
    type V = Seq<bool>;

    closed spec fn view(&self) -> Seq<bool> {
        self.bl@
    }
}

impl Bootloop {
    /// The view always has the bootloop's length.
    pub proof fn lemma_len(&self)
        ensures
            self@.len() == 320,
    {
    }

    /// A bootloop with every bit clear.
    pub fn new() -> (r: Bootloop)
        ensures
            r@ == Seq::new(320, |i: int| false),
    {
        let r = Bootloop { bl: [false; 320] };
        assert(r@ =~= Seq::new(320, |i: int| false));
        r
    }

    /// The 40 bytes of the bootloop, most significant bit first.
    pub fn get_as_arru8(&self) -> (r: [u8; 40])
        ensures
            r@ == bits_to_bytes(self@),
    {
        let r = slicebool_to_arru8::<40>(self.bl.as_slice());
        assert(r@ =~= bits_to_bytes(self@));
        r
    }

    /// Reads the bootloop from 80 hexadecimal digits; on any other text, returns `false` and
    /// leaves the bootloop unchanged.
    pub fn set_from_string(&mut self, s: &str) -> (r: bool)
        ensures
            r == (s.spec_bytes().len() == 80 && all_hex(s.spec_bytes())),
            r ==> final(self)@ == hex_bits(s.spec_bytes(), 320),
            !r ==> final(self)@ == old(self)@,
    {
        if let Some(tmp) = from_string::<320>(s) {
            self.bl = tmp;
            true
        } else {
            false
        }
    }

    /// The bootloop as 80 lower-case hexadecimal digits.
    pub fn to_string(&self) -> (s: String)
        ensures
            s@ == hex_text(bits_to_bytes(self@)),
    {
        let bytes = self.get_as_arru8();
        to_hex_string(bytes.as_slice())
    }

    /// The bootloop of one channel.
    pub fn get_channel(&self, ch: Channel) -> (r: ChannelBootloop)
        ensures
            r@ == channel_bits(self@, ch_index(ch)),
    {
        let c = ch.index();
        let mut out = [false; 160];
        let mut i: usize = 0;
        while i < 160
            invariant
                i <= 160,
                c == ch_index(ch),
                out@.len() == 160,
                self.bl@.len() == 320,
                forall|k: int| 0 <= k < i ==> out@[k] == self.bl@[2 * k + c],
            decreases 160 - i,
        {
            out[i] = self.bl[2 * i + c];
            i += 1;
        }
        let r = ChannelBootloop { bl: out };
        assert(r@ =~= channel_bits(self@, ch_index(ch)));
        r
    }

    /// Replaces the bits of one channel.
    pub fn set_from_channel(&mut self, ch: Channel, chbl: &ChannelBootloop)
        ensures
            final(self)@ == with_channel_bits(old(self)@, ch_index(ch), chbl@),
    {
        let c = ch.index();
        let mut i: usize = 0;
        while i < 160
            invariant
                i <= 160,
                c == ch_index(ch),
                self.bl@.len() == 320,
                chbl.bl@.len() == 160,
                forall|j: int|
                    0 <= j < 320 ==> self.bl@[j] == (if j % 2 == c && j / 2 < i {
                        chbl.bl@[j / 2]
                    } else {
                        old(self).bl@[j]
                    }),
            decreases 160 - i,
        {
            self.bl[2 * i + c] = chbl.bl[i];
            i += 1;
        }
        assert(self@ =~= with_channel_bits(old(self)@, ch_index(ch), chbl@));
    }
}

/// The counter stays in the range that the state gives it.
pub open spec fn cnt_ok(st: SyncState, cnt: usize) -> bool {
    match st {
        SyncState::WaitPreSyncMinLen => 1 <= cnt <= 3157,
        SyncState::WaitSyncPattern => 1 <= cnt <= 255,
        SyncState::ReadBL => 1 <= cnt <= 320,
        _ => true,
    }
}

impl Bootloop {
    /// Searches the loop, from position 0 and over at most 7833 bits, for a recorded bootloop
    /// (see [`crate::sync`]) and reads it into `self`; returns the position of its last bit.
    /// Bits read before the search gives up stay in `self`.
    pub fn load_from_loop(&mut self, inp: &Loop) -> (r: Option<usize>)
        ensures
            final(self)@ == load_scan(inp@, old(self)@).1,
            r matches Some(i) ==> i < 4096,
            match r {
                Some(i) => load_scan(inp@, old(self)@).0 == Some(i as int),
                None => load_scan(inp@, old(self)@).0 is None,
            },
    {
        proof {
            inp.lemma_len();
        }
        let mut state = SyncState::WaitPreSync;
        let mut max_bits: usize = 7833;
        let mut cnt: usize = 0;
        let mut idx: usize = 0;
        while max_bits > 0
            invariant
                idx < 4096,
                inp@.len() == 4096,
                self.bl@.len() == 320,
                cnt_ok(state, cnt),
                load_scan(inp@, old(self)@) == scan_from(
                    inp@,
                    state,
                    cnt as int,
                    idx as int,
                    max_bits as nat,
                    self.bl@,
                ),
            decreases max_bits,
        {
            let bit = inp.get(idx);
            match state {
                SyncState::WaitPreSync => {
                    if bit {
                        cnt = 3157;
                        state = SyncState::WaitPreSyncMinLen;
                    }
                },
                SyncState::WaitPreSyncMinLen => {
                    if bit {
                        cnt -= 1;
                        if cnt == 0 {
                            state = SyncState::WaitPreSyncEnd;
                        }
                    } else {
                        state = SyncState::WaitPreSync;
                    }
                },
                SyncState::WaitPreSyncEnd => {
                    if !bit {
                        cnt = 255;
                        state = SyncState::WaitSyncPattern;
                    }
                },
                SyncState::WaitSyncPattern => {
                    let exp = if cnt > 14 {
                        false
                    } else {
                        cnt % 2 == 0
                    };
                    if bit == exp {
                        cnt -= 1;
                        if cnt == 0 {
                            cnt = 320;
                            state = SyncState::ReadBL;
                        }
                    } else {
                        state = SyncState::WaitPreSync;
                    }
                },
                SyncState::ReadBL => {
                    self.bl[320 - cnt] = bit;
                    cnt -= 1;
                    if cnt == 0 {
                        return Some(idx);
                    }
                },
            }
            idx = (idx + 1) % 4096;
            max_bits -= 1;
        }
        None
    }

    fn saved_bit_at(&self, q: usize) -> (b: bool)
        requires
            q < 4096,
        ensures
            b == saved_bit(self@, q as int),
    {
        if q < 3158 {
            true
        } else if q < 3400 {
            false
        } else if q < 3414 {
            (q - 3400) % 2 == 0
        } else if q < 3734 {
            self.bl[q - 3414]
        } else {
            false
        }
    }

    /// The loop in which the bootloop is recorded so that its last bit falls at position
    /// `off` (see [`crate::sync`]).
    pub fn save_to_loop(&self, off: usize) -> (lp: Loop)
        requires
            off <= usize::MAX - 4459,
        ensures
            lp@ == saved_loop(self@, off as int),
    {
        let mut lp = Loop::new();
        let start = off + 1 + 4096 - 3158 - 242 - 14 - 320;
        let ghost s0 = saved_start(off as int);
        let mut q: usize = 0;
        while q < 4096
            invariant
                q <= 4096,
                start == off + 363,
                off <= usize::MAX - 4459,
                s0 == saved_start(off as int),
                0 <= s0 < 4096,
                self.bl@.len() == 320,
                lp@.len() == 4096,
                forall|i: int|
                    0 <= i < 4096 ==> lp@[i] == (if (i - s0) % 4096 < q {
                        saved_bit(self@, (i - s0) % 4096)
                    } else {
                        false
                    }),
            decreases 4096 - q,
        {
            let bit = self.saved_bit_at(q);
            proof {
                lemma_pos(s0, q as int);
                assert((start + q) % 4096 == (s0 + q) % 4096);
                assert forall|i: int|
                    0 <= i < 4096 && i != (s0 + q) % 4096 implies #[trigger] lp@[i] == (if (i - s0)
                    % 4096 < q + 1 {
                    saved_bit(self@, (i - s0) % 4096)
                } else {
                    false
                }) by {
                    if (i - s0) % 4096 == q {
                        lemma_pos_unique(s0, i, q as int);
                    }
                }
            }
            lp.set(start + q, bit);
            q += 1;
        }
        assert(lp@ =~= saved_loop(self@, off as int));
        lp
    }
}

impl Default for Bootloop {
    fn default() -> (r: Bootloop)
        ensures
            r@ == Seq::new(320, |i: int| false),
    {
        Bootloop::new()
    }
}

/// Taking out a channel's bits after replacing them gives the replacement back.
pub proof fn lemma_channel_set_get(bl: Seq<bool>, c: int, chbl: Seq<bool>)
    requires
        bl.len() == 320,
        chbl.len() == 160,
        0 <= c < 2,
    ensures
        channel_bits(with_channel_bits(bl, c, chbl), c) == chbl,
        channel_bits(with_channel_bits(bl, c, chbl), 1 - c) == channel_bits(bl, 1 - c),
{
    assert(channel_bits(with_channel_bits(bl, c, chbl), c) =~= chbl);
    assert(channel_bits(with_channel_bits(bl, c, chbl), 1 - c) =~= channel_bits(bl, 1 - c));
}

/// Putting back the bits of a channel as they are leaves the bootloop unchanged, and the two
/// channels together make the whole bootloop.
pub proof fn lemma_channel_get_set(bl: Seq<bool>, other: Seq<bool>, c: int)
    requires
        bl.len() == 320,
        other.len() == 320,
        0 <= c < 2,
    ensures
        with_channel_bits(bl, c, channel_bits(bl, c)) == bl,
        with_channel_bits(with_channel_bits(other, 0, channel_bits(bl, 0)), 1, channel_bits(bl, 1))
            == bl,
{
    assert(with_channel_bits(bl, c, channel_bits(bl, c)) =~= bl);
    assert(with_channel_bits(with_channel_bits(other, 0, channel_bits(bl, 0)), 1, channel_bits(bl, 1))
        =~= bl);
}

pub(crate) proof fn lemma_count_ones_take(s: Seq<bool>, i: int)
    requires
        0 <= i < s.len(),
    ensures
        count_ones(s.take(i + 1)) == count_ones(s.take(i)) + if s[i] {
            1nat
        } else {
            0nat
        },
{
    assert(s.take(i + 1).drop_last() =~= s.take(i));
}

proof fn lemma_count_ones_le(s: Seq<bool>)
    ensures
        count_ones(s) <= s.len(),
    decreases s.len(),
{
    if s.len() > 0 {
        lemma_count_ones_le(s.drop_last());
    }
}

impl ChannelBootloop {
    /// The view always has the bootloop's length.
    pub proof fn lemma_len(&self)
        ensures
            self@.len() == 160,
    {
    }

    /// A channel bootloop with every bit clear.
    pub fn new() -> (r: ChannelBootloop)
        ensures
            r@ == Seq::new(160, |i: int| false),
    {
        let r = ChannelBootloop { bl: [false; 160] };
        assert(r@ =~= Seq::new(160, |i: int| false));
        r
    }

    /// Bit `i`.
    pub(crate) fn get(&self, i: usize) -> (b: bool)
        requires
            i < 160,
        ensures
            b == self@[i as int],
    {
        self.bl[i]
    }

    /// Sets bit `i`.
    pub(crate) fn set(&mut self, i: usize, b: bool)
        requires
            i < 160,
        ensures
            final(self)@ == old(self)@.update(i as int, b),
    {
        self.bl[i] = b;
    }

    /// Number of good loops (set bits).
    pub fn ones(&self) -> (r: u32)
        ensures
            r == count_ones(self@),
    {
        let mut sum: u32 = 0;
        let mut i: usize = 0;
        while i < 160
            invariant
                i <= 160,
                self.bl@.len() == 160,
                sum == count_ones(self.bl@.take(i as int)),
                sum <= i,
            decreases 160 - i,
        {
            proof {
                lemma_count_ones_take(self.bl@, i as int);
            }
            if self.bl[i] {
                sum += 1;
            }
            i += 1;
        }
        assert(self.bl@.take(160) =~= self.bl@);
        sum
    }

    /// The 20 bytes of the bootloop, most significant bit first.
    pub fn get_as_arru8(&self) -> (r: [u8; 20])
        ensures
            r@ == bits_to_bytes(self@),
    {
        let r = slicebool_to_arru8::<20>(self.bl.as_slice());
        assert(r@ =~= bits_to_bytes(self@));
        r
    }

    /// Reads the bootloop from 40 hexadecimal digits; on any other text, returns `false` and
    /// leaves the bootloop unchanged.
    pub fn set_from_string(&mut self, s: &str) -> (r: bool)
        ensures
            r == (s.spec_bytes().len() == 40 && all_hex(s.spec_bytes())),
            r ==> final(self)@ == hex_bits(s.spec_bytes(), 160),
            !r ==> final(self)@ == old(self)@,
    {
        if let Some(tmp) = from_string::<160>(s) {
            self.bl = tmp;
            true
        } else {
            false
        }
    }

    /// The bootloop as 40 lower-case hexadecimal digits.
    pub fn to_string(&self) -> (s: String)
        ensures
            s@ == hex_text(bits_to_bytes(self@)),
    {
        let bytes = self.get_as_arru8();
        to_hex_string(bytes.as_slice())
    }

    /// A bootloop of `ones` good loops placed at random: each step draws one of the loops that
    /// are still clear.
    pub fn set_random(&mut self, ones: usize)
        requires
            ones <= 160,
        ensures
            count_ones(final(self)@) == ones,
    {
        self.bl = [false; 160];
        proof {
            assert forall|k: int| 0 <= k <= 160 implies count_ones(self.bl@.take(k)) == 0 by {
                lemma_count_all_clear(self.bl@.take(k));
            }
            assert(self.bl@.take(160) =~= self.bl@);
        }
        let mut rnd = thread_rng();
        let mut cnt: usize = 0;
        while cnt < ones
            invariant
                cnt <= ones <= 160,
                self.bl@.len() == 160,
                count_ones(self.bl@) == cnt,
            decreases ones - cnt,
        {
            let r = random_below(&mut rnd, 160 - cnt);
            self.set_nth_clear(r);
            cnt += 1;
        }
    }

    /// Marks good the loop that is clear with exactly `r` clear loops before it: the step of
    /// `set_random` for a drawn rank `r`.
    pub fn set_nth_clear(&mut self, r: usize)
        requires
            r < 160 - count_ones(old(self)@),
        ensures
            exists|p: int|
                0 <= p < 160 && !old(self)@[p] && p - count_ones(old(self)@.take(p)) == r
                    && final(self)@ == old(self)@.update(p, true),
            count_ones(final(self)@) == count_ones(old(self)@) + 1,
    {
        let pos = self.nth_clear(r);
        proof {
            lemma_count_set_one(self.bl@, pos as int);
        }
        self.bl[pos] = true;
    }

    /// Position of the clear bit of rank `r` (0 = first): a clear bit with exactly `r` clear
    /// bits before it.
    fn nth_clear(&self, r: usize) -> (pos: usize)
        requires
            r < 160 - count_ones(self@),
        ensures
            pos < 160,
            !self@[pos as int],
            pos - count_ones(self@.take(pos as int)) == r,
    {
        let mut pos: usize = 0;
        let mut seen: usize = 0;
        while pos < 160
            invariant
                pos <= 160,
                self.bl@.len() == 160,
                r < 160 - count_ones(self.bl@),
                seen <= r,
                seen + count_ones(self.bl@.take(pos as int)) == pos,
            decreases 160 - pos,
        {
            proof {
                lemma_count_ones_take(self.bl@, pos as int);
            }
            if !self.bl[pos] {
                if seen == r {
                    return pos;
                }
                seen += 1;
            }
            pos += 1;
        }
        assert(self.bl@.take(160) =~= self.bl@);
        pos
    }
}

proof fn lemma_count_all_clear(s: Seq<bool>)
    requires
        forall|i: int| 0 <= i < s.len() ==> !s[i],
    ensures
        count_ones(s) == 0,
    decreases s.len(),
{
    if s.len() > 0 {
        lemma_count_all_clear(s.drop_last());
    }
}

proof fn lemma_count_set_one(s: Seq<bool>, p: int)
    requires
        0 <= p < s.len(),
        !s[p],
    ensures
        count_ones(s.update(p, true)) == count_ones(s) + 1,
    decreases s.len(),
{
    if p == s.len() - 1 {
        assert(s.update(p, true).drop_last() =~= s.drop_last());
    } else {
        lemma_count_set_one(s.drop_last(), p);
        assert(s.update(p, true).drop_last() =~= s.drop_last().update(p, true));
    }
}

/// The text of the factory bootloop of a channel.
pub open spec fn default_channel_text(ch: Channel) -> &'static str {
    match ch {
        Channel::ChannelA => "dfdf7f5bffd7ebffcfffff9ff3faffbcf7ffffff",
        Channel::ChannelB => "755dff77dfff75dfffdfff7f7f5fb7f3ffffffff",
    }
}

/// The factory bootloop of a channel.
pub open spec fn default_channel_bits(ch: Channel) -> Seq<bool> {
    hex_bits(default_channel_text(ch).spec_bytes(), 160)
}

proof fn lemma_default_text_ok(ch: Channel)
    ensures
        default_channel_text(ch).spec_bytes().len() == 40,
        all_hex(default_channel_text(ch).spec_bytes()),
{
    broadcast use vstd::string::is_ascii_spec_bytes;

    let s = default_channel_text(ch);
    match ch {
        Channel::ChannelA => {
            reveal_strlit("dfdf7f5bffd7ebffcfffff9ff3faffbcf7ffffff");
        },
        Channel::ChannelB => {
            reveal_strlit("755dff77dfff75dfffdfff7f7f5fb7f3ffffffff");
        },
    }
    assert(vstd::string::is_ascii(s));
    assert(s.spec_bytes() =~= Seq::new(s@.len(), |i| s@.index(i) as u8));
}

impl ChannelBootloop {
    /// Sets the factory bootloop of the channel.
    pub fn set_default(&mut self, ch: Channel)
        ensures
            final(self)@ == default_channel_bits(ch),
    {
        proof {
            lemma_default_text_ok(ch);
        }
        match ch {
            Channel::ChannelA => {
                self.set_from_string("dfdf7f5bffd7ebffcfffff9ff3faffbcf7ffffff");
            },
            Channel::ChannelB => {
                self.set_from_string("755dff77dfff75dfffdfff7f7f5fb7f3ffffffff");
            },
        }
    }
}

impl Default for ChannelBootloop {
    fn default() -> (r: ChannelBootloop)
        ensures
            r@ == Seq::new(160, |i: int| false),
    {
        ChannelBootloop::new()
    }
}

} // verus!

verus! {

/// The text of a device bootloop (as `Bootloop::to_string` writes it) reads back as the
/// bootloop (as `Bootloop::set_from_string` reads it).
pub proof fn lemma_bootloop_text_roundtrip(bl: Seq<bool>)
    requires
        bl.len() == 320,
    ensures
        ({
            let t = ascii_bytes(hex_text(bits_to_bytes(bl)));
            &&& t.len() == 80
            &&& all_hex(t)
            &&& hex_bits(t, 320) == bl
        }),
{
    lemma_hex_text_bits(bits_to_bytes(bl));
    lemma_bits_bytes_roundtrip(bl);
}

/// The text of a channel bootloop (as `ChannelBootloop::to_string` writes it) reads back as
/// the bootloop (as `ChannelBootloop::set_from_string` reads it).
pub proof fn lemma_channel_text_roundtrip(bl: Seq<bool>)
    requires
        bl.len() == 160,
    ensures
        ({
            let t = ascii_bytes(hex_text(bits_to_bytes(bl)));
            &&& t.len() == 40
            &&& all_hex(t)
            &&& hex_bits(t, 160) == bl
        }),
{
    lemma_hex_text_bits(bits_to_bytes(bl));
    lemma_bits_bytes_roundtrip(bl);
}

} // verus!

verus! {

/// The bytes of the factory bootloop texts.
spec fn default_text_bytes(ch: Channel) -> Seq<u8> {
    match ch {
        Channel::ChannelA => seq![
            100u8, 102u8, 100u8, 102u8, 55u8, 102u8, 53u8, 98u8, 102u8, 102u8, 100u8, 55u8, 101u8,
            98u8, 102u8, 102u8, 99u8, 102u8, 102u8, 102u8, 102u8, 102u8, 57u8, 102u8, 102u8, 51u8,
            102u8, 97u8, 102u8, 102u8, 98u8, 99u8, 102u8, 55u8, 102u8, 102u8, 102u8, 102u8, 102u8,
            102u8,
        ],
        Channel::ChannelB => seq![
            55u8, 53u8, 53u8, 100u8, 102u8, 102u8, 55u8, 55u8, 100u8, 102u8, 102u8, 102u8, 55u8,
            53u8, 100u8, 102u8, 102u8, 102u8, 100u8, 102u8, 102u8, 102u8, 55u8, 102u8, 55u8, 102u8,
            53u8, 102u8, 98u8, 55u8, 102u8, 51u8, 102u8, 102u8, 102u8, 102u8, 102u8, 102u8, 102u8,
            102u8,
        ],
    }
}

proof fn lemma_default_text_bytes(ch: Channel)
    ensures
        default_channel_text(ch).spec_bytes() == default_text_bytes(ch),
{
    broadcast use vstd::string::is_ascii_spec_bytes;

    let s = default_channel_text(ch);
    match ch {
        Channel::ChannelA => {
            reveal_strlit("dfdf7f5bffd7ebffcfffff9ff3faffbcf7ffffff");
        },
        Channel::ChannelB => {
            reveal_strlit("755dff77dfff75dfffdfff7f7f5fb7f3ffffffff");
        },
    }
    assert(vstd::string::is_ascii(s));
    assert(s.spec_bytes() =~= default_text_bytes(ch));
}

/// Number of set bits of a value below 16.
spec fn nibble_ones(v: u8) -> nat {
    (v % 2 + (v / 2) % 2 + (v / 4) % 2 + (v / 8) % 2) as nat
}

/// Number of set bits of the first `n` hexadecimal digits.
spec fn digit_ones(b: Seq<u8>, n: int) -> nat
    decreases n,
{
    if n <= 0 {
        0
    } else {
        digit_ones(b, n - 1) + nibble_ones(hex_value(b[n - 1]))
    }
}

proof fn lemma_nibble_bits_arith(v: u8)
    by (bit_vector)
    requires
        v < 16u8,
    ensures
        (v & (8u8 >> 0u8) != 0u8) == ((v / 8u8) % 2u8 == 1u8),
        (v & (8u8 >> 1u8) != 0u8) == ((v / 4u8) % 2u8 == 1u8),
        (v & (8u8 >> 2u8) != 0u8) == ((v / 2u8) % 2u8 == 1u8),
        (v & (8u8 >> 3u8) != 0u8) == (v % 2u8 == 1u8),
{
}

proof fn lemma_hex_bits_count(b: Seq<u8>, n: int)
    requires
        0 <= n <= b.len(),
        all_hex(b),
    ensures
        count_ones(hex_bits(b, 4 * b.len()).take(4 * n)) == digit_ones(b, n),
    decreases n,
{
    let h = hex_bits(b, 4 * b.len());
    if n > 0 {
        lemma_hex_bits_count(b, n - 1);
        let v = hex_value(b[n - 1]);
        assert(v < 16);
        lemma_nibble_bits_arith(v);
        let k = 4 * (n - 1);
        lemma_count_ones_take(h, k);
        lemma_count_ones_take(h, k + 1);
        lemma_count_ones_take(h, k + 2);
        lemma_count_ones_take(h, k + 3);
        assert(h[k] == ((v / 8) % 2 == 1));
        assert(h[k + 1] == ((v / 4) % 2 == 1));
        assert(h[k + 2] == ((v / 2) % 2 == 1));
        assert(h[k + 3] == (v % 2 == 1));
    } else {
        assert(h.take(0) =~= Seq::<bool>::empty());
    }
}

proof fn lemma_digit_ones_a()
    ensures
        digit_ones(default_text_bytes(Channel::ChannelA), 39) == 134,
        digit_ones(default_text_bytes(Channel::ChannelA), 40) == 138,
{
    let b = default_text_bytes(Channel::ChannelA);
    assert(digit_ones(b, 0) == 0);
    assert(hex_value(b[0]) == 13);
    assert(digit_ones(b, 1) == 3);
    assert(hex_value(b[1]) == 15);
    assert(digit_ones(b, 2) == 7);
    assert(hex_value(b[2]) == 13);
    assert(digit_ones(b, 3) == 10);
    assert(hex_value(b[3]) == 15);
    assert(digit_ones(b, 4) == 14);
    assert(hex_value(b[4]) == 7);
    assert(digit_ones(b, 5) == 17);
    assert(hex_value(b[5]) == 15);
    assert(digit_ones(b, 6) == 21);
    assert(hex_value(b[6]) == 5);
    assert(digit_ones(b, 7) == 23);
    assert(hex_value(b[7]) == 11);
    assert(digit_ones(b, 8) == 26);
    assert(hex_value(b[8]) == 15);
    assert(digit_ones(b, 9) == 30);
    assert(hex_value(b[9]) == 15);
    assert(digit_ones(b, 10) == 34);
    assert(hex_value(b[10]) == 13);
    assert(digit_ones(b, 11) == 37);
    assert(hex_value(b[11]) == 7);
    assert(digit_ones(b, 12) == 40);
    assert(hex_value(b[12]) == 14);
    assert(digit_ones(b, 13) == 43);
    assert(hex_value(b[13]) == 11);
    assert(digit_ones(b, 14) == 46);
    assert(hex_value(b[14]) == 15);
    assert(digit_ones(b, 15) == 50);
    assert(hex_value(b[15]) == 15);
    assert(digit_ones(b, 16) == 54);
    assert(hex_value(b[16]) == 12);
    assert(digit_ones(b, 17) == 56);
    assert(hex_value(b[17]) == 15);
    assert(digit_ones(b, 18) == 60);
    assert(hex_value(b[18]) == 15);
    assert(digit_ones(b, 19) == 64);
    assert(hex_value(b[19]) == 15);
    assert(digit_ones(b, 20) == 68);
    assert(hex_value(b[20]) == 15);
    assert(digit_ones(b, 21) == 72);
    assert(hex_value(b[21]) == 15);
    assert(digit_ones(b, 22) == 76);
    assert(hex_value(b[22]) == 9);
    assert(digit_ones(b, 23) == 78);
    assert(hex_value(b[23]) == 15);
    assert(digit_ones(b, 24) == 82);
    assert(hex_value(b[24]) == 15);
    assert(digit_ones(b, 25) == 86);
    assert(hex_value(b[25]) == 3);
    assert(digit_ones(b, 26) == 88);
    assert(hex_value(b[26]) == 15);
    assert(digit_ones(b, 27) == 92);
    assert(hex_value(b[27]) == 10);
    assert(digit_ones(b, 28) == 94);
    assert(hex_value(b[28]) == 15);
    assert(digit_ones(b, 29) == 98);
    assert(hex_value(b[29]) == 15);
    assert(digit_ones(b, 30) == 102);
    assert(hex_value(b[30]) == 11);
    assert(digit_ones(b, 31) == 105);
    assert(hex_value(b[31]) == 12);
    assert(digit_ones(b, 32) == 107);
    assert(hex_value(b[32]) == 15);
    assert(digit_ones(b, 33) == 111);
    assert(hex_value(b[33]) == 7);
    assert(digit_ones(b, 34) == 114);
    assert(hex_value(b[34]) == 15);
    assert(digit_ones(b, 35) == 118);
    assert(hex_value(b[35]) == 15);
    assert(digit_ones(b, 36) == 122);
    assert(hex_value(b[36]) == 15);
    assert(digit_ones(b, 37) == 126);
    assert(hex_value(b[37]) == 15);
    assert(digit_ones(b, 38) == 130);
    assert(hex_value(b[38]) == 15);
    assert(digit_ones(b, 39) == 134);
    assert(hex_value(b[39]) == 15);
    assert(digit_ones(b, 40) == 138);
}

proof fn lemma_digit_ones_b()
    ensures
        digit_ones(default_text_bytes(Channel::ChannelB), 39) == 134,
        digit_ones(default_text_bytes(Channel::ChannelB), 40) == 138,
{
    let b = default_text_bytes(Channel::ChannelB);
    assert(digit_ones(b, 0) == 0);
    assert(hex_value(b[0]) == 7);
    assert(digit_ones(b, 1) == 3);
    assert(hex_value(b[1]) == 5);
    assert(digit_ones(b, 2) == 5);
    assert(hex_value(b[2]) == 5);
    assert(digit_ones(b, 3) == 7);
    assert(hex_value(b[3]) == 13);
    assert(digit_ones(b, 4) == 10);
    assert(hex_value(b[4]) == 15);
    assert(digit_ones(b, 5) == 14);
    assert(hex_value(b[5]) == 15);
    assert(digit_ones(b, 6) == 18);
    assert(hex_value(b[6]) == 7);
    assert(digit_ones(b, 7) == 21);
    assert(hex_value(b[7]) == 7);
    assert(digit_ones(b, 8) == 24);
    assert(hex_value(b[8]) == 13);
    assert(digit_ones(b, 9) == 27);
    assert(hex_value(b[9]) == 15);
    assert(digit_ones(b, 10) == 31);
    assert(hex_value(b[10]) == 15);
    assert(digit_ones(b, 11) == 35);
    assert(hex_value(b[11]) == 15);
    assert(digit_ones(b, 12) == 39);
    assert(hex_value(b[12]) == 7);
    assert(digit_ones(b, 13) == 42);
    assert(hex_value(b[13]) == 5);
    assert(digit_ones(b, 14) == 44);
    assert(hex_value(b[14]) == 13);
    assert(digit_ones(b, 15) == 47);
    assert(hex_value(b[15]) == 15);
    assert(digit_ones(b, 16) == 51);
    assert(hex_value(b[16]) == 15);
    assert(digit_ones(b, 17) == 55);
    assert(hex_value(b[17]) == 15);
    assert(digit_ones(b, 18) == 59);
    assert(hex_value(b[18]) == 13);
    assert(digit_ones(b, 19) == 62);
    assert(hex_value(b[19]) == 15);
    assert(digit_ones(b, 20) == 66);
    assert(hex_value(b[20]) == 15);
    assert(digit_ones(b, 21) == 70);
    assert(hex_value(b[21]) == 15);
    assert(digit_ones(b, 22) == 74);
    assert(hex_value(b[22]) == 7);
    assert(digit_ones(b, 23) == 77);
    assert(hex_value(b[23]) == 15);
    assert(digit_ones(b, 24) == 81);
    assert(hex_value(b[24]) == 7);
    assert(digit_ones(b, 25) == 84);
    assert(hex_value(b[25]) == 15);
    assert(digit_ones(b, 26) == 88);
    assert(hex_value(b[26]) == 5);
    assert(digit_ones(b, 27) == 90);
    assert(hex_value(b[27]) == 15);
    assert(digit_ones(b, 28) == 94);
    assert(hex_value(b[28]) == 11);
    assert(digit_ones(b, 29) == 97);
    assert(hex_value(b[29]) == 7);
    assert(digit_ones(b, 30) == 100);
    assert(hex_value(b[30]) == 15);
    assert(digit_ones(b, 31) == 104);
    assert(hex_value(b[31]) == 3);
    assert(digit_ones(b, 32) == 106);
    assert(hex_value(b[32]) == 15);
    assert(digit_ones(b, 33) == 110);
    assert(hex_value(b[33]) == 15);
    assert(digit_ones(b, 34) == 114);
    assert(hex_value(b[34]) == 15);
    assert(digit_ones(b, 35) == 118);
    assert(hex_value(b[35]) == 15);
    assert(digit_ones(b, 36) == 122);
    assert(hex_value(b[36]) == 15);
    assert(digit_ones(b, 37) == 126);
    assert(hex_value(b[37]) == 15);
    assert(digit_ones(b, 38) == 130);
    assert(hex_value(b[38]) == 15);
    assert(digit_ones(b, 39) == 134);
    assert(hex_value(b[39]) == 15);
    assert(digit_ones(b, 40) == 138);
}

/// Each factory bootloop has 138 good loops, all but the last three of them among its first
/// 157 loops.
pub proof fn lemma_default_good_loops(ch: Channel)
    ensures
        default_channel_bits(ch).len() == 160,
        count_ones(default_channel_bits(ch)) == 138,
        count_ones(default_channel_bits(ch).take(157)) == 135,
{
    lemma_default_text_bytes(ch);
    lemma_default_text_ok(ch);
    let b = default_text_bytes(ch);
    let h = hex_bits(b, 160);
    lemma_hex_bits_count(b, 39);
    lemma_hex_bits_count(b, 40);
    match ch {
        Channel::ChannelA => lemma_digit_ones_a(),
        Channel::ChannelB => lemma_digit_ones_b(),
    }
    assert(b[39] == 102u8);
    lemma_nibble_bits_arith(15u8);
    lemma_count_ones_take(h, 156);
    assert(h[156]);
    assert(h.take(160) =~= h);
}

} // verus!
