//! The Fire code that protects the pages: a 14-bit check code over 256 payload bits, with
//! error-trapping correction of a burst of errors.

use vstd::prelude::*;
use crate::channel::{ChannelMemory, bits_per_ch_spec};

verus! {

/// Outcome of loading a page into the Fire code.
#[derive(Clone, Copy, Debug, PartialEq, Eq, Structural)]
pub enum FireResult {
    Valid,
    OkNoECC,
    LoadError,
    Correctable,
    Uncorrectable,
}

/// The payload of a page and its check code.
pub struct PayloadNCode {
    pub payload: Vec<bool>,
    pub code: u16,
}

/// One step of the encoder: the register after shifting in `bit` (polynomial division by the
/// Fire code's generator, 14-bit register).
pub open spec fn fire_enc(acc: u16, bit: bool) -> u16 {
    (if bit != ((acc & 0x2000u16) != 0u16) {
        (acc << 1u16) ^ 0xa25u16
    } else {
        acc << 1u16
    }) & 0x3fffu16
}

/// One step of the syndrome computation: the register after shifting in `bit`.
pub open spec fn fire_syn(acc: u16, bit: bool) -> u16 {
    fire_enc(acc, false) ^ if bit {
        1u16
    } else {
        0u16
    }
}

/// The syndrome register after shifting in `bits`, from `acc`.
pub open spec fn syn_from(acc: u16, bits: Seq<bool>) -> u16
    decreases bits.len(),
{
    if bits.len() == 0 {
        acc
    } else {
        fire_syn(syn_from(acc, bits.drop_last()), bits.last())
    }
}

/// The encoder register after shifting in `bits`, from `acc`.
pub open spec fn enc_from(acc: u16, bits: Seq<bool>) -> u16
    decreases bits.len(),
{
    if bits.len() == 0 {
        acc
    } else {
        fire_enc(enc_from(acc, bits.drop_last()), bits.last())
    }
}

/// The 14 bits of a check code, most significant first.
pub open spec fn code_bits(code: u16) -> Seq<bool> {
    Seq::new(14, |k: int| code & (0x2000u16 >> (k as u16)) != 0u16)
}

/// The number written by `s`, most significant bit first (on 16 bits).
pub open spec fn bits_value(s: Seq<bool>) -> u16
    decreases s.len(),
{
    if s.len() == 0 {
        0
    } else {
        (bits_value(s.drop_last()) << 1u16) | if s.last() {
            1u16
        } else {
            0u16
        }
    }
}

/// The first `n` bits of `s`, or all of them when there are fewer.
pub open spec fn prefix(s: Seq<bool>, n: int) -> Seq<bool> {
    if s.len() <= n {
        s
    } else {
        s.take(n)
    }
}

/// The check-code bits of a page: bits 256 to 269, as far as there are any.
pub open spec fn code_tail(s: Seq<bool>) -> Seq<bool> {
    if s.len() <= 256 {
        Seq::empty()
    } else {
        prefix(s.skip(256), 14)
    }
}

/// Bits 256 to `j` of a page longer than 256 bits; none for a shorter page.
pub open spec fn tail_upto(s: Seq<bool>, j: int) -> Seq<bool> {
    if s.len() <= 256 {
        Seq::empty()
    } else {
        s.subrange(256, j)
    }
}

/// `a` with the bits set in `e` flipped.
pub open spec fn xor_bits(a: Seq<bool>, e: Seq<bool>) -> Seq<bool> {
    Seq::new(a.len(), |i: int| a[i] != e[i])
}

/// The phases of the error-trapping correction.
#[derive(Clone, Copy, PartialEq, Eq, Structural)]
pub enum CorrectState {
    WaitTrap,
    WaitToStart,
    Correcting,
    Done,
}

/// State of the error-trapping correction: phase, syndrome register, countdown.
pub struct TrapState {
    pub st: CorrectState,
    pub acc: u16,
    pub cnt: int,
}

/// First phase: up to 14 shifts of the syndrome looking for a trapped burst (low 9 bits clear)
/// among the check bits.
pub open spec fn trap_search(acc: u16, i: int) -> TrapState
    decreases 14 - i,
{
    if i >= 14 {
        TrapState { st: CorrectState::WaitTrap, acc, cnt: 0 }
    } else if acc & 0x1ffu16 == 0 {
        TrapState { st: CorrectState::WaitToStart, acc, cnt: i + 257 }
    } else {
        trap_search(fire_syn(acc, false), i + 1)
    }
}

/// Looking for the trapped burst: shift once more unless it is trapped.
pub open spec fn trap_check(t: TrapState) -> TrapState {
    if t.acc & 0x1ffu16 == 0 {
        TrapState { st: CorrectState::Correcting, ..t }
    } else {
        TrapState { acc: fire_syn(t.acc, false), ..t }
    }
}

/// Shifting out the trapped burst.
pub open spec fn burst_shift(t: TrapState) -> TrapState {
    let a = (t.acc << 1u16) & 0x3fffu16;
    TrapState { st: if a == 0 { CorrectState::Done } else { CorrectState::Correcting }, acc: a, ..t }
}

/// Second phase step, over the 9 bits cut from the code.
pub open spec fn chop_step(t: TrapState) -> TrapState {
    let t1 = if t.st == CorrectState::WaitTrap {
        trap_check(t)
    } else {
        t
    };
    if t1.st == CorrectState::Correcting {
        burst_shift(t1)
    } else {
        t1
    }
}

/// `k` steps of the second phase.
pub open spec fn chop_run(t: TrapState, k: nat) -> TrapState
    decreases k,
{
    if k == 0 {
        t
    } else {
        chop_run(chop_step(t), (k - 1) as nat)
    }
}

/// Third phase step at page bit `i`: the next state and whether bit `i` is flipped.
pub open spec fn corr_step(t: TrapState, i: int) -> (TrapState, bool) {
    let t1 = if t.st == CorrectState::WaitTrap && i < 256 {
        trap_check(t)
    } else {
        t
    };
    let t2 = if t1.st == CorrectState::WaitToStart {
        TrapState {
            st: if t1.cnt - 1 == 0 { CorrectState::Correcting } else { CorrectState::WaitToStart },
            cnt: t1.cnt - 1,
            ..t1
        }
    } else {
        t1
    };
    if t2.st == CorrectState::Correcting {
        (burst_shift(t2), t2.acc & 0x2000u16 != 0)
    } else {
        (t2, false)
    }
}

/// The third phase from page bit `i` to the end of the 270 bits: final state and the flips.
pub open spec fn corr_run(t: TrapState, i: int) -> (TrapState, Seq<bool>)
    decreases 270 - i,
{
    if i >= 270 {
        (t, Seq::empty())
    } else {
        let (t2, e) = corr_step(t, i);
        let (tf, es) = corr_run(t2, i + 1);
        (tf, seq![e] + es)
    }
}

/// Error-trapping correction from syndrome `acc`: the outcome, the final register and the
/// bits to flip.
pub open spec fn correct_spec(acc: u16) -> (FireResult, u16, Seq<bool>) {
    let t1 = trap_search(acc, 0);
    let t2 = chop_run(t1, 9);
    let (t3, errs) = corr_run(t2, 0);
    (if t3.st == CorrectState::WaitTrap {
        FireResult::Uncorrectable
    } else {
        FireResult::Correctable
    }, t3.acc, errs)
}

/// The model of a Fire code: the outcome of the last load, the page as loaded, the page as
/// corrected, and the syndrome register.
pub struct FireCodeView {
    pub state: FireResult,
    pub uncorr: Seq<bool>,
    pub corr: Seq<bool>,
    pub accum: u16,
}

/// Loading a page: its outcome and the model after it (the outcome is not recorded here).
/// A page of the wrong length changes nothing; without error correction the page is only kept;
/// with it, the syndrome is computed and, when it is not zero, the correction is worked out.
pub open spec fn load_spec(v: FireCodeView, ec: bool, code: Seq<bool>) -> (FireResult, FireCodeView) {
    if code.len() != bits_per_ch_spec(ec) {
        (FireResult::LoadError, v)
    } else if ec {
        let s = syn_from(0, code);
        if s == 0 {
            (FireResult::Valid, FireCodeView { uncorr: code, corr: code, accum: 0, ..v })
        } else {
            let (r, a, errs) = correct_spec(s);
            (r, FireCodeView { uncorr: code, corr: xor_bits(code, errs), accum: a, ..v })
        }
    } else {
        (FireResult::OkNoECC, FireCodeView { uncorr: code, ..v })
    }
}

/// Loading a page and recording the outcome.
pub open spec fn loaded(v: FireCodeView, ec: bool, code: Seq<bool>) -> FireCodeView {
    let (r, v2) = load_spec(v, ec, code);
    FireCodeView { state: r, ..v2 }
}

/// The state holds a page with its check code.
pub open spec fn has_code(st: FireResult) -> bool {
    st == FireResult::Valid || st == FireResult::Correctable || st == FireResult::Uncorrectable
}

/// The payload of the loaded page: 256 bits with a check code, 272 without, none otherwise.
pub open spec fn payload_of(v: FireCodeView) -> Seq<bool> {
    if has_code(v.state) {
        prefix(v.uncorr, 256)
    } else if v.state == FireResult::OkNoECC {
        prefix(v.uncorr, 272)
    } else {
        Seq::empty()
    }
}

/// The check code of the loaded page (0 when it has none).
pub open spec fn code_of(v: FireCodeView) -> u16 {
    if has_code(v.state) {
        bits_value(code_tail(v.uncorr))
    } else {
        0
    }
}

/// Setting the payload: the new payload with the page's check bits (with error correction),
/// or alone (without); a payload of the wrong length only records a load error.
pub open spec fn set_payload_spec(v: FireCodeView, ec: bool, p: Seq<bool>) -> FireCodeView {
    if p.len() != (if ec { 256int } else { 272int }) {
        FireCodeView { state: FireResult::LoadError, ..v }
    } else if ec {
        loaded(v, true, p + code_tail(v.uncorr))
    } else {
        loaded(v, false, p)
    }
}

/// Setting the check code: the page's payload with the new code, when the page has one.
pub open spec fn set_fire_spec(v: FireCodeView, code: u16) -> FireCodeView {
    if has_code(v.state) {
        loaded(v, true, prefix(v.uncorr, 256) + code_bits(code))
    } else {
        v
    }
}

/// Recomputing the check code of the page's payload, when the page has one.
pub open spec fn regen_spec(v: FireCodeView) -> FireCodeView {
    if has_code(v.state) {
        set_fire_spec(v, enc_from(0, prefix(v.uncorr, 256)))
    } else {
        v
    }
}

/// Applying the correction of a correctable page.
pub open spec fn apply_spec(v: FireCodeView) -> FireCodeView {
    if v.state == FireResult::Correctable {
        FireCodeView { state: FireResult::Valid, uncorr: v.corr, ..v }
    } else {
        v
    }
}

/// The Fire code of one channel.
pub struct FireCode {
    state: FireResult,
    uncorr_code: Vec<bool>,
    corr_code: Vec<bool>,
    accum: u16,
}

impl View for FireCode {
    type V = FireCodeView;

    closed spec fn view(&self) -> FireCodeView {
        FireCodeView {
            state: self.state,
            uncorr: self.uncorr_code@,
            corr: self.corr_code@,
            accum: self.accum,
        }
    }
}

/// A Fire code holds a page of the length its state says: 270 bits, as loaded and as
/// corrected, when the page has a check code; 272 bits when it was loaded without error
/// correction.
pub open spec fn fire_wf(v: FireCodeView) -> bool {
    &&& has_code(v.state) ==> v.uncorr.len() == 270 && v.corr.len() == 270
    &&& v.state == FireResult::OkNoECC ==> v.uncorr.len() == 272
}

impl Clone for FireCode {
    fn clone(&self) -> (r: FireCode)
        ensures
            r@ == self@,
    {
        proof {
            use_type_invariant(self);
        }
        FireCode {
            state: self.state,
            uncorr_code: copy_bits(self.uncorr_code.as_slice()),
            corr_code: copy_bits(self.corr_code.as_slice()),
            accum: self.accum,
        }
    }
}

impl FireCode {
    #[verifier::type_invariant]
    spec fn page_fits_state(self) -> bool {
        fire_wf(self@)
    }

    /// The Fire code holds a page of the length its state says.
    pub fn check_wf(&self) -> (r: bool)
        ensures
            r,
            fire_wf(self@),
    {
        proof {
            use_type_invariant(self);
        }
        true
    }
}

fn copy_bits(s: &[bool]) -> (r: Vec<bool>)
    ensures
        r@ == s@,
{
    let mut r: Vec<bool> = Vec::new();
    let mut i: usize = 0;
    while i < s.len()
        invariant
            i <= s.len(),
            r@ == s@.take(i as int),
        decreases s.len() - i,
    {
        r.push(s[i]);
        i += 1;
        assert(r@ =~= s@.take(i as int));
    }
    assert(s@.take(s@.len() as int) =~= s@);
    r
}

fn copy_prefix(s: &[bool], n: usize) -> (r: Vec<bool>)
    ensures
        r@ == prefix(s@, n as int),
{
    let mut r: Vec<bool> = Vec::new();
    let mut i: usize = 0;
    while i < s.len() && i < n
        invariant
            i <= s@.len(),
            i <= n,
            r@ == s@.take(i as int),
        decreases s@.len() - i,
    {
        r.push(s[i]);
        i += 1;
        assert(r@ =~= s@.take(i as int));
    }
    assert(s@.take(s@.len() as int) =~= s@);
    r
}

fn encode_bits(s: &[bool]) -> (r: u16)
    ensures
        r == enc_from(0, s@),
{
    let mut acc: u16 = 0;
    let mut i: usize = 0;
    while i < s.len()
        invariant
            i <= s@.len(),
            acc == enc_from(0, s@.take(i as int)),
        decreases s@.len() - i,
    {
        assert(s@.take(i + 1).drop_last() =~= s@.take(i as int));
        acc = FireCode::fire_code_enc(acc, s[i]);
        i += 1;
    }
    assert(s@.take(s@.len() as int) =~= s@);
    acc
}

fn tail_value(s: &[bool]) -> (r: u16)
    ensures
        r == bits_value(code_tail(s@)),
{
    let n = s.len();
    let mut acc: u16 = 0;
    let mut j: usize = 256;
    while j < 270 && j < n
        invariant
            256 <= j <= 270,
            n == s@.len(),
            n > 256 ==> j <= n,
            n <= 256 ==> j == 256,
            acc == bits_value(tail_upto(s@, j as int)),
        decreases 270 - j,
    {
        assert(tail_upto(s@, j + 1).drop_last() =~= tail_upto(s@, j as int));
        acc = (acc << 1) | if s[j] {
            1u16
        } else {
            0u16
        };
        j += 1;
    }
    assert(tail_upto(s@, j as int) =~= code_tail(s@));
    acc
}

impl FireCode {
    /// A Fire code with nothing loaded.
    pub fn new() -> (r: FireCode)
        ensures
            r@ == (FireCodeView {
                state: FireResult::LoadError,
                uncorr: Seq::empty(),
                corr: Seq::empty(),
                accum: 0,
            }),
    {
        FireCode { state: FireResult::LoadError, uncorr_code: Vec::new(), corr_code: Vec::new(), accum: 0 }
    }

    /// One step of the encoder.
    pub fn fire_code_enc(acc: u16, bit: bool) -> (r: u16)
        ensures
            r == fire_enc(acc, bit),
    {
        let mut accum = acc;
        if bit ^ ((accum & 0x2000) != 0) {
            accum = (accum << 1) ^ 0xa25;
        } else {
            accum <<= 1;
        }
        accum & 0x3fff
    }

    fn fire_code_syn(&mut self, bit: bool)
        ensures
            final(self)@ == (FireCodeView { accum: fire_syn(old(self)@.accum, bit), ..old(self)@ }),
    {
        proof {
            use_type_invariant(&*self);
        }
        self.accum = Self::fire_code_enc(self.accum, false);
        self.accum = self.accum ^ if bit {
            1u16
        } else {
            0u16
        };
    }

    fn int_load(&mut self, ec: bool, in_code: &[bool]) -> (r: FireResult)
        ensures
            r == load_spec(old(self)@, ec, in_code@).0,
            final(self)@ == (FireCodeView {
                state: FireResult::LoadError,
                ..load_spec(old(self)@, ec, in_code@).1
            }),
            r != FireResult::LoadError ==> fire_wf(FireCodeView { state: r, ..final(self)@ }),
    {
        let exp_len = ChannelMemory::bits_per_ch(ec);
        self.state = FireResult::LoadError;
        if in_code.len() != exp_len {
            FireResult::LoadError
        } else if ec {
            self.uncorr_code = copy_bits(in_code);
            self.accum = 0;
            self.corr_code = copy_bits(in_code);
            let mut i: usize = 0;
            while i < in_code.len()
                invariant
                    i <= in_code@.len(),
                    in_code@.len() == 270,
                    self.state == FireResult::LoadError,
                    self.uncorr_code@ == in_code@,
                    self.corr_code@ == in_code@,
                    self.accum == syn_from(0, in_code@.take(i as int)),
                decreases in_code@.len() - i,
            {
                assert(in_code@.take(i + 1).drop_last() =~= in_code@.take(i as int));
                self.fire_code_syn(in_code[i]);
                i += 1;
            }
            assert(in_code@.take(270) =~= in_code@);
            if self.accum == 0 {
                FireResult::Valid
            } else {
                self.correct()
            }
        } else {
            self.uncorr_code = copy_bits(in_code);
            FireResult::OkNoECC
        }
    }

    fn correct(&mut self) -> (r: FireResult)
        requires
            old(self)@.corr.len() == 270,
            old(self)@.state == FireResult::LoadError,
        ensures
            r == correct_spec(old(self)@.accum).0,
            final(self)@ == (FireCodeView {
                accum: correct_spec(old(self)@.accum).1,
                corr: xor_bits(old(self)@.corr, correct_spec(old(self)@.accum).2),
                ..old(self)@
            }),
    {
        let ghost acc0 = self.accum;
        let mut state = CorrectState::WaitTrap;
        let mut cnt: usize = 0;
        let mut i: usize = 0;
        while i < 14
            invariant_except_break
                i <= 14,
                state == CorrectState::WaitTrap,
                cnt == 0,
                trap_search(acc0, 0) == trap_search(self.accum, i as int),
            invariant
                self.state == old(self).state,
                self.state == FireResult::LoadError,
                self.uncorr_code@ == old(self).uncorr_code@,
                self.corr_code@ == old(self).corr_code@,
            ensures
                trap_search(acc0, 0) == (TrapState { st: state, acc: self.accum, cnt: cnt as int }),
                state == CorrectState::WaitToStart ==> 257 <= cnt <= 270,
            decreases 14 - i,
        {
            if (self.accum & 0x1ff) == 0 {
                cnt = i + 257;
                state = CorrectState::WaitToStart;
                break;
            } else {
                self.fire_code_syn(false);
            }
            i += 1;
        }
        let ghost t1 = TrapState { st: state, acc: self.accum, cnt: cnt as int };
        let mut k: usize = 0;
        while k < 9
            invariant
                k <= 9,
                self.state == old(self).state,
                self.state == FireResult::LoadError,
                self.uncorr_code@ == old(self).uncorr_code@,
                self.corr_code@ == old(self).corr_code@,
                state == CorrectState::WaitToStart ==> 257 <= cnt <= 270,
                chop_run(t1, 9) == chop_run(
                    TrapState { st: state, acc: self.accum, cnt: cnt as int },
                    (9 - k) as nat,
                ),
            decreases 9 - k,
        {
            if state == CorrectState::WaitTrap {
                if (self.accum & 0x1ff) == 0 {
                    state = CorrectState::Correcting;
                } else {
                    self.fire_code_syn(false);
                }
            }
            if state == CorrectState::Correcting {
                self.accum = (self.accum << 1) & 0x3fff;
                if self.accum == 0 {
                    state = CorrectState::Done;
                }
            }
            k += 1;
        }
        let ghost t2 = TrapState { st: state, acc: self.accum, cnt: cnt as int };
        let ghost mut errs: Seq<bool> = Seq::empty();
        let mut corr = copy_bits(self.corr_code.as_slice());
        let mut i: usize = 0;
        while i < 270
            invariant
                i <= 270,
                self.state == old(self).state,
                self.state == FireResult::LoadError,
                self.uncorr_code@ == old(self).uncorr_code@,
                self.corr_code@ == old(self).corr_code@,
                old(self).corr_code@.len() == 270,
                state == CorrectState::WaitToStart ==> 1 <= cnt <= 270,
                errs.len() == i,
                corr@ == Seq::new(
                    270,
                    |j: int|
                        if j < i {
                            old(self).corr_code@[j] != errs[j]
                        } else {
                            old(self).corr_code@[j]
                        },
                ),
                corr_run(t2, 0) == ({
                    let (tf, es) = corr_run(
                        TrapState { st: state, acc: self.accum, cnt: cnt as int },
                        i as int,
                    );
                    (tf, errs + es)
                }),
            decreases 270 - i,
        {
            let ghost cur = TrapState { st: state, acc: self.accum, cnt: cnt as int };
            if state == CorrectState::WaitTrap {
                if i < 256 {
                    if (self.accum & 0x1ff) == 0 {
                        state = CorrectState::Correcting;
                    } else {
                        self.fire_code_syn(false);
                    }
                }
            }
            if state == CorrectState::WaitToStart {
                cnt -= 1;
                if cnt == 0 {
                    state = CorrectState::Correcting;
                }
            }
            let mut err = false;
            if state == CorrectState::Correcting {
                err = (self.accum & 0x2000) != 0;
                self.accum = (self.accum << 1) & 0x3fff;
                if self.accum == 0 {
                    state = CorrectState::Done;
                }
            }
            proof {
                let (t_next, e) = corr_step(cur, i as int);
                assert(t_next == (TrapState { st: state, acc: self.accum, cnt: cnt as int }));
                assert(e == err);
                let (tf, es) = corr_run(t_next, i + 1);
                assert(errs + (seq![e] + es) =~= errs.push(e) + es);
            }
            let b = corr[i] ^ err;
            corr.set(i, b);
            proof {
                errs = errs.push(err);
            }
            i += 1;
            assert(corr@ =~= Seq::new(
                270,
                |j: int|
                    if j < i {
                        old(self).corr_code@[j] != errs[j]
                    } else {
                        old(self).corr_code@[j]
                    },
            ));
        }
        assert(corr@ =~= xor_bits(old(self)@.corr, errs));
        self.corr_code = corr;
        if state == CorrectState::WaitTrap {
            FireResult::Uncorrectable
        } else {
            FireResult::Correctable
        }
    }

    /// Loads a page: keeps it, and with error correction works out its syndrome and, when
    /// needed, its correction.
    pub fn set_page(&mut self, ec: bool, page: &[bool]) -> (r: FireResult)
        ensures
            r == load_spec(old(self)@, ec, page@).0,
            final(self)@ == loaded(old(self)@, ec, page@),
    {
        self.state = self.int_load(ec, page);
        self.state
    }

    /// The page as loaded.
    pub fn get_page(&self) -> (r: &[bool])
        ensures
            r@ == self@.uncorr,
            fire_wf(self@),
    {
        proof {
            use_type_invariant(self);
        }
        self.uncorr_code.as_slice()
    }

    /// The payload and check code of the page.
    pub fn get_payload_n_code(&self) -> (r: PayloadNCode)
        ensures
            r.payload@ == payload_of(self@),
            r.code == code_of(self@),
            fire_wf(self@),
            has_code(self@.state) ==> r.payload@ == self@.uncorr.take(256) && r.code == bits_value(
                self@.uncorr.subrange(256, 270),
            ),
            self@.state == FireResult::OkNoECC ==> r.payload@ == self@.uncorr,
    {
        proof {
            use_type_invariant(self);
            if has_code(self@.state) {
                assert(self@.uncorr.skip(256).take(14) =~= self@.uncorr.subrange(256, 270));
            }
            if self@.state == FireResult::OkNoECC {
                assert(self@.uncorr.take(272) =~= self@.uncorr);
            }
        }
        match self.state {
            FireResult::Valid | FireResult::Correctable | FireResult::Uncorrectable => {
                let payload = copy_prefix(self.uncorr_code.as_slice(), 256);
                let code = tail_value(self.uncorr_code.as_slice());
                PayloadNCode { payload, code }
            },
            FireResult::OkNoECC => {
                let payload = copy_prefix(self.uncorr_code.as_slice(), 272);
                PayloadNCode { payload, code: 0 }
            },
            _ => PayloadNCode { payload: Vec::new(), code: 0 },
        }
    }

    /// Replaces the page with its correction, when it is correctable; returns the outcome.
    pub fn apply_correction(&mut self) -> (r: FireResult)
        ensures
            final(self)@ == apply_spec(old(self)@),
            r == final(self)@.state,
    {
        proof {
            use_type_invariant(&*self);
        }
        if let FireResult::Correctable = self.state {
            self.uncorr_code = copy_bits(self.corr_code.as_slice());
            self.state = FireResult::Valid;
        }
        self.state
    }

    /// Loads a new payload, with the page's check bits when error correction is on.
    pub fn set_payload(&mut self, ec: bool, payload: &[bool]) -> (r: FireResult)
        ensures
            final(self)@ == set_payload_spec(old(self)@, ec, payload@),
            r == final(self)@.state,
    {
        let exp_len: usize = if ec {
            256
        } else {
            272
        };
        if payload.len() != exp_len {
            self.state = FireResult::LoadError;
        } else if ec {
            let mut in_code = copy_bits(payload);
            let n = self.uncorr_code.len();
            let mut j: usize = 256;
            while j < 270 && j < n
                invariant
                    256 <= j <= 270,
                    n == self.uncorr_code@.len(),
                    n > 256 ==> j <= n,
                    n <= 256 ==> j == 256,
                    in_code@ == payload@ + tail_upto(self.uncorr_code@, j as int),
                decreases 270 - j,
            {
                in_code.push(self.uncorr_code[j]);
                j += 1;
                assert(in_code@ =~= payload@ + tail_upto(self.uncorr_code@, j as int));
            }
            assert(tail_upto(self.uncorr_code@, j as int) =~= code_tail(self.uncorr_code@));
            self.state = self.int_load(ec, in_code.as_slice());
        } else {
            self.state = self.int_load(ec, payload);
        }
        self.state
    }

    /// Loads the page's payload with a new check code, when the page has one.
    pub fn set_fire(&mut self, code: u16) -> (r: FireResult)
        ensures
            final(self)@ == set_fire_spec(old(self)@, code),
            r == final(self)@.state,
    {
        match self.state {
            FireResult::Correctable | FireResult::Valid | FireResult::Uncorrectable => {
                let mut in_code = copy_prefix(self.uncorr_code.as_slice(), 256);
                let ghost start = in_code@;
                let mut idx: u16 = 0;
                while idx < 14
                    invariant
                        idx <= 14,
                        in_code@ == start + code_bits(code).take(idx as int),
                    decreases 14 - idx,
                {
                    let bit = (code & (0x2000u16 >> idx)) != 0;
                    in_code.push(bit);
                    idx += 1;
                    assert(in_code@ =~= start + code_bits(code).take(idx as int));
                }
                assert(code_bits(code).take(14) =~= code_bits(code));
                self.state = self.int_load(true, in_code.as_slice());
            },
            _ => {},
        }
        self.state
    }

    /// Recomputes the check code of the page's payload and loads the page with it, when the
    /// page has one.
    pub fn regen_code(&mut self) -> (r: FireResult)
        ensures
            final(self)@ == regen_spec(old(self)@),
            r == final(self)@.state,
    {
        match self.state {
            FireResult::Correctable | FireResult::Valid | FireResult::Uncorrectable => {
                let p = copy_prefix(self.uncorr_code.as_slice(), 256);
                let regen = encode_bits(p.as_slice());
                self.set_fire(regen);
            },
            _ => {},
        }
        self.state
    }

    /// Appends to a payload its 14-bit check code, most significant bit first.
    pub fn add_code_to_payload(payload: &mut Vec<bool>)
        ensures
            final(payload)@ == old(payload)@ + code_bits(enc_from(0, old(payload)@)),
    {
        let code = encode_bits(payload.as_slice());
        let ghost start = payload@;
        let mut idx: u16 = 0;
        while idx < 14
            invariant
                idx <= 14,
                code == enc_from(0, start),
                payload@ == start + code_bits(code).take(idx as int),
            decreases 14 - idx,
        {
            let bit = (code & (0x2000u16 >> idx)) != 0;
            payload.push(bit);
            idx += 1;
            assert(payload@ =~= start + code_bits(code).take(idx as int));
        }
        assert(code_bits(code).take(14) =~= code_bits(code));
    }

    /// Outcome of the last load.
    pub fn get_state(&self) -> (r: FireResult)
        ensures
            r == self@.state,
    {
        self.state
    }
}

} // verus!

verus! {

/// The register after `n` shifts of a clear bit into the encoder (multiplication by `x^n`
/// modulo the generator).
pub open spec fn mulx_n(a: u16, n: nat) -> u16
    decreases n,
{
    if n == 0 {
        a
    } else {
        fire_enc(mulx_n(a, (n - 1) as nat), false)
    }
}

proof fn lemma_step_commutes(
    s: u16,
    b: bool,
    t0: u16, t1: u16, t2: u16, t3: u16, t4: u16, t5: u16, t6: u16, t7: u16,
    t8: u16, t9: u16, t10: u16, t11: u16, t12: u16, t13: u16, t14: u16,
    u0: u16, u1: u16, u2: u16, u3: u16, u4: u16, u5: u16, u6: u16, u7: u16,
    u8: u16, u9: u16, u10: u16, u11: u16, u12: u16, u13: u16, u14: u16,
)
    by (bit_vector)
    requires
        s < 0x4000u16,
        t0 == s, t1 == fire_enc(t0, false), t2 == fire_enc(t1, false), t3 == fire_enc(t2, false),
        t4 == fire_enc(t3, false), t5 == fire_enc(t4, false), t6 == fire_enc(t5, false),
        t7 == fire_enc(t6, false), t8 == fire_enc(t7, false), t9 == fire_enc(t8, false),
        t10 == fire_enc(t9, false), t11 == fire_enc(t10, false), t12 == fire_enc(t11, false),
        t13 == fire_enc(t12, false), t14 == fire_enc(t13, false),
        u0 == fire_syn(s, b), u1 == fire_enc(u0, false), u2 == fire_enc(u1, false),
        u3 == fire_enc(u2, false), u4 == fire_enc(u3, false), u5 == fire_enc(u4, false),
        u6 == fire_enc(u5, false), u7 == fire_enc(u6, false), u8 == fire_enc(u7, false),
        u9 == fire_enc(u8, false), u10 == fire_enc(u9, false), u11 == fire_enc(u10, false),
        u12 == fire_enc(u11, false), u13 == fire_enc(u12, false), u14 == fire_enc(u13, false),
    ensures
        fire_enc(t14, b) == u14,
        fire_syn(s, b) < 0x4000u16,
{
}

proof fn lemma_shift_in_code(
    s: u16,
    e: u16,
    t0: u16, t1: u16, t2: u16, t3: u16, t4: u16, t5: u16, t6: u16, t7: u16,
    t8: u16, t9: u16, t10: u16, t11: u16, t12: u16, t13: u16, t14: u16,
    w0: u16, w1: u16, w2: u16, w3: u16, w4: u16, w5: u16, w6: u16, w7: u16,
    w8: u16, w9: u16, w10: u16, w11: u16, w12: u16, w13: u16, w14: u16,
)
    by (bit_vector)
    requires
        s < 0x4000u16,
        e < 0x4000u16,
        t0 == s, t1 == fire_enc(t0, false), t2 == fire_enc(t1, false), t3 == fire_enc(t2, false),
        t4 == fire_enc(t3, false), t5 == fire_enc(t4, false), t6 == fire_enc(t5, false),
        t7 == fire_enc(t6, false), t8 == fire_enc(t7, false), t9 == fire_enc(t8, false),
        t10 == fire_enc(t9, false), t11 == fire_enc(t10, false), t12 == fire_enc(t11, false),
        t13 == fire_enc(t12, false), t14 == fire_enc(t13, false),
        w0 == s,
        w1 == fire_syn(w0, e & 0x2000u16 != 0u16),
        w2 == fire_syn(w1, e & 0x1000u16 != 0u16),
        w3 == fire_syn(w2, e & 0x0800u16 != 0u16),
        w4 == fire_syn(w3, e & 0x0400u16 != 0u16),
        w5 == fire_syn(w4, e & 0x0200u16 != 0u16),
        w6 == fire_syn(w5, e & 0x0100u16 != 0u16),
        w7 == fire_syn(w6, e & 0x0080u16 != 0u16),
        w8 == fire_syn(w7, e & 0x0040u16 != 0u16),
        w9 == fire_syn(w8, e & 0x0020u16 != 0u16),
        w10 == fire_syn(w9, e & 0x0010u16 != 0u16),
        w11 == fire_syn(w10, e & 0x0008u16 != 0u16),
        w12 == fire_syn(w11, e & 0x0004u16 != 0u16),
        w13 == fire_syn(w12, e & 0x0002u16 != 0u16),
        w14 == fire_syn(w13, e & 0x0001u16 != 0u16),
    ensures
        w14 == t14 ^ e,
{
}

proof fn lemma_enc_small(a: u16, b: bool)
    by (bit_vector)
    ensures
        fire_enc(a, b) < 0x4000u16,
        fire_enc(0u16, false) == 0u16,
{
}

proof fn lemma_mulx14_unfold(a: u16)
    ensures
        mulx_n(a, 1) == fire_enc(a, false),
        mulx_n(a, 14) == fire_enc(fire_enc(fire_enc(fire_enc(fire_enc(fire_enc(fire_enc(fire_enc(
            fire_enc(fire_enc(fire_enc(fire_enc(fire_enc(fire_enc(a, false), false), false), false),
            false), false), false), false), false), false), false), false), false), false),
{
    reveal_with_fuel(mulx_n, 15);
}

proof fn lemma_step_commutes_mulx(s: u16, b: bool)
    requires
        s < 0x4000u16,
    ensures
        fire_enc(mulx_n(s, 14), b) == mulx_n(fire_syn(s, b), 14),
        fire_syn(s, b) < 0x4000u16,
{
    lemma_mulx14_unfold(s);
    lemma_mulx14_unfold(fire_syn(s, b));
    let t1 = fire_enc(s, false);
    let t2 = fire_enc(t1, false);
    let t3 = fire_enc(t2, false);
    let t4 = fire_enc(t3, false);
    let t5 = fire_enc(t4, false);
    let t6 = fire_enc(t5, false);
    let t7 = fire_enc(t6, false);
    let t8 = fire_enc(t7, false);
    let t9 = fire_enc(t8, false);
    let t10 = fire_enc(t9, false);
    let t11 = fire_enc(t10, false);
    let t12 = fire_enc(t11, false);
    let t13 = fire_enc(t12, false);
    let t14 = fire_enc(t13, false);
    let u0 = fire_syn(s, b);
    let u1 = fire_enc(u0, false);
    let u2 = fire_enc(u1, false);
    let u3 = fire_enc(u2, false);
    let u4 = fire_enc(u3, false);
    let u5 = fire_enc(u4, false);
    let u6 = fire_enc(u5, false);
    let u7 = fire_enc(u6, false);
    let u8 = fire_enc(u7, false);
    let u9 = fire_enc(u8, false);
    let u10 = fire_enc(u9, false);
    let u11 = fire_enc(u10, false);
    let u12 = fire_enc(u11, false);
    let u13 = fire_enc(u12, false);
    let u14 = fire_enc(u13, false);
    lemma_step_commutes(s, b, s, t1, t2, t3, t4, t5, t6, t7, t8, t9, t10, t11, t12, t13, t14,
        u0, u1, u2, u3, u4, u5, u6, u7, u8, u9, u10, u11, u12, u13, u14);
}

proof fn lemma_enc_is_mulx_syn(p: Seq<bool>)
    ensures
        syn_from(0, p) < 0x4000u16,
        enc_from(0, p) == mulx_n(syn_from(0, p), 14),
    decreases p.len(),
{
    if p.len() == 0 {
        lemma_enc_small(0, false);
        reveal_with_fuel(mulx_n, 15);
    } else {
        lemma_enc_is_mulx_syn(p.drop_last());
        lemma_step_commutes_mulx(syn_from(0, p.drop_last()), p.last());
    }
}

proof fn lemma_syn_concat(acc: u16, p: Seq<bool>, c: Seq<bool>)
    ensures
        syn_from(acc, p + c) == syn_from(syn_from(acc, p), c),
    decreases c.len(),
{
    if c.len() == 0 {
        assert(p + c =~= p);
    } else {
        lemma_syn_concat(acc, p, c.drop_last());
        assert((p + c).drop_last() =~= p + c.drop_last());
    }
}

proof fn lemma_code_masks()
    by (bit_vector)
    ensures
        0x2000u16 >> 0u16 == 0x2000u16,
        0x2000u16 >> 1u16 == 0x1000u16,
        0x2000u16 >> 2u16 == 0x0800u16,
        0x2000u16 >> 3u16 == 0x0400u16,
        0x2000u16 >> 4u16 == 0x0200u16,
        0x2000u16 >> 5u16 == 0x0100u16,
        0x2000u16 >> 6u16 == 0x0080u16,
        0x2000u16 >> 7u16 == 0x0040u16,
        0x2000u16 >> 8u16 == 0x0020u16,
        0x2000u16 >> 9u16 == 0x0010u16,
        0x2000u16 >> 10u16 == 0x0008u16,
        0x2000u16 >> 11u16 == 0x0004u16,
        0x2000u16 >> 12u16 == 0x0002u16,
        0x2000u16 >> 13u16 == 0x0001u16,
{
}

proof fn lemma_syn_code(s: u16, e: u16)
    requires
        s < 0x4000u16,
        e < 0x4000u16,
    ensures
        syn_from(s, code_bits(e)) == mulx_n(s, 14) ^ e,
{
    let c = code_bits(e);
    reveal_with_fuel(syn_from, 15);
    lemma_mulx14_unfold(s);
    assert(c.take(14) =~= c);
    lemma_code_masks();
    assert(c[0] == (e & 0x2000u16 != 0u16));
    assert(c[1] == (e & 0x1000u16 != 0u16));
    assert(c[2] == (e & 0x0800u16 != 0u16));
    assert(c[3] == (e & 0x0400u16 != 0u16));
    assert(c[4] == (e & 0x0200u16 != 0u16));
    assert(c[5] == (e & 0x0100u16 != 0u16));
    assert(c[6] == (e & 0x0080u16 != 0u16));
    assert(c[7] == (e & 0x0040u16 != 0u16));
    assert(c[8] == (e & 0x0020u16 != 0u16));
    assert(c[9] == (e & 0x0010u16 != 0u16));
    assert(c[10] == (e & 0x0008u16 != 0u16));
    assert(c[11] == (e & 0x0004u16 != 0u16));
    assert(c[12] == (e & 0x0002u16 != 0u16));
    assert(c[13] == (e & 0x0001u16 != 0u16));
    let w1 = syn_from(s, c.take(1));
    let w2 = syn_from(s, c.take(2));
    let w3 = syn_from(s, c.take(3));
    let w4 = syn_from(s, c.take(4));
    let w5 = syn_from(s, c.take(5));
    let w6 = syn_from(s, c.take(6));
    let w7 = syn_from(s, c.take(7));
    let w8 = syn_from(s, c.take(8));
    let w9 = syn_from(s, c.take(9));
    let w10 = syn_from(s, c.take(10));
    let w11 = syn_from(s, c.take(11));
    let w12 = syn_from(s, c.take(12));
    let w13 = syn_from(s, c.take(13));
    let w14 = syn_from(s, c.take(14));
    assert(c.take(1).drop_last() =~= c.take(0));
    assert(c.take(0) =~= Seq::<bool>::empty());
    assert(c.take(2).drop_last() =~= c.take(1));
    assert(c.take(3).drop_last() =~= c.take(2));
    assert(c.take(4).drop_last() =~= c.take(3));
    assert(c.take(5).drop_last() =~= c.take(4));
    assert(c.take(6).drop_last() =~= c.take(5));
    assert(c.take(7).drop_last() =~= c.take(6));
    assert(c.take(8).drop_last() =~= c.take(7));
    assert(c.take(9).drop_last() =~= c.take(8));
    assert(c.take(10).drop_last() =~= c.take(9));
    assert(c.take(11).drop_last() =~= c.take(10));
    assert(c.take(12).drop_last() =~= c.take(11));
    assert(c.take(13).drop_last() =~= c.take(12));
    assert(c.take(14).drop_last() =~= c.take(13));
    let t1 = fire_enc(s, false);
    let t2 = fire_enc(t1, false);
    let t3 = fire_enc(t2, false);
    let t4 = fire_enc(t3, false);
    let t5 = fire_enc(t4, false);
    let t6 = fire_enc(t5, false);
    let t7 = fire_enc(t6, false);
    let t8 = fire_enc(t7, false);
    let t9 = fire_enc(t8, false);
    let t10 = fire_enc(t9, false);
    let t11 = fire_enc(t10, false);
    let t12 = fire_enc(t11, false);
    let t13 = fire_enc(t12, false);
    let t14 = fire_enc(t13, false);
    lemma_shift_in_code(s, e, s, t1, t2, t3, t4, t5, t6, t7, t8, t9, t10, t11, t12, t13, t14,
        s, w1, w2, w3, w4, w5, w6, w7, w8, w9, w10, w11, w12, w13, w14);
}

/// A payload followed by the check code that the encoder computes for it is a codeword: its
/// syndrome is zero.
pub proof fn lemma_codeword(p: Seq<bool>)
    ensures
        syn_from(0, p + code_bits(enc_from(0, p))) == 0,
{
    lemma_enc_is_mulx_syn(p);
    let s = syn_from(0, p);
    let e = enc_from(0, p);
    if p.len() > 0 {
        lemma_enc_small(enc_from(0, p.drop_last()), p.last());
    } else {
        lemma_enc_small(0, false);
    }
    lemma_syn_concat(0, p, code_bits(e));
    lemma_syn_code(s, e);
    assert(e ^ e == 0u16) by (bit_vector);
}

/// Loading a 256-bit payload followed by its check code gives a valid page, as it was given.
pub proof fn lemma_load_codeword(v: FireCodeView, p: Seq<bool>)
    requires
        p.len() == 256,
    ensures
        loaded(v, true, p + code_bits(enc_from(0, p))).state == FireResult::Valid,
        loaded(v, true, p + code_bits(enc_from(0, p))).uncorr == p + code_bits(enc_from(0, p)),
        payload_of(loaded(v, true, p + code_bits(enc_from(0, p)))) == p,
{
    lemma_codeword(p);
    let c = p + code_bits(enc_from(0, p));
    assert(c.take(256) =~= p);
}

/// Recomputing the check code of a page that has one makes it valid, its payload unchanged.
pub proof fn lemma_regen_valid(v: FireCodeView)
    requires
        has_code(v.state),
        v.uncorr.len() >= 256,
    ensures
        regen_spec(v).state == FireResult::Valid,
        payload_of(regen_spec(v)) == prefix(v.uncorr, 256),
{
    let p = prefix(v.uncorr, 256);
    lemma_load_codeword(v, p);
}

/// Applying a correction is done once: applying it again changes nothing.
pub proof fn lemma_apply_idempotent(v: FireCodeView)
    ensures
        apply_spec(apply_spec(v)) == apply_spec(v),
{
}

} // verus!

verus! {

proof fn lemma_code_value(
    c: u16,
    v0: u16, v1: u16, v2: u16, v3: u16, v4: u16, v5: u16, v6: u16, v7: u16,
    v8: u16, v9: u16, v10: u16, v11: u16, v12: u16, v13: u16, v14: u16,
)
    by (bit_vector)
    requires
        v0 == 0u16,
        v1 == (v0 << 1u16) | (if c & 0x2000u16 != 0u16 { 1u16 } else { 0u16 }),
        v2 == (v1 << 1u16) | (if c & 0x1000u16 != 0u16 { 1u16 } else { 0u16 }),
        v3 == (v2 << 1u16) | (if c & 0x0800u16 != 0u16 { 1u16 } else { 0u16 }),
        v4 == (v3 << 1u16) | (if c & 0x0400u16 != 0u16 { 1u16 } else { 0u16 }),
        v5 == (v4 << 1u16) | (if c & 0x0200u16 != 0u16 { 1u16 } else { 0u16 }),
        v6 == (v5 << 1u16) | (if c & 0x0100u16 != 0u16 { 1u16 } else { 0u16 }),
        v7 == (v6 << 1u16) | (if c & 0x0080u16 != 0u16 { 1u16 } else { 0u16 }),
        v8 == (v7 << 1u16) | (if c & 0x0040u16 != 0u16 { 1u16 } else { 0u16 }),
        v9 == (v8 << 1u16) | (if c & 0x0020u16 != 0u16 { 1u16 } else { 0u16 }),
        v10 == (v9 << 1u16) | (if c & 0x0010u16 != 0u16 { 1u16 } else { 0u16 }),
        v11 == (v10 << 1u16) | (if c & 0x0008u16 != 0u16 { 1u16 } else { 0u16 }),
        v12 == (v11 << 1u16) | (if c & 0x0004u16 != 0u16 { 1u16 } else { 0u16 }),
        v13 == (v12 << 1u16) | (if c & 0x0002u16 != 0u16 { 1u16 } else { 0u16 }),
        v14 == (v13 << 1u16) | (if c & 0x0001u16 != 0u16 { 1u16 } else { 0u16 }),
    ensures
        v14 == c & 0x3fffu16,
{
}

/// The value written by the bits of a check code is the code's low 14 bits.
pub proof fn lemma_bits_value_code(c: u16)
    ensures
        bits_value(code_bits(c)) == c & 0x3fffu16,
{
    let s = code_bits(c);
    lemma_code_masks();
    let v0 = bits_value(s.take(0));
    let v1 = bits_value(s.take(1));
    let v2 = bits_value(s.take(2));
    let v3 = bits_value(s.take(3));
    let v4 = bits_value(s.take(4));
    let v5 = bits_value(s.take(5));
    let v6 = bits_value(s.take(6));
    let v7 = bits_value(s.take(7));
    let v8 = bits_value(s.take(8));
    let v9 = bits_value(s.take(9));
    let v10 = bits_value(s.take(10));
    let v11 = bits_value(s.take(11));
    let v12 = bits_value(s.take(12));
    let v13 = bits_value(s.take(13));
    let v14 = bits_value(s.take(14));
    assert(s.take(0) =~= Seq::<bool>::empty());
    assert(s.take(1).drop_last() =~= s.take(0));
    assert(s.take(2).drop_last() =~= s.take(1));
    assert(s.take(3).drop_last() =~= s.take(2));
    assert(s.take(4).drop_last() =~= s.take(3));
    assert(s.take(5).drop_last() =~= s.take(4));
    assert(s.take(6).drop_last() =~= s.take(5));
    assert(s.take(7).drop_last() =~= s.take(6));
    assert(s.take(8).drop_last() =~= s.take(7));
    assert(s.take(9).drop_last() =~= s.take(8));
    assert(s.take(10).drop_last() =~= s.take(9));
    assert(s.take(11).drop_last() =~= s.take(10));
    assert(s.take(12).drop_last() =~= s.take(11));
    assert(s.take(13).drop_last() =~= s.take(12));
    assert(s.take(14).drop_last() =~= s.take(13));
    assert(s.take(14) =~= s);
    lemma_code_value(c, v0, v1, v2, v3, v4, v5, v6, v7, v8, v9, v10, v11, v12, v13, v14);
}

/// Setting a check code and reading it back gives the code (on its 14 bits) and leaves the
/// payload, when the page has a check code.
pub proof fn lemma_code_set_get(v: FireCodeView, c: u16)
    requires
        has_code(v.state),
        v.uncorr.len() >= 256,
    ensures
        has_code(set_fire_spec(v, c).state),
        code_of(set_fire_spec(v, c)) == c & 0x3fffu16,
        payload_of(set_fire_spec(v, c)) == prefix(v.uncorr, 256),
{
    let p = prefix(v.uncorr, 256);
    let page = p + code_bits(c);
    assert(page.skip(256) =~= code_bits(c));
    assert(page.skip(256).take(14) =~= code_bits(c));
    assert(page.take(256) =~= p);
    lemma_bits_value_code(c);
}

/// Setting a payload of the right length and reading it back gives it, when (with error
/// correction) the page holds its check code.
pub proof fn lemma_payload_set_get(v: FireCodeView, ec: bool, p: Seq<bool>)
    requires
        p.len() == (if ec { 256int } else { 272int }),
        ec ==> v.uncorr.len() >= 270,
    ensures
        set_payload_spec(v, ec, p).state != FireResult::LoadError,
        payload_of(set_payload_spec(v, ec, p)) == p,
{
    if ec {
        let page = p + code_tail(v.uncorr);
        assert(page.take(256) =~= p);
    } else {
        assert(p.take(272) =~= p);
    }
}

} // verus!

verus! {

proof fn lemma_syn_step_xor(x: u16, y: u16, b1: bool, b2: bool)
    by (bit_vector)
    ensures
        fire_syn(x ^ y, b1 != b2) == fire_syn(x, b1) ^ fire_syn(y, b2),
{
}

/// The syndrome register is linear: shifting in the bitwise sum of two bit strings from the
/// sum of two registers gives the sum of the two results.
pub proof fn lemma_syn_xor(a: u16, b: u16, s1: Seq<bool>, s2: Seq<bool>)
    requires
        s1.len() == s2.len(),
    ensures
        syn_from(a ^ b, xor_bits(s1, s2)) == syn_from(a, s1) ^ syn_from(b, s2),
    decreases s1.len(),
{
    if s1.len() > 0 {
        lemma_syn_xor(a, b, s1.drop_last(), s2.drop_last());
        assert(xor_bits(s1, s2).drop_last() =~= xor_bits(s1.drop_last(), s2.drop_last()));
        lemma_syn_step_xor(syn_from(a, s1.drop_last()), syn_from(b, s2.drop_last()), s1.last(), s2.last());
    }
}

/// Loading a codeword with some of its bits flipped has the same outcome as loading the
/// flipped bits alone (on an all-clear page), and the correction worked out is the codeword
/// plus the correction of the flipped bits alone: error correction does not depend on the
/// payload.
pub proof fn lemma_correction_payload_independent(v: FireCodeView, p: Seq<bool>, e: Seq<bool>)
    requires
        p.len() == 256,
        e.len() == 270,
    ensures
        ({
            let c = p + code_bits(enc_from(0, p));
            &&& loaded(v, true, xor_bits(c, e)).state == loaded(v, true, e).state
            &&& loaded(v, true, xor_bits(c, e)).corr == xor_bits(c, loaded(v, true, e).corr)
        }),
{
    let c = p + code_bits(enc_from(0, p));
    lemma_codeword(p);
    lemma_syn_xor(0, 0, c, e);
    assert(0u16 ^ 0u16 == 0u16) by (bit_vector);
    let s = syn_from(0, e);
    assert(0u16 ^ s == s) by (bit_vector);
    let errs = correct_spec(s).2;
    if s != 0 {
        assert(xor_bits(xor_bits(c, e), errs) =~= xor_bits(c, xor_bits(e, errs)));
    }
}

} // verus!

verus! {

/// Every operation on a Fire code keeps its page the length its state says.
pub proof fn lemma_ops_keep_wf(v: FireCodeView, ec: bool, code: Seq<bool>, p: Seq<bool>, c: u16)
    requires
        fire_wf(v),
    ensures
        fire_wf(loaded(v, ec, code)),
        fire_wf(set_payload_spec(v, ec, p)),
        fire_wf(set_fire_spec(v, c)),
        fire_wf(regen_spec(v)),
        fire_wf(apply_spec(v)),
{
    let pp = if ec { p + code_tail(v.uncorr) } else { p };
    assert(fire_wf(loaded(v, ec, pp)));
    if has_code(v.state) {
        let q = prefix(v.uncorr, 256);
        assert(fire_wf(loaded(v, true, q + code_bits(c))));
        assert(fire_wf(loaded(v, true, q + code_bits(enc_from(0, q)))));
    }
}

} // verus!

verus! {

/// The syndrome register after a set bit followed by `m` clear bits: `x^m` modulo the
/// generator.
pub open spec fn pw(m: nat) -> u16 {
    mulx_n(1, m)
}

/// No register `pw(j)` for `m <= j < end` has its low 9 bits clear (no burst is trapped).
pub open spec fn no_trap(m: int, end: int) -> bool
    decreases end - m,
{
    if m >= end {
        true
    } else {
        pw(m as nat) & 0x1ffu16 != 0u16 && no_trap(m + 1, end)
    }
}

/// Bits `j` of a page from position `i` on, set exactly at position `p`.
pub open spec fn marks(i: int, p: int) -> Seq<bool> {
    Seq::new((270 - i) as nat, |j: int| i + j == p)
}

/// A page with only bit `k` set.
pub open spec fn single(k: int) -> Seq<bool> {
    Seq::new(270, |j: int| j == k)
}

proof fn lemma_syn_facts(a: u16)
    by (bit_vector)
    ensures
        fire_syn(a, false) == fire_enc(a, false),
        fire_syn(0u16, true) == 1u16,
        fire_syn(0u16, false) == 0u16,
        a & 0x1ffu16 != 0u16 ==> a != 0u16,
{
}

proof fn lemma_bit_facts(b: u16)
    by (bit_vector)
    requires
        b <= 13u16,
    ensures
        (1u16 << b) != 0u16,
        ((1u16 << b) & 0x1ffu16 == 0u16) == (b >= 9u16),
        ((1u16 << b) & 0x2000u16 != 0u16) == (b == 13u16),
        b < 13u16 ==> (((1u16 << b) << 1u16) & 0x3fffu16) == 1u16 << ((b + 1) as u16),
        b < 13u16 ==> fire_enc(1u16 << b, false) == 1u16 << ((b + 1) as u16),
        b == 13u16 ==> (((1u16 << b) << 1u16) & 0x3fffu16) == 0u16,
{
}

proof fn lemma_pw_small(m: nat)
    requires
        m <= 13,
    ensures
        pw(m) == 1u16 << (m as u16),
    decreases m,
{
    if m == 0 {
        assert(1u16 << 0u16 == 1u16) by (bit_vector);
    } else {
        lemma_pw_small((m - 1) as nat);
        lemma_bit_facts((m - 1) as u16);
    }
}

proof fn lemma_pw_chain(t13: u16, t14: u16, t15: u16, t16: u16, t17: u16, t18: u16, t19: u16, t20: u16, t21: u16, t22: u16, t23: u16, t24: u16, t25: u16, t26: u16, t27: u16, t28: u16, t29: u16, t30: u16, t31: u16, t32: u16, t33: u16, t34: u16, t35: u16, t36: u16, t37: u16, t38: u16, t39: u16, t40: u16, t41: u16, t42: u16, t43: u16, t44: u16, t45: u16, t46: u16, t47: u16, t48: u16, t49: u16, t50: u16, t51: u16, t52: u16, t53: u16, t54: u16, t55: u16, t56: u16, t57: u16, t58: u16, t59: u16, t60: u16, t61: u16, t62: u16, t63: u16, t64: u16, t65: u16, t66: u16, t67: u16, t68: u16, t69: u16, t70: u16, t71: u16, t72: u16, t73: u16, t74: u16, t75: u16, t76: u16, t77: u16, t78: u16, t79: u16, t80: u16, t81: u16, t82: u16, t83: u16, t84: u16, t85: u16, t86: u16, t87: u16, t88: u16, t89: u16, t90: u16, t91: u16, t92: u16, t93: u16, t94: u16, t95: u16, t96: u16, t97: u16, t98: u16, t99: u16, t100: u16, t101: u16, t102: u16, t103: u16, t104: u16, t105: u16, t106: u16, t107: u16, t108: u16, t109: u16, t110: u16, t111: u16, t112: u16, t113: u16, t114: u16, t115: u16, t116: u16, t117: u16, t118: u16, t119: u16, t120: u16, t121: u16, t122: u16, t123: u16, t124: u16, t125: u16, t126: u16, t127: u16, t128: u16, t129: u16, t130: u16, t131: u16, t132: u16, t133: u16, t134: u16, t135: u16, t136: u16, t137: u16, t138: u16, t139: u16, t140: u16, t141: u16, t142: u16, t143: u16, t144: u16, t145: u16, t146: u16, t147: u16, t148: u16, t149: u16, t150: u16, t151: u16, t152: u16, t153: u16, t154: u16, t155: u16, t156: u16, t157: u16, t158: u16, t159: u16, t160: u16, t161: u16, t162: u16, t163: u16, t164: u16, t165: u16, t166: u16, t167: u16, t168: u16, t169: u16, t170: u16, t171: u16, t172: u16, t173: u16, t174: u16, t175: u16, t176: u16, t177: u16, t178: u16, t179: u16, t180: u16, t181: u16, t182: u16, t183: u16, t184: u16, t185: u16, t186: u16, t187: u16, t188: u16, t189: u16, t190: u16, t191: u16, t192: u16, t193: u16, t194: u16, t195: u16, t196: u16, t197: u16, t198: u16, t199: u16, t200: u16, t201: u16, t202: u16, t203: u16, t204: u16, t205: u16, t206: u16, t207: u16, t208: u16, t209: u16, t210: u16, t211: u16, t212: u16, t213: u16, t214: u16, t215: u16, t216: u16, t217: u16, t218: u16, t219: u16, t220: u16, t221: u16, t222: u16, t223: u16, t224: u16, t225: u16, t226: u16, t227: u16, t228: u16, t229: u16, t230: u16, t231: u16, t232: u16, t233: u16, t234: u16, t235: u16, t236: u16, t237: u16, t238: u16, t239: u16, t240: u16, t241: u16, t242: u16, t243: u16, t244: u16, t245: u16, t246: u16, t247: u16, t248: u16, t249: u16, t250: u16, t251: u16, t252: u16, t253: u16, t254: u16, t255: u16, t256: u16, t257: u16, t258: u16, t259: u16, t260: u16, t261: u16, t262: u16, t263: u16, t264: u16, t265: u16, t266: u16, t267: u16, t268: u16, t269: u16, t270: u16, t271: u16, t272: u16, t273: u16, t274: u16, t275: u16, t276: u16, t277: u16, t278: u16, t279: u16, t280: u16, t281: u16, t282: u16, t283: u16, t284: u16, t285: u16, t286: u16, t287: u16, t288: u16)
    by (bit_vector)
    requires
        t13 == 0x2000u16,
        t14 == fire_enc(t13, false),
        t15 == fire_enc(t14, false),
        t16 == fire_enc(t15, false),
        t17 == fire_enc(t16, false),
        t18 == fire_enc(t17, false),
        t19 == fire_enc(t18, false),
        t20 == fire_enc(t19, false),
        t21 == fire_enc(t20, false),
        t22 == fire_enc(t21, false),
        t23 == fire_enc(t22, false),
        t24 == fire_enc(t23, false),
        t25 == fire_enc(t24, false),
        t26 == fire_enc(t25, false),
        t27 == fire_enc(t26, false),
        t28 == fire_enc(t27, false),
        t29 == fire_enc(t28, false),
        t30 == fire_enc(t29, false),
        t31 == fire_enc(t30, false),
        t32 == fire_enc(t31, false),
        t33 == fire_enc(t32, false),
        t34 == fire_enc(t33, false),
        t35 == fire_enc(t34, false),
        t36 == fire_enc(t35, false),
        t37 == fire_enc(t36, false),
        t38 == fire_enc(t37, false),
        t39 == fire_enc(t38, false),
        t40 == fire_enc(t39, false),
        t41 == fire_enc(t40, false),
        t42 == fire_enc(t41, false),
        t43 == fire_enc(t42, false),
        t44 == fire_enc(t43, false),
        t45 == fire_enc(t44, false),
        t46 == fire_enc(t45, false),
        t47 == fire_enc(t46, false),
        t48 == fire_enc(t47, false),
        t49 == fire_enc(t48, false),
        t50 == fire_enc(t49, false),
        t51 == fire_enc(t50, false),
        t52 == fire_enc(t51, false),
        t53 == fire_enc(t52, false),
        t54 == fire_enc(t53, false),
        t55 == fire_enc(t54, false),
        t56 == fire_enc(t55, false),
        t57 == fire_enc(t56, false),
        t58 == fire_enc(t57, false),
        t59 == fire_enc(t58, false),
        t60 == fire_enc(t59, false),
        t61 == fire_enc(t60, false),
        t62 == fire_enc(t61, false),
        t63 == fire_enc(t62, false),
        t64 == fire_enc(t63, false),
        t65 == fire_enc(t64, false),
        t66 == fire_enc(t65, false),
        t67 == fire_enc(t66, false),
        t68 == fire_enc(t67, false),
        t69 == fire_enc(t68, false),
        t70 == fire_enc(t69, false),
        t71 == fire_enc(t70, false),
        t72 == fire_enc(t71, false),
        t73 == fire_enc(t72, false),
        t74 == fire_enc(t73, false),
        t75 == fire_enc(t74, false),
        t76 == fire_enc(t75, false),
        t77 == fire_enc(t76, false),
        t78 == fire_enc(t77, false),
        t79 == fire_enc(t78, false),
        t80 == fire_enc(t79, false),
        t81 == fire_enc(t80, false),
        t82 == fire_enc(t81, false),
        t83 == fire_enc(t82, false),
        t84 == fire_enc(t83, false),
        t85 == fire_enc(t84, false),
        t86 == fire_enc(t85, false),
        t87 == fire_enc(t86, false),
        t88 == fire_enc(t87, false),
        t89 == fire_enc(t88, false),
        t90 == fire_enc(t89, false),
        t91 == fire_enc(t90, false),
        t92 == fire_enc(t91, false),
        t93 == fire_enc(t92, false),
        t94 == fire_enc(t93, false),
        t95 == fire_enc(t94, false),
        t96 == fire_enc(t95, false),
        t97 == fire_enc(t96, false),
        t98 == fire_enc(t97, false),
        t99 == fire_enc(t98, false),
        t100 == fire_enc(t99, false),
        t101 == fire_enc(t100, false),
        t102 == fire_enc(t101, false),
        t103 == fire_enc(t102, false),
        t104 == fire_enc(t103, false),
        t105 == fire_enc(t104, false),
        t106 == fire_enc(t105, false),
        t107 == fire_enc(t106, false),
        t108 == fire_enc(t107, false),
        t109 == fire_enc(t108, false),
        t110 == fire_enc(t109, false),
        t111 == fire_enc(t110, false),
        t112 == fire_enc(t111, false),
        t113 == fire_enc(t112, false),
        t114 == fire_enc(t113, false),
        t115 == fire_enc(t114, false),
        t116 == fire_enc(t115, false),
        t117 == fire_enc(t116, false),
        t118 == fire_enc(t117, false),
        t119 == fire_enc(t118, false),
        t120 == fire_enc(t119, false),
        t121 == fire_enc(t120, false),
        t122 == fire_enc(t121, false),
        t123 == fire_enc(t122, false),
        t124 == fire_enc(t123, false),
        t125 == fire_enc(t124, false),
        t126 == fire_enc(t125, false),
        t127 == fire_enc(t126, false),
        t128 == fire_enc(t127, false),
        t129 == fire_enc(t128, false),
        t130 == fire_enc(t129, false),
        t131 == fire_enc(t130, false),
        t132 == fire_enc(t131, false),
        t133 == fire_enc(t132, false),
        t134 == fire_enc(t133, false),
        t135 == fire_enc(t134, false),
        t136 == fire_enc(t135, false),
        t137 == fire_enc(t136, false),
        t138 == fire_enc(t137, false),
        t139 == fire_enc(t138, false),
        t140 == fire_enc(t139, false),
        t141 == fire_enc(t140, false),
        t142 == fire_enc(t141, false),
        t143 == fire_enc(t142, false),
        t144 == fire_enc(t143, false),
        t145 == fire_enc(t144, false),
        t146 == fire_enc(t145, false),
        t147 == fire_enc(t146, false),
        t148 == fire_enc(t147, false),
        t149 == fire_enc(t148, false),
        t150 == fire_enc(t149, false),
        t151 == fire_enc(t150, false),
        t152 == fire_enc(t151, false),
        t153 == fire_enc(t152, false),
        t154 == fire_enc(t153, false),
        t155 == fire_enc(t154, false),
        t156 == fire_enc(t155, false),
        t157 == fire_enc(t156, false),
        t158 == fire_enc(t157, false),
        t159 == fire_enc(t158, false),
        t160 == fire_enc(t159, false),
        t161 == fire_enc(t160, false),
        t162 == fire_enc(t161, false),
        t163 == fire_enc(t162, false),
        t164 == fire_enc(t163, false),
        t165 == fire_enc(t164, false),
        t166 == fire_enc(t165, false),
        t167 == fire_enc(t166, false),
        t168 == fire_enc(t167, false),
        t169 == fire_enc(t168, false),
        t170 == fire_enc(t169, false),
        t171 == fire_enc(t170, false),
        t172 == fire_enc(t171, false),
        t173 == fire_enc(t172, false),
        t174 == fire_enc(t173, false),
        t175 == fire_enc(t174, false),
        t176 == fire_enc(t175, false),
        t177 == fire_enc(t176, false),
        t178 == fire_enc(t177, false),
        t179 == fire_enc(t178, false),
        t180 == fire_enc(t179, false),
        t181 == fire_enc(t180, false),
        t182 == fire_enc(t181, false),
        t183 == fire_enc(t182, false),
        t184 == fire_enc(t183, false),
        t185 == fire_enc(t184, false),
        t186 == fire_enc(t185, false),
        t187 == fire_enc(t186, false),
        t188 == fire_enc(t187, false),
        t189 == fire_enc(t188, false),
        t190 == fire_enc(t189, false),
        t191 == fire_enc(t190, false),
        t192 == fire_enc(t191, false),
        t193 == fire_enc(t192, false),
        t194 == fire_enc(t193, false),
        t195 == fire_enc(t194, false),
        t196 == fire_enc(t195, false),
        t197 == fire_enc(t196, false),
        t198 == fire_enc(t197, false),
        t199 == fire_enc(t198, false),
        t200 == fire_enc(t199, false),
        t201 == fire_enc(t200, false),
        t202 == fire_enc(t201, false),
        t203 == fire_enc(t202, false),
        t204 == fire_enc(t203, false),
        t205 == fire_enc(t204, false),
        t206 == fire_enc(t205, false),
        t207 == fire_enc(t206, false),
        t208 == fire_enc(t207, false),
        t209 == fire_enc(t208, false),
        t210 == fire_enc(t209, false),
        t211 == fire_enc(t210, false),
        t212 == fire_enc(t211, false),
        t213 == fire_enc(t212, false),
        t214 == fire_enc(t213, false),
        t215 == fire_enc(t214, false),
        t216 == fire_enc(t215, false),
        t217 == fire_enc(t216, false),
        t218 == fire_enc(t217, false),
        t219 == fire_enc(t218, false),
        t220 == fire_enc(t219, false),
        t221 == fire_enc(t220, false),
        t222 == fire_enc(t221, false),
        t223 == fire_enc(t222, false),
        t224 == fire_enc(t223, false),
        t225 == fire_enc(t224, false),
        t226 == fire_enc(t225, false),
        t227 == fire_enc(t226, false),
        t228 == fire_enc(t227, false),
        t229 == fire_enc(t228, false),
        t230 == fire_enc(t229, false),
        t231 == fire_enc(t230, false),
        t232 == fire_enc(t231, false),
        t233 == fire_enc(t232, false),
        t234 == fire_enc(t233, false),
        t235 == fire_enc(t234, false),
        t236 == fire_enc(t235, false),
        t237 == fire_enc(t236, false),
        t238 == fire_enc(t237, false),
        t239 == fire_enc(t238, false),
        t240 == fire_enc(t239, false),
        t241 == fire_enc(t240, false),
        t242 == fire_enc(t241, false),
        t243 == fire_enc(t242, false),
        t244 == fire_enc(t243, false),
        t245 == fire_enc(t244, false),
        t246 == fire_enc(t245, false),
        t247 == fire_enc(t246, false),
        t248 == fire_enc(t247, false),
        t249 == fire_enc(t248, false),
        t250 == fire_enc(t249, false),
        t251 == fire_enc(t250, false),
        t252 == fire_enc(t251, false),
        t253 == fire_enc(t252, false),
        t254 == fire_enc(t253, false),
        t255 == fire_enc(t254, false),
        t256 == fire_enc(t255, false),
        t257 == fire_enc(t256, false),
        t258 == fire_enc(t257, false),
        t259 == fire_enc(t258, false),
        t260 == fire_enc(t259, false),
        t261 == fire_enc(t260, false),
        t262 == fire_enc(t261, false),
        t263 == fire_enc(t262, false),
        t264 == fire_enc(t263, false),
        t265 == fire_enc(t264, false),
        t266 == fire_enc(t265, false),
        t267 == fire_enc(t266, false),
        t268 == fire_enc(t267, false),
        t269 == fire_enc(t268, false),
        t270 == fire_enc(t269, false),
        t271 == fire_enc(t270, false),
        t272 == fire_enc(t271, false),
        t273 == fire_enc(t272, false),
        t274 == fire_enc(t273, false),
        t275 == fire_enc(t274, false),
        t276 == fire_enc(t275, false),
        t277 == fire_enc(t276, false),
        t278 == fire_enc(t277, false),
        t279 == fire_enc(t278, false),
        t280 == fire_enc(t279, false),
        t281 == fire_enc(t280, false),
        t282 == fire_enc(t281, false),
        t283 == fire_enc(t282, false),
        t284 == fire_enc(t283, false),
        t285 == fire_enc(t284, false),
        t286 == fire_enc(t285, false),
        t287 == fire_enc(t286, false),
        t288 == fire_enc(t287, false),
    ensures
        t14 & 0x1ffu16 != 0u16,
        t15 & 0x1ffu16 != 0u16,
        t16 & 0x1ffu16 != 0u16,
        t17 & 0x1ffu16 != 0u16,
        t18 & 0x1ffu16 != 0u16,
        t19 & 0x1ffu16 != 0u16,
        t20 & 0x1ffu16 != 0u16,
        t21 & 0x1ffu16 != 0u16,
        t22 & 0x1ffu16 != 0u16,
        t23 & 0x1ffu16 != 0u16,
        t24 & 0x1ffu16 != 0u16,
        t25 & 0x1ffu16 != 0u16,
        t26 & 0x1ffu16 != 0u16,
        t27 & 0x1ffu16 != 0u16,
        t28 & 0x1ffu16 != 0u16,
        t29 & 0x1ffu16 != 0u16,
        t30 & 0x1ffu16 != 0u16,
        t31 & 0x1ffu16 != 0u16,
        t32 & 0x1ffu16 != 0u16,
        t33 & 0x1ffu16 != 0u16,
        t34 & 0x1ffu16 != 0u16,
        t35 & 0x1ffu16 != 0u16,
        t36 & 0x1ffu16 != 0u16,
        t37 & 0x1ffu16 != 0u16,
        t38 & 0x1ffu16 != 0u16,
        t39 & 0x1ffu16 != 0u16,
        t40 & 0x1ffu16 != 0u16,
        t41 & 0x1ffu16 != 0u16,
        t42 & 0x1ffu16 != 0u16,
        t43 & 0x1ffu16 != 0u16,
        t44 & 0x1ffu16 != 0u16,
        t45 & 0x1ffu16 != 0u16,
        t46 & 0x1ffu16 != 0u16,
        t47 & 0x1ffu16 != 0u16,
        t48 & 0x1ffu16 != 0u16,
        t49 & 0x1ffu16 != 0u16,
        t50 & 0x1ffu16 != 0u16,
        t51 & 0x1ffu16 != 0u16,
        t52 & 0x1ffu16 != 0u16,
        t53 & 0x1ffu16 != 0u16,
        t54 & 0x1ffu16 != 0u16,
        t55 & 0x1ffu16 != 0u16,
        t56 & 0x1ffu16 != 0u16,
        t57 & 0x1ffu16 != 0u16,
        t58 & 0x1ffu16 != 0u16,
        t59 & 0x1ffu16 != 0u16,
        t60 & 0x1ffu16 != 0u16,
        t61 & 0x1ffu16 != 0u16,
        t62 & 0x1ffu16 != 0u16,
        t63 & 0x1ffu16 != 0u16,
        t64 & 0x1ffu16 != 0u16,
        t65 & 0x1ffu16 != 0u16,
        t66 & 0x1ffu16 != 0u16,
        t67 & 0x1ffu16 != 0u16,
        t68 & 0x1ffu16 != 0u16,
        t69 & 0x1ffu16 != 0u16,
        t70 & 0x1ffu16 != 0u16,
        t71 & 0x1ffu16 != 0u16,
        t72 & 0x1ffu16 != 0u16,
        t73 & 0x1ffu16 != 0u16,
        t74 & 0x1ffu16 != 0u16,
        t75 & 0x1ffu16 != 0u16,
        t76 & 0x1ffu16 != 0u16,
        t77 & 0x1ffu16 != 0u16,
        t78 & 0x1ffu16 != 0u16,
        t79 & 0x1ffu16 != 0u16,
        t80 & 0x1ffu16 != 0u16,
        t81 & 0x1ffu16 != 0u16,
        t82 & 0x1ffu16 != 0u16,
        t83 & 0x1ffu16 != 0u16,
        t84 & 0x1ffu16 != 0u16,
        t85 & 0x1ffu16 != 0u16,
        t86 & 0x1ffu16 != 0u16,
        t87 & 0x1ffu16 != 0u16,
        t88 & 0x1ffu16 != 0u16,
        t89 & 0x1ffu16 != 0u16,
        t90 & 0x1ffu16 != 0u16,
        t91 & 0x1ffu16 != 0u16,
        t92 & 0x1ffu16 != 0u16,
        t93 & 0x1ffu16 != 0u16,
        t94 & 0x1ffu16 != 0u16,
        t95 & 0x1ffu16 != 0u16,
        t96 & 0x1ffu16 != 0u16,
        t97 & 0x1ffu16 != 0u16,
        t98 & 0x1ffu16 != 0u16,
        t99 & 0x1ffu16 != 0u16,
        t100 & 0x1ffu16 != 0u16,
        t101 & 0x1ffu16 != 0u16,
        t102 & 0x1ffu16 != 0u16,
        t103 & 0x1ffu16 != 0u16,
        t104 & 0x1ffu16 != 0u16,
        t105 & 0x1ffu16 != 0u16,
        t106 & 0x1ffu16 != 0u16,
        t107 & 0x1ffu16 != 0u16,
        t108 & 0x1ffu16 != 0u16,
        t109 & 0x1ffu16 != 0u16,
        t110 & 0x1ffu16 != 0u16,
        t111 & 0x1ffu16 != 0u16,
        t112 & 0x1ffu16 != 0u16,
        t113 & 0x1ffu16 != 0u16,
        t114 & 0x1ffu16 != 0u16,
        t115 & 0x1ffu16 != 0u16,
        t116 & 0x1ffu16 != 0u16,
        t117 & 0x1ffu16 != 0u16,
        t118 & 0x1ffu16 != 0u16,
        t119 & 0x1ffu16 != 0u16,
        t120 & 0x1ffu16 != 0u16,
        t121 & 0x1ffu16 != 0u16,
        t122 & 0x1ffu16 != 0u16,
        t123 & 0x1ffu16 != 0u16,
        t124 & 0x1ffu16 != 0u16,
        t125 & 0x1ffu16 != 0u16,
        t126 & 0x1ffu16 != 0u16,
        t127 & 0x1ffu16 != 0u16,
        t128 & 0x1ffu16 != 0u16,
        t129 & 0x1ffu16 != 0u16,
        t130 & 0x1ffu16 != 0u16,
        t131 & 0x1ffu16 != 0u16,
        t132 & 0x1ffu16 != 0u16,
        t133 & 0x1ffu16 != 0u16,
        t134 & 0x1ffu16 != 0u16,
        t135 & 0x1ffu16 != 0u16,
        t136 & 0x1ffu16 != 0u16,
        t137 & 0x1ffu16 != 0u16,
        t138 & 0x1ffu16 != 0u16,
        t139 & 0x1ffu16 != 0u16,
        t140 & 0x1ffu16 != 0u16,
        t141 & 0x1ffu16 != 0u16,
        t142 & 0x1ffu16 != 0u16,
        t143 & 0x1ffu16 != 0u16,
        t144 & 0x1ffu16 != 0u16,
        t145 & 0x1ffu16 != 0u16,
        t146 & 0x1ffu16 != 0u16,
        t147 & 0x1ffu16 != 0u16,
        t148 & 0x1ffu16 != 0u16,
        t149 & 0x1ffu16 != 0u16,
        t150 & 0x1ffu16 != 0u16,
        t151 & 0x1ffu16 != 0u16,
        t152 & 0x1ffu16 != 0u16,
        t153 & 0x1ffu16 != 0u16,
        t154 & 0x1ffu16 != 0u16,
        t155 & 0x1ffu16 != 0u16,
        t156 & 0x1ffu16 != 0u16,
        t157 & 0x1ffu16 != 0u16,
        t158 & 0x1ffu16 != 0u16,
        t159 & 0x1ffu16 != 0u16,
        t160 & 0x1ffu16 != 0u16,
        t161 & 0x1ffu16 != 0u16,
        t162 & 0x1ffu16 != 0u16,
        t163 & 0x1ffu16 != 0u16,
        t164 & 0x1ffu16 != 0u16,
        t165 & 0x1ffu16 != 0u16,
        t166 & 0x1ffu16 != 0u16,
        t167 & 0x1ffu16 != 0u16,
        t168 & 0x1ffu16 != 0u16,
        t169 & 0x1ffu16 != 0u16,
        t170 & 0x1ffu16 != 0u16,
        t171 & 0x1ffu16 != 0u16,
        t172 & 0x1ffu16 != 0u16,
        t173 & 0x1ffu16 != 0u16,
        t174 & 0x1ffu16 != 0u16,
        t175 & 0x1ffu16 != 0u16,
        t176 & 0x1ffu16 != 0u16,
        t177 & 0x1ffu16 != 0u16,
        t178 & 0x1ffu16 != 0u16,
        t179 & 0x1ffu16 != 0u16,
        t180 & 0x1ffu16 != 0u16,
        t181 & 0x1ffu16 != 0u16,
        t182 & 0x1ffu16 != 0u16,
        t183 & 0x1ffu16 != 0u16,
        t184 & 0x1ffu16 != 0u16,
        t185 & 0x1ffu16 != 0u16,
        t186 & 0x1ffu16 != 0u16,
        t187 & 0x1ffu16 != 0u16,
        t188 & 0x1ffu16 != 0u16,
        t189 & 0x1ffu16 != 0u16,
        t190 & 0x1ffu16 != 0u16,
        t191 & 0x1ffu16 != 0u16,
        t192 & 0x1ffu16 != 0u16,
        t193 & 0x1ffu16 != 0u16,
        t194 & 0x1ffu16 != 0u16,
        t195 & 0x1ffu16 != 0u16,
        t196 & 0x1ffu16 != 0u16,
        t197 & 0x1ffu16 != 0u16,
        t198 & 0x1ffu16 != 0u16,
        t199 & 0x1ffu16 != 0u16,
        t200 & 0x1ffu16 != 0u16,
        t201 & 0x1ffu16 != 0u16,
        t202 & 0x1ffu16 != 0u16,
        t203 & 0x1ffu16 != 0u16,
        t204 & 0x1ffu16 != 0u16,
        t205 & 0x1ffu16 != 0u16,
        t206 & 0x1ffu16 != 0u16,
        t207 & 0x1ffu16 != 0u16,
        t208 & 0x1ffu16 != 0u16,
        t209 & 0x1ffu16 != 0u16,
        t210 & 0x1ffu16 != 0u16,
        t211 & 0x1ffu16 != 0u16,
        t212 & 0x1ffu16 != 0u16,
        t213 & 0x1ffu16 != 0u16,
        t214 & 0x1ffu16 != 0u16,
        t215 & 0x1ffu16 != 0u16,
        t216 & 0x1ffu16 != 0u16,
        t217 & 0x1ffu16 != 0u16,
        t218 & 0x1ffu16 != 0u16,
        t219 & 0x1ffu16 != 0u16,
        t220 & 0x1ffu16 != 0u16,
        t221 & 0x1ffu16 != 0u16,
        t222 & 0x1ffu16 != 0u16,
        t223 & 0x1ffu16 != 0u16,
        t224 & 0x1ffu16 != 0u16,
        t225 & 0x1ffu16 != 0u16,
        t226 & 0x1ffu16 != 0u16,
        t227 & 0x1ffu16 != 0u16,
        t228 & 0x1ffu16 != 0u16,
        t229 & 0x1ffu16 != 0u16,
        t230 & 0x1ffu16 != 0u16,
        t231 & 0x1ffu16 != 0u16,
        t232 & 0x1ffu16 != 0u16,
        t233 & 0x1ffu16 != 0u16,
        t234 & 0x1ffu16 != 0u16,
        t235 & 0x1ffu16 != 0u16,
        t236 & 0x1ffu16 != 0u16,
        t237 & 0x1ffu16 != 0u16,
        t238 & 0x1ffu16 != 0u16,
        t239 & 0x1ffu16 != 0u16,
        t240 & 0x1ffu16 != 0u16,
        t241 & 0x1ffu16 != 0u16,
        t242 & 0x1ffu16 != 0u16,
        t243 & 0x1ffu16 != 0u16,
        t244 & 0x1ffu16 != 0u16,
        t245 & 0x1ffu16 != 0u16,
        t246 & 0x1ffu16 != 0u16,
        t247 & 0x1ffu16 != 0u16,
        t248 & 0x1ffu16 != 0u16,
        t249 & 0x1ffu16 != 0u16,
        t250 & 0x1ffu16 != 0u16,
        t251 & 0x1ffu16 != 0u16,
        t252 & 0x1ffu16 != 0u16,
        t253 & 0x1ffu16 != 0u16,
        t254 & 0x1ffu16 != 0u16,
        t255 & 0x1ffu16 != 0u16,
        t256 & 0x1ffu16 != 0u16,
        t257 & 0x1ffu16 != 0u16,
        t258 & 0x1ffu16 != 0u16,
        t259 & 0x1ffu16 != 0u16,
        t260 & 0x1ffu16 != 0u16,
        t261 & 0x1ffu16 != 0u16,
        t262 & 0x1ffu16 != 0u16,
        t263 & 0x1ffu16 != 0u16,
        t264 & 0x1ffu16 != 0u16,
        t265 & 0x1ffu16 != 0u16,
        t266 & 0x1ffu16 != 0u16,
        t267 & 0x1ffu16 != 0u16,
        t268 & 0x1ffu16 != 0u16,
        t269 & 0x1ffu16 != 0u16,
        t270 & 0x1ffu16 != 0u16,
        t271 & 0x1ffu16 != 0u16,
        t272 & 0x1ffu16 != 0u16,
        t273 & 0x1ffu16 != 0u16,
        t274 & 0x1ffu16 != 0u16,
        t275 & 0x1ffu16 != 0u16,
        t276 & 0x1ffu16 != 0u16,
        t277 & 0x1ffu16 != 0u16,
        t278 & 0x1ffu16 != 0u16,
        t279 & 0x1ffu16 != 0u16,
        t280 & 0x1ffu16 != 0u16,
        t281 & 0x1ffu16 != 0u16,
        t282 & 0x1ffu16 != 0u16,
        t283 & 0x1ffu16 != 0u16,
        t284 & 0x1ffu16 != 0u16,
        t285 & 0x1ffu16 != 0u16,
        t286 & 0x1ffu16 != 0u16,
        t287 & 0x1ffu16 != 0u16,
        t288 == 0x0200u16,
{
}

proof fn lemma_pw_table()
    ensures
        no_trap(14, 288),
        pw(288) == 0x0200u16,
{
    lemma_pw_small(13);
    assert(1u16 << 13u16 == 0x2000u16) by (bit_vector);
    lemma_pw_chain(pw(13), pw(14), pw(15), pw(16), pw(17), pw(18), pw(19), pw(20), pw(21), pw(22), pw(23), pw(24), pw(25), pw(26), pw(27), pw(28), pw(29), pw(30), pw(31), pw(32), pw(33), pw(34), pw(35), pw(36), pw(37), pw(38), pw(39), pw(40), pw(41), pw(42), pw(43), pw(44), pw(45), pw(46), pw(47), pw(48), pw(49), pw(50), pw(51), pw(52), pw(53), pw(54), pw(55), pw(56), pw(57), pw(58), pw(59), pw(60), pw(61), pw(62), pw(63), pw(64), pw(65), pw(66), pw(67), pw(68), pw(69), pw(70), pw(71), pw(72), pw(73), pw(74), pw(75), pw(76), pw(77), pw(78), pw(79), pw(80), pw(81), pw(82), pw(83), pw(84), pw(85), pw(86), pw(87), pw(88), pw(89), pw(90), pw(91), pw(92), pw(93), pw(94), pw(95), pw(96), pw(97), pw(98), pw(99), pw(100), pw(101), pw(102), pw(103), pw(104), pw(105), pw(106), pw(107), pw(108), pw(109), pw(110), pw(111), pw(112), pw(113), pw(114), pw(115), pw(116), pw(117), pw(118), pw(119), pw(120), pw(121), pw(122), pw(123), pw(124), pw(125), pw(126), pw(127), pw(128), pw(129), pw(130), pw(131), pw(132), pw(133), pw(134), pw(135), pw(136), pw(137), pw(138), pw(139), pw(140), pw(141), pw(142), pw(143), pw(144), pw(145), pw(146), pw(147), pw(148), pw(149), pw(150), pw(151), pw(152), pw(153), pw(154), pw(155), pw(156), pw(157), pw(158), pw(159), pw(160), pw(161), pw(162), pw(163), pw(164), pw(165), pw(166), pw(167), pw(168), pw(169), pw(170), pw(171), pw(172), pw(173), pw(174), pw(175), pw(176), pw(177), pw(178), pw(179), pw(180), pw(181), pw(182), pw(183), pw(184), pw(185), pw(186), pw(187), pw(188), pw(189), pw(190), pw(191), pw(192), pw(193), pw(194), pw(195), pw(196), pw(197), pw(198), pw(199), pw(200), pw(201), pw(202), pw(203), pw(204), pw(205), pw(206), pw(207), pw(208), pw(209), pw(210), pw(211), pw(212), pw(213), pw(214), pw(215), pw(216), pw(217), pw(218), pw(219), pw(220), pw(221), pw(222), pw(223), pw(224), pw(225), pw(226), pw(227), pw(228), pw(229), pw(230), pw(231), pw(232), pw(233), pw(234), pw(235), pw(236), pw(237), pw(238), pw(239), pw(240), pw(241), pw(242), pw(243), pw(244), pw(245), pw(246), pw(247), pw(248), pw(249), pw(250), pw(251), pw(252), pw(253), pw(254), pw(255), pw(256), pw(257), pw(258), pw(259), pw(260), pw(261), pw(262), pw(263), pw(264), pw(265), pw(266), pw(267), pw(268), pw(269), pw(270), pw(271), pw(272), pw(273), pw(274), pw(275), pw(276), pw(277), pw(278), pw(279), pw(280), pw(281), pw(282), pw(283), pw(284), pw(285), pw(286), pw(287), pw(288));
    assert(no_trap(288, 288));
    assert(no_trap(287, 288));
    assert(no_trap(286, 288));
    assert(no_trap(285, 288));
    assert(no_trap(284, 288));
    assert(no_trap(283, 288));
    assert(no_trap(282, 288));
    assert(no_trap(281, 288));
    assert(no_trap(280, 288));
    assert(no_trap(279, 288));
    assert(no_trap(278, 288));
    assert(no_trap(277, 288));
    assert(no_trap(276, 288));
    assert(no_trap(275, 288));
    assert(no_trap(274, 288));
    assert(no_trap(273, 288));
    assert(no_trap(272, 288));
    assert(no_trap(271, 288));
    assert(no_trap(270, 288));
    assert(no_trap(269, 288));
    assert(no_trap(268, 288));
    assert(no_trap(267, 288));
    assert(no_trap(266, 288));
    assert(no_trap(265, 288));
    assert(no_trap(264, 288));
    assert(no_trap(263, 288));
    assert(no_trap(262, 288));
    assert(no_trap(261, 288));
    assert(no_trap(260, 288));
    assert(no_trap(259, 288));
    assert(no_trap(258, 288));
    assert(no_trap(257, 288));
    assert(no_trap(256, 288));
    assert(no_trap(255, 288));
    assert(no_trap(254, 288));
    assert(no_trap(253, 288));
    assert(no_trap(252, 288));
    assert(no_trap(251, 288));
    assert(no_trap(250, 288));
    assert(no_trap(249, 288));
    assert(no_trap(248, 288));
    assert(no_trap(247, 288));
    assert(no_trap(246, 288));
    assert(no_trap(245, 288));
    assert(no_trap(244, 288));
    assert(no_trap(243, 288));
    assert(no_trap(242, 288));
    assert(no_trap(241, 288));
    assert(no_trap(240, 288));
    assert(no_trap(239, 288));
    assert(no_trap(238, 288));
    assert(no_trap(237, 288));
    assert(no_trap(236, 288));
    assert(no_trap(235, 288));
    assert(no_trap(234, 288));
    assert(no_trap(233, 288));
    assert(no_trap(232, 288));
    assert(no_trap(231, 288));
    assert(no_trap(230, 288));
    assert(no_trap(229, 288));
    assert(no_trap(228, 288));
    assert(no_trap(227, 288));
    assert(no_trap(226, 288));
    assert(no_trap(225, 288));
    assert(no_trap(224, 288));
    assert(no_trap(223, 288));
    assert(no_trap(222, 288));
    assert(no_trap(221, 288));
    assert(no_trap(220, 288));
    assert(no_trap(219, 288));
    assert(no_trap(218, 288));
    assert(no_trap(217, 288));
    assert(no_trap(216, 288));
    assert(no_trap(215, 288));
    assert(no_trap(214, 288));
    assert(no_trap(213, 288));
    assert(no_trap(212, 288));
    assert(no_trap(211, 288));
    assert(no_trap(210, 288));
    assert(no_trap(209, 288));
    assert(no_trap(208, 288));
    assert(no_trap(207, 288));
    assert(no_trap(206, 288));
    assert(no_trap(205, 288));
    assert(no_trap(204, 288));
    assert(no_trap(203, 288));
    assert(no_trap(202, 288));
    assert(no_trap(201, 288));
    assert(no_trap(200, 288));
    assert(no_trap(199, 288));
    assert(no_trap(198, 288));
    assert(no_trap(197, 288));
    assert(no_trap(196, 288));
    assert(no_trap(195, 288));
    assert(no_trap(194, 288));
    assert(no_trap(193, 288));
    assert(no_trap(192, 288));
    assert(no_trap(191, 288));
    assert(no_trap(190, 288));
    assert(no_trap(189, 288));
    assert(no_trap(188, 288));
    assert(no_trap(187, 288));
    assert(no_trap(186, 288));
    assert(no_trap(185, 288));
    assert(no_trap(184, 288));
    assert(no_trap(183, 288));
    assert(no_trap(182, 288));
    assert(no_trap(181, 288));
    assert(no_trap(180, 288));
    assert(no_trap(179, 288));
    assert(no_trap(178, 288));
    assert(no_trap(177, 288));
    assert(no_trap(176, 288));
    assert(no_trap(175, 288));
    assert(no_trap(174, 288));
    assert(no_trap(173, 288));
    assert(no_trap(172, 288));
    assert(no_trap(171, 288));
    assert(no_trap(170, 288));
    assert(no_trap(169, 288));
    assert(no_trap(168, 288));
    assert(no_trap(167, 288));
    assert(no_trap(166, 288));
    assert(no_trap(165, 288));
    assert(no_trap(164, 288));
    assert(no_trap(163, 288));
    assert(no_trap(162, 288));
    assert(no_trap(161, 288));
    assert(no_trap(160, 288));
    assert(no_trap(159, 288));
    assert(no_trap(158, 288));
    assert(no_trap(157, 288));
    assert(no_trap(156, 288));
    assert(no_trap(155, 288));
    assert(no_trap(154, 288));
    assert(no_trap(153, 288));
    assert(no_trap(152, 288));
    assert(no_trap(151, 288));
    assert(no_trap(150, 288));
    assert(no_trap(149, 288));
    assert(no_trap(148, 288));
    assert(no_trap(147, 288));
    assert(no_trap(146, 288));
    assert(no_trap(145, 288));
    assert(no_trap(144, 288));
    assert(no_trap(143, 288));
    assert(no_trap(142, 288));
    assert(no_trap(141, 288));
    assert(no_trap(140, 288));
    assert(no_trap(139, 288));
    assert(no_trap(138, 288));
    assert(no_trap(137, 288));
    assert(no_trap(136, 288));
    assert(no_trap(135, 288));
    assert(no_trap(134, 288));
    assert(no_trap(133, 288));
    assert(no_trap(132, 288));
    assert(no_trap(131, 288));
    assert(no_trap(130, 288));
    assert(no_trap(129, 288));
    assert(no_trap(128, 288));
    assert(no_trap(127, 288));
    assert(no_trap(126, 288));
    assert(no_trap(125, 288));
    assert(no_trap(124, 288));
    assert(no_trap(123, 288));
    assert(no_trap(122, 288));
    assert(no_trap(121, 288));
    assert(no_trap(120, 288));
    assert(no_trap(119, 288));
    assert(no_trap(118, 288));
    assert(no_trap(117, 288));
    assert(no_trap(116, 288));
    assert(no_trap(115, 288));
    assert(no_trap(114, 288));
    assert(no_trap(113, 288));
    assert(no_trap(112, 288));
    assert(no_trap(111, 288));
    assert(no_trap(110, 288));
    assert(no_trap(109, 288));
    assert(no_trap(108, 288));
    assert(no_trap(107, 288));
    assert(no_trap(106, 288));
    assert(no_trap(105, 288));
    assert(no_trap(104, 288));
    assert(no_trap(103, 288));
    assert(no_trap(102, 288));
    assert(no_trap(101, 288));
    assert(no_trap(100, 288));
    assert(no_trap(99, 288));
    assert(no_trap(98, 288));
    assert(no_trap(97, 288));
    assert(no_trap(96, 288));
    assert(no_trap(95, 288));
    assert(no_trap(94, 288));
    assert(no_trap(93, 288));
    assert(no_trap(92, 288));
    assert(no_trap(91, 288));
    assert(no_trap(90, 288));
    assert(no_trap(89, 288));
    assert(no_trap(88, 288));
    assert(no_trap(87, 288));
    assert(no_trap(86, 288));
    assert(no_trap(85, 288));
    assert(no_trap(84, 288));
    assert(no_trap(83, 288));
    assert(no_trap(82, 288));
    assert(no_trap(81, 288));
    assert(no_trap(80, 288));
    assert(no_trap(79, 288));
    assert(no_trap(78, 288));
    assert(no_trap(77, 288));
    assert(no_trap(76, 288));
    assert(no_trap(75, 288));
    assert(no_trap(74, 288));
    assert(no_trap(73, 288));
    assert(no_trap(72, 288));
    assert(no_trap(71, 288));
    assert(no_trap(70, 288));
    assert(no_trap(69, 288));
    assert(no_trap(68, 288));
    assert(no_trap(67, 288));
    assert(no_trap(66, 288));
    assert(no_trap(65, 288));
    assert(no_trap(64, 288));
    assert(no_trap(63, 288));
    assert(no_trap(62, 288));
    assert(no_trap(61, 288));
    assert(no_trap(60, 288));
    assert(no_trap(59, 288));
    assert(no_trap(58, 288));
    assert(no_trap(57, 288));
    assert(no_trap(56, 288));
    assert(no_trap(55, 288));
    assert(no_trap(54, 288));
    assert(no_trap(53, 288));
    assert(no_trap(52, 288));
    assert(no_trap(51, 288));
    assert(no_trap(50, 288));
    assert(no_trap(49, 288));
    assert(no_trap(48, 288));
    assert(no_trap(47, 288));
    assert(no_trap(46, 288));
    assert(no_trap(45, 288));
    assert(no_trap(44, 288));
    assert(no_trap(43, 288));
    assert(no_trap(42, 288));
    assert(no_trap(41, 288));
    assert(no_trap(40, 288));
    assert(no_trap(39, 288));
    assert(no_trap(38, 288));
    assert(no_trap(37, 288));
    assert(no_trap(36, 288));
    assert(no_trap(35, 288));
    assert(no_trap(34, 288));
    assert(no_trap(33, 288));
    assert(no_trap(32, 288));
    assert(no_trap(31, 288));
    assert(no_trap(30, 288));
    assert(no_trap(29, 288));
    assert(no_trap(28, 288));
    assert(no_trap(27, 288));
    assert(no_trap(26, 288));
    assert(no_trap(25, 288));
    assert(no_trap(24, 288));
    assert(no_trap(23, 288));
    assert(no_trap(22, 288));
    assert(no_trap(21, 288));
    assert(no_trap(20, 288));
    assert(no_trap(19, 288));
    assert(no_trap(18, 288));
    assert(no_trap(17, 288));
    assert(no_trap(16, 288));
    assert(no_trap(15, 288));
    assert(no_trap(14, 288));
}

proof fn lemma_no_trap_at(a: int, end: int, m: int)
    requires
        no_trap(a, end),
        a <= m < end,
    ensures
        pw(m as nat) & 0x1ffu16 != 0u16,
        no_trap(m, end),
    decreases m - a,
{
    if a < m {
        lemma_no_trap_at(a + 1, end, m);
    }
}

proof fn lemma_no_trap_sub(a: int, end: int, m: int, e2: int)
    requires
        no_trap(a, end),
        a <= m,
        e2 <= end,
    ensures
        no_trap(m, e2),
    decreases e2 - m,
{
    if m < e2 {
        lemma_no_trap_at(a, end, m);
        lemma_no_trap_sub(a, end, m + 1, e2);
    }
}

proof fn lemma_pw_step(m: nat)
    ensures
        pw(m + 1) == fire_syn(pw(m), false),
{
    lemma_syn_facts(pw(m));
}

} // verus!

verus! {

proof fn lemma_corr_done(t: TrapState, i: int)
    requires
        t.st == CorrectState::Done,
        0 <= i <= 270,
    ensures
        corr_run(t, i).1 == marks(i, -1),
        corr_run(t, i).0.st == CorrectState::Done,
    decreases 270 - i,
{
    if i < 270 {
        lemma_corr_done(t, i + 1);
        assert(seq![false] + marks(i + 1, -1) =~= marks(i, -1));
    } else {
        assert(marks(i, -1) =~= Seq::<bool>::empty());
    }
}

proof fn lemma_corr_shift(t: TrapState, i: int, b: u16)
    requires
        t.st == CorrectState::Correcting,
        b <= 13,
        t.acc == 1u16 << b,
        0 <= i,
        i + 13 - b < 270,
    ensures
        corr_run(t, i).1 == marks(i, i + 13 - b),
        corr_run(t, i).0.st == CorrectState::Done,
    decreases 13 - b,
{
    lemma_bit_facts(b);
    let (t2, e) = corr_step(t, i);
    if b == 13 {
        assert(t2.st == CorrectState::Done);
        lemma_corr_done(t2, i + 1);
        assert(seq![e] + marks(i + 1, -1) =~= marks(i, i));
    } else {
        lemma_bit_facts((b + 1) as u16);
        assert(t2.acc == 1u16 << ((b + 1) as u16));
        lemma_corr_shift(t2, i + 1, (b + 1) as u16);
        assert(seq![e] + marks(i + 1, i + 13 - b) =~= marks(i, i + 13 - b));
    }
}

proof fn lemma_corr_count(t: TrapState, i: int, b: u16)
    requires
        t.st == CorrectState::WaitToStart,
        t.cnt >= 1,
        b <= 13,
        t.acc == 1u16 << b,
        0 <= i,
        i + t.cnt - 1 + 13 - b < 270,
    ensures
        corr_run(t, i).1 == marks(i, i + t.cnt - 1 + 13 - b),
        corr_run(t, i).0.st == CorrectState::Done,
    decreases t.cnt,
{
    if t.cnt == 1 {
        let tc = TrapState { st: CorrectState::Correcting, cnt: 0, ..t };
        assert(corr_step(t, i) == corr_step(tc, i));
        lemma_corr_shift(tc, i, b);
    } else {
        let (t2, e) = corr_step(t, i);
        lemma_corr_count(t2, i + 1, b);
        assert(seq![e] + marks(i + 1, i + t.cnt - 1 + 13 - b) =~= marks(i, i + t.cnt - 1 + 13 - b));
    }
}

proof fn lemma_corr_wait(t: TrapState, i: int, m: int)
    requires
        t.st == CorrectState::WaitTrap,
        14 <= m <= 288,
        t.acc == pw(m as nat),
        no_trap(m, 288),
        0 <= i,
        i + 288 - m < 256,
    ensures
        corr_run(t, i).1 == marks(i, i + 288 - m + 4),
        corr_run(t, i).0.st == CorrectState::Done,
    decreases 288 - m,
{
    lemma_pw_table();
    if m == 288 {
        assert(1u16 << 9u16 == 0x0200u16) by (bit_vector);
        lemma_bit_facts(9);
        let tc = TrapState { st: CorrectState::Correcting, ..t };
        assert(corr_step(t, i) == corr_step(tc, i));
        lemma_corr_shift(tc, i, 9);
    } else {
        lemma_no_trap_at(m, 288, m);
        lemma_pw_step(m as nat);
        let (t2, e) = corr_step(t, i);
        assert(t2.acc == pw((m + 1) as nat));
        lemma_corr_wait(t2, i + 1, m + 1);
        assert(seq![e] + marks(i + 1, i + 288 - m + 4) =~= marks(i, i + 288 - m + 4));
    }
}

proof fn lemma_chop_count(t: TrapState, k: nat)
    requires
        t.st == CorrectState::WaitToStart,
    ensures
        chop_run(t, k) == t,
    decreases k,
{
    if k > 0 {
        lemma_chop_count(t, (k - 1) as nat);
    }
}

proof fn lemma_chop_wait(t: TrapState, m: int, k: nat)
    requires
        t.st == CorrectState::WaitTrap,
        t.acc == pw(m as nat),
        m >= 0,
        no_trap(m, m + k),
    ensures
        chop_run(t, k) == (TrapState { acc: pw((m + k) as nat), ..t }),
    decreases k,
{
    if k > 0 {
        lemma_no_trap_at(m, m + k, m);
        lemma_pw_step(m as nat);
        lemma_no_trap_sub(m, m + k, m + 1, m + k);
        lemma_chop_wait(chop_step(t), m + 1, (k - 1) as nat);
    }
}

proof fn lemma_chop_shift(t: TrapState, b: u16, k: nat)
    requires
        t.st == CorrectState::Correcting,
        t.acc == 1u16 << b,
        b + k <= 13,
    ensures
        chop_run(t, k) == (TrapState { acc: 1u16 << ((b + k) as u16), ..t }),
    decreases k,
{
    if k > 0 {
        lemma_bit_facts(b);
        lemma_bit_facts((b + 1) as u16);
        lemma_chop_shift(chop_step(t), (b + 1) as u16, (k - 1) as nat);
    } else {
        assert((b + 0) as u16 == b);
    }
}

proof fn lemma_chop_trap(t: TrapState, m: int, k: nat)
    requires
        t.st == CorrectState::WaitTrap,
        t.acc == pw(m as nat),
        14 <= m <= 288,
        no_trap(m, 288),
        288 - m < k,
        9 + k - (288 - m) <= 13,
    ensures
        chop_run(t, k) == (TrapState {
            st: CorrectState::Correcting,
            acc: 1u16 << ((9 + k - (288 - m)) as u16),
            ..t
        }),
    decreases k,
{
    lemma_pw_table();
    if m == 288 {
        assert(1u16 << 9u16 == 0x0200u16) by (bit_vector);
        lemma_bit_facts(9);
        lemma_bit_facts(10);
        let t1 = chop_step(t);
        assert(t1 == (TrapState { st: CorrectState::Correcting, acc: 1u16 << 10u16, ..t }));
        lemma_chop_shift(t1, 10, (k - 1) as nat);
    } else {
        lemma_no_trap_at(m, 288, m);
        lemma_pw_step(m as nat);
        lemma_chop_trap(chop_step(t), m + 1, (k - 1) as nat);
    }
}

proof fn lemma_search_wait(m: int, i: int)
    requires
        0 <= i <= 14,
        m >= 0,
        no_trap(m, m + 14 - i),
    ensures
        trap_search(pw(m as nat), i) == (TrapState {
            st: CorrectState::WaitTrap,
            acc: pw((m + 14 - i) as nat),
            cnt: 0,
        }),
    decreases 14 - i,
{
    if i < 14 {
        lemma_no_trap_at(m, m + 14 - i, m);
        lemma_pw_step(m as nat);
        lemma_no_trap_sub(m, m + 14 - i, m + 1, m + 14 - i);
        lemma_search_wait(m + 1, i + 1);
    }
}

proof fn lemma_search_low(m: int, i: int)
    requires
        0 <= m <= 9,
        0 <= i,
        i + 9 - m < 14,
    ensures
        trap_search(pw(m as nat), i) == (TrapState {
            st: CorrectState::WaitToStart,
            acc: 1u16 << 9u16,
            cnt: i + 9 - m + 257,
        }),
    decreases 9 - m,
{
    lemma_pw_small(m as nat);
    lemma_bit_facts(m as u16);
    if m < 9 {
        lemma_pw_step(m as nat);
        lemma_search_low(m + 1, i + 1);
    }
}

/// Error trapping on the syndrome of a single set bit at position `269 - n` of a page
/// finds it and flips exactly that bit.
proof fn lemma_correct_single(n: nat)
    requires
        n <= 269,
    ensures
        pw(n) != 0,
        correct_spec(pw(n)).0 == FireResult::Correctable,
        correct_spec(pw(n)).2 == marks(0, 269 - n),
{
    lemma_pw_table();
    if n <= 13 {
        lemma_pw_small(n);
        lemma_bit_facts(n as u16);
    } else {
        lemma_no_trap_at(14, 288, n as int);
        lemma_syn_facts(pw(n));
    }
    let t1 = trap_search(pw(n), 0);
    if n <= 8 {
        lemma_search_low(n as int, 0);
        lemma_chop_count(t1, 9);
        lemma_bit_facts(9);
        lemma_corr_count(t1, 0, 9);
    } else if n <= 13 {
        assert(t1 == (TrapState { st: CorrectState::WaitToStart, acc: pw(n), cnt: 257 }));
        lemma_chop_count(t1, 9);
        lemma_corr_count(t1, 0, n as u16);
    } else if n <= 265 {
        lemma_no_trap_sub(14, 288, n as int, n as int + 14);
        lemma_search_wait(n as int, 0);
        lemma_no_trap_sub(14, 288, n as int + 14, n as int + 23);
        lemma_chop_wait(t1, n as int + 14, 9);
        let t2 = chop_run(t1, 9);
        lemma_no_trap_sub(14, 288, n as int + 23, 288);
        lemma_corr_wait(t2, 0, n as int + 23);
    } else {
        lemma_no_trap_sub(14, 288, n as int, n as int + 14);
        lemma_search_wait(n as int, 0);
        lemma_no_trap_sub(14, 288, n as int + 14, 288);
        lemma_chop_trap(t1, n as int + 14, 9);
        let t2 = chop_run(t1, 9);
        lemma_bit_facts((n - 256) as u16);
        lemma_corr_shift(t2, 0, (n - 256) as u16);
    }
}

} // verus!

verus! {

proof fn lemma_syn_single(k: int, j: int)
    requires
        0 <= k < 270,
        0 <= j <= 270,
    ensures
        syn_from(0, single(k).take(j)) == if j <= k {
            0u16
        } else {
            pw((j - 1 - k) as nat)
        },
    decreases j,
{
    let s = single(k);
    if j > 0 {
        lemma_syn_single(k, j - 1);
        assert(s.take(j).drop_last() =~= s.take(j - 1));
        lemma_syn_facts(syn_from(0, s.take(j - 1)));
        if j - 1 == k {
            assert(mulx_n(1, 0) == 1u16);
        } else if j - 1 > k {
            lemma_pw_step((j - 2 - k) as nat);
        } else {
            lemma_enc_small(0, false);
        }
    } else {
        assert(s.take(0) =~= Seq::<bool>::empty());
    }
}

/// Every single-bit error in a page with its check code, in the payload or in the code, is
/// found and repaired: the page is reported correctable, and applying the correction gives
/// back the page.
pub proof fn lemma_single_error_corrected(v: FireCodeView, p: Seq<bool>, k: int)
    requires
        p.len() == 256,
        0 <= k < 270,
    ensures
        ({
            let c = p + code_bits(enc_from(0, p));
            let bad = c.update(k, !c[k]);
            &&& loaded(v, true, bad).state == FireResult::Correctable
            &&& apply_spec(loaded(v, true, bad)).state == FireResult::Valid
            &&& apply_spec(loaded(v, true, bad)).uncorr == c
        }),
{
    let c = p + code_bits(enc_from(0, p));
    let e = single(k);
    let bad = c.update(k, !c[k]);
    assert(xor_bits(c, e) =~= bad);
    lemma_correction_payload_independent(v, p, e);
    lemma_syn_single(k, 270);
    assert(e.take(270) =~= e);
    let n = (269 - k) as nat;
    lemma_correct_single(n);
    assert(marks(0, 269 - n) =~= e);
    assert(xor_bits(e, e) =~= Seq::new(270, |j: int| false));
    assert(xor_bits(c, Seq::new(270, |j: int| false)) =~= c);
}

} // verus!

verus! {

/// Every flip in `es` lies at a position from `lo` to `hi - 1`.
pub open spec fn flips_in(es: Seq<bool>, lo: int, hi: int) -> bool {
    forall|j: int| 0 <= j < es.len() && #[trigger] es[j] ==> lo <= j < hi
}

/// Every flip in `es` lies among the five positions from `w` on.
pub open spec fn window5(es: Seq<bool>, w: int) -> bool {
    flips_in(es, w, w + 5)
}

/// `a` and `b` differ only among the five positions from `w` on.
pub open spec fn differ_within(a: Seq<bool>, b: Seq<bool>, w: int) -> bool {
    forall|j: int| 0 <= j < a.len() && #[trigger] a[j] != b[j] ==> w <= j < w + 5
}

/// A trapped burst, waiting or being shifted out, has its low nine bits clear.
spec fn trap_ok(t: TrapState) -> bool {
    (t.st == CorrectState::Correcting || t.st == CorrectState::WaitToStart) ==> t.acc & 0x1ffu16
        == 0u16
}

proof fn lemma_shift_clear(acc: u16, r: u16)
    by (bit_vector)
    requires
        1 <= r <= 5,
        acc & (0x3fffu16 >> r) == 0u16,
    ensures
        ((acc << 1u16) & 0x3fffu16) & (0x3fffu16 >> ((r - 1) as u16)) == 0u16,
        r == 1 ==> (acc << 1u16) & 0x3fffu16 == 0u16,
        0x3fffu16 >> 5u16 == 0x1ffu16,
{
}

proof fn lemma_shift_keeps_low(acc: u16)
    by (bit_vector)
    requires
        acc & 0x1ffu16 == 0u16,
    ensures
        ((acc << 1u16) & 0x3fffu16) & 0x1ffu16 == 0u16,
        acc & (0x3fffu16 >> 5u16) == 0u16,
{
}

proof fn lemma_prepend_window(e: bool, es: Seq<bool>, lo: int, hi: int)
    requires
        !e,
        flips_in(es, lo, hi),
    ensures
        flips_in(seq![e] + es, lo + 1, hi + 1),
{
    let s = seq![e] + es;
    assert forall|j: int| 0 <= j < s.len() && #[trigger] s[j] implies lo + 1 <= j < hi + 1 by {
        assert(j > 0);
        assert(s[j] == es[j - 1]);
    }
}

/// Shifting out a trapped burst with its `14 - r` low bits clear flips bits only among the
/// next `r` positions, and ends the correction.
proof fn lemma_corr_burst(t: TrapState, i: int, r: u16)
    requires
        t.st == CorrectState::Correcting,
        1 <= r <= 5,
        t.acc & (0x3fffu16 >> r) == 0u16,
        0 <= i <= 270,
    ensures
        corr_run(t, i).1.len() == 270 - i,
        flips_in(corr_run(t, i).1, 0, r as int),
        corr_run(t, i).0.st != CorrectState::WaitTrap,
    decreases 270 - i,
{
    if i < 270 {
        let (t2, e) = corr_step(t, i);
        lemma_shift_clear(t.acc, r);
        let es = corr_run(t, i).1;
        if t2.st == CorrectState::Done {
            lemma_corr_done(t2, i + 1);
            assert(es == seq![e] + marks(i + 1, -1));
            assert forall|j: int| 0 <= j < es.len() && #[trigger] es[j] implies 0 <= j < r by {
                if j > 0 {
                    assert(es[j] == marks(i + 1, -1)[j - 1]);
                }
            }
        } else {
            lemma_corr_burst(t2, i + 1, (r - 1) as u16);
            let es2 = corr_run(t2, i + 1).1;
            assert(es == seq![e] + es2);
            assert forall|j: int| 0 <= j < es.len() && #[trigger] es[j] implies 0 <= j < r by {
                if j > 0 {
                    assert(es[j] == es2[j - 1]);
                }
            }
        }
    } else {
        assert(corr_run(t, i).1 =~= Seq::<bool>::empty());
    }
}

/// The third phase from any state with a properly trapped burst flips bits only among five
/// consecutive positions, and none when it ends still waiting for a trap.
proof fn lemma_corr_window(t: TrapState, i: int)
    requires
        trap_ok(t),
        0 <= i <= 270,
    ensures
        corr_run(t, i).1.len() == 270 - i,
        exists|w: int| window5(corr_run(t, i).1, w),
        corr_run(t, i).0.st == CorrectState::WaitTrap ==> flips_in(corr_run(t, i).1, 0, 0),
    decreases 270 - i,
{
    let es = corr_run(t, i).1;
    if i >= 270 {
        assert(es =~= Seq::<bool>::empty());
        assert(window5(es, 0));
    } else if t.st == CorrectState::Done {
        lemma_corr_done(t, i);
        assert forall|j: int| 0 <= j < es.len() && #[trigger] es[j] implies 0 <= j < 0 by {
            assert(es[j] == marks(i, -1)[j]);
        }
        assert(window5(es, 0));
    } else if t.st == CorrectState::Correcting {
        lemma_shift_keeps_low(t.acc);
        lemma_corr_burst(t, i, 5);
        assert(window5(es, 0));
    } else {
        let (t2, e) = corr_step(t, i);
        let tc = TrapState { st: CorrectState::Correcting, cnt: 0, ..t };
        let t1 = trap_check(t);
        if t.st == CorrectState::WaitToStart && t.cnt - 1 == 0 {
            assert(corr_step(t, i) == corr_step(tc, i));
            lemma_shift_keeps_low(t.acc);
            lemma_corr_burst(tc, i, 5);
            assert(es == corr_run(tc, i).1);
            assert(window5(es, 0));
        } else if t.st == CorrectState::WaitTrap && i < 256 && t1.st == CorrectState::Correcting {
            let tc1 = TrapState { st: CorrectState::Correcting, ..t };
            assert(corr_step(t, i) == corr_step(tc1, i));
            lemma_shift_keeps_low(t.acc);
            lemma_corr_burst(tc1, i, 5);
            assert(es == corr_run(tc1, i).1);
            assert(window5(es, 0));
        } else {
            assert(!e);
            lemma_corr_window(t2, i + 1);
            let es2 = corr_run(t2, i + 1).1;
            assert(es == seq![e] + es2);
            let w = choose|w: int| window5(es2, w);
            lemma_prepend_window(e, es2, w, w + 5);
            assert(window5(es, w + 1));
            if corr_run(t, i).0.st == CorrectState::WaitTrap {
                lemma_prepend_window(e, es2, 0, 0);
                assert forall|j: int| 0 <= j < es.len() && #[trigger] es[j] implies 0 <= j < 0 by {
                    assert(1 <= j < 1);
                }
            }
        }
    }
}

proof fn lemma_chop_ok(t: TrapState, k: nat)
    requires
        trap_ok(t),
    ensures
        trap_ok(chop_run(t, k)),
    decreases k,
{
    if k > 0 {
        let t1 = if t.st == CorrectState::WaitTrap {
            trap_check(t)
        } else {
            t
        };
        if t1.st == CorrectState::Correcting {
            lemma_shift_keeps_low(t1.acc);
        }
        lemma_chop_ok(chop_step(t), (k - 1) as nat);
    }
}

proof fn lemma_search_ok(acc: u16, i: int)
    ensures
        trap_ok(trap_search(acc, i)),
    decreases 14 - i,
{
    if i < 14 && acc & 0x1ffu16 != 0u16 {
        lemma_search_ok(fire_syn(acc, false), i + 1);
    }
}

/// Whatever the syndrome, the correction flips bits only among five consecutive positions of
/// the page, and flips none when it finds the page uncorrectable.
pub proof fn lemma_correction_burst(acc: u16)
    ensures
        correct_spec(acc).2.len() == 270,
        exists|w: int| window5(correct_spec(acc).2, w),
        correct_spec(acc).0 == FireResult::Uncorrectable ==> flips_in(correct_spec(acc).2, 0, 0),
{
    let t1 = trap_search(acc, 0);
    lemma_search_ok(acc, 0);
    lemma_chop_ok(t1, 9);
    lemma_corr_window(chop_run(t1, 9), 0);
}

/// Loading any page of 270 bits with error correction: the page is kept as loaded and gets a
/// check outcome; the corrected page differs from it only among five consecutive bits; a valid
/// or uncorrectable page is left as it is.
pub proof fn lemma_load_burst_window(v: FireCodeView, bad: Seq<bool>)
    requires
        bad.len() == 270,
    ensures
        ({
            let w2 = loaded(v, true, bad);
            &&& has_code(w2.state)
            &&& w2.uncorr == bad
            &&& w2.corr.len() == 270
            &&& exists|w: int| differ_within(w2.corr, bad, w)
            &&& w2.state != FireResult::Correctable ==> w2.corr == bad
        }),
{
    let w2 = loaded(v, true, bad);
    let s = syn_from(0, bad);
    if s == 0 {
        assert(differ_within(w2.corr, bad, 0));
    } else {
        lemma_correction_burst(s);
        let errs = correct_spec(s).2;
        let w = choose|w: int| window5(errs, w);
        assert forall|j: int| 0 <= j < w2.corr.len() && #[trigger] w2.corr[j] != bad[j] implies w
            <= j < w + 5 by {
            assert(errs[j]);
        }
        assert(differ_within(w2.corr, bad, w));
        if w2.state == FireResult::Uncorrectable {
            assert forall|j: int| 0 <= j < 270 implies w2.corr[j] == bad[j] by {
                if errs[j] {
                    assert(0 <= j < 0);
                }
            }
            assert(w2.corr =~= bad);
        }
    }
}

} // verus!
