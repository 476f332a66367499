//! The bootloop as it is recorded in its storage loop, and the search that finds it there.
//!
//! A recorded bootloop is a run of 3158 set bits, 242 clear bits, a 14-bit pattern
//! `10101010101010`, the 320 bits of the bootloop and 362 clear bits of padding, 4096 bits in
//! all.

use vstd::prelude::*;

verus! {

/// The states of the search for a recorded bootloop.
#[derive(Clone, Copy, PartialEq, Eq, Structural)]
pub enum SyncState {
    WaitPreSync,
    WaitPreSyncMinLen,
    WaitPreSyncEnd,
    WaitSyncPattern,
    ReadBL,
}

/// One step of the search outside the reading of the bootloop: the state and counter after
/// bit `bit`.
pub open spec fn sync_step(st: SyncState, cnt: int, bit: bool) -> (SyncState, int) {
    match st {
        SyncState::WaitPreSync => {
            if bit {
                (SyncState::WaitPreSyncMinLen, 3157)
            } else {
                (SyncState::WaitPreSync, cnt)
            }
        },
        SyncState::WaitPreSyncMinLen => {
            if bit {
                if cnt - 1 == 0 {
                    (SyncState::WaitPreSyncEnd, 0)
                } else {
                    (SyncState::WaitPreSyncMinLen, cnt - 1)
                }
            } else {
                (SyncState::WaitPreSync, cnt)
            }
        },
        SyncState::WaitPreSyncEnd => {
            if !bit {
                (SyncState::WaitSyncPattern, 255)
            } else {
                (SyncState::WaitPreSyncEnd, cnt)
            }
        },
        SyncState::WaitSyncPattern => {
            let exp = if cnt > 14 {
                false
            } else {
                cnt % 2 == 0
            };
            if bit == exp {
                if cnt - 1 == 0 {
                    (SyncState::ReadBL, 320)
                } else {
                    (SyncState::WaitSyncPattern, cnt - 1)
                }
            } else {
                (SyncState::WaitPreSync, cnt)
            }
        },
        SyncState::ReadBL => (SyncState::ReadBL, cnt - 1),
    }
}

/// The search from loop position `idx` in state `st`, with at most `n` bits left to read:
/// the position of the last bit of the bootloop when it was read whole, and the bootloop
/// contents as the search leaves them.
pub open spec fn scan_from(
    lp: Seq<bool>,
    st: SyncState,
    cnt: int,
    idx: int,
    n: nat,
    bl: Seq<bool>,
) -> (Option<int>, Seq<bool>)
    decreases n,
{
    if n == 0 {
        (None, bl)
    } else {
        let bit = lp[idx];
        if st == SyncState::ReadBL {
            let bl2 = bl.update(320 - cnt, bit);
            if cnt - 1 == 0 {
                (Some(idx), bl2)
            } else {
                scan_from(lp, SyncState::ReadBL, cnt - 1, (idx + 1) % 4096, (n - 1) as nat, bl2)
            }
        } else {
            let (st2, cnt2) = sync_step(st, cnt, bit);
            scan_from(lp, st2, cnt2, (idx + 1) % 4096, (n - 1) as nat, bl)
        }
    }
}

/// The search over a loop's bits, from position 0, reading at most 7833 bits, starting from
/// the bootloop contents `bl`.
pub open spec fn load_scan(lp: Seq<bool>, bl: Seq<bool>) -> (Option<int>, Seq<bool>) {
    scan_from(lp, SyncState::WaitPreSync, 0, 0, 7833, bl)
}

/// Bit `q` of a recorded bootloop, counted from the start of its run of set bits.
pub open spec fn saved_bit(bl: Seq<bool>, q: int) -> bool {
    if q < 3158 {
        true
    } else if q < 3400 {
        false
    } else if q < 3414 {
        (q - 3400) % 2 == 0
    } else if q < 3734 {
        bl[q - 3414]
    } else {
        false
    }
}

/// Position of the first bit of the run when the bootloop is recorded for offset `off`.
pub open spec fn saved_start(off: int) -> int {
    (off + 363) % 4096
}

/// The loop in which the bootloop is recorded for offset `off`.
pub open spec fn saved_loop(bl: Seq<bool>, off: int) -> Seq<bool> {
    Seq::new(4096, |i: int| saved_bit(bl, (i - saved_start(off)) % 4096))
}

pub proof fn lemma_pos(s0: int, q: int)
    requires
        0 <= s0 < 4096,
        0 <= q < 4096,
    ensures
        0 <= (s0 + q) % 4096 < 4096,
        ((s0 + q) % 4096 - s0) % 4096 == q,
        ((s0 + q) % 4096 + 1) % 4096 == (s0 + q + 1) % 4096,
{
    if s0 + q < 4096 {
        assert((s0 + q) % 4096 == s0 + q);
    } else {
        assert((s0 + q) % 4096 == s0 + q - 4096);
    }
}

/// Only position `(s0 + q) % 4096` of the loop lies `q` bits after position `s0`.
pub proof fn lemma_pos_unique(s0: int, i: int, q: int)
    requires
        0 <= s0 < 4096,
        0 <= i < 4096,
        0 <= q < 4096,
        (i - s0) % 4096 == q,
    ensures
        i == (s0 + q) % 4096,
{
    if i >= s0 {
        assert((i - s0) % 4096 == i - s0);
        assert((s0 + q) % 4096 == s0 + q);
    } else {
        assert((i - s0) % 4096 == i - s0 + 4096);
        assert((s0 + q) % 4096 == s0 + q - 4096);
    }
}

/// Reading the bootloop proper: from its bit `q` on, in state `ReadBL`.
proof fn lemma_read_bl(bl: Seq<bool>, off: int, q: int, n: nat, cur: Seq<bool>)
    requires
        off >= 0,
        bl.len() == 320,
        cur.len() == 320,
        3414 <= q <= 3733,
        n >= 3734 - q,
    ensures
        scan_from(
            saved_loop(bl, off),
            SyncState::ReadBL,
            3734 - q,
            (saved_start(off) + q) % 4096,
            n,
            cur,
        ) == (Some((saved_start(off) + 3733) % 4096), Seq::new(
            320,
            |j: int| if j < q - 3414 { cur[j] } else { bl[j] },
        )),
    decreases 3734 - q,
{
    let s0 = saved_start(off);
    let lp = saved_loop(bl, off);
    lemma_pos(s0, q);
    let idx = (s0 + q) % 4096;
    assert(lp[idx] == bl[q - 3414]);
    let cur2 = cur.update(q - 3414, lp[idx]);
    if q == 3733 {
        assert(cur2 =~= Seq::new(320, |j: int| if j < q - 3414 { cur[j] } else { bl[j] }));
    } else {
        lemma_pos(s0, q + 1);
        lemma_read_bl(bl, off, q + 1, (n - 1) as nat, cur2);
        assert(Seq::new(320, |j: int| if j < q + 1 - 3414 { cur2[j] } else { bl[j] }) =~= Seq::new(
            320,
            |j: int| if j < q - 3414 { cur[j] } else { bl[j] },
        ));
    }
}

/// Checking the clear bits and the pattern that precede the bootloop: from bit `q` on, in
/// state `WaitSyncPattern`.
proof fn lemma_pattern(bl: Seq<bool>, off: int, q: int, n: nat, cur: Seq<bool>)
    requires
        off >= 0,
        bl.len() == 320,
        cur.len() == 320,
        3159 <= q <= 3413,
        n >= 3734 - q,
    ensures
        scan_from(
            saved_loop(bl, off),
            SyncState::WaitSyncPattern,
            3414 - q,
            (saved_start(off) + q) % 4096,
            n,
            cur,
        ) == (Some((saved_start(off) + 3733) % 4096), bl),
    decreases 3414 - q,
{
    let s0 = saved_start(off);
    lemma_pos(s0, q);
    lemma_pos(s0, q + 1);
    if q == 3413 {
        lemma_read_bl(bl, off, 3414, (n - 1) as nat, cur);
        assert(Seq::new(320, |j: int| if j < 3414 - 3414 { cur[j] } else { bl[j] }) =~= bl);
    } else {
        lemma_pattern(bl, off, q + 1, (n - 1) as nat, cur);
    }
}

/// The run of set bits: from its bit `q` on, in state `WaitPreSyncMinLen`.
proof fn lemma_run(bl: Seq<bool>, off: int, q: int, n: nat, cur: Seq<bool>)
    requires
        off >= 0,
        bl.len() == 320,
        cur.len() == 320,
        1 <= q <= 3157,
        n >= 3734 - q,
    ensures
        scan_from(
            saved_loop(bl, off),
            SyncState::WaitPreSyncMinLen,
            3158 - q,
            (saved_start(off) + q) % 4096,
            n,
            cur,
        ) == (Some((saved_start(off) + 3733) % 4096), bl),
    decreases 3158 - q,
{
    let s0 = saved_start(off);
    lemma_pos(s0, q);
    lemma_pos(s0, q + 1);
    if q == 3157 {
        let lp = saved_loop(bl, off);
        lemma_pos(s0, 3158);
        lemma_pos(s0, 3159);
        assert(lp[(s0 + 3158) % 4096] == false);
        lemma_pattern(bl, off, 3159, (n - 2) as nat, cur);
        assert(scan_from(lp, SyncState::WaitPreSyncEnd, 0, (s0 + 3158) % 4096, (n - 1) as nat, cur)
            == scan_from(lp, SyncState::WaitSyncPattern, 255, (s0 + 3159) % 4096, (n - 2) as nat, cur));
    } else {
        lemma_run(bl, off, q + 1, (n - 1) as nat, cur);
    }
}

/// From the first bit of the run, in state `WaitPreSync`, the bootloop is read whole.
proof fn lemma_from_start(bl: Seq<bool>, off: int, cnt: int, n: nat, cur: Seq<bool>)
    requires
        off >= 0,
        bl.len() == 320,
        cur.len() == 320,
        n >= 3734,
    ensures
        scan_from(saved_loop(bl, off), SyncState::WaitPreSync, cnt, saved_start(off), n, cur) == (
        Some((saved_start(off) + 3733) % 4096), bl),
{
    let s0 = saved_start(off);
    lemma_pos(s0, 0);
    lemma_pos(s0, 1);
    lemma_run(bl, off, 1, (n - 1) as nat, cur);
}

/// The search phase, from bit `q` of the recorded bootloop on, after starting at bit `p`:
/// the search reaches the first bit of the run in state `WaitPreSync`.
proof fn lemma_search(
    bl: Seq<bool>,
    off: int,
    p: int,
    q: int,
    st: SyncState,
    cnt: int,
    n: nat,
    cur: Seq<bool>,
)
    requires
        off >= 0,
        bl.len() == 320,
        cur.len() == 320,
        1 <= p <= q < 4096,
        n >= 4096 - q + 3734,
        (st == SyncState::WaitPreSync && (q == p || q >= 3159)) || (st
            == SyncState::WaitPreSyncMinLen && p < q <= 3158 && cnt == 3158 - (q - p)) || (st
            == SyncState::WaitPreSyncMinLen && q >= 3159 && cnt + q >= 6316),
    ensures
        scan_from(saved_loop(bl, off), st, cnt, (saved_start(off) + q) % 4096, n, cur) == (
        Some((saved_start(off) + 3733) % 4096), bl),
    decreases 4096 - q,
{
    let s0 = saved_start(off);
    let lp = saved_loop(bl, off);
    lemma_pos(s0, q);
    let idx = (s0 + q) % 4096;
    let bit = lp[idx];
    assert(bit == saved_bit(bl, q));
    let (st2, cnt2) = sync_step(st, cnt, bit);
    if q == 4095 {
        assert((s0 + q + 1) % 4096 == s0);
        lemma_from_start(bl, off, cnt2, (n - 1) as nat, cur);
    } else {
        lemma_pos(s0, q + 1);
        lemma_search(bl, off, p, q + 1, st2, cnt2, (n - 1) as nat, cur);
    }
}

/// Searching a loop in which a bootloop was recorded for offset `off` finds that bootloop,
/// whatever the contents it starts from, and ends at position `off` modulo the loop length.
pub proof fn lemma_save_load(bl: Seq<bool>, off: int, start: Seq<bool>)
    requires
        bl.len() == 320,
        start.len() == 320,
        off >= 0,
    ensures
        load_scan(saved_loop(bl, off), start) == (Some(off % 4096), bl),
{
    let s0 = saved_start(off);
    assert((s0 + 3733) % 4096 == off % 4096);
    if s0 == 0 {
        lemma_from_start(bl, off, 0, 7833, start);
    } else {
        let p = 4096 - s0;
        assert((s0 + p) % 4096 == 0);
        lemma_search(bl, off, p, p, SyncState::WaitPreSync, 0, 7833, start);
    }
}

} // verus!

verus! {

/// Bit `q` of the recorded bootloop lies at position `(off + 363 + q) % 4096` of the loop.
proof fn lemma_saved_at(bl: Seq<bool>, off: int, q: int)
    requires
        0 <= off < 4096,
        0 <= q < 4096,
    ensures
        saved_loop(bl, off).len() == 4096,
        0 <= (off + 363 + q) % 4096 < 4096,
        saved_loop(bl, off)[(off + 363 + q) % 4096] == saved_bit(bl, q),
{
    let s0 = saved_start(off);
    lemma_pos(s0, q);
    if off + 363 >= 4096 {
        assert(s0 == off + 363 - 4096);
        vstd::arithmetic::div_mod::lemma_mod_add_multiples_vanish(s0 + q, 4096);
    } else {
        assert(s0 == off + 363);
    }
    assert((off + 363 + q) % 4096 == (s0 + q) % 4096);
}

/// The layout of a loop in which a bootloop is recorded for offset `off`: from position
/// `off + 363` on (around the loop), 3158 set bits, 242 clear bits, the sync pattern
/// `10101010101010` (set bit first), the 320 bootloop bits and 362 clear bits; the last
/// bootloop bit lies at position `off`.
pub proof fn lemma_recorded_layout(bl: Seq<bool>, off: int)
    requires
        bl.len() == 320,
        0 <= off < 4096,
    ensures
        saved_loop(bl, off).len() == 4096,
        forall|q: int| 0 <= q < 3158 ==> saved_loop(bl, off)[#[trigger] ((off + 363 + q) % 4096)],
        forall|q: int| 3158 <= q < 3400 ==> !saved_loop(bl, off)[#[trigger] ((off + 363 + q) % 4096)],
        saved_loop(bl, off)[(off + 3763) % 4096],
        !saved_loop(bl, off)[(off + 3764) % 4096],
        saved_loop(bl, off)[(off + 3765) % 4096],
        !saved_loop(bl, off)[(off + 3766) % 4096],
        saved_loop(bl, off)[(off + 3767) % 4096],
        !saved_loop(bl, off)[(off + 3768) % 4096],
        saved_loop(bl, off)[(off + 3769) % 4096],
        !saved_loop(bl, off)[(off + 3770) % 4096],
        saved_loop(bl, off)[(off + 3771) % 4096],
        !saved_loop(bl, off)[(off + 3772) % 4096],
        saved_loop(bl, off)[(off + 3773) % 4096],
        !saved_loop(bl, off)[(off + 3774) % 4096],
        saved_loop(bl, off)[(off + 3775) % 4096],
        !saved_loop(bl, off)[(off + 3776) % 4096],
        forall|j: int| 0 <= j < 320 ==> saved_loop(bl, off)[#[trigger] ((off + 3777 + j) % 4096)] == bl[j],
        saved_loop(bl, off)[(off + 4096) % 4096] == bl[319],
        forall|q: int| 3734 <= q < 4096 ==> !saved_loop(bl, off)[#[trigger] ((off + 363 + q) % 4096)],
{
    assert forall|q: int| 0 <= q < 3158 implies saved_loop(bl, off)[#[trigger] ((off + 363 + q) % 4096)] by {
        lemma_saved_at(bl, off, q);
    }
    assert forall|q: int| 3158 <= q < 3400 implies !saved_loop(bl, off)[#[trigger] ((off + 363 + q)
        % 4096)] by {
        lemma_saved_at(bl, off, q);
    }
    assert forall|q: int| 3734 <= q < 4096 implies !saved_loop(bl, off)[#[trigger] ((off + 363 + q)
        % 4096)] by {
        lemma_saved_at(bl, off, q);
    }
    assert forall|j: int| 0 <= j < 320 implies saved_loop(bl, off)[#[trigger] ((off + 3777 + j) % 4096)]
        == bl[j] by {
        lemma_saved_at(bl, off, 3414 + j);
    }
    lemma_saved_at(bl, off, 3733);
    lemma_saved_at(bl, off, 3400);
    lemma_saved_at(bl, off, 3401);
    lemma_saved_at(bl, off, 3402);
    lemma_saved_at(bl, off, 3403);
    lemma_saved_at(bl, off, 3404);
    lemma_saved_at(bl, off, 3405);
    lemma_saved_at(bl, off, 3406);
    lemma_saved_at(bl, off, 3407);
    lemma_saved_at(bl, off, 3408);
    lemma_saved_at(bl, off, 3409);
    lemma_saved_at(bl, off, 3410);
    lemma_saved_at(bl, off, 3411);
    lemma_saved_at(bl, off, 3412);
    lemma_saved_at(bl, off, 3413);
    lemma_saved_at(bl, 0, 0);
}

/// The search finds a bootloop in any loop laid out as a recording: from position
/// `off + 363` on (around the loop), 3158 set bits, 242 clear bits, the sync pattern
/// `10101010101010`, the 320 bits of `bl` and clear bits to the end. It reads `bl` and ends
/// at position `off`, whatever the contents it starts from.
pub proof fn lemma_find_recorded(lp: Seq<bool>, bl: Seq<bool>, off: int, start: Seq<bool>)
    requires
        lp.len() == 4096,
        bl.len() == 320,
        start.len() == 320,
        0 <= off < 4096,
        forall|q: int| 0 <= q < 3158 ==> lp[#[trigger] ((off + 363 + q) % 4096)],
        forall|q: int| 3158 <= q < 3400 ==> !lp[#[trigger] ((off + 363 + q) % 4096)],
        forall|k: int| 0 <= k < 7 ==> lp[#[trigger] ((off + 3763 + 2 * k) % 4096)],
        forall|k: int| 0 <= k < 7 ==> !lp[#[trigger] ((off + 3764 + 2 * k) % 4096)],
        forall|j: int| 0 <= j < 320 ==> lp[#[trigger] ((off + 3777 + j) % 4096)] == bl[j],
        forall|q: int| 3734 <= q < 4096 ==> !lp[#[trigger] ((off + 363 + q) % 4096)],
    ensures
        load_scan(lp, start) == (Some(off), bl),
{
    let sl = saved_loop(bl, off);
    let s0 = saved_start(off);
    assert forall|i: int| 0 <= i < 4096 implies lp[i] == sl[i] by {
        let q = (i - s0) % 4096;
        lemma_pos_unique(s0, i, q);
        lemma_saved_at(bl, off, q);
        if off + 363 >= 4096 {
            vstd::arithmetic::div_mod::lemma_mod_add_multiples_vanish(s0 + q, 4096);
        }
        assert(i == (off + 363 + q) % 4096);
        if 3400 <= q < 3414 {
            let k = (q - 3400) / 2;
            if (q - 3400) % 2 == 0 {
                assert(lp[(off + 3763 + 2 * k) % 4096]);
            } else {
                assert(!lp[(off + 3764 + 2 * k) % 4096]);
            }
        } else if 3414 <= q < 3734 {
            assert(lp[(off + 3777 + (q - 3414)) % 4096] == bl[q - 3414]);
        }
    }
    assert(lp =~= sl);
    lemma_save_load(bl, off, start);
}

} // verus!
