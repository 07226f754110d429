//! The ranking function: scores an entry against the current time and the
//! corpus-wide maximum count. Commands executed within the last day rank
//! highest; older entries decay by a logarithmic time penalty scaled by the
//! most-used command's count, so frequently used commands stay visible
//! longer.
//!
//! The time penalty is the base-86400 logarithm of the entry's age, carried
//! in fixed-point arithmetic with 256 steps per doubling: `fp_log2(x)` is
//! `floor(256 * log2(x))` up to linear interpolation between powers of two,
//! and the penalty divides the corpus maximum by `fp_log2(age) /
//! fp_log2(86400)`. The interpolation keeps the penalty monotone in the age,
//! which is all the ordering relies on.

use vstd::arithmetic::div_mod::{
    lemma_div_is_ordered, lemma_div_is_ordered_by_denominator, lemma_div_multiples_vanish,
};
use vstd::arithmetic::mul::lemma_mul_inequality;
use vstd::prelude::*;

use crate::record::CmdData;

verus! {

/// Ages below this many seconds (just under one day) rank maximally.
pub const RECENT_WINDOW: u64 = 86399;

/// `fp_log2(86400)`: the fixed-point logarithm of one day in seconds.
pub const DAY_FP_LOG2: u64 = 4177;

/// Two to the power `e`.
pub open spec fn pow2(e: nat) -> nat
    decreases e,
{
    if e == 0 {
        1
    } else {
        2 * pow2((e - 1) as nat)
    }
}

/// The floor of the base-2 logarithm of `x` (0 for `x == 0`).
pub open spec fn lg(x: nat) -> nat
    decreases x,
{
    if x < 2 {
        0
    } else {
        1 + lg(x / 2)
    }
}

/// The fixed-point base-2 logarithm, in steps of 1/256: exact at powers of
/// two, linearly interpolated between them. Meaningful for `x >= 1`.
pub open spec fn fp_log2(x: nat) -> int {
    lg(x) * 256 + (x - pow2(lg(x))) * 256 / (pow2(lg(x)) as int)
}

pub proof fn lemma_pow2_pos(e: nat)
    ensures
        pow2(e) >= 1,
    decreases e,
{
    if e > 0 {
        lemma_pow2_pos((e - 1) as nat);
    }
}

pub proof fn lemma_pow2_mono(a: nat, b: nat)
    requires
        a <= b,
    ensures
        pow2(a) <= pow2(b),
    decreases b,
{
    if a < b {
        lemma_pow2_mono(a, (b - 1) as nat);
        lemma_pow2_pos((b - 1) as nat);
    }
}

/// `lg` really is the floor of the base-2 logarithm.
pub proof fn lemma_lg_bounds(x: nat)
    requires
        x >= 1,
    ensures
        pow2(lg(x)) <= x < pow2(lg(x) + 1),
    decreases x,
{
    if x >= 2 {
        lemma_lg_bounds(x / 2);
    }
}

/// `lg` is uniquely determined by the floor bounds.
pub proof fn lemma_lg_unique(x: nat, l: nat)
    requires
        pow2(l) <= x < pow2(l + 1),
    ensures
        l == lg(x),
{
    lemma_pow2_pos(l);
    lemma_lg_bounds(x);
    if l < lg(x) {
        lemma_pow2_mono(l + 1, lg(x));
    }
    if l > lg(x) {
        lemma_pow2_mono(lg(x) + 1, l);
    }
}

pub proof fn lemma_lg_mono(x: nat, y: nat)
    requires
        1 <= x <= y,
    ensures
        lg(x) <= lg(y),
{
    lemma_lg_bounds(x);
    lemma_lg_bounds(y);
    if lg(x) > lg(y) {
        lemma_pow2_mono(lg(y) + 1, lg(x));
    }
}

/// The interpolated fraction stays below the next step: `fp_log2` lies in
/// `[256 * lg(x), 256 * (lg(x) + 1))`.
pub proof fn lemma_fp_log2_bounds(x: nat)
    requires
        x >= 1,
    ensures
        lg(x) * 256 <= fp_log2(x) < (lg(x) + 1) * 256,
{
    let p = pow2(lg(x)) as int;
    lemma_lg_bounds(x);
    lemma_pow2_pos(lg(x));
    let num = (x - p) * 256;
    assert(num >= 0);
    lemma_div_is_ordered(0, num, p);
    assert(x < 2 * p);
    assert(num <= (p - 1) * 256);
    lemma_div_is_ordered(num, (p - 1) * 256, p);
    assert((p - 1) * 256 == p * 256 - 256);
    assert((p * 256 - 256) / p < 256) by (nonlinear_arith)
        requires
            p >= 1,
    ;
}

/// The fixed-point logarithm is monotone: an older age never gets a smaller
/// penalty.
pub proof fn lemma_fp_log2_mono(x: nat, y: nat)
    requires
        1 <= x <= y,
    ensures
        fp_log2(x) <= fp_log2(y),
{
    lemma_lg_mono(x, y);
    lemma_fp_log2_bounds(x);
    lemma_fp_log2_bounds(y);
    if lg(x) == lg(y) {
        let p = pow2(lg(x)) as int;
        lemma_pow2_pos(lg(x));
        assert((x - p) * 256 <= (y - p) * 256) by (nonlinear_arith)
            requires
                x <= y,
        ;
        lemma_div_is_ordered((x - p) * 256, (y - p) * 256, p);
    } else {
        assert((lg(x) + 1) * 256 <= lg(y) * 256) by (nonlinear_arith)
            requires
                lg(x) + 1 <= lg(y),
        ;
    }
}

/// The seconds elapsed since the entry's last execution (0 if the clock
/// reads earlier than the entry).
pub open spec fn age_secs(data: CmdData, now: u64) -> int {
    if now >= data.last_exec_time {
        now - data.last_exec_time
    } else {
        0
    }
}

/// The relevance score of an entry against the current time and the
/// corpus-wide maximum count. Entries younger than `RECENT_WINDOW` seconds
/// score `u64::MAX`; older ones score the corpus maximum divided by the
/// logarithmic time penalty, plus the entry's own count (clamped at
/// `u64::MAX`).
pub open spec fn rank_spec(data: CmdData, corpus_max: u64, now: u64) -> u64 {
    let secs = age_secs(data, now);
    if secs < RECENT_WINDOW {
        u64::MAX
    } else {
        let x = if secs + 1 > u64::MAX {
            u64::MAX as nat
        } else {
            (secs + 1) as nat
        };
        let q = corpus_max * (DAY_FP_LOG2 as int) / fp_log2(x);
        if q + data.count > u64::MAX {
            u64::MAX
        } else {
            (q + data.count) as u64
        }
    }
}

/// `fp_log2` of one day is the constant the score divides by, so an age at
/// the very edge of the window is penalized by exactly 1.
pub proof fn lemma_day_fp_log2()
    ensures
        fp_log2(86400) == DAY_FP_LOG2,
        lg(86400) == 16,
        pow2(16) == 65536,
{
    assert(pow2(16) == 65536) by {
        reveal_with_fuel(pow2, 17);
    }
    assert(lg(86400) == 16) by {
        reveal_with_fuel(lg, 18);
        reveal_with_fuel(pow2, 17);
    }
    assert((86400 - 65536) * 256 / 65536 == 81);
}

/// The penalty divisor of any age past the window is at least the day
/// constant, so the penalized score never exceeds the corpus maximum.
pub proof fn lemma_rank_quotient_bounded(data: CmdData, corpus_max: u64, now: u64)
    requires
        age_secs(data, now) >= RECENT_WINDOW,
    ensures
        ({
            let secs = age_secs(data, now);
            let x = if secs + 1 > u64::MAX {
                u64::MAX as nat
            } else {
                (secs + 1) as nat
            };
            &&& fp_log2(x) >= DAY_FP_LOG2
            &&& 0 <= corpus_max * (DAY_FP_LOG2 as int) / fp_log2(x) <= corpus_max
        }),
{
    let secs = age_secs(data, now);
    let x = if secs + 1 > u64::MAX {
        u64::MAX as nat
    } else {
        (secs + 1) as nat
    };
    lemma_day_fp_log2();
    lemma_fp_log2_mono(86400, x);
    let t = fp_log2(x);
    let c = DAY_FP_LOG2 as int;
    lemma_mul_inequality(c, t, corpus_max as int);
    assert(corpus_max * c == c * corpus_max) by (nonlinear_arith);
    assert(corpus_max * t == t * corpus_max) by (nonlinear_arith);
    lemma_div_is_ordered(corpus_max * c, corpus_max * t, t);
    lemma_div_multiples_vanish(corpus_max as int, t);
    lemma_div_is_ordered(0, corpus_max * c, t);
}

impl CmdData {
    /// Scores these statistics against time `now` and the corpus-wide
    /// maximum count `corpus_max`.
    pub fn rank(&self, corpus_max: u64, now: u64) -> (r: u64)
        ensures
            r == rank_spec(*self, corpus_max, now),
    {
        let secs: u64 = if now >= self.last_exec_time {
            now - self.last_exec_time
        } else {
            0
        };
        if secs < RECENT_WINDOW {
            u64::MAX
        } else {
            let x = secs.saturating_add(1);
            let t = fp_log2_exec(x);
            proof {
                lemma_rank_quotient_bounded(*self, corpus_max, now);
            }
            let q = ((corpus_max as u128) * (DAY_FP_LOG2 as u128) / (t as u128)) as u64;
            q.saturating_add(self.count)
        }
    }
}

impl crate::record::CmdRecord {
    /// Scores this entry against time `now` and the corpus-wide maximum
    /// count `corpus_max`.
    pub fn rank(&self, corpus_max: u64, now: u64) -> (r: u64)
        ensures
            r == rank_spec(self.cmd_data, corpus_max, now),
    {
        self.cmd_data.rank(corpus_max, now)
    }
}

/// Computes `fp_log2(x)` with machine integers.
fn fp_log2_exec(x: u64) -> (t: u64)
    requires
        x >= 1,
    ensures
        t == fp_log2(x as nat),
        t <= 63 * 256 + 255,
{
    let mut l: u64 = 0;
    let mut p: u64 = 1;
    while p <= x / 2
        invariant
            x >= 1,
            p == pow2(l as nat),
            1 <= p <= x,
            l <= 63,
        decreases x - p,
    {
        proof {
            if l >= 63 {
                assert(pow2(64) == 0x10000000000000000) by {
                    reveal_with_fuel(pow2, 65);
                }
                lemma_pow2_mono(64, (l + 1) as nat);
            }
        }
        p = p * 2;
        l = l + 1;
    }
    proof {
        assert(x < 2 * p);
        lemma_lg_unique(x as nat, l as nat);
        lemma_fp_log2_bounds(x as nat);
        lemma_pow2_pos(l as nat);
    }
    let frac = (((x - p) as u128) * 256 / (p as u128)) as u64;
    l * 256 + frac
}

/// Any entry executed within the last `RECENT_WINDOW` seconds (just under
/// one day) ranks maximally, whatever its count and whatever the corpus
/// maximum.
pub proof fn lemma_rank_recent(data: CmdData, corpus_max: u64, now: u64)
    requires
        age_secs(data, now) < RECENT_WINDOW,
    ensures
        rank_spec(data, corpus_max, now) == u64::MAX,
{
}

/// For a fixed entry and corpus maximum, the score never increases as time
/// passes: older, all else equal, never outranks newer.
pub proof fn lemma_rank_nonincreasing(data: CmdData, corpus_max: u64, now1: u64, now2: u64)
    requires
        now1 <= now2,
    ensures
        rank_spec(data, corpus_max, now1) >= rank_spec(data, corpus_max, now2),
{
    let s1 = age_secs(data, now1);
    let s2 = age_secs(data, now2);
    if s1 >= RECENT_WINDOW {
        let x1 = if s1 + 1 > u64::MAX {
            u64::MAX as nat
        } else {
            (s1 + 1) as nat
        };
        let x2 = if s2 + 1 > u64::MAX {
            u64::MAX as nat
        } else {
            (s2 + 1) as nat
        };
        lemma_rank_quotient_bounded(data, corpus_max, now1);
        lemma_rank_quotient_bounded(data, corpus_max, now2);
        lemma_fp_log2_mono(x1, x2);
        lemma_day_fp_log2();
        lemma_div_is_ordered_by_denominator(
            corpus_max * (DAY_FP_LOG2 as int),
            fp_log2(x1),
            fp_log2(x2),
        );
        lemma_div_is_ordered(0, corpus_max * (DAY_FP_LOG2 as int), fp_log2(x1));
    }
}

/// The same comparison for two entries of equal count observed at one
/// moment: the more recently executed one never ranks below the other.
pub proof fn lemma_rank_favors_recent(a: CmdData, b: CmdData, corpus_max: u64, now: u64)
    requires
        a.count == b.count,
        a.last_exec_time >= b.last_exec_time,
    ensures
        rank_spec(a, corpus_max, now) >= rank_spec(b, corpus_max, now),
{
    let sa = age_secs(a, now);
    let sb = age_secs(b, now);
    assert(sa <= sb);
    if sa >= RECENT_WINDOW {
        let x1 = if sa + 1 > u64::MAX {
            u64::MAX as nat
        } else {
            (sa + 1) as nat
        };
        let x2 = if sb + 1 > u64::MAX {
            u64::MAX as nat
        } else {
            (sb + 1) as nat
        };
        lemma_rank_quotient_bounded(a, corpus_max, now);
        lemma_rank_quotient_bounded(b, corpus_max, now);
        lemma_fp_log2_mono(x1, x2);
        lemma_day_fp_log2();
        lemma_div_is_ordered_by_denominator(
            corpus_max * (DAY_FP_LOG2 as int),
            fp_log2(x1),
            fp_log2(x2),
        );
        lemma_div_is_ordered(0, corpus_max * (DAY_FP_LOG2 as int), fp_log2(x1));
    }
}

} // verus!

