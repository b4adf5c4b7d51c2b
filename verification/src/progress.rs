//! Progress accounting for a search session: the percentage of the corpus
//! scanned so far, held as an integer with five decimal places of precision,
//! and the wall-clock throttle that limits how often an update event may be
//! emitted.

use vstd::prelude::*;

use vstd::arithmetic::div_mod::{
    lemma_div_by_multiple, lemma_div_is_ordered, lemma_div_pos_is_pos,
};
use vstd::arithmetic::mul::{lemma_mul_inequality, lemma_mul_nonnegative};

use crate::text::{concat_bytes, dec_u64, dec_u64_pad, spec_dec, spec_dec_pad};

verus! {

/// One percentage point at the session's fixed precision: progress values
/// carry five decimal places, so a full scan is one hundred times this.
pub const PERCENT_UNIT: u64 = 100000;

/// The scaled percentage of `done` bytes out of `total`: the percentage
/// multiplied by `PERCENT_UNIT` and rounded down.
pub open spec fn spec_progress_scaled(done: int, total: int) -> int
    recommends
        0 < total,
{
    done * 10_000_000 / total
}

/// Progress never moves backwards as bytes are consumed, and never exceeds
/// one hundred percent of the total established at session start.
pub proof fn lemma_progress_monotone(d1: int, d2: int, total: int)
    requires
        0 <= d1 <= d2 <= total,
        0 < total,
    ensures
        0 <= spec_progress_scaled(d1, total),
        spec_progress_scaled(d1, total) <= spec_progress_scaled(d2, total),
        spec_progress_scaled(d2, total) <= 100 * PERCENT_UNIT,
{
    lemma_mul_nonnegative(d1, 10_000_000);
    lemma_div_pos_is_pos(d1 * 10_000_000, total);
    lemma_mul_inequality(d1, d2, 10_000_000);
    lemma_div_is_ordered(d1 * 10_000_000, d2 * 10_000_000, total);
    lemma_mul_inequality(d2, total, 10_000_000);
    lemma_div_is_ordered(d2 * 10_000_000, total * 10_000_000, total);
    lemma_div_by_multiple(10_000_000, total);
    assert(total * 10_000_000 == 10_000_000 * total) by (nonlinear_arith);
}

/// Compute the scaled percentage of `done` bytes out of `total`.
pub fn progress_scaled(done: u64, total: u64) -> (r: u64)
    requires
        0 < total,
        done <= total,
    ensures
        r == spec_progress_scaled(done as int, total as int),
        r <= 100 * PERCENT_UNIT,
{
    proof {
        lemma_mul_inequality(done as int, u64::MAX as int, 10_000_000);
        lemma_progress_monotone(done as int, done as int, total as int);
    }
    let wide: u128 = (done as u128) * 10_000_000u128 / (total as u128);
    wide as u64
}

/// The wire rendering of a scaled percentage: the whole percent part in
/// decimal, a dot, then exactly five fractional digits.
pub open spec fn spec_percent_render(scaled: int) -> Seq<u8>
    recommends
        0 <= scaled,
{
    spec_dec((scaled / 100000) as nat) + seq![46u8] + spec_dec_pad((scaled % 100000) as nat, 5)
}

/// Render a scaled percentage with its five decimal places.
pub fn render_percent(scaled: u64) -> (r: Vec<u8>)
    ensures
        r@ == spec_percent_render(scaled as int),
{
    let mut whole = dec_u64(scaled / 100000);
    whole.push(46);
    let frac = dec_u64_pad(scaled % 100000, 5);
    let r = concat_bytes(&whole, &frac);
    proof {
        assert(r@ =~= spec_percent_render(scaled as int));
    }
    r
}

/// The wall-clock throttle on progress updates: however often matches or
/// reads occur, an update event may be emitted at most once per interval.
pub struct Throttle {
    interval_ms: u64,
    last_emit_ms: u64,
}

impl Throttle {
    /// The fixed interval between updates, in milliseconds.
    pub closed spec fn spec_interval(self) -> u64 {
        self.interval_ms
    }

    /// When the previous update was emitted (or when the session started).
    pub closed spec fn spec_last(self) -> u64 {
        self.last_emit_ms
    }

    /// Whether an update is due at time `now`: a full interval has elapsed
    /// since the last emission.
    pub open spec fn spec_emits(self, now: u64) -> bool {
        self.spec_last() + self.spec_interval() <= now
    }

    /// Start a throttle: the first update becomes due one interval after
    /// `now_ms`.
    pub fn new(interval_ms: u64, now_ms: u64) -> (t: Throttle)
        ensures
            t.spec_interval() == interval_ms,
            t.spec_last() == now_ms,
    {
        Throttle { interval_ms, last_emit_ms: now_ms }
    }

    /// Ask whether an update may be emitted at time `now_ms`; when it may,
    /// the emission time is recorded so the next update is throttled against
    /// it.
    pub fn poll(&mut self, now_ms: u64) -> (emit: bool)
        ensures
            emit == old(self).spec_emits(now_ms),
            final(self).spec_interval() == old(self).spec_interval(),
            final(self).spec_last() == if emit {
                now_ms
            } else {
                old(self).spec_last()
            },
    {
        if now_ms >= self.last_emit_ms && now_ms - self.last_emit_ms >= self.interval_ms {
            self.last_emit_ms = now_ms;
            true
        } else {
            false
        }
    }
}

/// Consecutive emitted updates are at least one full interval apart: a burst
/// of matches cannot bypass the throttle, because once a poll emits at `n1`,
/// the throttle records `n1` and the next emission is only due an interval
/// later.
pub proof fn lemma_throttle_spacing(t1: Throttle, t2: Throttle, n1: u64, n2: u64)
    requires
        t1.spec_emits(n1),
        t2.spec_interval() == t1.spec_interval(),
        t2.spec_last() == n1,
        t2.spec_emits(n2),
    ensures
        n2 >= n1 + t1.spec_interval(),
{
}

} // verus!
