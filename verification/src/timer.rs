//! The repeating interval timer: it accumulates elapsed time while running,
//! reports a firing on every update whose accumulated progress reaches the
//! period, and keeps the overshoot as the next interval's progress. A paused
//! timer accumulates nothing and never fires.

use vstd::prelude::*;
use vstd::arithmetic::div_mod::lemma_fundamental_div_mod;
use vstd::arithmetic::div_mod::lemma_fundamental_div_mod_converse;
use vstd::arithmetic::div_mod::lemma_mod_bound;

verus! {

/// Largest period a timer accepts, so that one update's arithmetic stays
/// far from `u64` range.
pub const PERIOD_LIMIT: u64 = 1_000_000_000;

/// A repeating interval timer.
#[derive(Clone, Copy, PartialEq, Eq, Structural, Debug)]
pub struct RepeatTimer {
    /// Duration between firings.
    pub period: u64,
    /// Progress accumulated toward the next firing; always below `period`.
    pub elapsed: u64,
    /// While paused, updates leave `elapsed` unchanged and never fire.
    pub paused: bool,
    /// Whether the most recent update fired.
    pub just_finished: bool,
}

impl RepeatTimer {
    /// A valid timer: a positive, bounded period, with progress inside it.
    pub open spec fn wf(self) -> bool {
        &&& 0 < self.period <= PERIOD_LIMIT
        &&& self.elapsed < self.period
    }

    /// The timer after one update by `delta`: a paused timer only clears
    /// its firing flag; a running one adds `delta` to its progress, fires
    /// exactly when the sum reaches the period, and keeps the sum's
    /// remainder modulo the period as the new progress.
    pub open spec fn tick_spec(self, delta: u64) -> RepeatTimer {
        if self.paused {
            RepeatTimer { just_finished: false, ..self }
        } else if self.elapsed + delta >= self.period {
            RepeatTimer {
                elapsed: ((self.elapsed + delta) % (self.period as int)) as u64,
                just_finished: true,
                ..self
            }
        } else {
            RepeatTimer { elapsed: (self.elapsed + delta) as u64, just_finished: false, ..self }
        }
    }

    /// A fresh timer: running, at zero progress, not fired.
    pub fn new(period: u64) -> (t: RepeatTimer)
        requires
            0 < period <= PERIOD_LIMIT,
        ensures
            t == (RepeatTimer { period, elapsed: 0, paused: false, just_finished: false }),
            t.wf(),
    {
        RepeatTimer { period, elapsed: 0, paused: false, just_finished: false }
    }

    /// Stops progress accumulation; nothing else changes.
    pub fn pause(&mut self)
        ensures
            *final(self) == (RepeatTimer { paused: true, ..*old(self) }),
    {
        self.paused = true;
    }

    /// Resumes progress accumulation; nothing else changes, in particular
    /// the progress already accumulated is kept.
    pub fn unpause(&mut self)
        ensures
            *final(self) == (RepeatTimer { paused: false, ..*old(self) }),
    {
        self.paused = false;
    }

    /// One update by `delta`, as `tick_spec` states.
    pub fn tick(&mut self, delta: u64)
        requires
            old(self).wf(),
            old(self).elapsed + delta <= u64::MAX,
        ensures
            *final(self) == old(self).tick_spec(delta),
            final(self).wf(),
    {
        if self.paused {
            self.just_finished = false;
        } else {
            let total = self.elapsed + delta;
            if total >= self.period {
                proof {
                    lemma_mod_bound(total as int, self.period as int);
                }
                self.elapsed = total % self.period;
                self.just_finished = true;
            } else {
                self.elapsed = total;
                self.just_finished = false;
            }
        }
    }
}

/// A running timer whose progress equals `total % period` — `total` being
/// the time accumulated while running since it last read zero — fires on an
/// update by `delta` exactly when the accumulated total crosses a multiple
/// of the period, and its progress afterwards is again the remainder of the
/// new total: over any sequence of updates it fires exactly once per
/// multiple of the period crossed, and never twice in one update.
pub proof fn lemma_tick_fires_on_crossing(t: RepeatTimer, delta: u64, total: int)
    requires
        t.wf(),
        !t.paused,
        total >= 0,
        t.elapsed == total % (t.period as int),
    ensures
        t.tick_spec(delta).just_finished <==> (total + delta) / (t.period as int) > total / (
        t.period as int),
        t.tick_spec(delta).elapsed == (total + delta) % (t.period as int),
{
    let p = t.period as int;
    let q = total / p;
    lemma_fundamental_div_mod(total, p);
    assert(total == p * q + t.elapsed);
    let e2 = t.elapsed + delta;
    if e2 < p {
        assert(total + delta == (q * p) + e2) by (nonlinear_arith)
            requires
                total == p * q + t.elapsed,
                e2 == t.elapsed + delta;
        lemma_fundamental_div_mod_converse(total + delta, p, q, e2);
    } else {
        let q2 = e2 / p;
        lemma_fundamental_div_mod(e2, p);
        lemma_mod_bound(e2, p);
        assert(e2 == p * q2 + e2 % p);
        assert(q2 >= 1) by (nonlinear_arith)
            requires
                e2 == p * q2 + e2 % p,
                e2 >= p,
                0 <= e2 % p < p,
                p > 0;
        assert(total + delta == (q + q2) * p + e2 % p) by (nonlinear_arith)
            requires
                total == p * q + t.elapsed,
                e2 == t.elapsed + delta,
                e2 == p * q2 + e2 % p;
        lemma_fundamental_div_mod_converse(total + delta, p, q + q2, e2 % p);
    }
}

} // verus!
