//! The simulation clock and the fixed-timestep accumulator that drives it.

use vstd::prelude::*;

verus! {

/// The monotonically increasing simulation clock. It is never decremented
/// except by the rollback routine, which sets it to a known past value and
/// then advances it back.
#[derive(Clone, Copy, Debug, PartialEq, Eq, Structural)]
pub struct NetworkTick(pub u64);

impl NetworkTick {
    pub fn new(value: u64) -> (r: NetworkTick)
        ensures
            r.0 == value,
    {
        NetworkTick(value)
    }
}

/// How the fixed-tick loop is driven: by the wall-clock accumulator, or by
/// an explicit request to run one tick (used by tests and tools).
#[derive(Clone, Copy, Debug, PartialEq, Eq, Structural)]
pub enum TickStrategy {
    Automatic,
    Manual,
}

/// Upper bound on the fixed-timestep period in nanoseconds (about 4.6 s);
/// keeps the catch-up arithmetic inside `u64`.
pub const MAX_PERIOD_NS: u64 = 0x4000_0000_0000_0000;

/// Multiplier applied to the round-trip time when choosing how far ahead of
/// the server the client should run.
pub const LEAD_RTT_FACTOR: u64 = 4;

/// A fixed-timestep accumulator measured in integer nanoseconds: wall-clock
/// time is added to a budget, and one tick pass is spent for every full
/// period in the budget.
#[derive(Clone, Copy, Debug, PartialEq, Eq, Structural)]
pub struct FixedTimestep {
    pub period_ns: u64,
    pub accumulated_ns: u64,
}

impl FixedTimestep {
    pub open spec fn wf(self) -> bool {
        0 < self.period_ns <= MAX_PERIOD_NS
    }

    pub fn new(period_ns: u64) -> (r: FixedTimestep)
        requires
            0 < period_ns <= MAX_PERIOD_NS,
        ensures
            r.wf(),
            r.period_ns == period_ns,
            r.accumulated_ns == 0,
    {
        FixedTimestep { period_ns, accumulated_ns: 0 }
    }

    /// Add wall-clock time to the budget, saturating at the top of `u64`.
    pub fn advance(&mut self, delta_ns: u64)
        ensures
            final(self).period_ns == old(self).period_ns,
            final(self).accumulated_ns == if old(self).accumulated_ns + delta_ns <= u64::MAX {
                old(self).accumulated_ns + delta_ns
            } else {
                u64::MAX as int
            },
    {
        if self.accumulated_ns <= u64::MAX - delta_ns {
            self.accumulated_ns = self.accumulated_ns + delta_ns;
        } else {
            self.accumulated_ns = u64::MAX;
        }
    }

    /// Whether a full period is available in the budget.
    pub fn ready(&self) -> (r: bool)
        ensures
            r == (self.accumulated_ns >= self.period_ns),
    {
        self.accumulated_ns >= self.period_ns
    }

    /// Spend one period of the budget if a full period is available; the
    /// result says whether a tick pass should run.
    pub fn expend(&mut self) -> (r: bool)
        ensures
            final(self).period_ns == old(self).period_ns,
            r == (old(self).accumulated_ns >= old(self).period_ns),
            r ==> final(self).accumulated_ns == old(self).accumulated_ns - old(self).period_ns,
            !r ==> final(self).accumulated_ns == old(self).accumulated_ns,
    {
        if self.accumulated_ns >= self.period_ns {
            self.accumulated_ns = self.accumulated_ns - self.period_ns;
            true
        } else {
            false
        }
    }
}

/// The extra wall-clock budget granted to the client when a snapshot with
/// tick `server_tick` arrives while the client clock reads `current_tick`:
/// the deficit against a target of `server_tick` plus `4 * rtt` of lead,
/// clamped to at most two periods per wall update.
pub open spec fn sync_bias_spec(server_tick: int, current_tick: int, period_ns: int, rtt_ns: int) -> int {
    let raw = (server_tick - current_tick) * period_ns + 4 * rtt_ns;
    if raw < 0 {
        0
    } else if raw > 2 * period_ns {
        2 * period_ns
    } else {
        raw
    }
}

/// Compute the tick-synchronization bias in nanoseconds.
pub fn sync_bias(server_tick: u64, current_tick: u64, period_ns: u64, rtt_ns: u64) -> (r: u64)
    requires
        0 < period_ns <= MAX_PERIOD_NS,
    ensures
        r == sync_bias_spec(server_tick as int, current_tick as int, period_ns as int, rtt_ns as int),
        r <= 2 * period_ns,
{
    let cap: u128 = 2 * (period_ns as u128);
    let lead: u128 = 4 * (rtt_ns as u128);
    if server_tick >= current_tick {
        let diff: u128 = (server_tick - current_tick) as u128;
        if diff >= 2 {
            proof {
                assert(diff * (period_ns as u128) >= 2 * (period_ns as u128)) by (nonlinear_arith)
                    requires
                        diff >= 2,
                        period_ns > 0,
                ;
            }
            (cap as u64)
        } else {
            proof {
                assert(diff * (period_ns as u128) <= period_ns as u128) by (nonlinear_arith)
                    requires
                        diff < 2,
                ;
            }
            let raw: u128 = diff * (period_ns as u128) + lead;
            if raw > cap {
                (cap as u64)
            } else {
                (raw as u64)
            }
        }
    } else {
        let behind: u128 = (current_tick - server_tick) as u128;
        proof {
            assert(behind * (period_ns as u128) <= 0xffff_ffff_ffff_ffffu128 * 0x4000_0000_0000_0000u128)
                by (nonlinear_arith)
                requires
                    behind <= 0xffff_ffff_ffff_ffffu128,
                    period_ns as u128 <= 0x4000_0000_0000_0000u128,
            ;
        }
        let deficit: u128 = behind * (period_ns as u128);
        proof {
            let s = server_tick as int;
            let c = current_tick as int;
            let p = period_ns as int;
            assert((s - c) * p == -((c - s) * p)) by (nonlinear_arith);
        }
        if lead > deficit {
            let raw: u128 = lead - deficit;
            if raw > cap {
                (cap as u64)
            } else {
                (raw as u64)
            }
        } else {
            0
        }
    }
}

} // verus!
