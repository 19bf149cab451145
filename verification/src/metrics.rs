//! Counters of what the pool has done.

use vstd::prelude::*;

verus! {

/// Snapshot of counters intended for Prometheus-style scraping, as
/// [`WarmPool::metrics`](crate::pool::WarmPool::metrics) returns it; no metrics
/// library dependency by design.
#[derive(Debug, Default, Clone)]
pub struct WarmPoolMetrics {
    /// Total number of pool entries ever spawned by refill ticks.
    pub created_total: u64,
    /// Total number of successful acquires.
    pub acquired_total: u64,
    /// Total number of entries evicted (age, validation failure, unregister,
    /// shutdown).
    pub evicted_total: u64,
    /// Total number of refill ticks run.
    pub refill_runs_total: u64,
    /// Total number of entries that the validator turned down, on an acquire or
    /// right after a spawn. Indicates pool quality, not pool throughput.
    pub validation_failures_total: u64,
}

/// The counter that follows `count`: one more, and zero behind the last.
pub open spec fn bumped(count: u64) -> u64 {
    if count == u64::MAX {
        0
    } else {
        (count + 1) as u64
    }
}

/// The counter that stands `by` behind `count`, wrapped around.
pub open spec fn bumped_by(count: u64, by: nat) -> u64 {
    ((count + by) % 0x1_0000_0000_0000_0000) as u64
}

/// Counting once and then `by` times more is counting one time more than `by`.
pub proof fn lemma_bumped_by(count: u64, by: nat)
    ensures
        bumped_by(count, 0) == count,
        bumped_by(bumped(count), by) == bumped_by(count, by + 1),
{
}

/// Running counters mirrored into [`WarmPoolMetrics`]. Each wraps around when
/// it overflows.
#[derive(Debug, Clone, Copy, PartialEq, Eq, Structural)]
pub struct Counters {
    /// Entries spawned.
    pub created: u64,
    /// Entries handed off.
    pub acquired: u64,
    /// Entries destroyed.
    pub evicted: u64,
    /// Refill ticks run.
    pub refill_runs: u64,
    /// Entries that the validator turned down.
    pub validation_failures: u64,
}

impl Default for Counters {
    fn default() -> (counters: Counters)
        ensures
            counters == Counters::zero(),
    {
        Counters { created: 0, acquired: 0, evicted: 0, refill_runs: 0, validation_failures: 0 }
    }
}

impl Counters {
    /// Counters that have counted nothing.
    pub open spec fn zero() -> Counters {
        Counters { created: 0, acquired: 0, evicted: 0, refill_runs: 0, validation_failures: 0 }
    }

    /// Copy the counters out for a scraper.
    pub fn snapshot(&self) -> (metrics: WarmPoolMetrics)
        ensures
            metrics.created_total == self.created,
            metrics.acquired_total == self.acquired,
            metrics.evicted_total == self.evicted,
            metrics.refill_runs_total == self.refill_runs,
            metrics.validation_failures_total == self.validation_failures,
    {
        WarmPoolMetrics {
            created_total: self.created,
            acquired_total: self.acquired,
            evicted_total: self.evicted,
            refill_runs_total: self.refill_runs,
            validation_failures_total: self.validation_failures,
        }
    }
}

/// A counter goes up by one, and from its largest value to zero. Counting as often as the
/// counter has values leads back to where it was.
pub proof fn law_counters_go_up_by_one(count: u64, by: nat)
    ensures
        count < u64::MAX ==> bumped(count) == count + 1,
        bumped(u64::MAX) == 0,
        count + by <= u64::MAX ==> bumped_by(count, by) == count + by,
        bumped_by(count, by + 0x1_0000_0000_0000_0000) == bumped_by(count, by),
{
}

} // verus!
