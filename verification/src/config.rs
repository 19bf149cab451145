//! Tunables of the pool.

use crate::clock::Span;
use vstd::prelude::*;

verus! {

/// Tunables for the pool's refill scheduler and eviction policy.
#[derive(Debug, Clone, Copy, PartialEq, Eq, Structural)]
pub struct WarmPoolConfig {
    /// Low-water mark per registered key. When a bucket drops below this depth
    /// the next refill tick tops it up.
    pub min_depth: usize,
    /// High-water mark per registered key. Refill stops once depth hits this.
    pub max_depth: usize,
    /// Refill scheduler interval: how long the scheduler waits between ticks.
    /// Lower values trade CPU and provider load for shorter recovery after a
    /// burst of acquires.
    pub refill_interval: Span,
    /// Maximum age of a pool entry before it is evicted and recreated. Defends
    /// against stale snapshots (TAP leaks, kernel-side timer drift, sidecar
    /// caches gone stale, etc.).
    pub entry_max_age: Span,
}

impl Default for WarmPoolConfig {
    fn default() -> (config: WarmPoolConfig)
        ensures
            config.min_depth == 1,
            config.max_depth == 4,
            config.refill_interval.nanos == 5_000_000_000,
            config.entry_max_age.nanos == 600_000_000_000,
    {
        WarmPoolConfig {
            min_depth: 1,
            max_depth: 4,
            refill_interval: Span::from_secs(5),
            entry_max_age: Span::from_secs(600),
        }
    }
}

} // verus!
