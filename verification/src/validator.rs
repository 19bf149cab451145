//! Health probes of pool entries.

use vstd::prelude::*;

verus! {

/// Verdict returned by [`EntryValidator::validate`].
#[derive(Debug, Clone)]
pub enum ValidationResult {
    /// Entry is safe to hand off.
    Healthy,
    /// Entry is rotten: destroy it and try the next one. The string is handed on
    /// with the entry, to be logged alongside metrics so operators can
    /// distinguish failure modes.
    Unhealthy(String),
}

/// Per-entry health probe, run on every acquire and after every successful
/// spawn of a refill tick.
///
/// Implementations typically do a sidecar `GET /health` over the entry's
/// vsock socket or a TCP probe to a known guest port. Anything that signals
/// "this VM is actually serving requests right now," not just "Firecracker
/// thinks it's alive."
pub trait EntryValidator: Send + Sync + 'static {
    /// Probe an entry's health. Called synchronously: return quickly, or the
    /// acquire path stalls.
    fn validate(&self, vm_id: &str) -> ValidationResult;
}

} // verus!
