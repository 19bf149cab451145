//! Handing off a warm entry.

use crate::model::{AcquireView, HandleView};
use crate::pool::WarmPool;
use crate::stack_key::StackKey;
use crate::validator::ValidationResult;
use microvm_runtime::model::SnapshotRef;
use vstd::prelude::*;

verus! {

/// A pre-restored VM checked out of the pool, ready for the caller to bring up
/// under a new tenant identity.
///
/// The caller takes the [`SnapshotRef`] out of the handle, attaches their
/// per-tenant `network_overrides`, and has a provider create a VM that is
/// restored from it. Firecracker 1.10+ honors the override on restore: the
/// heavy kernel/init path is already done, so the new tenant only pays the
/// restore cost.
///
/// `source_vm_id` is informational: it identifies the pool entry that was
/// drained for this acquire. The pool has already let go of it by the time the
/// handle is returned, so the caller doesn't have to worry about
/// double-handoff.
#[derive(Debug, Clone)]
pub struct WarmPoolHandle {
    /// VM ID the pool was tracking before this acquire. Pool no longer holds
    /// any reference to it; the caller owns it.
    pub source_vm_id: String,
    /// Bucket key this entry was drained from.
    pub stack: StackKey,
    /// Snapshot that was registered for this bucket.
    pub source_snapshot: SnapshotRef,
}

impl View for WarmPoolHandle {
    type V = HandleView;

    open spec fn view(&self) -> HandleView {
        HandleView {
            source_vm_id: self.source_vm_id@,
            stack: self.stack@,
            source_snapshot: self.source_snapshot,
        }
    }
}

/// What an acquire waits for.
#[derive(Debug)]
pub enum Acquire {
    /// An entry has to be probed.
    Validate(Candidate),
    /// An unhealthy entry has to be destroyed.
    Destroy(Rejected),
    /// Nothing: the acquire is over, with an entry or with none.
    Done(Option<WarmPoolHandle>),
}

/// An acquire with an entry to probe.
#[derive(Debug)]
pub struct Candidate {
    entry: WarmPoolHandle,
}

/// An acquire with an unhealthy entry to destroy.
#[derive(Debug)]
pub struct Rejected {
    entry: WarmPoolHandle,
    reason: String,
}

impl View for Candidate {
    type V = HandleView;

    closed spec fn view(&self) -> HandleView {
        self.entry@
    }
}

impl View for Rejected {
    type V = HandleView;

    closed spec fn view(&self) -> HandleView {
        self.entry@
    }
}

impl View for Acquire {
    type V = AcquireView;

    open spec fn view(&self) -> AcquireView {
        match self {
            Acquire::Validate(candidate) => AcquireView::Validate(candidate@),
            Acquire::Destroy(rejected) => AcquireView::Destroy(rejected@),
            Acquire::Done(Some(handle)) => AcquireView::Done(Some(handle@)),
            Acquire::Done(None) => AcquireView::Done(None),
        }
    }
}

impl WarmPool {
    /// Hand off a pre-restored VM: take the newest entry out of `stack`'s
    /// bucket and have it probed. A healthy one becomes a [`WarmPoolHandle`];
    /// an unhealthy one is destroyed and the next entry is tried. The acquire
    /// ends with `None` once the bucket has no entry left.
    pub fn acquire(&mut self, stack: &StackKey) -> (next: Acquire)
        requires
            old(self)@.well_formed(),
        ensures
            final(self)@.well_formed(),
            (final(self)@, next@) == old(self)@.acquire(stack@),
            next is Validate <==> old(self)@.buckets.contains_key(stack@)
                && old(self)@.buckets[stack@].entries.len() > 0,
            !(next is Validate) ==> next == Acquire::Done(None),
    {
        match self.pop_entry(stack) {
            Some((vm_id, source_snapshot)) => Acquire::Validate(
                Candidate {
                    entry: WarmPoolHandle {
                        source_vm_id: vm_id,
                        stack: stack.clone(),
                        source_snapshot,
                    },
                },
            ),
            None => Acquire::Done(None),
        }
    }
}

impl Candidate {
    /// The VM to probe.
    pub fn vm_id(&self) -> (vm_id: &str)
        ensures
            vm_id@ == self@.source_vm_id,
    {
        self.entry.source_vm_id.as_str()
    }

    /// The validator has given its verdict on the VM.
    pub fn validated(self, pool: &mut WarmPool, verdict: ValidationResult) -> (next: Acquire)
        requires
            old(pool)@.well_formed(),
        ensures
            final(pool)@.well_formed(),
            (final(pool)@, next@) == old(pool)@.acquire_validated(self@, verdict is Healthy),
            verdict is Healthy ==> (next matches Acquire::Done(Some(handle)) && {
                &&& handle.source_vm_id@ == self@.source_vm_id
                &&& handle.stack@ == self@.stack
                &&& handle.source_snapshot == self@.source_snapshot
            }),
            verdict is Unhealthy ==> next is Destroy,
            next matches Acquire::Destroy(rejected) ==> (verdict matches ValidationResult::Unhealthy(
                text,
            ) && rejected.spec_reason() == text@),
    {
        match verdict {
            ValidationResult::Healthy => {
                pool.count_acquired();
                Acquire::Done(Some(self.entry))
            },
            ValidationResult::Unhealthy(reason) => {
                pool.count_validation_failure();
                Acquire::Destroy(Rejected { entry: self.entry, reason })
            },
        }
    }
}

impl Rejected {
    /// What the validator found wrong with the VM.
    pub closed spec fn spec_reason(&self) -> Seq<char> {
        self.reason@
    }

    /// What the validator found wrong with the VM.
    pub fn reason(&self) -> (reason: &str)
        ensures
            reason@ == self.spec_reason(),
    {
        self.reason.as_str()
    }

    /// The VM to destroy.
    pub fn vm_id(&self) -> (vm_id: &str)
        ensures
            vm_id@ == self@.source_vm_id,
    {
        self.entry.source_vm_id.as_str()
    }

    /// The provider was asked to destroy the VM. Whether it could does not
    /// matter: the pool has let go of the VM.
    pub fn destroyed(self, pool: &mut WarmPool) -> (next: Acquire)
        requires
            old(pool)@.well_formed(),
        ensures
            final(pool)@.well_formed(),
            (final(pool)@, next@) == old(pool)@.acquire_destroyed(self@),
    {
        pool.count_evicted();
        pool.acquire(&self.entry.stack)
    }
}

/// An acquire is in one of three states, and shows which: an entry to probe, an unhealthy
/// entry to destroy, or its end, with the entry that is handed off or with none.
pub proof fn law_acquire_shows_its_state(at: Acquire)
    ensures
        match at {
            Acquire::Validate(candidate) => at@ == AcquireView::Validate(candidate@),
            Acquire::Destroy(rejected) => at@ == AcquireView::Destroy(rejected@),
            Acquire::Done(None) => at@ == AcquireView::Done(None),
            Acquire::Done(Some(handle)) => at@ matches AcquireView::Done(Some(shown)) && {
                &&& shown.source_vm_id == handle.source_vm_id@
                &&& shown.stack == handle.stack@
                &&& shown.source_snapshot == handle.source_snapshot
            },
        },
{
}

} // verus!
