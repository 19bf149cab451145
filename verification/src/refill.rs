//! One pass of the refill scheduler:
//!
//! 1. Evict any entry older than `entry_max_age`.
//! 2. For each registered key below `min_depth`, top up toward `max_depth` by
//!    spawning and validating new entries.

use crate::clock::Moment;
use crate::model::{spawn_next, texts, SpawnView, TickView};
use crate::naming::seed_vm_id;
use crate::pool::{jobs_view, RefillJob, WarmPool};
use crate::validator::ValidationResult;
use microvm_runtime::model::SnapshotRef;
use vstd::prelude::*;

verus! {

/// What a refill tick waits for.
#[derive(Debug)]
pub enum RefillTick {
    /// An entry that is too old has to be destroyed.
    Evict(Evicting),
    /// A VM has to be created.
    Create(Creating),
    /// The created VM has to be probed.
    Validate(Validating),
    /// The created VM has to be destroyed.
    Discard(Discarding),
    /// Nothing: the tick is over.
    Done,
}

/// A refill tick with an entry to destroy that is too old.
#[derive(Debug)]
pub struct Evicting {
    vm_id: String,
    rest: Vec<String>,
}

/// A refill tick with a VM to create.
#[derive(Debug)]
pub struct Creating {
    current: RefillJob,
    queue: Vec<RefillJob>,
}

/// A refill tick with a created VM to probe.
#[derive(Debug)]
pub struct Validating {
    current: RefillJob,
    queue: Vec<RefillJob>,
}

/// A refill tick with a created VM to destroy.
#[derive(Debug)]
pub struct Discarding {
    current: RefillJob,
    queue: Vec<RefillJob>,
    reason: Option<String>,
}

/// How a VM is to be created: restored from a snapshot, in the shape that the
/// snapshot was taken with. What is not said here is left to the provider.
#[derive(Debug)]
pub struct RestoreSpec {
    /// vCPU count.
    pub vcpu_count: u8,
    /// Memory size in MiB.
    pub mem_size_mib: u32,
    /// The snapshot to restore from.
    pub restore_from: SnapshotRef,
}

spec fn spawn_view(current: RefillJob, queue: Seq<RefillJob>) -> SpawnView {
    SpawnView { current: current@, queue: jobs_view(queue) }
}

impl View for Evicting {
    type V = Seq<Seq<char>>;

    /// The VMs that have to be destroyed, in order.
    closed spec fn view(&self) -> Seq<Seq<char>> {
        seq![self.vm_id@] + texts(self.rest@)
    }
}

impl View for Creating {
    type V = SpawnView;

    closed spec fn view(&self) -> SpawnView {
        spawn_view(self.current, self.queue@)
    }
}

impl View for Validating {
    type V = SpawnView;

    closed spec fn view(&self) -> SpawnView {
        spawn_view(self.current, self.queue@)
    }
}

impl View for Discarding {
    type V = SpawnView;

    closed spec fn view(&self) -> SpawnView {
        spawn_view(self.current, self.queue@)
    }
}

impl View for RefillTick {
    type V = TickView;

    open spec fn view(&self) -> TickView {
        match self {
            RefillTick::Evict(evicting) => TickView::Evict(evicting@),
            RefillTick::Create(creating) => TickView::Create(creating@),
            RefillTick::Validate(validating) => TickView::Validate(validating@),
            RefillTick::Discard(discarding) => TickView::Discard(discarding@),
            RefillTick::Done => TickView::Done,
        }
    }
}

/// Go on with the first of `jobs` that still lacks an entry.
fn spawn_first(jobs: Vec<RefillJob>) -> (next: RefillTick)
    ensures
        next@ == spawn_next(jobs_view(jobs@)),
        next is Create || next is Done,
{
    let mut queue = jobs;
    while queue.len() > 0
        invariant
            spawn_next(jobs_view(queue@)) == spawn_next(jobs_view(jobs@)),
        decreases queue.len(),
    {
        let ghost whole = queue@;
        let current = queue.remove(0);
        assert(jobs_view(queue@) =~= jobs_view(whole).drop_first());
        if current.deficit > 0 {
            return RefillTick::Create(Creating { current, queue });
        }
    }
    RefillTick::Done
}

/// Go on once the spawn at hand is settled.
fn spawn_another(current: RefillJob, queue: Vec<RefillJob>) -> (next: RefillTick)
    ensures
        next@ == spawn_view(current, queue@).settled(),
        next is Create || next is Done,
{
    let mut job = current;
    let ghost settled = seq![job@.advanced()] + jobs_view(queue@);
    assert(settled.drop_first() =~= jobs_view(queue@));
    if job.deficit <= 1 {
        spawn_first(queue)
    } else {
        job.deficit = job.deficit - 1;
        job.next_seed = job.next_seed.saturating_add(1);
        RefillTick::Create(Creating { current: job, queue })
    }
}

/// Go on with the eviction of `victims`, or with the plan where there is none.
fn evict_next(pool: &mut WarmPool, victims: Vec<String>) -> (next: RefillTick)
    requires
        old(pool)@.well_formed(),
    ensures
        final(pool)@.well_formed(),
        (final(pool)@, next@) == old(pool)@.tick_evicting(texts(victims@)),
{
    let mut rest = victims;
    assert(texts(rest@).len() == rest@.len());
    if rest.len() == 0 {
        let jobs = pool.plan_refills();
        spawn_first(jobs)
    } else {
        let vm_id = rest.remove(0);
        assert(seq![vm_id@] + texts(rest@) =~= texts(victims@));
        RefillTick::Evict(Evicting { vm_id, rest })
    }
}

impl WarmPool {
    /// Begin a refill tick at `now`.
    pub fn refill_tick(&mut self, now: Moment) -> (next: RefillTick)
        requires
            old(self)@.well_formed(),
        ensures
            final(self)@.well_formed(),
            (final(self)@, next@) == old(self)@.tick(now),
    {
        let victims = self.evict_aged(now);
        evict_next(self, victims)
    }
}

impl Evicting {
    /// The VM to destroy now.
    pub fn vm_id(&self) -> (vm_id: &str)
        ensures
            self@.len() > 0,
            vm_id@ == self@.first(),
    {
        self.vm_id.as_str()
    }

    /// The provider was asked to destroy the VM. Whether it could does not
    /// matter: the pool has let go of the VM.
    pub fn destroyed(self, pool: &mut WarmPool) -> (next: RefillTick)
        requires
            old(pool)@.well_formed(),
        ensures
            final(pool)@.well_formed(),
            (final(pool)@, next@) == old(pool)@.tick_evicted(self@),
    {
        pool.count_evicted();
        assert(texts(self.rest@) =~= self@.drop_first());
        evict_next(pool, self.rest)
    }
}

impl Creating {
    /// The ID to create the VM under.
    pub fn vm_id(&self) -> (vm_id: String)
        ensures
            vm_id@ == self@.vm_id(),
    {
        seed_vm_id(&self.current.stack, self.current.next_seed)
    }

    /// How to create the VM.
    pub fn spec(&self) -> (spec: RestoreSpec)
        ensures
            spec.vcpu_count == self@.current.stack.vcpu_count,
            spec.mem_size_mib == self@.current.stack.mem_size_mib,
            spec.restore_from == self@.current.snapshot,
    {
        RestoreSpec {
            vcpu_count: self.current.stack.vcpu_count,
            mem_size_mib: self.current.stack.mem_size_mib,
            restore_from: self.current.snapshot.clone(),
        }
    }

    /// The provider has created the VM, or has failed to. After a failure the
    /// bucket waits for the next tick, which avoids hot-spinning on a broken
    /// provider.
    pub fn created(self, pool: &mut WarmPool, succeeded: bool) -> (next: RefillTick)
        requires
            old(pool)@.well_formed(),
        ensures
            final(pool)@.well_formed(),
            (final(pool)@, next@) == old(pool)@.tick_created(self@, succeeded),
    {
        if succeeded {
            pool.count_created();
            RefillTick::Validate(Validating { current: self.current, queue: self.queue })
        } else {
            spawn_first(self.queue)
        }
    }
}

impl Validating {
    /// The VM to probe.
    pub fn vm_id(&self) -> (vm_id: String)
        ensures
            vm_id@ == self@.vm_id(),
    {
        seed_vm_id(&self.current.stack, self.current.next_seed)
    }

    /// The validator has given its verdict on the VM, at `now`.
    ///
    /// The bucket might have been unregistered since the tick was planned; the
    /// VM is destroyed in that case instead of leaking.
    pub fn validated(self, pool: &mut WarmPool, verdict: ValidationResult, now: Moment) -> (next:
        RefillTick)
        requires
            old(pool)@.well_formed(),
        ensures
            final(pool)@.well_formed(),
            (final(pool)@, next@) == old(pool)@.tick_validated(self@, verdict is Healthy, now),
            next matches RefillTick::Discard(discarding) ==> discarding.spec_reason() == (
            match verdict {
                ValidationResult::Healthy => None::<Seq<char>>,
                ValidationResult::Unhealthy(text) => Some(text@),
            }),
    {
        match verdict {
            ValidationResult::Healthy => {
                let vm_id = self.vm_id();
                match pool.push_entry(&self.current.stack, vm_id, now) {
                    None => spawn_another(self.current, self.queue),
                    Some(_) => RefillTick::Discard(
                        Discarding { current: self.current, queue: self.queue, reason: None },
                    ),
                }
            },
            ValidationResult::Unhealthy(reason) => {
                pool.count_validation_failure();
                RefillTick::Discard(
                    Discarding { current: self.current, queue: self.queue, reason: Some(reason) },
                )
            },
        }
    }
}

impl Discarding {
    /// What the validator found wrong with the VM: `None` where the VM is healthy
    /// and only its bucket is gone.
    pub closed spec fn spec_reason(&self) -> Option<Seq<char>> {
        match self.reason {
            Some(reason) => Some(reason@),
            None => None,
        }
    }

    /// What the validator found wrong with the VM: `None` where the VM is healthy
    /// and only its bucket is gone.
    pub fn reason(&self) -> (reason: Option<&str>)
        ensures
            match reason {
                Some(text) => self.spec_reason() == Some(text@),
                None => self.spec_reason() is None,
            },
    {
        match &self.reason {
            Some(reason) => Some(reason.as_str()),
            None => None,
        }
    }

    /// The VM to destroy.
    pub fn vm_id(&self) -> (vm_id: String)
        ensures
            vm_id@ == self@.vm_id(),
    {
        seed_vm_id(&self.current.stack, self.current.next_seed)
    }

    /// The provider was asked to destroy the VM. Whether it could does not
    /// matter: the VM never joined the pool.
    pub fn destroyed(self, pool: &mut WarmPool) -> (next: RefillTick)
        requires
            old(pool)@.well_formed(),
        ensures
            final(pool)@.well_formed(),
            (final(pool)@, next@) == old(pool)@.tick_discarded(self@),
    {
        pool.count_evicted();
        spawn_another(self.current, self.queue)
    }
}

/// A refill tick is in one of five states, and shows which: an entry to evict, a VM to
/// create, to probe or to destroy, or its end.
pub proof fn law_tick_shows_its_state(at: RefillTick)
    ensures
        match at {
            RefillTick::Evict(evicting) => at@ == TickView::Evict(evicting@),
            RefillTick::Create(creating) => at@ == TickView::Create(creating@),
            RefillTick::Validate(validating) => at@ == TickView::Validate(validating@),
            RefillTick::Discard(discarding) => at@ == TickView::Discard(discarding@),
            RefillTick::Done => at@ == TickView::Done,
        },
{
}

} // verus!
