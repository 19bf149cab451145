//! What each operation does to the pool, told field by field.

use crate::clock::{Moment, Span};
use crate::config::WarmPoolConfig;
use crate::laws::depth::{lemma_planned_jobs, one_job_per_bucket, owed};
use crate::laws::refilling::lemma_lacking_is_planned;
use crate::metrics::Counters;
use crate::model::{
    ids, is_fresh, spawn_next, AcquireView, EntryView, HandleView, JobView, PoolView,
    SpawnView, TickView,
};
use crate::naming::{law_vm_id_is_spelled_out, spells};
use crate::stack_key::StackKeyView;
use microvm_runtime::model::SnapshotRef;
use vstd::prelude::*;

verus! {

/// Whether a counter went from `before` to `after` by counting `by` times. It wraps
/// around.
pub open spec fn rose(before: u64, after: u64, by: nat) -> bool {
    (after - before - by) % 0x1_0000_0000_0000_0000 == 0
}

/// Whether the counters rose by these numbers, each by its own.
pub open spec fn counters_rose(
    before: Counters,
    after: Counters,
    created: nat,
    acquired: nat,
    evicted: nat,
    refill_runs: nat,
    validation_failures: nat,
) -> bool {
    &&& rose(before.created, after.created, created)
    &&& rose(before.acquired, after.acquired, acquired)
    &&& rose(before.evicted, after.evicted, evicted)
    &&& rose(before.refill_runs, after.refill_runs, refill_runs)
    &&& rose(before.validation_failures, after.validation_failures, validation_failures)
}

/// Whether the pool went from `before` to `after` with the same config, the same keys
/// in the same order and the same shutdown flag.
pub open spec fn same_frame(before: PoolView, after: PoolView) -> bool {
    &&& after.config == before.config
    &&& after.keys == before.keys
    &&& after.shutdown == before.shutdown
}

/// Whether `stack` is registered in `after` just when it is in `before`, and then with
/// the same snapshot, the same entries and the same numbering.
pub open spec fn same_bucket(before: PoolView, after: PoolView, stack: StackKeyView) -> bool {
    &&& after.buckets.contains_key(stack) <==> before.buckets.contains_key(stack)
    &&& before.buckets.contains_key(stack) ==> {
        &&& after.buckets[stack].source_snapshot == before.buckets[stack].source_snapshot
        &&& after.buckets[stack].entries == before.buckets[stack].entries
        &&& after.buckets[stack].next_seed == before.buckets[stack].next_seed
    }
}

/// Whether every key has the same bucket in `after` as in `before`.
pub open spec fn same_buckets(before: PoolView, after: PoolView) -> bool {
    forall|stack: StackKeyView| #[trigger] same_bucket(before, after, stack)
}

/// Whether `stack` is registered with at least one entry.
pub open spec fn has_entry(pool: PoolView, stack: StackKeyView) -> bool {
    pool.buckets.contains_key(stack) && pool.buckets[stack].entries.len() > 0
}

/// Whether `stack` is registered and has fewer entries than either mark.
pub open spec fn lacking(pool: PoolView, stack: StackKeyView) -> bool {
    &&& pool.buckets.contains_key(stack)
    &&& pool.buckets[stack].entries.len() < pool.config.min_depth
    &&& pool.buckets[stack].entries.len() < pool.config.max_depth
}

/// Whether `after` is `before` with the newest entry of `stack` taken out of its
/// bucket, and nothing else changed.
pub open spec fn newest_taken(before: PoolView, after: PoolView, stack: StackKeyView) -> bool {
    let was = before.buckets[stack];
    let is = after.buckets[stack];
    &&& same_frame(before, after)
    &&& after.buckets.contains_key(stack)
    &&& is.source_snapshot == was.source_snapshot
    &&& is.next_seed == was.next_seed
    &&& is.entries.len() == was.entries.len() - 1
    &&& forall|i: int| 0 <= i < is.entries.len() ==> is.entries[i] == was.entries[i]
    &&& forall|other: StackKeyView|
        other != stack ==> #[trigger] same_bucket(before, after, other)
}

/// A pool that was just started has the config that it was given, no key, no bucket,
/// nothing counted, and is not shut down.
pub proof fn law_start_is_empty(config: WarmPoolConfig, stack: StackKeyView)
    ensures
        ({
            let pool = PoolView::empty(config);
            &&& pool.config == config
            &&& pool.keys.len() == 0
            &&& !pool.buckets.contains_key(stack)
            &&& !pool.shutdown
            &&& pool.counters.created == 0
            &&& pool.counters.acquired == 0
            &&& pool.counters.evicted == 0
            &&& pool.counters.refill_runs == 0
            &&& pool.counters.validation_failures == 0
        }),
{
}

/// A pool is well-formed just when its keys are different and are those that have a
/// bucket.
pub proof fn law_well_formed_lists_each_key_once(pool: PoolView)
    ensures
        pool.well_formed() <==> {
            &&& forall|i: int, j: int|
                0 <= i < j < pool.keys.len() ==> #[trigger] pool.keys[i] != #[trigger] pool.keys[j]
            &&& forall|k: StackKeyView|
                pool.keys.contains(k) <==> #[trigger] pool.buckets.contains_key(k)
        },
{
}

/// A pool stays well-formed when a key is registered.
pub proof fn lemma_register_stays_well_formed(
    pool: PoolView,
    stack: StackKeyView,
    snapshot: SnapshotRef,
)
    requires
        pool.well_formed(),
    ensures
        pool.register(stack, snapshot).well_formed(),
{
    let after = pool.register(stack, snapshot);
    if !pool.buckets.contains_key(stack) {
        assert(!pool.keys.contains(stack));
        assert forall|k: StackKeyView| after.keys.contains(k) <==> #[trigger]
            after.buckets.contains_key(k) by {
            if k == stack {
                assert(after.keys.last() == stack);
            } else if pool.keys.contains(k) {
                assert(after.keys[pool.keys.index_of(k)] == k);
            } else if after.keys.contains(k) {
                assert(pool.keys[after.keys.index_of(k)] == k);
            }
        }
    }
}

/// A pool stays well-formed when a key is given up.
pub proof fn lemma_unregister_stays_well_formed(pool: PoolView, stack: StackKeyView)
    requires
        pool.well_formed(),
    ensures
        pool.unregister(stack).well_formed(),
{
    let after = pool.unregister(stack);
    let at = pool.keys.index_of(stack);
    if pool.buckets.contains_key(stack) {
        assert(pool.keys.contains(stack));
        assert forall|k: StackKeyView| after.keys.contains(k) <==> #[trigger]
            after.buckets.contains_key(k) by {
            if after.keys.contains(k) {
                let i = after.keys.index_of(k);
                let was = if i < at {
                    i
                } else {
                    i + 1
                };
                assert(pool.keys[was] == k);
            } else if pool.keys.contains(k) && k != stack {
                let was = pool.keys.index_of(k);
                assert(after.keys[if was < at {
                    was
                } else {
                    was - 1
                }] == k);
            }
        }
    }
}

/// Registering a key sets the snapshot of its bucket. A key that was registered keeps
/// its entries, its numbering and its place; a new one comes behind all others, with
/// no entries and with numbers from zero. All else stays.
pub proof fn law_register_effect(pool: PoolView, stack: StackKeyView, snapshot: SnapshotRef)
    ensures
        ({
            let after = pool.register(stack, snapshot);
            let known = pool.buckets.contains_key(stack);
            &&& after.config == pool.config
            &&& after.shutdown == pool.shutdown
            &&& counters_rose(pool.counters, after.counters, 0, 0, 0, 0, 0)
            &&& after.keys.len() == pool.keys.len() + (if known {
                0int
            } else {
                1
            })
            &&& forall|i: int| 0 <= i < pool.keys.len() ==> after.keys[i] == pool.keys[i]
            &&& !known ==> after.keys[pool.keys.len() as int] == stack
            &&& after.buckets.contains_key(stack)
            &&& after.buckets[stack].source_snapshot == snapshot
            &&& known ==> after.buckets[stack].entries == pool.buckets[stack].entries
            &&& known ==> after.buckets[stack].next_seed == pool.buckets[stack].next_seed
            &&& !known ==> after.buckets[stack].entries.len() == 0
            &&& !known ==> after.buckets[stack].next_seed == 0
            &&& forall|other: StackKeyView|
                other != stack ==> #[trigger] same_bucket(pool, after, other)
        }),
{
}

/// Giving up a key removes it and its bucket. The other keys keep their order and their
/// buckets. All else stays.
pub proof fn law_unregister_effect(pool: PoolView, stack: StackKeyView)
    requires
        pool.well_formed(),
    ensures
        ({
            let after = pool.unregister(stack);
            &&& after.config == pool.config
            &&& after.shutdown == pool.shutdown
            &&& counters_rose(pool.counters, after.counters, 0, 0, 0, 0, 0)
            &&& !after.buckets.contains_key(stack)
            &&& !after.keys.contains(stack)
            &&& after.keys == pool.keys.filter(|key: StackKeyView| key != stack)
            &&& forall|other: StackKeyView|
                other != stack ==> #[trigger] same_bucket(pool, after, other)
        }),
{
    let after = pool.unregister(stack);
    lemma_without_key(pool.keys, stack);
    lemma_unregister_stays_well_formed(pool, stack);
    assert(!after.buckets.contains_key(stack));
    if pool.buckets.contains_key(stack) {
        assert(pool.keys.contains(stack));
    } else {
        assert(!pool.keys.contains(stack));
    }
}

proof fn lemma_without_key(keys: Seq<StackKeyView>, stack: StackKeyView)
    requires
        keys.no_duplicates(),
    ensures
        keys.contains(stack) ==> keys.filter(|key: StackKeyView| key != stack) == keys.remove(
            keys.index_of(stack),
        ),
        !keys.contains(stack) ==> keys.filter(|key: StackKeyView| key != stack) == keys,
    decreases keys.len(),
{
    reveal(Seq::filter);
    let other = |key: StackKeyView| key != stack;
    if keys.len() > 0 {
        let front = keys.drop_last();
        lemma_without_key(front, stack);
        if keys.last() == stack {
            if front.contains(stack) {
                assert(keys[front.index_of(stack)] == keys[keys.len() - 1]);
            }
            assert(keys[keys.len() - 1] == stack);
            assert(keys.index_of(stack) == keys.len() - 1);
            assert(keys.remove(keys.len() - 1) =~= front);
        } else if keys.contains(stack) {
            let at = keys.index_of(stack);
            assert(front[at] == stack);
            assert(front.index_of(stack) == at);
            assert(keys.remove(at) =~= front.remove(at).push(keys.last()));
        } else {
            if front.contains(stack) {
                assert(keys[front.index_of(stack)] == stack);
            }
            assert(keys =~= front.push(keys.last()));
        }
    }
}

/// What is listed for a key that is given up are the VMs of its entries, each once and
/// in order: none where the key is not registered.
pub proof fn law_given_up_entries_are_listed(pool: PoolView, stack: StackKeyView)
    ensures
        ({
            let listed = ids(pool.entries(stack));
            &&& !pool.buckets.contains_key(stack) ==> listed.len() == 0
            &&& pool.buckets.contains_key(stack) ==> {
                &&& listed.len() == pool.buckets[stack].entries.len()
                &&& pool.entries(stack) == pool.buckets[stack].entries
                &&& forall|i: int|
                    0 <= i < listed.len() ==> #[trigger] listed[i]
                        == pool.buckets[stack].entries[i].vm_id
            }
        }),
{
}

/// An acquire takes up the newest entry of the key's bucket, and with it the snapshot
/// that is registered for the key. It is over at once just when the key has no entry.
/// Nothing is counted, and nothing else changes: no snapshot, no numbering, no other
/// bucket.
pub proof fn law_acquire_effect(pool: PoolView, stack: StackKeyView)
    ensures
        ({
            let (after, at) = pool.acquire(stack);
            &&& counters_rose(pool.counters, after.counters, 0, 0, 0, 0, 0)
            &&& !has_entry(pool, stack) ==> {
                &&& at == AcquireView::Done(None)
                &&& same_frame(pool, after)
                &&& same_buckets(pool, after)
            }
            &&& has_entry(pool, stack) ==> {
                let bucket = pool.buckets[stack];
                &&& at matches AcquireView::Validate(entry) && {
                    &&& entry.source_vm_id == bucket.entries[bucket.entries.len() - 1].vm_id
                    &&& entry.stack == stack
                    &&& entry.source_snapshot == bucket.source_snapshot
                }
                &&& newest_taken(pool, after, stack)
            }
        }),
{
}

/// The verdict on the entry that an acquire holds decides what becomes of that very
/// entry: healthy, it is handed off and counted as acquired; unhealthy, it is to be
/// destroyed and counted as a validation failure. No bucket changes.
pub proof fn law_acquire_verdict_effect(pool: PoolView, entry: HandleView, healthy: bool)
    ensures
        ({
            let (after, at) = pool.acquire_validated(entry, healthy);
            &&& same_frame(pool, after)
            &&& same_buckets(pool, after)
            &&& healthy ==> {
                &&& at == AcquireView::Done(Some(entry))
                &&& counters_rose(pool.counters, after.counters, 0, 1, 0, 0, 0)
            }
            &&& !healthy ==> {
                &&& at == AcquireView::Destroy(entry)
                &&& counters_rose(pool.counters, after.counters, 0, 0, 0, 0, 1)
            }
        }),
{
}

/// Once its unhealthy entry is destroyed, which counts as one eviction, an acquire takes
/// up the newest entry that is left for the same key, or is over where there is none.
pub proof fn law_acquire_retry_effect(pool: PoolView, rejected: HandleView)
    ensures
        ({
            let (after, at) = pool.acquire_destroyed(rejected);
            let stack = rejected.stack;
            &&& counters_rose(pool.counters, after.counters, 0, 0, 1, 0, 0)
            &&& !has_entry(pool, stack) ==> {
                &&& at == AcquireView::Done(None)
                &&& same_frame(pool, after)
                &&& same_buckets(pool, after)
            }
            &&& has_entry(pool, stack) ==> {
                let bucket = pool.buckets[stack];
                &&& at matches AcquireView::Validate(entry) && {
                    &&& entry.source_vm_id == bucket.entries[bucket.entries.len() - 1].vm_id
                    &&& entry.stack == stack
                    &&& entry.source_snapshot == bucket.source_snapshot
                }
                &&& newest_taken(pool, after, stack)
            }
        }),
{
}

/// A destroyed VM counts as one eviction, a reported tick as one refill run. Neither
/// depends on what is registered, and neither changes anything else.
pub proof fn law_counting_effect(pool: PoolView)
    ensures
        ({
            let after = pool.count_evicted();
            &&& same_frame(pool, after)
            &&& same_buckets(pool, after)
            &&& counters_rose(pool.counters, after.counters, 0, 0, 1, 0, 0)
        }),
        ({
            let after = pool.count_refill_run();
            &&& same_frame(pool, after)
            &&& same_buckets(pool, after)
            &&& counters_rose(pool.counters, after.counters, 0, 0, 0, 1, 0)
        }),
{
}

/// A shutdown sets the flag and empties every bucket. The keys stay registered, with
/// their snapshots and their numbering, and nothing is counted yet.
pub proof fn law_shutdown_effect(pool: PoolView)
    ensures
        ({
            let after = pool.drained();
            &&& after.shutdown
            &&& after.config == pool.config
            &&& after.keys == pool.keys
            &&& counters_rose(pool.counters, after.counters, 0, 0, 0, 0, 0)
            &&& forall|stack: StackKeyView| #[trigger]
                after.buckets.contains_key(stack) <==> pool.buckets.contains_key(stack)
            &&& forall|stack: StackKeyView| #[trigger]
                pool.buckets.contains_key(stack) ==> {
                    &&& after.buckets[stack].entries.len() == 0
                    &&& after.buckets[stack].source_snapshot == pool.buckets[stack].source_snapshot
                    &&& after.buckets[stack].next_seed == pool.buckets[stack].next_seed
                }
        }),
{
}

/// Whether `entry` has not passed the age `max_age` at `now`.
pub open spec fn young(entry: EntryView, now: Moment, max_age: Span) -> bool {
    now.nanos <= entry.created_at.nanos + max_age.nanos
}

/// Whether `after` is `before` with the entries that have passed the maximum age at
/// `now` taken out, the others left in their order, and nothing else changed.
pub open spec fn aged_taken(before: PoolView, after: PoolView, now: Moment) -> bool {
    &&& same_frame(before, after)
    &&& forall|stack: StackKeyView| #[trigger]
        after.buckets.contains_key(stack) <==> before.buckets.contains_key(stack)
    &&& forall|stack: StackKeyView| #[trigger]
        before.buckets.contains_key(stack) ==> {
            &&& after.buckets[stack].source_snapshot == before.buckets[stack].source_snapshot
            &&& after.buckets[stack].next_seed == before.buckets[stack].next_seed
            &&& after.buckets[stack].entries == before.buckets[stack].entries.filter(
                |entry: EntryView| young(entry, now, before.config.entry_max_age),
            )
        }
}

/// Whether `at` is a tick that goes on with `jobs`: it has the first of them at hand and
/// the others in its queue, or is over where there is none.
pub open spec fn goes_on_with(at: TickView, jobs: Seq<JobView>) -> bool {
    &&& jobs.len() == 0 ==> at is Done
    &&& jobs.len() > 0 ==> (at matches TickView::Create(spawn) && spawn.current == jobs[0]
        && spawn.queue == jobs.drop_first())
}

/// Whether the tick at `at` was planned for `before`, and `after` is `before` with the
/// numbers taken: each bucket that lacks entries gets one job, for as many as it takes
/// to the high-water mark, from the bucket's own snapshot and numbering on; no other
/// bucket gets one. Nothing else changes.
pub open spec fn planned(before: PoolView, after: PoolView, at: TickView) -> bool {
    let jobs = owed(at);
    &&& same_frame(before, after)
    &&& forall|stack: StackKeyView| #[trigger]
        after.buckets.contains_key(stack) <==> before.buckets.contains_key(stack)
    &&& forall|stack: StackKeyView| #[trigger]
        before.buckets.contains_key(stack) ==> {
            let was = before.buckets[stack];
            let wanted = if lacking(before, stack) {
                before.config.max_depth - was.entries.len()
            } else {
                0
            };
            &&& after.buckets[stack].source_snapshot == was.source_snapshot
            &&& after.buckets[stack].entries == was.entries
            &&& after.buckets[stack].next_seed == (if was.next_seed + wanted > u64::MAX {
                u64::MAX as int
            } else {
                was.next_seed + wanted
            })
        }
    &&& goes_on_with(at, jobs)
    &&& one_job_per_bucket(jobs)
    &&& forall|i: int|
        0 <= i < jobs.len() ==> {
            let job = #[trigger] jobs[i];
            &&& lacking(before, job.stack)
            &&& job.deficit == before.config.max_depth
                - before.buckets[job.stack].entries.len()
            &&& job.snapshot == before.buckets[job.stack].source_snapshot
            &&& job.next_seed == before.buckets[job.stack].next_seed
        }
    &&& forall|stack: StackKeyView| #[trigger]
        lacking(before, stack) ==> exists|i: int|
            0 <= i < jobs.len() && (#[trigger] jobs[i]).stack == stack
}

/// Jobs that all lack entries are gone through in order.
pub proof fn lemma_goes_on_with(jobs: Seq<JobView>)
    requires
        forall|i: int| 0 <= i < jobs.len() ==> (#[trigger] jobs[i]).deficit > 0,
    ensures
        goes_on_with(spawn_next(jobs), jobs),
        owed(spawn_next(jobs)) == jobs,
{
    if jobs.len() > 0 {
        assert(jobs[0].deficit > 0);
        assert(seq![jobs[0]] + jobs.drop_first() =~= jobs);
    } else {
        assert(jobs =~= Seq::empty());
    }
}

proof fn lemma_planned(pool: PoolView)
    requires
        pool.well_formed(),
    ensures
        planned(pool, pool.reserved(), spawn_next(pool.jobs())),
{
    let jobs = pool.jobs();
    let after = pool.reserved();
    lemma_planned_jobs(pool.keys, pool.buckets, pool.config);
    assert forall|i: int| 0 <= i < jobs.len() implies lacking(pool, (#[trigger] jobs[i]).stack) by {
        assert(pool.keys.contains(jobs[i].stack));
        assert(pool.buckets.contains_key(jobs[i].stack));
    }
    lemma_goes_on_with(jobs);
    assert forall|stack: StackKeyView| #[trigger] lacking(pool, stack) implies exists|i: int|
        0 <= i < jobs.len() && (#[trigger] jobs[i]).stack == stack by {
        assert(pool.keys.contains(stack));
        lemma_lacking_is_planned(pool.keys, pool.buckets, pool.config, stack);
    }
}

proof fn lemma_aged_taken(pool: PoolView, now: Moment)
    ensures
        aged_taken(pool, pool.without_aged(now), now),
        pool.without_aged(now).counters == pool.counters,
{
    let after = pool.without_aged(now);
    let max_age = pool.config.entry_max_age;
    let kept = |entry: EntryView| is_fresh(entry, now, max_age);
    let not_passed = |entry: EntryView| young(entry, now, max_age);
    assert forall|entry: EntryView| #[trigger] kept(entry) == not_passed(entry) by {}
    assert(kept =~= not_passed);
}

/// A refill tick begins by taking the entries that have passed the maximum age out of
/// their buckets. Where it took any, these wait to be destroyed; where it took none,
/// the spawns are planned at once. Nothing is counted yet.
pub proof fn law_tick_effect(pool: PoolView, now: Moment)
    requires
        pool.well_formed(),
    ensures
        ({
            let (after, at) = pool.tick(now);
            let victims = pool.aged_ids(now);
            &&& counters_rose(pool.counters, after.counters, 0, 0, 0, 0, 0)
            &&& victims.len() > 0 ==> at == TickView::Evict(victims) && aged_taken(
                pool,
                after,
                now,
            )
            &&& victims.len() == 0 ==> exists|kept: PoolView|
                #![trigger aged_taken(pool, kept, now)]
                aged_taken(pool, kept, now) && planned(kept, after, at)
        }),
{
    let kept = pool.without_aged(now);
    lemma_aged_taken(pool, now);
    lemma_planned(kept);
}

/// Each VM that a refill tick has destroyed for its age counts as one eviction. The tick
/// goes on with the next one, in order; behind the last it plans its spawns.
pub proof fn law_tick_eviction_effect(pool: PoolView, victims: Seq<Seq<char>>)
    requires
        pool.well_formed(),
        victims.len() > 0,
    ensures
        ({
            let (after, at) = pool.tick_evicted(victims);
            &&& counters_rose(pool.counters, after.counters, 0, 0, 1, 0, 0)
            &&& victims.len() > 1 ==> {
                &&& same_frame(pool, after)
                &&& same_buckets(pool, after)
                &&& at matches TickView::Evict(rest) && {
                    &&& rest.len() == victims.len() - 1
                    &&& forall|i: int| 0 <= i < rest.len() ==> rest[i] == victims[i + 1]
                }
            }
            &&& victims.len() == 1 ==> planned(pool, after, at)
        }),
{
    let counted = pool.count_evicted();
    if victims.len() == 1 {
        lemma_planned(counted);
        let (after, at) = pool.tick_evicted(victims);
        assert(planned(counted, after, at));
        assert forall|stack: StackKeyView| #[trigger] lacking(pool, stack) implies exists|i: int|
            0 <= i < owed(at).len() && (#[trigger] owed(at)[i]).stack == stack by {
            assert(lacking(counted, stack));
        }
    }
}

/// Whether `at` is the tick that follows the spawn at hand of `spawn`: the bucket at
/// hand, where it lacks more entries, with one spawn less to make and the next number;
/// behind it the queue as it was.
pub open spec fn next_spawn(spawn: SpawnView, at: TickView) -> bool {
    let current = spawn.current;
    let following = JobView {
        stack: current.stack,
        deficit: (current.deficit - 1) as nat,
        snapshot: current.snapshot,
        next_seed: if current.next_seed == u64::MAX {
            u64::MAX
        } else {
            (current.next_seed + 1) as u64
        },
    };
    goes_on_with(
        at,
        if current.deficit > 1 {
            seq![following] + spawn.queue
        } else {
            spawn.queue
        },
    )
}

/// Whether every bucket that `spawn` is still to serve lacks an entry.
pub open spec fn all_lacking(spawn: SpawnView) -> bool {
    &&& spawn.current.deficit > 0
    &&& forall|i: int| 0 <= i < spawn.queue.len() ==> (#[trigger] spawn.queue[i]).deficit > 0
}

/// Once a spawn is settled, a refill tick goes on with the next number of the same
/// bucket, as long as that lacks entries, and with the next bucket behind that.
pub proof fn law_next_spawn(spawn: SpawnView)
    requires
        all_lacking(spawn),
    ensures
        next_spawn(spawn, spawn.settled()),
{
    let jobs = seq![spawn.current.advanced()] + spawn.queue;
    assert(jobs.drop_first() =~= spawn.queue);
    lemma_goes_on_with(spawn.queue);
    if spawn.current.deficit > 1 {
        assert forall|i: int| 0 <= i < jobs.len() implies (#[trigger] jobs[i]).deficit > 0 by {
            if i > 0 {
                assert(jobs[i] == spawn.queue[i - 1]);
            }
        }
        lemma_goes_on_with(jobs);
    }
}

/// The VM that a refill tick asks for is named by the stack's name and version and by
/// the number at hand. Where it could be created it counts as created, and waits for its
/// verdict; where it could not, nothing is counted and the tick goes on with the next
/// bucket. The buckets stay as they are.
pub proof fn law_tick_creation_effect(pool: PoolView, spawn: SpawnView, succeeded: bool)
    requires
        all_lacking(spawn),
    ensures
        spells(spawn.vm_id(), spawn.current.stack, spawn.current.next_seed),
        ({
            let (after, at) = pool.tick_created(spawn, succeeded);
            &&& same_frame(pool, after)
            &&& same_buckets(pool, after)
            &&& succeeded ==> {
                &&& at == TickView::Validate(spawn)
                &&& counters_rose(pool.counters, after.counters, 1, 0, 0, 0, 0)
            }
            &&& !succeeded ==> {
                &&& goes_on_with(at, spawn.queue)
                &&& counters_rose(pool.counters, after.counters, 0, 0, 0, 0, 0)
            }
        }),
{
    law_vm_id_is_spelled_out(spawn.current.stack, spawn.current.next_seed);
    lemma_goes_on_with(spawn.queue);
}

/// Whether `after` is `before` with one entry more in the bucket of `stack`, behind the
/// others: the VM `id`, there since `now`. Nothing else changes.
pub open spec fn entry_joined(
    before: PoolView,
    after: PoolView,
    stack: StackKeyView,
    id: Seq<char>,
    now: Moment,
) -> bool {
    let was = before.buckets[stack];
    let is = after.buckets[stack];
    &&& same_frame(before, after)
    &&& after.buckets.contains_key(stack)
    &&& is.source_snapshot == was.source_snapshot
    &&& is.next_seed == was.next_seed
    &&& is.entries.len() == was.entries.len() + 1
    &&& forall|i: int| 0 <= i < was.entries.len() ==> is.entries[i] == was.entries[i]
    &&& is.entries[was.entries.len() as int].vm_id == id
    &&& is.entries[was.entries.len() as int].created_at == now
    &&& forall|other: StackKeyView|
        other != stack ==> #[trigger] same_bucket(before, after, other)
}

/// A spawned VM that is healthy joins the bucket of its key, if that is registered, and
/// the tick goes on. One that is healthy but has lost its bucket is to be destroyed; one
/// that is unhealthy too, and counts as a validation failure.
pub proof fn law_tick_verdict_effect(
    pool: PoolView,
    spawn: SpawnView,
    healthy: bool,
    now: Moment,
)
    requires
        all_lacking(spawn),
    ensures
        ({
            let (after, at) = pool.tick_validated(spawn, healthy, now);
            let stack = spawn.current.stack;
            let failures: nat = if healthy {
                0
            } else {
                1
            };
            &&& counters_rose(pool.counters, after.counters, 0, 0, 0, 0, failures)
            &&& healthy && pool.buckets.contains_key(stack) ==> {
                &&& next_spawn(spawn, at)
                &&& exists|id: Seq<char>| #[trigger]
                    spells(id, stack, spawn.current.next_seed) && entry_joined(
                        pool,
                        after,
                        stack,
                        id,
                        now,
                    )
            }
            &&& !(healthy && pool.buckets.contains_key(stack)) ==> {
                &&& at == TickView::Discard(spawn)
                &&& same_frame(pool, after)
                &&& same_buckets(pool, after)
            }
        }),
{
    law_next_spawn(spawn);
    law_vm_id_is_spelled_out(spawn.current.stack, spawn.current.next_seed);
    let (after, at) = pool.tick_validated(spawn, healthy, now);
    let stack = spawn.current.stack;
    if healthy && pool.buckets.contains_key(stack) {
        assert(entry_joined(pool, after, stack, spawn.vm_id(), now));
    }
}

/// A spawned VM that is destroyed again counts as one eviction, and the tick goes on.
pub proof fn law_tick_discard_effect(pool: PoolView, spawn: SpawnView)
    requires
        all_lacking(spawn),
    ensures
        ({
            let (after, at) = pool.tick_discarded(spawn);
            &&& same_frame(pool, after)
            &&& same_buckets(pool, after)
            &&& counters_rose(pool.counters, after.counters, 0, 0, 1, 0, 0)
            &&& next_spawn(spawn, at)
        }),
{
    law_next_spawn(spawn);
}

} // verus!
