//! No VM is lost: every spawned VM is handed off, evicted, in the pool, or in
//! the hands of an operation under way.

use crate::clock::Moment;
use crate::config::WarmPoolConfig;
use crate::laws::gathering::{
    lemma_fresh_and_aged, lemma_gather_len_at, lemma_gather_len_parts, lemma_gather_len_without,
    lemma_gather_same,
};
use crate::model::{
    aged, fresh, ids, spawn_next, AcquireView, EntryView, HandleView, JobView, PoolView, SpawnView,
    TickView,
};
use crate::stack_key::StackKeyView;
use microvm_runtime::model::SnapshotRef;
use vstd::prelude::*;

verus! {

/// How many VMs an acquire holds that stands at `at`.
pub open spec fn held_by_acquire(at: AcquireView) -> nat {
    if at is Done {
        0
    } else {
        1
    }
}

/// How many VMs a refill tick holds that stands at `at`.
pub open spec fn held_by_tick(at: TickView) -> nat {
    match at {
        TickView::Evict(victims) => victims.len(),
        TickView::Validate(_) => 1,
        TickView::Discard(_) => 1,
        _ => 0,
    }
}

/// How many of the spawned VMs are not accounted for, when operations under way
/// hold `held`: those spawned, less those handed off, evicted, in the pool and
/// held. The counters wrap around, so it is told up to their range.
pub open spec fn missing(pool: PoolView, held: nat) -> int {
    (pool.counters.created - pool.counters.acquired - pool.counters.evicted - pool.all_ids().len()
        - held) % 0x1_0000_0000_0000_0000
}

proof fn lemma_live_with_entries(pool: PoolView, stack: StackKeyView, entries: Seq<EntryView>)
    requires
        pool.well_formed(),
        pool.buckets.contains_key(stack),
    ensures
        pool.with_entries(stack, entries).all_ids().len() + pool.entries(stack).len()
            == pool.all_ids().len() + entries.len(),
{
    let after = pool.with_entries(stack, entries);
    let f = |k: StackKeyView| ids(pool.buckets[k].entries);
    let g = |k: StackKeyView| ids(after.buckets[k].entries);
    assert(pool.keys.contains(stack));
    let at = pool.keys.index_of(stack);
    assert forall|i: int| 0 <= i < pool.keys.len() && i != at implies f(#[trigger] pool.keys[i])
        == g(pool.keys[i]) by {}
    lemma_gather_len_at(pool.keys, f, g, at);
    assert(f(stack).len() == pool.entries(stack).len());
    assert(g(stack).len() == entries.len());
}

proof fn lemma_live_same(before: PoolView, after: PoolView)
    requires
        before.well_formed(),
        after.keys == before.keys,
        forall|stack: StackKeyView|
            before.keys.contains(stack) ==> (#[trigger] after.buckets[stack]).entries
                == before.buckets[stack].entries,
    ensures
        after.all_ids() == before.all_ids(),
{
    let f = |k: StackKeyView| ids(before.buckets[k].entries);
    let g = |k: StackKeyView| ids(after.buckets[k].entries);
    assert forall|i: int| 0 <= i < before.keys.len() implies f(#[trigger] before.keys[i]) == g(
        before.keys[i],
    ) by {
        assert(before.keys.contains(before.keys[i]));
        assert(after.buckets[before.keys[i]].entries == before.buckets[before.keys[i]].entries);
    }
    lemma_gather_same(before.keys, f, g);
}

proof fn lemma_live_reserved(pool: PoolView)
    requires
        pool.well_formed(),
    ensures
        pool.reserved().all_ids() == pool.all_ids(),
{
    assert forall|stack: StackKeyView| pool.keys.contains(stack) implies (
    #[trigger] pool.reserved().buckets[stack]).entries == pool.buckets[stack].entries by {
        assert(pool.buckets.contains_key(stack));
    }
    lemma_live_same(pool, pool.reserved());
}

proof fn lemma_live_without_aged(pool: PoolView, now: Moment)
    requires
        pool.well_formed(),
    ensures
        pool.without_aged(now).all_ids().len() + pool.aged_ids(now).len() == pool.all_ids().len(),
        pool.without_aged(now).well_formed(),
{
    let after = pool.without_aged(now);
    let max_age = pool.config.entry_max_age;
    let whole = |k: StackKeyView| ids(pool.buckets[k].entries);
    let part = |k: StackKeyView| ids(after.buckets[k].entries);
    let rest = |k: StackKeyView| ids(aged(pool.buckets[k].entries, now, max_age));
    assert forall|i: int| 0 <= i < pool.keys.len() implies whole(#[trigger] pool.keys[i]).len()
        == part(pool.keys[i]).len() + rest(pool.keys[i]).len() by {
        let k = pool.keys[i];
        assert(pool.keys.contains(k));
        assert(pool.buckets.contains_key(k));
        assert(after.buckets[k].entries == fresh(pool.buckets[k].entries, now, max_age));
        lemma_fresh_and_aged(pool.buckets[k].entries, now, max_age);
    }
    lemma_gather_len_parts(pool.keys, whole, part, rest);
}

/// A pool that was just started has nothing to account for.
pub proof fn law_start_accounts_for_all(config: WarmPoolConfig)
    ensures
        PoolView::empty(config).all_ids().len() == 0,
        missing(PoolView::empty(config), 0) == 0,
{
}

/// Registering a key, giving one up and shutting down lose no VM, nor does
/// destroying what was given up.
pub proof fn law_teardown_accounts_for_all(
    pool: PoolView,
    stack: StackKeyView,
    snapshot: SnapshotRef,
    elsewhere: nat,
)
    requires
        pool.well_formed(),
    ensures
        missing(pool.register(stack, snapshot), elsewhere) == missing(pool, elsewhere),
        missing(pool.unregister(stack), ids(pool.entries(stack)).len() + elsewhere) == missing(
            pool,
            elsewhere,
        ),
        missing(pool.drained(), pool.all_ids().len() + elsewhere) == missing(pool, elsewhere),
        missing(pool.count_evicted(), elsewhere) == missing(pool, 1 + elsewhere),
{
    let registered = pool.register(stack, snapshot);
    let listed = |k: StackKeyView| ids(pool.buckets[k].entries);
    if pool.buckets.contains_key(stack) {
        lemma_live_same(pool, registered);
        let unregistered = pool.unregister(stack);
        let at = pool.keys.index_of(stack);
        assert(pool.keys.contains(stack));
        assert(pool.keys[at] == stack);
        let kept = |k: StackKeyView| ids(unregistered.buckets[k].entries);
        lemma_gather_len_without(pool.keys, listed, at);
        assert forall|i: int| 0 <= i < unregistered.keys.len() implies listed(
            #[trigger] unregistered.keys[i],
        ) == kept(unregistered.keys[i]) by {
            let was = if i < at {
                i
            } else {
                i + 1
            };
            assert(unregistered.keys[i] == pool.keys[was]);
        }
        lemma_gather_same(unregistered.keys, listed, kept);
    } else {
        let more = |k: StackKeyView| ids(registered.buckets[k].entries);
        assert(registered.keys.drop_last() =~= pool.keys);
        assert forall|i: int| 0 <= i < pool.keys.len() implies listed(#[trigger] pool.keys[i])
            == more(pool.keys[i]) by {
            assert(pool.keys.contains(pool.keys[i]));
            assert(pool.buckets.contains_key(pool.keys[i]));
        }
        lemma_gather_same(pool.keys, listed, more);
        assert(more(stack).len() == 0);
    }
    let drained = pool.drained();
    let none = |k: StackKeyView| ids(drained.buckets[k].entries);
    assert forall|i: int| 0 <= i < pool.keys.len() implies listed(#[trigger] pool.keys[i]).len()
        == none(pool.keys[i]).len() + listed(pool.keys[i]).len() by {
        assert(pool.keys.contains(pool.keys[i]));
        assert(pool.buckets.contains_key(pool.keys[i]));
    }
    lemma_gather_len_parts(pool.keys, listed, none, listed);
    assert(pool.count_evicted().all_ids() == pool.all_ids());
}

/// No step of an acquire loses a VM: what it takes up is handed off or evicted.
pub proof fn law_acquire_accounts_for_all(
    pool: PoolView,
    stack: StackKeyView,
    entry: HandleView,
    healthy: bool,
    elsewhere: nat,
)
    requires
        pool.well_formed(),
    ensures
        ({
            let (after, at) = pool.acquire(stack);
            missing(after, held_by_acquire(at) + elsewhere) == missing(pool, elsewhere)
        }),
        ({
            let (after, at) = pool.acquire_validated(entry, healthy);
            missing(after, held_by_acquire(at) + elsewhere) == missing(pool, 1 + elsewhere)
        }),
        ({
            let (after, at) = pool.acquire_destroyed(entry);
            missing(after, held_by_acquire(at) + elsewhere) == missing(pool, 1 + elsewhere)
        }),
{
    if pool.entries(stack).len() > 0 {
        lemma_live_with_entries(pool, stack, pool.entries(stack).drop_last());
    }
    assert(pool.count_acquired().all_ids() == pool.all_ids());
    assert(pool.count_validation_failure().all_ids() == pool.all_ids());
    let counted = pool.count_evicted();
    assert(counted.all_ids() == pool.all_ids());
    if pool.entries(entry.stack).len() > 0 {
        lemma_live_with_entries(counted, entry.stack, pool.entries(entry.stack).drop_last());
    }
}

/// No step of a refill tick loses a VM: what is too old is evicted, and what is
/// spawned joins its bucket or is evicted.
pub proof fn law_tick_accounts_for_all(
    pool: PoolView,
    victims: Seq<Seq<char>>,
    spawn: SpawnView,
    succeeded: bool,
    healthy: bool,
    now: Moment,
    elsewhere: nat,
)
    requires
        pool.well_formed(),
        victims.len() > 0,
    ensures
        ({
            let (after, at) = pool.tick(now);
            missing(after, held_by_tick(at) + elsewhere) == missing(pool, elsewhere)
        }),
        ({
            let (after, at) = pool.tick_evicted(victims);
            missing(after, held_by_tick(at) + elsewhere) == missing(
                pool,
                victims.len() + elsewhere,
            )
        }),
        ({
            let (after, at) = pool.tick_created(spawn, succeeded);
            missing(after, held_by_tick(at) + elsewhere) == missing(pool, elsewhere)
        }),
        ({
            let (after, at) = pool.tick_validated(spawn, healthy, now);
            missing(after, held_by_tick(at) + elsewhere) == missing(pool, 1 + elsewhere)
        }),
        ({
            let (after, at) = pool.tick_discarded(spawn);
            missing(after, held_by_tick(at) + elsewhere) == missing(pool, 1 + elsewhere)
        }),
{
    let cleaned = pool.without_aged(now);
    lemma_live_without_aged(pool, now);
    lemma_live_reserved(cleaned);
    let counted = pool.count_evicted();
    assert(counted.all_ids() == pool.all_ids());
    lemma_live_reserved(counted);
    assert(pool.count_created().all_ids() == pool.all_ids());
    assert(pool.count_validation_failure().all_ids() == pool.all_ids());
    let stack = spawn.current.stack;
    if pool.buckets.contains_key(stack) {
        let entry = EntryView { vm_id: spawn.vm_id(), created_at: now };
        lemma_live_with_entries(pool, stack, pool.entries(stack).push(entry));
    }
    lemma_spawning_holds_none(cleaned.jobs());
    lemma_spawning_holds_none(counted.jobs());
    lemma_spawning_holds_none(spawn.queue);
    lemma_spawning_holds_none(seq![spawn.current.advanced()] + spawn.queue);
}

proof fn lemma_spawning_holds_none(jobs: Seq<JobView>)
    ensures
        held_by_tick(spawn_next(jobs)) == 0,
    decreases jobs.len(),
{
    if jobs.len() > 0 && jobs[0].deficit == 0 {
        lemma_spawning_holds_none(jobs.drop_first());
    }
}

} // verus!
