//! Keys do not interfere with each other, and what undoes what.

use crate::clock::Moment;
use crate::model::{gather, ids, AcquireView, EntryView, HandleView, PoolView, SpawnView};
use crate::stack_key::StackKeyView;
use microvm_runtime::model::SnapshotRef;
use vstd::prelude::*;

verus! {

/// What is done for one key leaves the buckets of all others as they are.
pub proof fn law_keys_do_not_interfere(
    pool: PoolView,
    stack: StackKeyView,
    other: StackKeyView,
    snapshot: SnapshotRef,
    entry: HandleView,
    spawn: SpawnView,
    healthy: bool,
    now: Moment,
)
    requires
        pool.well_formed(),
        pool.buckets.contains_key(other),
        other != stack,
        entry.stack == stack,
        spawn.current.stack == stack,
    ensures
        ({
            let bucket = pool.buckets[other];
            let same = |after: PoolView|
                after.buckets.contains_key(other) && after.buckets[other] == bucket;
            &&& same(pool.register(stack, snapshot))
            &&& same(pool.unregister(stack))
            &&& same(pool.acquire(stack).0)
            &&& same(pool.acquire_validated(entry, healthy).0)
            &&& same(pool.acquire_destroyed(entry).0)
            &&& same(pool.tick_validated(spawn, healthy, now).0)
            &&& same(pool.tick_discarded(spawn).0)
        }),
{
}

/// Registering a known key again replaces its snapshot, and keeps its entries and
/// its numbers. The last snapshot that was registered counts.
pub proof fn law_register_again_replaces_snapshot(
    pool: PoolView,
    stack: StackKeyView,
    first: SnapshotRef,
    second: SnapshotRef,
)
    requires
        pool.well_formed(),
    ensures
        pool.register(stack, first).entries(stack) == pool.entries(stack),
        pool.register(stack, first).buckets[stack].source_snapshot == first,
        pool.register(stack, first).register(stack, second) == pool.register(stack, second),
{
    let once = pool.register(stack, second);
    let twice = pool.register(stack, first).register(stack, second);
    assert(twice.buckets =~~= once.buckets);
    assert(twice =~= once);
}

/// Giving up a key that is not registered changes nothing; giving up one that was
/// just registered for the first time leaves the pool as it was before.
pub proof fn law_unregister_undoes_register(
    pool: PoolView,
    stack: StackKeyView,
    snapshot: SnapshotRef,
)
    requires
        pool.well_formed(),
        !pool.buckets.contains_key(stack),
    ensures
        pool.unregister(stack) == pool,
        pool.register(stack, snapshot).unregister(stack) == pool,
{
    let registered = pool.register(stack, snapshot);
    let back = registered.unregister(stack);
    let n = pool.keys.len() as int;
    assert(!pool.keys.contains(stack));
    assert(registered.keys[n] == stack);
    let at = registered.keys.index_of(stack);
    assert(0 <= at < registered.keys.len() && registered.keys[at] == stack);
    if at < n {
        assert(pool.keys[at] == stack);
    }
    assert(back.keys =~= pool.keys);
    assert(back.buckets =~= pool.buckets);
    assert(back =~= pool);
}

/// A key that was given up has no bucket: an acquire for it finds nothing.
pub proof fn law_unregistered_key_has_no_bucket(pool: PoolView, stack: StackKeyView)
    requires
        pool.well_formed(),
    ensures
        !pool.unregister(stack).buckets.contains_key(stack),
        pool.unregister(stack).acquire(stack) == (
            pool.unregister(stack),
            AcquireView::Done(None),
        ),
{
}

/// A shutdown leaves every bucket empty and its key registered; acquires find
/// nothing from then on. A second shutdown has nothing left to destroy and changes
/// nothing.
pub proof fn law_shutdown_is_idempotent(pool: PoolView, stack: StackKeyView)
    requires
        pool.well_formed(),
    ensures
        pool.drained().shutdown,
        pool.drained().buckets.contains_key(stack) <==> pool.buckets.contains_key(stack),
        pool.drained().entries(stack) == Seq::<EntryView>::empty(),
        pool.drained().acquire(stack) == (pool.drained(), AcquireView::Done(None)),
        pool.drained().drained() == pool.drained(),
        pool.drained().all_ids() == Seq::<Seq<char>>::empty(),
{
    let drained = pool.drained();
    assert(drained.drained().buckets =~~= drained.buckets);
    assert(drained.drained() =~= drained);
    lemma_nothing_gathered(pool, pool.keys);
}

proof fn lemma_nothing_gathered(pool: PoolView, keys: Seq<StackKeyView>)
    requires
        forall|i: int| 0 <= i < keys.len() ==> pool.buckets.contains_key(#[trigger] keys[i]),
    ensures
        gather(
            keys,
            |stack: StackKeyView| ids(pool.drained().buckets[stack].entries),
        ) == Seq::<Seq<char>>::empty(),
    decreases keys.len(),
{
    if keys.len() > 0 {
        let front = keys.drop_last();
        assert forall|i: int| 0 <= i < front.len() implies pool.buckets.contains_key(
            #[trigger] front[i],
        ) by {
            assert(front[i] == keys[i]);
        }
        lemma_nothing_gathered(pool, front);
        assert(pool.buckets.contains_key(keys[keys.len() - 1]));
        assert(ids(pool.drained().buckets[keys.last()].entries) =~= Seq::<Seq<char>>::empty());
    }
}

} // verus!
