//! No VM is handed off twice.

use crate::clock::Moment;
use crate::config::WarmPoolConfig;
use crate::laws::gathering::lemma_fresh_among;
use crate::model::{ids, AcquireView, EntryView, PoolView, SpawnView};
use crate::stack_key::StackKeyView;
use microvm_runtime::model::SnapshotRef;
use vstd::prelude::*;

verus! {

/// Whether an entry of the pool is the VM `id`.
pub open spec fn tracks(pool: PoolView, id: Seq<char>) -> bool {
    exists|stack: StackKeyView, i: int|
        0 <= i < pool.entries(stack).len() && (#[trigger] pool.entries(stack)[i]).vm_id == id
}

/// Whether no two entries of the pool are the same VM.
pub open spec fn distinct(pool: PoolView) -> bool {
    forall|a: StackKeyView, i: int, b: StackKeyView, j: int|
        0 <= i < pool.entries(a).len() && 0 <= j < pool.entries(b).len() && (
        #[trigger] pool.entries(a)[i]).vm_id == (#[trigger] pool.entries(b)[j]).vm_id ==> a == b
            && i == j
}

/// A pool that was just started tracks no VM.
pub proof fn law_start_tracks_nothing(config: WarmPoolConfig, id: Seq<char>)
    ensures
        distinct(PoolView::empty(config)),
        !tracks(PoolView::empty(config), id),
{
}

/// Whether each bucket of `after` holds nothing that it did not hold in
/// `before`, and nothing twice.
spec fn shrunk(before: PoolView, after: PoolView) -> bool {
    forall|stack: StackKeyView|
        {
            &&& ids(#[trigger] after.entries(stack)).no_duplicates()
            &&& forall|i: int|
                0 <= i < after.entries(stack).len() ==> before.entries(stack).contains(
                    #[trigger] after.entries(stack)[i],
                )
        }
}

proof fn lemma_shrunk_stays_distinct(before: PoolView, after: PoolView)
    requires
        distinct(before),
        shrunk(before, after),
    ensures
        distinct(after),
        forall|id: Seq<char>| #[trigger] tracks(after, id) ==> tracks(before, id),
{
    assert forall|a: StackKeyView, i: int, b: StackKeyView, j: int|
        0 <= i < after.entries(a).len() && 0 <= j < after.entries(b).len() && (
        #[trigger] after.entries(a)[i]).vm_id == (#[trigger] after.entries(b)[j]).vm_id implies a
        == b && i == j by {
        let x = before.entries(a).index_of(after.entries(a)[i]);
        let y = before.entries(b).index_of(after.entries(b)[j]);
        assert(before.entries(a)[x] == after.entries(a)[i]);
        assert(before.entries(b)[y] == after.entries(b)[j]);
        assert(a == b);
        assert(ids(after.entries(a))[i] == ids(after.entries(a))[j]);
    }
    assert forall|id: Seq<char>| #[trigger] tracks(after, id) implies tracks(before, id) by {
        let (stack, i) = choose|stack: StackKeyView, i: int|
            0 <= i < after.entries(stack).len() && (#[trigger] after.entries(stack)[i]).vm_id == id;
        let x = before.entries(stack).index_of(after.entries(stack)[i]);
        assert(before.entries(stack)[x] == after.entries(stack)[i]);
    }
}

proof fn lemma_same_entries_stay_distinct(before: PoolView, after: PoolView)
    requires
        distinct(before),
        forall|stack: StackKeyView| #[trigger] after.entries(stack) == before.entries(stack),
    ensures
        distinct(after),
{
}

proof fn lemma_ids_of_distinct(pool: PoolView, stack: StackKeyView)
    requires
        distinct(pool),
    ensures
        ids(pool.entries(stack)).no_duplicates(),
{
    let entries = pool.entries(stack);
    assert forall|i: int, j: int| 0 <= i < j < entries.len() implies ids(entries)[i] != ids(
        entries,
    )[j] by {
        assert(entries[i].vm_id == ids(entries)[i]);
        assert(entries[j].vm_id == ids(entries)[j]);
    }
}

/// What an acquire takes up is no longer in the pool: no later acquire can hand
/// the same VM off again, and no eviction can destroy it.
pub proof fn law_acquired_entry_is_gone(pool: PoolView, stack: StackKeyView)
    requires
        pool.well_formed(),
        distinct(pool),
    ensures
        distinct(pool.acquire(stack).0),
        pool.acquire(stack).1 matches AcquireView::Validate(entry) ==> {
            &&& tracks(pool, entry.source_vm_id)
            &&& !tracks(pool.acquire(stack).0, entry.source_vm_id)
        },
{
    let after = pool.acquire(stack).0;
    let entries = pool.entries(stack);
    if entries.len() > 0 {
        assert forall|k: StackKeyView|
            {
                &&& ids(#[trigger] after.entries(k)).no_duplicates()
                &&& forall|i: int|
                    0 <= i < after.entries(k).len() ==> pool.entries(k).contains(
                        #[trigger] after.entries(k)[i],
                    )
            } by {
            lemma_ids_of_distinct(pool, k);
            if k == stack {
                assert(after.entries(k) == entries.drop_last());
                assert(ids(after.entries(k)) =~= ids(entries).drop_last());
                assert forall|i: int| 0 <= i < after.entries(k).len() implies pool.entries(
                    k,
                ).contains(#[trigger] after.entries(k)[i]) by {
                    assert(entries[i] == after.entries(k)[i]);
                }
            } else {
                assert(after.entries(k) == pool.entries(k));
            }
        }
        lemma_shrunk_stays_distinct(pool, after);
        let last = entries.len() - 1;
        let id = entries[last].vm_id;
        assert(pool.entries(stack)[last].vm_id == id);
        if tracks(after, id) {
            let (k, i) = choose|k: StackKeyView, i: int|
                0 <= i < after.entries(k).len() && (#[trigger] after.entries(k)[i]).vm_id == id;
            assert(pool.entries(k)[i] == after.entries(k)[i]);
        }
    }
}

/// The entries of the pool stay different VMs whatever is done to it, as long as
/// the provider creates no VM under an ID that the pool already tracks.
pub proof fn law_entries_stay_distinct(
    pool: PoolView,
    stack: StackKeyView,
    snapshot: SnapshotRef,
    victims: Seq<Seq<char>>,
    spawn: SpawnView,
    healthy: bool,
    now: Moment,
)
    requires
        pool.well_formed(),
        distinct(pool),
    ensures
        distinct(pool.register(stack, snapshot)),
        distinct(pool.unregister(stack)),
        distinct(pool.drained()),
        distinct(pool.tick(now).0),
        distinct(pool.tick_evicted(victims).0),
        !tracks(pool, spawn.vm_id()) ==> distinct(pool.tick_validated(spawn, healthy, now).0),
{
    let registered = pool.register(stack, snapshot);
    let unregistered = pool.unregister(stack);
    let drained = pool.drained();
    let cleaned = pool.without_aged(now);
    let max_age = pool.config.entry_max_age;
    lemma_same_entries_stay_distinct(pool, registered);
    lemma_same_entries_stay_distinct(pool, pool.tick_evicted(victims).0);
    assert forall|k: StackKeyView|
        {
            &&& ids(#[trigger] unregistered.entries(k)).no_duplicates()
            &&& forall|i: int|
                0 <= i < unregistered.entries(k).len() ==> pool.entries(k).contains(
                    #[trigger] unregistered.entries(k)[i],
                )
        } by {
        lemma_ids_of_distinct(pool, k);
        if k != stack {
            assert(unregistered.entries(k) == pool.entries(k));
        }
    }
    lemma_shrunk_stays_distinct(pool, unregistered);
    assert forall|k: StackKeyView| #[trigger] drained.entries(k) == Seq::<EntryView>::empty() by {}
    assert(shrunk(pool, drained));
    lemma_shrunk_stays_distinct(pool, drained);
    assert forall|k: StackKeyView|
        {
            &&& ids(#[trigger] cleaned.entries(k)).no_duplicates()
            &&& forall|i: int|
                0 <= i < cleaned.entries(k).len() ==> pool.entries(k).contains(
                    #[trigger] cleaned.entries(k)[i],
                )
        } by {
        lemma_ids_of_distinct(pool, k);
        lemma_fresh_among(pool.entries(k), now, max_age);
    }
    lemma_shrunk_stays_distinct(pool, cleaned);
    lemma_same_entries_stay_distinct(cleaned, cleaned.reserved());
    if !tracks(pool, spawn.vm_id()) {
        let key = spawn.current.stack;
        let after = pool.tick_validated(spawn, healthy, now).0;
        if healthy && pool.buckets.contains_key(key) {
            let entries = pool.entries(key);
            let entry = EntryView { vm_id: spawn.vm_id(), created_at: now };
            assert forall|k: StackKeyView| #[trigger]
                after.entries(k) == (if k == key {
                    entries.push(entry)
                } else {
                    pool.entries(k)
                }) by {}
            assert forall|a: StackKeyView, i: int, b: StackKeyView, j: int|
                0 <= i < after.entries(a).len() && 0 <= j < after.entries(b).len() && (
                #[trigger] after.entries(a)[i]).vm_id == (
                #[trigger] after.entries(b)[j]).vm_id implies a == b && i == j by {
                let new_a = a == key && i == entries.len();
                let new_b = b == key && j == entries.len();
                if !new_a {
                    assert(after.entries(a)[i] == pool.entries(a)[i]);
                }
                if !new_b {
                    assert(after.entries(b)[j] == pool.entries(b)[j]);
                }
            }
        } else {
            lemma_same_entries_stay_distinct(pool, after);
        }
    }
}

/// The pool tracks only VMs that were spawned for it and found healthy: nothing that
/// is done to it makes it track another VM but a spawn with a healthy verdict, and
/// that one only while its key is registered.
pub proof fn law_only_healthy_spawns_join(
    pool: PoolView,
    stack: StackKeyView,
    snapshot: SnapshotRef,
    victims: Seq<Seq<char>>,
    spawn: SpawnView,
    healthy: bool,
    now: Moment,
    id: Seq<char>,
)
    requires
        pool.well_formed(),
        !tracks(pool, id),
    ensures
        !tracks(pool.register(stack, snapshot), id),
        !tracks(pool.unregister(stack), id),
        !tracks(pool.acquire(stack).0, id),
        !tracks(pool.drained(), id),
        !tracks(pool.tick(now).0, id),
        !tracks(pool.tick_evicted(victims).0, id),
        tracks(pool.tick_validated(spawn, healthy, now).0, id) <==> healthy && id == spawn.vm_id()
            && pool.buckets.contains_key(spawn.current.stack),
{
    let kept = pool.without_aged(now);
    assert forall|k: StackKeyView, i: int| 0 <= i < kept.entries(k).len() implies pool.entries(
        k,
    ).contains(#[trigger] kept.entries(k)[i]) by {
        lemma_fresh_among(pool.entries(k), now, pool.config.entry_max_age);
    }
    lemma_untracked_stays_so(pool, pool.register(stack, snapshot), id);
    lemma_untracked_stays_so(pool, pool.unregister(stack), id);
    lemma_untracked_stays_so(pool, pool.acquire(stack).0, id);
    lemma_untracked_stays_so(pool, pool.drained(), id);
    lemma_untracked_stays_so(pool, kept, id);
    lemma_untracked_stays_so(kept, pool.tick(now).0, id);
    lemma_untracked_stays_so(pool, pool.tick_evicted(victims).0, id);
    let after = pool.tick_validated(spawn, healthy, now).0;
    let key = spawn.current.stack;
    if healthy && pool.buckets.contains_key(key) {
        let entries = pool.entries(key);
        assert(after.entries(key)[entries.len() as int].vm_id == spawn.vm_id());
        if tracks(after, id) {
            let (k, i) = choose|k: StackKeyView, i: int|
                0 <= i < after.entries(k).len() && (#[trigger] after.entries(k)[i]).vm_id == id;
            if k != key || i < entries.len() {
                assert(pool.entries(k)[i] == after.entries(k)[i]);
            }
        }
    } else {
        lemma_untracked_stays_so(pool, after, id);
    }
}

proof fn lemma_untracked_stays_so(before: PoolView, after: PoolView, id: Seq<char>)
    requires
        !tracks(before, id),
        forall|stack: StackKeyView, i: int|
            0 <= i < after.entries(stack).len() ==> before.entries(stack).contains(
                #[trigger] after.entries(stack)[i],
            ),
    ensures
        !tracks(after, id),
{
    if tracks(after, id) {
        let (stack, i) = choose|stack: StackKeyView, i: int|
            0 <= i < after.entries(stack).len() && (#[trigger] after.entries(stack)[i]).vm_id == id;
        let x = before.entries(stack).index_of(after.entries(stack)[i]);
        assert(before.entries(stack)[x] == after.entries(stack)[i]);
    }
}

} // verus!
