//! What an acquire comes to.

use crate::metrics::{bumped, bumped_by, lemma_bumped_by, Counters};
use crate::model::{AcquireView, EntryView, HandleView, PoolView};
use crate::stack_key::StackKeyView;
use vstd::prelude::*;

verus! {

/// Where an acquire that stands at `at` gets to when the validator gives
/// `verdicts` in turn (`true` for healthy), nothing else being done to the pool
/// meanwhile.
pub open spec fn acquire_run(pool: PoolView, at: AcquireView, verdicts: Seq<bool>) -> (
    PoolView,
    AcquireView,
)
    decreases
            verdicts.len(),
            if at is Destroy {
                1int
            } else {
                0
            },
{
    match at {
        AcquireView::Validate(entry) => if verdicts.len() == 0 {
            (pool, at)
        } else {
            let (next_pool, next) = pool.acquire_validated(entry, verdicts[0]);
            acquire_run(next_pool, next, verdicts.drop_first())
        },
        AcquireView::Destroy(entry) => {
            let (next_pool, next) = pool.acquire_destroyed(entry);
            acquire_run(next_pool, next, verdicts)
        },
        AcquireView::Done(_) => (pool, at),
    }
}

/// The counters once an acquire has turned down `rejected` entries, and has
/// handed one off or not.
pub open spec fn counters_after_acquire(
    counters: Counters,
    rejected: nat,
    handed_off: bool,
) -> Counters {
    Counters {
        acquired: if handed_off {
            bumped(counters.acquired)
        } else {
            counters.acquired
        },
        evicted: bumped_by(counters.evicted, rejected),
        validation_failures: bumped_by(counters.validation_failures, rejected),
        ..counters
    }
}

/// An acquire hands off the newest entry that is healthy. The entries above it
/// are turned down: each is counted as a validation failure and as an eviction.
/// The handle names the entry, its bucket and the snapshot registered for the
/// bucket, and the entry is gone from the bucket.
///
/// Where no entry is healthy, or there is none, the acquire gives `None` and the
/// bucket is empty. Nothing else in the pool changes.
pub proof fn law_acquire_hands_off_newest_healthy(
    pool: PoolView,
    stack: StackKeyView,
    verdicts: Seq<bool>,
    rejected: nat,
)
    requires
        pool.well_formed(),
        rejected <= pool.entries(stack).len(),
        rejected <= verdicts.len(),
        forall|i: int| 0 <= i < rejected ==> !#[trigger] verdicts[i],
        rejected < pool.entries(stack).len() ==> rejected < verdicts.len() && verdicts[rejected as int],
    ensures
        ({
            let entries = pool.entries(stack);
            let (begun, at) = pool.acquire(stack);
            let (after, end) = acquire_run(begun, at, verdicts);
            let left = entries.len() - rejected - 1;
            if left >= 0 {
                &&& end == AcquireView::Done(
                    Some(
                        HandleView {
                            source_vm_id: entries[left].vm_id,
                            stack,
                            source_snapshot: pool.buckets[stack].source_snapshot,
                        },
                    ),
                )
                &&& after == (PoolView {
                    counters: counters_after_acquire(pool.counters, rejected, true),
                    ..pool.with_entries(stack, entries.take(left))
                })
            } else {
                &&& end == AcquireView::Done(None)
                &&& after.entries(stack) == Seq::<EntryView>::empty()
                &&& after == (PoolView {
                    counters: counters_after_acquire(pool.counters, rejected, false),
                    buckets: if pool.buckets.contains_key(stack) {
                        pool.with_entries(stack, Seq::empty()).buckets
                    } else {
                        pool.buckets
                    },
                    ..pool
                })
            }
        }),
    decreases rejected,
{
    let entries = pool.entries(stack);
    let (begun, at) = pool.acquire(stack);
    let (after, end) = acquire_run(begun, at, verdicts);
    let left = entries.len() - rejected - 1;
    lemma_bumped_by(pool.counters.evicted, 0);
    lemma_bumped_by(pool.counters.validation_failures, 0);
    if entries.len() == 0 {
        if pool.buckets.contains_key(stack) {
            assert(pool.with_entries(stack, Seq::empty()).buckets =~~= pool.buckets);
        }
    } else if rejected == 0 {
        let (next_pool, next) = begun.acquire_validated(at->Validate_0, verdicts[0]);
        assert(acquire_run(next_pool, next, verdicts.drop_first()) == (next_pool, next));
        assert(entries.take(left) =~= entries.drop_last());
    } else {
        let entry = at->Validate_0;
        let counted = begun.count_validation_failure().count_evicted();
        assert(!verdicts[0]);
        let rest = verdicts.drop_first();
        let fewer = (rejected - 1) as nat;
        let (retried, retry) = counted.acquire(stack);
        assert(acquire_run(begun.count_validation_failure(), AcquireView::Destroy(entry), rest)
            == acquire_run(retried, retry, rest));
        assert(counted.entries(stack) == entries.drop_last());
        assert forall|i: int| 0 <= i < fewer implies !#[trigger] rest[i] by {
            assert(!verdicts[i + 1]);
        }
        assert(counted.well_formed());
        law_acquire_hands_off_newest_healthy(counted, stack, rest, fewer);
        lemma_bumped_by(pool.counters.evicted, fewer);
        lemma_bumped_by(pool.counters.validation_failures, fewer);
        if left >= 0 {
            assert(entries.drop_last().take(left) =~= entries.take(left));
            assert(after.buckets =~~= pool.with_entries(stack, entries.take(left)).buckets);
        } else {
            assert(after.buckets =~~= pool.with_entries(stack, Seq::empty()).buckets);
        }
    }
}

} // verus!
