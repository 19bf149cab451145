//! No bucket outgrows the high-water mark.

use crate::clock::Moment;
use crate::config::WarmPoolConfig;
use crate::model::{
    gather, is_fresh, spawn_next, BucketView, EntryView, HandleView, JobView, PoolView, TickView,
};
use crate::stack_key::StackKeyView;
use microvm_runtime::model::SnapshotRef;
use vstd::prelude::*;

verus! {

/// The spawns that a refill tick still owes which stands at `at`, those at hand
/// among them.
pub open spec fn owed(at: TickView) -> Seq<JobView> {
    match at {
        TickView::Create(spawn) => seq![spawn.current] + spawn.queue,
        TickView::Validate(spawn) => seq![spawn.current] + spawn.queue,
        TickView::Discard(spawn) => seq![spawn.current] + spawn.queue,
        _ => Seq::empty(),
    }
}

/// Whether `jobs` are for different buckets.
pub open spec fn one_job_per_bucket(jobs: Seq<JobView>) -> bool {
    forall|i: int, j: int|
        0 <= i < j < jobs.len() ==> (#[trigger] jobs[i]).stack != (#[trigger] jobs[j]).stack
}

/// Whether a refill tick that stands at `at` has something left to do there: VMs to
/// evict, or entries that the bucket at hand lacks.
pub open spec fn has_work(at: TickView) -> bool {
    match at {
        TickView::Evict(victims) => victims.len() > 0,
        TickView::Create(spawn) => spawn.current.deficit > 0,
        TickView::Validate(spawn) => spawn.current.deficit > 0,
        TickView::Discard(spawn) => spawn.current.deficit > 0,
        TickView::Done => true,
    }
}

/// Whether no bucket is deeper than the high-water mark, nor will be once the
/// refill tick that stands at `at` has made all its spawns.
pub open spec fn in_bounds(pool: PoolView, at: TickView) -> bool {
    &&& forall|stack: StackKeyView|
        (#[trigger] pool.entries(stack)).len() <= pool.config.max_depth
    &&& forall|i: int|
        0 <= i < owed(at).len() ==> pool.entries((#[trigger] owed(at)[i]).stack).len() + owed(
            at,
        )[i].deficit <= pool.config.max_depth
    &&& one_job_per_bucket(owed(at))
    &&& has_work(at)
}

/// A pool that was just started is in bounds.
pub proof fn law_start_is_in_bounds(config: WarmPoolConfig)
    ensures
        in_bounds(PoolView::empty(config), TickView::Done),
{
}

/// What is owed when a tick goes on with `jobs` is the end of `jobs`.
proof fn lemma_owed_is_suffix(jobs: Seq<JobView>)
    ensures
        owed(spawn_next(jobs)).len() <= jobs.len(),
        owed(spawn_next(jobs)) == jobs.skip(jobs.len() - owed(spawn_next(jobs)).len()),
        has_work(spawn_next(jobs)),
    decreases jobs.len(),
{
    if jobs.len() > 0 {
        if jobs[0].deficit == 0 {
            lemma_owed_is_suffix(jobs.drop_first());
            let rest = owed(spawn_next(jobs.drop_first()));
            assert(jobs.skip(jobs.len() - rest.len()) =~= jobs.drop_first().skip(
                jobs.drop_first().len() - rest.len(),
            ));
        } else {
            assert(owed(spawn_next(jobs)) =~= jobs);
            assert(jobs.skip(0) =~= jobs);
        }
    } else {
        assert(jobs.skip(0) =~= owed(spawn_next(jobs)));
    }
}

/// The jobs that are planned for `keys` are each for one of `keys`, and make up
/// what its bucket lacks.
pub proof fn lemma_planned_jobs(
    keys: Seq<StackKeyView>,
    buckets: Map<StackKeyView, BucketView>,
    config: WarmPoolConfig,
)
    requires
        keys.no_duplicates(),
    ensures
        ({
            let jobs = gather(keys, |stack: StackKeyView| buckets[stack].jobs(stack, config));
            &&& one_job_per_bucket(jobs)
            &&& forall|i: int|
                0 <= i < jobs.len() ==> {
                    &&& keys.contains((#[trigger] jobs[i]).stack)
                    &&& jobs[i].deficit > 0
                    &&& jobs[i].deficit == buckets[jobs[i].stack].deficit(config)
                    &&& jobs[i].snapshot == buckets[jobs[i].stack].source_snapshot
                    &&& jobs[i].next_seed == buckets[jobs[i].stack].next_seed
                }
        }),
    decreases keys.len(),
{
    let f = |stack: StackKeyView| buckets[stack].jobs(stack, config);
    let jobs = gather(keys, f);
    if keys.len() > 0 {
        let front = keys.drop_last();
        let earlier = gather(front, f);
        lemma_planned_jobs(front, buckets, config);
        assert forall|i: int| 0 <= i < jobs.len() implies {
            &&& keys.contains((#[trigger] jobs[i]).stack)
            &&& jobs[i].deficit > 0
            &&& jobs[i].deficit == buckets[jobs[i].stack].deficit(config)
            &&& jobs[i].snapshot == buckets[jobs[i].stack].source_snapshot
            &&& jobs[i].next_seed == buckets[jobs[i].stack].next_seed
            &&& i < earlier.len() ==> front.contains(jobs[i].stack)
            &&& i >= earlier.len() ==> jobs[i].stack == keys.last()
        } by {
            if i < earlier.len() {
                assert(jobs[i] == earlier[i]);
                let at = front.index_of(earlier[i].stack);
                assert(keys[at] == front[at]);
            } else {
                assert(keys[keys.len() - 1] == jobs[i].stack);
            }
        }
        assert forall|i: int, j: int| 0 <= i < j < jobs.len() implies (#[trigger] jobs[i]).stack != (
        #[trigger] jobs[j]).stack by {
            assert(front.len() < keys.len());
            if j < earlier.len() {
                assert(jobs[i] == earlier[i] && jobs[j] == earlier[j]);
            } else if i < earlier.len() {
                let at = front.index_of(jobs[i].stack);
                assert(keys[at] == jobs[i].stack);
            }
        }
    }
}

proof fn lemma_no_deeper_stays_in_bounds(before: PoolView, after: PoolView, at: TickView)
    requires
        in_bounds(before, at),
        after.config == before.config,
        forall|stack: StackKeyView|
            (#[trigger] after.entries(stack)).len() <= before.entries(stack).len(),
    ensures
        in_bounds(after, at),
{
    assert forall|stack: StackKeyView| (#[trigger] after.entries(stack)).len()
        <= after.config.max_depth by {
        assert(before.entries(stack).len() <= before.config.max_depth);
    }
    assert forall|i: int| 0 <= i < owed(at).len() implies after.entries(
        (#[trigger] owed(at)[i]).stack,
    ).len() + owed(at)[i].deficit <= after.config.max_depth by {
        assert(before.entries(owed(at)[i].stack).len() + owed(at)[i].deficit
            <= before.config.max_depth);
    }
}

/// Going on with `jobs` keeps in bounds what `jobs` themselves would.
proof fn lemma_spawning_in_bounds(pool: PoolView, jobs: Seq<JobView>)
    requires
        forall|stack: StackKeyView|
            (#[trigger] pool.entries(stack)).len() <= pool.config.max_depth,
        forall|i: int|
            0 <= i < jobs.len() ==> pool.entries((#[trigger] jobs[i]).stack).len()
                + jobs[i].deficit <= pool.config.max_depth,
        one_job_per_bucket(jobs),
    ensures
        in_bounds(pool, spawn_next(jobs)),
{
    lemma_owed_is_suffix(jobs);
    let rest = owed(spawn_next(jobs));
    let from = jobs.len() - rest.len();
    assert forall|i: int| 0 <= i < rest.len() implies pool.entries(
        (#[trigger] rest[i]).stack,
    ).len() + rest[i].deficit <= pool.config.max_depth by {
        assert(rest[i] == jobs[from + i]);
    }
    assert forall|i: int, j: int| 0 <= i < j < rest.len() implies (#[trigger] rest[i]).stack != (
    #[trigger] rest[j]).stack by {
        assert(rest[i] == jobs[from + i]);
        assert(rest[j] == jobs[from + j]);
    }
}

/// A refill tick that has nothing left to evict plans within the bounds.
proof fn lemma_plan_in_bounds(pool: PoolView)
    requires
        pool.well_formed(),
        in_bounds(pool, TickView::Done),
    ensures
        in_bounds(pool.reserved(), spawn_next(pool.jobs())),
{
    let after = pool.reserved();
    let jobs = pool.jobs();
    lemma_no_deeper_stays_in_bounds(pool, after, TickView::Done);
    lemma_planned_jobs(pool.keys, pool.buckets, pool.config);
    assert forall|i: int| 0 <= i < jobs.len() implies after.entries(
        (#[trigger] jobs[i]).stack,
    ).len() + jobs[i].deficit <= after.config.max_depth by {
        assert(pool.buckets.contains_key(jobs[i].stack));
    }
    lemma_spawning_in_bounds(after, jobs);
}

/// Nothing that is done to the pool beside a refill tick takes it out of bounds:
/// neither registering and giving up keys, nor acquires, nor a shutdown.
pub proof fn law_pool_stays_in_bounds(
    pool: PoolView,
    at: TickView,
    stack: StackKeyView,
    snapshot: SnapshotRef,
    entry: HandleView,
    healthy: bool,
)
    requires
        pool.well_formed(),
        in_bounds(pool, at),
    ensures
        in_bounds(pool.register(stack, snapshot), at),
        in_bounds(pool.unregister(stack), at),
        in_bounds(pool.acquire(stack).0, at),
        in_bounds(pool.acquire_validated(entry, healthy).0, at),
        in_bounds(pool.acquire_destroyed(entry).0, at),
        in_bounds(pool.count_evicted(), at),
        in_bounds(pool.drained(), at),
{
    lemma_no_deeper_stays_in_bounds(pool, pool.register(stack, snapshot), at);
    lemma_no_deeper_stays_in_bounds(pool, pool.unregister(stack), at);
    lemma_no_deeper_stays_in_bounds(pool, pool.acquire(stack).0, at);
    lemma_no_deeper_stays_in_bounds(pool, pool.acquire_validated(entry, healthy).0, at);
    lemma_no_deeper_stays_in_bounds(pool, pool.acquire_destroyed(entry).0, at);
    lemma_no_deeper_stays_in_bounds(pool, pool.count_evicted(), at);
    lemma_no_deeper_stays_in_bounds(pool, pool.drained(), at);
}

/// No step of a refill tick takes the pool out of bounds: refill stops at the
/// high-water mark, whatever the provider and the validator say. (The pool is
/// refilled by one tick at a time.)
pub proof fn law_tick_stays_in_bounds(
    pool: PoolView,
    at: TickView,
    succeeded: bool,
    healthy: bool,
    now: Moment,
)
    requires
        pool.well_formed(),
        in_bounds(pool, at),
    ensures
        match at {
            TickView::Evict(victims) => in_bounds(
                pool.tick_evicted(victims).0,
                pool.tick_evicted(victims).1,
            ),
            TickView::Create(spawn) => in_bounds(
                pool.tick_created(spawn, succeeded).0,
                pool.tick_created(spawn, succeeded).1,
            ),
            TickView::Validate(spawn) => in_bounds(
                pool.tick_validated(spawn, healthy, now).0,
                pool.tick_validated(spawn, healthy, now).1,
            ),
            TickView::Discard(spawn) => in_bounds(
                pool.tick_discarded(spawn).0,
                pool.tick_discarded(spawn).1,
            ),
            TickView::Done => in_bounds(pool.tick(now).0, pool.tick(now).1),
        },
{
    match at {
        TickView::Evict(victims) => {
            let counted = pool.count_evicted();
            lemma_no_deeper_stays_in_bounds(pool, counted, at);
            if victims.drop_first().len() == 0 {
                assert(in_bounds(counted, TickView::Done));
                lemma_plan_in_bounds(counted);
            }
        },
        TickView::Create(spawn) => {
            let jobs = owed(at);
            if succeeded {
                lemma_no_deeper_stays_in_bounds(pool, pool.count_created(), at);
                assert(owed(TickView::Validate(spawn)) == owed(at));
            } else {
                assert forall|i: int| 0 <= i < spawn.queue.len() implies pool.entries(
                    (#[trigger] spawn.queue[i]).stack,
                ).len() + spawn.queue[i].deficit <= pool.config.max_depth by {
                    assert(jobs[i + 1] == spawn.queue[i]);
                }
                assert forall|i: int, j: int| 0 <= i < j < spawn.queue.len() implies (
                #[trigger] spawn.queue[i]).stack != (#[trigger] spawn.queue[j]).stack by {
                    assert(jobs[i + 1] == spawn.queue[i]);
                    assert(jobs[j + 1] == spawn.queue[j]);
                }
                lemma_spawning_in_bounds(pool, spawn.queue);
            }
        },
        TickView::Validate(spawn) => {
            assert(owed(TickView::Discard(spawn)) == owed(at));
            assert(owed(at).drop_first() =~= spawn.queue);
            if !healthy {
                lemma_no_deeper_stays_in_bounds(pool, pool.count_validation_failure(), at);
            } else if pool.buckets.contains_key(spawn.current.stack) {
                lemma_settled_in_bounds(pool, at, pool.tick_validated(spawn, true, now).0, true);
            }
        },
        TickView::Discard(spawn) => {
            assert(owed(at).drop_first() =~= spawn.queue);
            lemma_settled_in_bounds(pool, at, pool.count_evicted(), false);
        },
        TickView::Done => {
            let cleaned = pool.without_aged(now);
            let max_age = pool.config.entry_max_age;
            assert forall|stack: StackKeyView| (#[trigger] cleaned.entries(stack)).len()
                <= pool.entries(stack).len() by {
                pool.entries(stack).lemma_filter_len(
                    |entry: EntryView| is_fresh(entry, now, max_age),
                );
            }
            lemma_no_deeper_stays_in_bounds(pool, cleaned, at);
            if pool.aged_ids(now).len() == 0 {
                lemma_plan_in_bounds(cleaned);
            }
        },
    }
}

/// Settling the spawn at hand keeps in bounds, even where it has joined its
/// bucket.
proof fn lemma_settled_in_bounds(pool: PoolView, at: TickView, after: PoolView, joined: bool)
    requires
        in_bounds(pool, at),
        at is Validate || at is Discard,
        after.config == pool.config,
        forall|stack: StackKeyView|
            (#[trigger] after.entries(stack)).len() == pool.entries(stack).len() + (if joined
                && stack == owed(at)[0].stack {
                1int
            } else {
                0
            }),
    ensures
        in_bounds(after, spawn_next(seq![owed(at)[0].advanced()] + owed(at).drop_first())),
{
    let jobs = owed(at);
    let next = seq![jobs[0].advanced()] + jobs.drop_first();
    assert forall|i: int| 0 <= i < next.len() implies after.entries(
        (#[trigger] next[i]).stack,
    ).len() + next[i].deficit <= after.config.max_depth by {
        assert(pool.entries(jobs[i].stack).len() + jobs[i].deficit <= pool.config.max_depth);
        if i > 0 {
            assert(next[i] == jobs[i]);
            assert(jobs[0].stack != jobs[i].stack);
        }
    }
    assert forall|i: int, j: int| 0 <= i < j < next.len() implies (#[trigger] next[i]).stack != (
    #[trigger] next[j]).stack by {
        assert(jobs[i].stack != jobs[j].stack);
    }
    assert forall|stack: StackKeyView| (#[trigger] after.entries(stack)).len()
        <= after.config.max_depth by {
        assert(pool.entries(stack).len() <= pool.config.max_depth);
        assert(pool.entries(jobs[0].stack).len() + jobs[0].deficit <= pool.config.max_depth);
    }
    lemma_spawning_in_bounds(after, next);
}

} // verus!
