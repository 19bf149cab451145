//! What a refill tick comes to.

use crate::clock::Moment;
use crate::config::WarmPoolConfig;
use crate::laws::depth::{
    has_work, lemma_planned_jobs, one_job_per_bucket, owed,
};
use crate::laws::gathering::lemma_gather_same;
use crate::metrics::{bumped_by, lemma_bumped_by, Counters};
use crate::model::{
    fresh, gather, is_fresh, seed_after, spawn_next, BucketView, EntryView, HandleView, JobView,
    PoolView, SpawnView, TickView,
};
use crate::naming::{law_vm_id_tells_its_parts, vm_id};
use crate::stack_key::StackKeyView;
use microvm_runtime::model::SnapshotRef;
use vstd::prelude::*;

verus! {

/// What becomes of a spawn.
pub enum Outcome {
    /// The provider fails to create the VM.
    Refused,
    /// The VM is created, and the validator turns it down.
    Unhealthy,
    /// The VM is created, and the validator finds it healthy at this moment.
    Healthy(Moment),
}

/// How many entries `jobs` lack together.
pub open spec fn total(jobs: Seq<JobView>) -> nat
    decreases jobs.len(),
{
    if jobs.len() == 0 {
        0
    } else {
        jobs[0].deficit + total(jobs.drop_first())
    }
}

/// Going on with `jobs` owes what `jobs` lack, no more and no less.
pub proof fn lemma_total_of_rest(jobs: Seq<JobView>)
    ensures
        total(owed(spawn_next(jobs))) == total(jobs),
        !(spawn_next(jobs) is Evict),
        !(spawn_next(jobs) is Validate),
        !(spawn_next(jobs) is Discard),
    decreases jobs.len(),
{
    if jobs.len() > 0 {
        if jobs[0].deficit == 0 {
            lemma_total_of_rest(jobs.drop_first());
        } else {
            assert(owed(spawn_next(jobs)) =~= jobs);
        }
    }
}

/// Settling a spawn takes one off what is owed.
pub proof fn lemma_total_settled(spawn: SpawnView)
    requires
        spawn.current.deficit > 0,
    ensures
        total(owed(spawn.settled())) + 1 == total(seq![spawn.current] + spawn.queue),
        !(spawn.settled() is Evict),
{
    let before = seq![spawn.current] + spawn.queue;
    let after = seq![spawn.current.advanced()] + spawn.queue;
    assert(before.drop_first() =~= spawn.queue);
    assert(after.drop_first() =~= spawn.queue);
    lemma_total_of_rest(after);
}

/// Where a refill tick that stands at `at` leaves the pool, when `world` says what
/// becomes of each spawn and nothing else is done to the pool meanwhile.
pub open spec fn tick_run(pool: PoolView, at: TickView, world: spec_fn(JobView) -> Outcome) -> PoolView
    decreases
            if at is Evict {
                1int
            } else {
                0
            },
            match at {
                TickView::Evict(victims) => victims.len(),
                _ => total(owed(at)),
            },
            match at {
                TickView::Create(_) => 2int,
                TickView::Validate(_) => 1,
                _ => 0,
            },
{
    if !has_work(at) {
        pool
    } else {
        match at {
            TickView::Evict(victims) => {
                let (after, next) = pool.tick_evicted(victims);
                proof {
                    lemma_total_of_rest(pool.count_evicted().jobs());
                }
                tick_run(after, next, world)
            },
            TickView::Create(spawn) => {
                let (after, next) = pool.tick_created(spawn, !(world(spawn.current) is Refused));
                proof {
                    lemma_total_of_rest(spawn.queue);
                    assert(owed(at).drop_first() =~= spawn.queue);
                    assert(owed(TickView::Validate(spawn)) == owed(at));
                }
                tick_run(after, next, world)
            },
            TickView::Validate(spawn) => {
                proof {
                    lemma_total_settled(spawn);
                }
                let (after, next) = match world(spawn.current) {
                    Outcome::Healthy(when) => pool.tick_validated(spawn, true, when),
                    _ => pool.tick_validated(spawn, false, Moment { nanos: 0 }),
                };
                tick_run(after, next, world)
            },
            TickView::Discard(spawn) => {
                proof {
                    lemma_total_settled(spawn);
                }
                let (after, next) = pool.tick_discarded(spawn);
                tick_run(after, next, world)
            },
            TickView::Done => pool,
        }
    }
}

/// The entries that `job` brings to its bucket: those found healthy, up to the
/// first that the provider fails to create.
pub open spec fn spawned(job: JobView, world: spec_fn(JobView) -> Outcome) -> Seq<EntryView>
    decreases job.deficit,
{
    if job.deficit == 0 {
        Seq::empty()
    } else {
        match world(job) {
            Outcome::Refused => Seq::empty(),
            Outcome::Unhealthy => spawned(job.advanced(), world),
            Outcome::Healthy(when) => seq![
                EntryView { vm_id: vm_id(job.stack, job.next_seed), created_at: when },
            ] + spawned(job.advanced(), world),
        }
    }
}

/// How many VMs `job` creates that the validator turns down.
pub open spec fn turned_down(job: JobView, world: spec_fn(JobView) -> Outcome) -> nat
    decreases job.deficit,
{
    if job.deficit == 0 {
        0
    } else {
        match world(job) {
            Outcome::Refused => 0,
            Outcome::Unhealthy => 1 + turned_down(job.advanced(), world),
            Outcome::Healthy(_) => turned_down(job.advanced(), world),
        }
    }
}

/// The counters once spawns were made of which `joined` joined their buckets and
/// `failed` were turned down.
pub open spec fn counters_after_spawns(counters: Counters, joined: nat, failed: nat) -> Counters {
    Counters {
        created: bumped_by(counters.created, joined + failed),
        evicted: bumped_by(counters.evicted, failed),
        validation_failures: bumped_by(counters.validation_failures, failed),
        ..counters
    }
}

/// The pool once `job` is done.
pub open spec fn filled(pool: PoolView, job: JobView, world: spec_fn(JobView) -> Outcome) -> PoolView {
    PoolView {
        counters: counters_after_spawns(
            pool.counters,
            spawned(job, world).len(),
            turned_down(job, world),
        ),
        ..pool.with_entries(job.stack, pool.entries(job.stack) + spawned(job, world))
    }
}

/// A tick that goes on with a bucket does its job, and goes on with the next.
proof fn lemma_run_one(pool: PoolView, spawn: SpawnView, world: spec_fn(JobView) -> Outcome)
    requires
        spawn.current.deficit > 0,
        pool.buckets.contains_key(spawn.current.stack),
    ensures
        tick_run(pool, TickView::Create(spawn), world) == tick_run(
            filled(pool, spawn.current, world),
            spawn_next(spawn.queue),
            world,
        ),
    decreases spawn.current.deficit, 0int,
{
    let job = spawn.current;
    let stack = job.stack;
    let more = job.advanced();
    let next = SpawnView { current: more, queue: spawn.queue };
    let entries = pool.entries(stack);
    let counters = pool.counters;
    let goal = filled(pool, job, world);
    assert((seq![more] + spawn.queue).drop_first() =~= spawn.queue);
    lemma_bumped_by(counters.created, 0);
    lemma_bumped_by(counters.evicted, 0);
    lemma_bumped_by(counters.validation_failures, 0);
    match world(job) {
        Outcome::Refused => {
            assert(entries + spawned(job, world) =~= entries);
            assert(goal.buckets =~~= pool.buckets);
            assert(goal =~= pool);
        },
        Outcome::Unhealthy => {
            let after = pool.count_created().count_validation_failure().count_evicted();
            assert(tick_run(pool, TickView::Create(spawn), world) == tick_run(
                pool.count_created(),
                TickView::Validate(spawn),
                world,
            ));
            assert(tick_run(pool, TickView::Create(spawn), world) == tick_run(
                pool.count_created().count_validation_failure(),
                TickView::Discard(spawn),
                world,
            ));
            assert(tick_run(pool, TickView::Create(spawn), world) == tick_run(
                after,
                spawn.settled(),
                world,
            ));
            lemma_bumped_by(counters.created, spawned(more, world).len() + turned_down(more, world));
            lemma_bumped_by(counters.evicted, turned_down(more, world));
            lemma_bumped_by(counters.validation_failures, turned_down(more, world));
            lemma_run_rest(after, next, world);
            assert(filled(after, more, world) =~= goal);
        },
        Outcome::Healthy(when) => {
            let entry = EntryView { vm_id: spawn.vm_id(), created_at: when };
            let after = pool.count_created().push(stack, entry);
            assert(tick_run(pool, TickView::Create(spawn), world) == tick_run(
                pool.count_created(),
                TickView::Validate(spawn),
                world,
            ));
            assert(tick_run(pool, TickView::Create(spawn), world) == tick_run(
                after,
                spawn.settled(),
                world,
            ));
            lemma_bumped_by(counters.created, spawned(more, world).len() + turned_down(more, world));
            lemma_run_rest(after, next, world);
            assert(entries.push(entry) + spawned(more, world) =~= entries + spawned(job, world));
            assert(filled(after, more, world).buckets =~~= goal.buckets);
            assert(filled(after, more, world) =~= goal);
        },
    }
}

/// The same, where the bucket at hand may lack nothing any more.
proof fn lemma_run_rest(pool: PoolView, spawn: SpawnView, world: spec_fn(JobView) -> Outcome)
    requires
        pool.buckets.contains_key(spawn.current.stack),
    ensures
        tick_run(pool, spawn_next(seq![spawn.current] + spawn.queue), world) == tick_run(
            filled(pool, spawn.current, world),
            spawn_next(spawn.queue),
            world,
        ),
    decreases spawn.current.deficit, 1int,
{
    let job = spawn.current;
    assert((seq![job] + spawn.queue).drop_first() =~= spawn.queue);
    if job.deficit > 0 {
        lemma_run_one(pool, spawn, world);
    } else {
        let goal = filled(pool, job, world);
        lemma_bumped_by(pool.counters.created, 0);
        lemma_bumped_by(pool.counters.evicted, 0);
        lemma_bumped_by(pool.counters.validation_failures, 0);
        assert(pool.entries(job.stack) + spawned(job, world) =~= pool.entries(job.stack));
        assert(goal.buckets =~~= pool.buckets);
        assert(goal =~= pool);
    }
}

/// How many entries `jobs` bring to their buckets together.
pub open spec fn joined_by(jobs: Seq<JobView>, world: spec_fn(JobView) -> Outcome) -> nat
    decreases jobs.len(),
{
    if jobs.len() == 0 {
        0
    } else {
        spawned(jobs[0], world).len() + joined_by(jobs.drop_first(), world)
    }
}

/// How many VMs `jobs` create together that the validator turns down.
pub open spec fn failed_by(jobs: Seq<JobView>, world: spec_fn(JobView) -> Outcome) -> nat
    decreases jobs.len(),
{
    if jobs.len() == 0 {
        0
    } else {
        turned_down(jobs[0], world) + failed_by(jobs.drop_first(), world)
    }
}

proof fn lemma_bumped_twice(count: u64, a: nat, b: nat)
    ensures
        bumped_by(bumped_by(count, a), b) == bumped_by(count, a + b),
{
    let range = 0x1_0000_0000_0000_0000int;
    vstd::arithmetic::div_mod::lemma_add_mod_noop_right(b as int, count + a, range);
    assert((b + (count + a) % range) % range == (b + (count + a)) % range);
}

proof fn lemma_counters_after_spawns(counters: Counters, j: nat, f: nat, k: nat, g: nat)
    ensures
        counters_after_spawns(counters, 0, 0) == counters,
        counters_after_spawns(counters_after_spawns(counters, j, f), k, g)
            == counters_after_spawns(counters, j + k, f + g),
{
    lemma_bumped_by(counters.created, 0);
    lemma_bumped_by(counters.evicted, 0);
    lemma_bumped_by(counters.validation_failures, 0);
    lemma_bumped_twice(counters.created, j + f, k + g);
    lemma_bumped_twice(counters.evicted, f, g);
    lemma_bumped_twice(counters.validation_failures, f, g);
    assert(j + f + (k + g) == j + k + (f + g));
}

/// A tick that goes on with `jobs` does each of them.
proof fn lemma_run_jobs(pool: PoolView, jobs: Seq<JobView>, world: spec_fn(JobView) -> Outcome)
    requires
        one_job_per_bucket(jobs),
        forall|i: int|
            0 <= i < jobs.len() ==> pool.buckets.contains_key((#[trigger] jobs[i]).stack),
    ensures
        ({
            let after = tick_run(pool, spawn_next(jobs), world);
            &&& after == (PoolView { buckets: after.buckets, counters: after.counters, ..pool })
            &&& after.counters == counters_after_spawns(
                pool.counters,
                joined_by(jobs, world),
                failed_by(jobs, world),
            )
            &&& after.buckets.dom() == pool.buckets.dom()
            &&& forall|i: int|
                0 <= i < jobs.len() ==> after.buckets[(#[trigger] jobs[i]).stack] == (BucketView {
                    entries: pool.buckets[jobs[i].stack].entries + spawned(jobs[i], world),
                    ..pool.buckets[jobs[i].stack]
                })
            &&& forall|stack: StackKeyView|
                (forall|i: int| 0 <= i < jobs.len() ==> (#[trigger] jobs[i]).stack != stack)
                    ==> #[trigger] after.buckets[stack] == pool.buckets[stack]
        }),
    decreases jobs.len(),
{
    if jobs.len() == 0 {
        lemma_counters_after_spawns(pool.counters, 0, 0, 0, 0);
    } else {
        let job = jobs[0];
        let rest = jobs.drop_first();
        let mid = filled(pool, job, world);
        let after = tick_run(pool, spawn_next(jobs), world);
        assert(seq![job] + rest =~= jobs);
        assert(pool.buckets.contains_key(job.stack));
        lemma_run_rest(pool, SpawnView { current: job, queue: rest }, world);
        assert forall|i: int| 0 <= i < rest.len() implies mid.buckets.contains_key(
            (#[trigger] rest[i]).stack,
        ) by {
            assert(pool.buckets.contains_key(jobs[i + 1].stack));
        }
        assert forall|i: int, j: int| 0 <= i < j < rest.len() implies (#[trigger] rest[i]).stack != (
        #[trigger] rest[j]).stack by {
            assert(jobs[i + 1].stack != jobs[j + 1].stack);
        }
        lemma_run_jobs(mid, rest, world);
        lemma_counters_after_spawns(
            pool.counters,
            spawned(job, world).len(),
            turned_down(job, world),
            joined_by(rest, world),
            failed_by(rest, world),
        );
        assert(mid.buckets.dom() =~= pool.buckets.dom());
        assert forall|i: int| 0 <= i < rest.len() implies (#[trigger] rest[i]).stack != job.stack by {
            assert(jobs[0].stack != jobs[i + 1].stack);
        }
        assert(after.buckets[job.stack] == mid.buckets[job.stack]);
        assert forall|i: int| 0 <= i < jobs.len() implies after.buckets[(#[trigger] jobs[i]).stack]
            == (BucketView {
            entries: pool.buckets[jobs[i].stack].entries + spawned(jobs[i], world),
            ..pool.buckets[jobs[i].stack]
        }) by {
            if i > 0 {
                assert(jobs[i] == rest[i - 1]);
                assert(mid.buckets[jobs[i].stack] == pool.buckets[jobs[i].stack]);
            }
        }
        assert forall|stack: StackKeyView|
            (forall|i: int| 0 <= i < jobs.len() ==> (#[trigger] jobs[i]).stack
                != stack) implies #[trigger] after.buckets[stack] == pool.buckets[stack] by {
            assert(jobs[0].stack != stack);
            assert forall|i: int| 0 <= i < rest.len() implies (#[trigger] rest[i]).stack
                != stack by {
                assert(jobs[i + 1].stack != stack);
            }
            assert(after.buckets[stack] == mid.buckets[stack]);
        }
    }
}

/// The pool with `by` more evictions counted.
spec fn evictions_counted(pool: PoolView, by: nat) -> PoolView {
    PoolView {
        counters: Counters { evicted: bumped_by(pool.counters.evicted, by), ..pool.counters },
        ..pool
    }
}

/// A tick that evicts counts each eviction, and then plans.
proof fn lemma_run_evictions(
    pool: PoolView,
    victims: Seq<Seq<char>>,
    world: spec_fn(JobView) -> Outcome,
)
    ensures
        ({
            let (after, at) = pool.tick_evicting(victims);
            let counted = evictions_counted(pool, victims.len());
            tick_run(after, at, world) == tick_run(
                counted.reserved(),
                spawn_next(counted.jobs()),
                world,
            )
        }),
    decreases victims.len(),
{
    lemma_bumped_by(pool.counters.evicted, 0);
    if victims.len() == 0 {
        assert(evictions_counted(pool, 0) == pool);
    } else {
        let fewer = victims.drop_first();
        lemma_run_evictions(pool.count_evicted(), fewer, world);
        lemma_bumped_by(pool.counters.evicted, fewer.len());
        assert(evictions_counted(pool.count_evicted(), fewer.len()) == evictions_counted(
            pool,
            victims.len(),
        ));
    }
}

/// The job that brings `bucket`, which belongs to `stack`, what it lacks.
pub open spec fn job_for(
    bucket: BucketView,
    stack: StackKeyView,
    config: WarmPoolConfig,
) -> JobView {
    JobView {
        stack,
        deficit: bucket.deficit(config),
        snapshot: bucket.source_snapshot,
        next_seed: bucket.next_seed,
    }
}

/// A whole refill tick, whatever the provider and the validator say: every bucket
/// keeps its entries that are young enough, in order; a bucket that is then below
/// the low-water mark gets, behind them, the spawned entries that were found
/// healthy, up to the first that could not be created, and has its numbers moved
/// on by what it lacked. What is too old or turned down is counted as evicted,
/// what is created as created, what is turned down as a validation failure.
/// Nothing else changes.
pub proof fn law_tick_in_full(pool: PoolView, now: Moment, world: spec_fn(JobView) -> Outcome)
    requires
        pool.well_formed(),
    ensures
        ({
            let (begun, at) = pool.tick(now);
            let after = tick_run(begun, at, world);
            let kept = pool.without_aged(now);
            &&& after == (PoolView { buckets: after.buckets, counters: after.counters, ..pool })
            &&& after.buckets.dom() == pool.buckets.dom()
            &&& forall|stack: StackKeyView|
                pool.buckets.contains_key(stack) ==> #[trigger] after.buckets[stack] == (BucketView {
                    entries: kept.buckets[stack].entries + spawned(
                        job_for(kept.buckets[stack], stack, pool.config),
                        world,
                    ),
                    ..kept.buckets[stack].reserved(pool.config)
                })
            &&& after.counters == counters_after_spawns(
                Counters {
                    evicted: bumped_by(pool.counters.evicted, pool.aged_ids(now).len()),
                    ..pool.counters
                },
                joined_by(kept.jobs(), world),
                failed_by(kept.jobs(), world),
            )
        }),
{
    let (begun, at) = pool.tick(now);
    let after = tick_run(begun, at, world);
    let kept = pool.without_aged(now);
    let counted = evictions_counted(kept, pool.aged_ids(now).len());
    let jobs = counted.jobs();
    let planned = counted.reserved();
    let config = pool.config;
    lemma_run_evictions(kept, pool.aged_ids(now), world);
    lemma_gather_same(
        kept.keys,
        |stack: StackKeyView| counted.buckets[stack].jobs(stack, counted.config),
        |stack: StackKeyView| kept.buckets[stack].jobs(stack, kept.config),
    );
    assert(jobs == kept.jobs());
    lemma_planned_jobs(counted.keys, counted.buckets, counted.config);
    assert forall|i: int| 0 <= i < jobs.len() implies planned.buckets.contains_key(
        (#[trigger] jobs[i]).stack,
    ) by {
        assert(pool.keys.contains(jobs[i].stack));
        assert(pool.buckets.contains_key(jobs[i].stack));
    }
    lemma_run_jobs(planned, jobs, world);
    assert(planned.buckets.dom() =~= pool.buckets.dom());
    assert forall|stack: StackKeyView| pool.buckets.contains_key(
        stack,
    ) implies #[trigger] after.buckets[stack] == (BucketView {
        entries: kept.buckets[stack].entries + spawned(
            job_for(kept.buckets[stack], stack, config),
            world,
        ),
        ..kept.buckets[stack].reserved(config)
    }) by {
        let bucket = kept.buckets[stack];
        let job = job_for(bucket, stack, config);
        assert(kept.buckets.contains_key(stack));
        assert(planned.buckets[stack] == bucket.reserved(config));
        if exists|i: int| 0 <= i < jobs.len() && (#[trigger] jobs[i]).stack == stack {
            let i = choose|i: int| 0 <= i < jobs.len() && (#[trigger] jobs[i]).stack == stack;
            assert(jobs[i] == job);
        } else {
            assert(counted.keys.contains(stack));
            if job.deficit > 0 {
                lemma_lacking_is_planned(counted.keys, counted.buckets, counted.config, stack);
            }
            assert(job.deficit == 0);
            assert(after.buckets[stack] == planned.buckets[stack]);
            assert(bucket.entries + spawned(job, world) =~= bucket.entries);
        }
    }
}

/// Every key whose bucket lacks entries has a job.
pub proof fn lemma_lacking_is_planned(
    keys: Seq<StackKeyView>,
    buckets: Map<StackKeyView, BucketView>,
    config: WarmPoolConfig,
    stack: StackKeyView,
)
    requires
        keys.contains(stack),
        buckets[stack].deficit(config) > 0,
    ensures
        ({
            let jobs = gather(keys, |stack: StackKeyView| buckets[stack].jobs(stack, config));
            exists|i: int| 0 <= i < jobs.len() && (#[trigger] jobs[i]).stack == stack
        }),
    decreases keys.len(),
{
    let f = |stack: StackKeyView| buckets[stack].jobs(stack, config);
    let jobs = gather(keys, f);
    let front = keys.drop_last();
    if keys.last() == stack {
        assert(f(stack).len() == 1);
        assert(jobs[jobs.len() - 1].stack == stack);
    } else {
        let at = keys.index_of(stack);
        assert(front[at] == stack);
        lemma_lacking_is_planned(front, buckets, config, stack);
        let earlier = gather(front, f);
        let i = choose|i: int| 0 <= i < earlier.len() && (#[trigger] earlier[i]).stack == stack;
        assert(jobs[i].stack == stack);
    }
}

proof fn lemma_all_healthy_joins_all(job: JobView, world: spec_fn(JobView) -> Outcome)
    requires
        forall|spawn: JobView| #[trigger] world(spawn) is Healthy,
    ensures
        spawned(job, world).len() == job.deficit,
        turned_down(job, world) == 0,
    decreases job.deficit,
{
    if job.deficit > 0 {
        assert(world(job) is Healthy);
        lemma_all_healthy_joins_all(job.advanced(), world);
    }
}

/// Where the provider creates every VM and the validator finds each healthy, one
/// refill tick brings every bucket that is below the low-water mark to the
/// high-water mark exactly, and leaves the depth of the others as it is.
pub proof fn law_healthy_tick_fills_buckets(
    pool: PoolView,
    now: Moment,
    world: spec_fn(JobView) -> Outcome,
    stack: StackKeyView,
)
    requires
        pool.well_formed(),
        pool.buckets.contains_key(stack),
        forall|spawn: JobView| #[trigger] world(spawn) is Healthy,
    ensures
        ({
            let (begun, at) = pool.tick(now);
            let after = tick_run(begun, at, world).entries(stack).len();
            let kept = fresh(pool.entries(stack), now, pool.config.entry_max_age).len();
            after == (if kept < pool.config.min_depth && kept < pool.config.max_depth {
                pool.config.max_depth as nat
            } else {
                kept
            })
        }),
{
    law_tick_in_full(pool, now, world);
    let bucket = pool.without_aged(now).buckets[stack];
    lemma_all_healthy_joins_all(job_for(bucket, stack, pool.config), world);
    let (begun, at) = pool.tick(now);
    let after = tick_run(begun, at, world);
    assert(after.buckets.contains_key(stack));
    assert(after.buckets[stack].entries.len() == bucket.entries.len() + bucket.deficit(pool.config));
}

/// Once a refill tick has begun, no bucket holds an entry that is too old, and every
/// entry that is young enough is still there.
pub proof fn law_aged_entries_go(pool: PoolView, now: Moment, stack: StackKeyView)
    requires
        pool.well_formed(),
    ensures
        ({
            let after = pool.tick(now).0.entries(stack);
            let max_age = pool.config.entry_max_age;
            &&& forall|i: int| 0 <= i < after.len() ==> is_fresh(#[trigger] after[i], now, max_age)
            &&& forall|i: int|
                0 <= i < pool.entries(stack).len() && is_fresh(
                    #[trigger] pool.entries(stack)[i],
                    now,
                    max_age,
                ) ==> after.contains(pool.entries(stack)[i])
        }),
{
    broadcast use vstd::seq_lib::group_filter_ensures;

    let entries = pool.entries(stack);
    let max_age = pool.config.entry_max_age;
    let after = pool.tick(now).0.entries(stack);
    let young = |entry: EntryView| is_fresh(entry, now, max_age);
    if pool.buckets.contains_key(stack) {
        assert(after == entries.filter(young));
        assert forall|i: int| 0 <= i < after.len() implies is_fresh(
            #[trigger] after[i],
            now,
            max_age,
        ) by {
            assert(young(entries.filter(young)[i]));
        }
        assert forall|i: int| 0 <= i < entries.len() && is_fresh(
            #[trigger] entries[i],
            now,
            max_age,
        ) implies after.contains(entries[i]) by {
            assert(young(entries[i]));
            assert(entries.filter(young).contains(entries[i]));
        }
    }
}

/// The names of the entries that a plan asks for are never asked for again while
/// their key stays registered: a later plan starts behind the numbers that this
/// one took. (The numbers end at the largest; a bucket that has reached it names
/// its entries alike.)
pub proof fn law_names_do_not_repeat(
    pool: PoolView,
    later: PoolView,
    stack: StackKeyView,
    i: nat,
    j: nat,
)
    requires
        pool.buckets.contains_key(stack),
        i < pool.buckets[stack].deficit(pool.config),
        pool.buckets[stack].next_seed + pool.buckets[stack].deficit(pool.config) <= u64::MAX,
        later.buckets[stack].next_seed >= pool.reserved().buckets[stack].next_seed,
    ensures
        vm_id(stack, seed_after(pool.buckets[stack].next_seed, i)) != vm_id(
            stack,
            seed_after(later.buckets[stack].next_seed, j),
        ),
{
    let m = seed_after(pool.buckets[stack].next_seed, i);
    let n = seed_after(later.buckets[stack].next_seed, j);
    assert(m < n);
    if vm_id(stack, m) == vm_id(stack, n) {
        law_vm_id_tells_its_parts(stack, m, stack, n);
    }
}

/// The numbers of a bucket never go back while its key stays registered.
pub proof fn law_numbers_never_go_back(
    pool: PoolView,
    stack: StackKeyView,
    other: StackKeyView,
    snapshot: SnapshotRef,
    entry: HandleView,
    victims: Seq<Seq<char>>,
    spawn: SpawnView,
    healthy: bool,
    now: Moment,
)
    requires
        pool.buckets.contains_key(stack),
    ensures
        ({
            let seed = pool.buckets[stack].next_seed;
            &&& pool.register(other, snapshot).buckets[stack].next_seed == seed
            &&& other != stack ==> pool.unregister(other).buckets[stack].next_seed == seed
            &&& pool.acquire(other).0.buckets[stack].next_seed == seed
            &&& pool.acquire_destroyed(entry).0.buckets[stack].next_seed == seed
            &&& pool.drained().buckets[stack].next_seed == seed
            &&& pool.tick(now).0.buckets[stack].next_seed >= seed
            &&& pool.tick_evicted(victims).0.buckets[stack].next_seed >= seed
            &&& pool.tick_validated(spawn, healthy, now).0.buckets[stack].next_seed == seed
        }),
{
    let kept = pool.without_aged(now);
    assert(kept.buckets.contains_key(stack));
    assert(kept.buckets[stack].next_seed == pool.buckets[stack].next_seed);
    assert(pool.count_evicted().buckets.contains_key(stack));
}

} // verus!
