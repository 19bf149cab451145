//! How a refill tick numbers the VMs that it asks for.

use crate::clock::Moment;
use crate::laws::depth::{has_work, lemma_planned_jobs, one_job_per_bucket, owed};
use crate::laws::effects::young;
use crate::laws::gathering::lemma_gather_same;
use crate::laws::refilling::{
    job_for, law_tick_in_full, lemma_lacking_is_planned, lemma_total_of_rest, lemma_total_settled,
    spawned, tick_run, total, Outcome,
};
use crate::model::{is_fresh, spawn_next, EntryView, JobView, PoolView, SpawnView, TickView};
use crate::naming::{law_vm_id_is_spelled_out, law_vm_id_tells_its_parts, spells, vm_id};
use crate::stack_key::StackKeyView;
use vstd::prelude::*;

verus! {

/// What a refill tick that stands at `at` still asks the provider for, request by
/// request, when `world` says what becomes of each and nothing else is done to the pool
/// meanwhile.
pub open spec fn requests(
    pool: PoolView,
    at: TickView,
    world: spec_fn(JobView) -> Outcome,
) -> Seq<JobView>
    decreases
            if at is Evict {
                1int
            } else {
                0
            },
            match at {
                TickView::Evict(victims) => victims.len(),
                _ => total(owed(at)),
            },
            match at {
                TickView::Create(_) => 2int,
                TickView::Validate(_) => 1,
                _ => 0,
            },
{
    if !has_work(at) {
        Seq::empty()
    } else {
        match at {
            TickView::Evict(victims) => {
                let (after, next) = pool.tick_evicted(victims);
                proof {
                    lemma_total_of_rest(pool.count_evicted().jobs());
                }
                requests(after, next, world)
            },
            TickView::Create(spawn) => {
                let (after, next) = pool.tick_created(spawn, !(world(spawn.current) is Refused));
                proof {
                    lemma_total_of_rest(spawn.queue);
                    assert(owed(at).drop_first() =~= spawn.queue);
                    assert(owed(TickView::Validate(spawn)) == owed(at));
                }
                seq![spawn.current] + requests(after, next, world)
            },
            TickView::Validate(spawn) => {
                proof {
                    lemma_total_settled(spawn);
                }
                let (after, next) = match world(spawn.current) {
                    Outcome::Healthy(when) => pool.tick_validated(spawn, true, when),
                    _ => pool.tick_validated(spawn, false, Moment { nanos: 0 }),
                };
                requests(after, next, world)
            },
            TickView::Discard(spawn) => {
                proof {
                    lemma_total_settled(spawn);
                }
                let (after, next) = pool.tick_discarded(spawn);
                requests(after, next, world)
            },
            TickView::Done => Seq::empty(),
        }
    }
}

/// How many of `asked` are for `stack`.
pub open spec fn times(asked: Seq<JobView>, stack: StackKeyView) -> nat
    decreases asked.len(),
{
    if asked.len() == 0 {
        0
    } else {
        (if asked[0].stack == stack {
            1nat
        } else {
            0
        }) + times(asked.drop_first(), stack)
    }
}

/// Whether the request `asked[n]` is what `job` asks for when the requests before it were
/// made: restored from the job's snapshot, and named by the job's number plus the number
/// of requests that were made for the same key before. Numbers end at the largest.
pub open spec fn is_next_of(asked: Seq<JobView>, n: int, job: JobView) -> bool {
    let earlier = times(asked.take(n), job.stack);
    &&& asked[n].stack == job.stack
    &&& asked[n].snapshot == job.snapshot
    &&& earlier < job.deficit
    &&& asked[n].deficit == job.deficit - earlier
    &&& asked[n].next_seed == (if job.next_seed + earlier > u64::MAX {
        u64::MAX as int
    } else {
        job.next_seed + earlier
    })
}

/// Whether the request `asked[n]` is the next of one of `jobs`.
spec fn is_next_of_some(asked: Seq<JobView>, n: int, jobs: Seq<JobView>) -> bool {
    exists|j: int| 0 <= j < jobs.len() && is_next_of(asked, n, #[trigger] jobs[j])
}

/// Whether `asked` is what `jobs` come to: each request is the next of its job, and each
/// job asks until it has made up its deficit or was refused.
spec fn served(jobs: Seq<JobView>, asked: Seq<JobView>, world: spec_fn(JobView) -> Outcome) -> bool {
    &&& forall|n: int|
        0 <= n < asked.len() ==> #[trigger] is_next_of_some(asked, n, jobs)
    &&& forall|j: int|
        0 <= j < jobs.len() ==> {
            &&& 0 < times(asked, (#[trigger] jobs[j]).stack) <= jobs[j].deficit
            &&& times(asked, jobs[j].stack) < jobs[j].deficit ==> refused(
                asked,
                jobs[j].stack,
                world,
            )
        }
    &&& forall|m: int, n: int|
        0 <= m < n < asked.len() && (#[trigger] asked[m]).stack == (#[trigger] asked[n]).stack
            ==> !(world(asked[m]) is Refused)
}

/// Whether the provider refuses one of the requests in `asked` that are for `stack`.
pub open spec fn refused(
    asked: Seq<JobView>,
    stack: StackKeyView,
    world: spec_fn(JobView) -> Outcome,
) -> bool {
    exists|n: int|
        0 <= n < asked.len() && (#[trigger] asked[n]).stack == stack && world(asked[n]) is Refused
}

proof fn lemma_times_behind(first: JobView, rest: Seq<JobView>, n: int, stack: StackKeyView)
    requires
        0 <= n <= rest.len(),
    ensures
        times((seq![first] + rest).take(n + 1), stack) == (if first.stack == stack {
            1nat
        } else {
            0
        }) + times(rest.take(n), stack),
        times(seq![first] + rest, stack) == (if first.stack == stack {
            1nat
        } else {
            0
        }) + times(rest, stack),
{
    let asked = seq![first] + rest;
    assert(asked.drop_first() =~= rest);
    assert(asked.take(n + 1).drop_first() =~= rest.take(n));
}

proof fn lemma_times_none(asked: Seq<JobView>, stack: StackKeyView)
    requires
        forall|n: int| 0 <= n < asked.len() ==> (#[trigger] asked[n]).stack != stack,
    ensures
        times(asked, stack) == 0,
    decreases asked.len(),
{
    if asked.len() > 0 {
        assert forall|n: int| 0 <= n < asked.drop_first().len() implies (
        #[trigger] asked.drop_first()[n]).stack != stack by {
            assert(asked.drop_first()[n] == asked[n + 1]);
        }
        lemma_times_none(asked.drop_first(), stack);
    }
}

/// Where `jobs` are served by `rest`, they are served together with one request more that
/// is the first of `first`.
proof fn lemma_served_behind(
    first: JobView,
    queue: Seq<JobView>,
    rest: Seq<JobView>,
    world: spec_fn(JobView) -> Outcome,
)
    requires
        first.deficit > 0,
        one_job_per_bucket(seq![first] + queue),
        world(first) is Refused || first.deficit == 1 ==> served(queue, rest, world),
        !(world(first) is Refused || first.deficit == 1) ==> served(
            seq![first.advanced()] + queue,
            rest,
            world,
        ),
    ensures
        served(seq![first] + queue, seq![first] + rest, world),
{
    let jobs = seq![first] + queue;
    let asked = seq![first] + rest;
    let over = world(first) is Refused || first.deficit == 1;
    let left = if over {
        queue
    } else {
        seq![first.advanced()] + queue
    };
    let shift: int = if over {
        1
    } else {
        0
    };
    assert forall|j: int| 0 <= j < queue.len() implies (#[trigger] queue[j]).stack != first.stack by {
        assert(jobs[j + 1].stack != jobs[0].stack);
    }
    assert forall|n: int| 0 <= n < asked.len() implies #[trigger] is_next_of_some(
        asked,
        n,
        jobs,
    ) by {
        if n == 0 {
            assert(asked.take(0) =~= Seq::empty());
            assert(is_next_of(asked, n, jobs[0]));
        } else {
            assert(is_next_of_some(rest, n - 1, left));
            let i = choose|i: int| 0 <= i < left.len() && is_next_of(rest, n - 1, #[trigger] left[i]);
            lemma_times_behind(first, rest, n - 1, left[i].stack);
            assert(asked[n] == rest[n - 1]);
            if !over && i > 0 {
                assert(left[i] == queue[i - 1]);
            }
            assert(is_next_of(asked, n, jobs[i + shift]));
        }
    }
    if over {
        assert forall|n: int| 0 <= n < rest.len() implies (#[trigger] rest[n]).stack != first.stack by {
            assert(is_next_of_some(rest, n, left));
            let i = choose|i: int| 0 <= i < left.len() && is_next_of(rest, n, #[trigger] left[i]);
            assert(left[i] == queue[i]);
        }
        lemma_times_none(rest, first.stack);
    }
    assert forall|j: int| 0 <= j < jobs.len() implies {
        &&& 0 < times(asked, (#[trigger] jobs[j]).stack) <= jobs[j].deficit
        &&& times(asked, jobs[j].stack) < jobs[j].deficit ==> refused(asked, jobs[j].stack, world)
    } by {
        lemma_times_behind(first, rest, 0, jobs[j].stack);
        if j > 0 {
            assert(jobs[j] == queue[j - 1]);
            assert(jobs[j] == left[j - shift]);
        } else if over {
            assert(asked[0] == first);
        } else {
            assert(left[0].stack == first.stack);
        }
        if (j > 0 || !over) && refused(rest, jobs[j].stack, world) {
            let n = choose|n: int|
                0 <= n < rest.len() && (#[trigger] rest[n]).stack == jobs[j].stack && world(
                    rest[n],
                ) is Refused;
            assert(asked[n + 1] == rest[n]);
        }
    }
    assert forall|m: int, n: int|
        0 <= m < n < asked.len() && (#[trigger] asked[m]).stack == (
        #[trigger] asked[n]).stack implies !(world(asked[m]) is Refused) by {
        assert(asked[n] == rest[n - 1]);
        if m > 0 {
            assert(asked[m] == rest[m - 1]);
        }
    }
}

proof fn lemma_requests_serve(pool: PoolView, jobs: Seq<JobView>, world: spec_fn(JobView) -> Outcome)
    requires
        one_job_per_bucket(jobs),
        forall|i: int| 0 <= i < jobs.len() ==> (#[trigger] jobs[i]).deficit > 0,
    ensures
        served(jobs, requests(pool, spawn_next(jobs), world), world),
    decreases total(jobs),
{
    if jobs.len() > 0 {
        let first = jobs[0];
        let queue = jobs.drop_first();
        let spawn = SpawnView { current: first, queue };
        let at = TickView::Create(spawn);
        let asked = requests(pool, at, world);
        let settled = seq![first.advanced()] + queue;
        assert(seq![first] + queue =~= jobs);
        assert(settled.drop_first() =~= queue);
        assert forall|i: int| 0 <= i < queue.len() implies (#[trigger] queue[i]).deficit > 0 by {
            assert(queue[i] == jobs[i + 1]);
        }
        assert forall|i: int, j: int| 0 <= i < j < queue.len() implies (#[trigger] queue[i]).stack
            != (#[trigger] queue[j]).stack by {
            assert(jobs[i + 1].stack != jobs[j + 1].stack);
        }
        if world(first) is Refused {
            lemma_requests_serve(pool, queue, world);
            lemma_served_behind(first, queue, requests(pool, spawn_next(queue), world), world);
        } else {
            let created = pool.count_created();
            let (seen, next) = match world(first) {
                Outcome::Healthy(when) => created.tick_validated(spawn, true, when),
                _ => created.tick_validated(spawn, false, Moment { nanos: 0 }),
            };
            let after = if next is Discard {
                seen.tick_discarded(spawn).0
            } else {
                seen
            };
            assert(asked == seq![first] + requests(created, TickView::Validate(spawn), world));
            assert(asked == seq![first] + requests(seen, next, world));
            if !(world(first) is Healthy) || !created.buckets.contains_key(first.stack) {
                assert(next == TickView::Discard(spawn));
            } else {
                lemma_total_settled(spawn);
                lemma_total_of_rest(settled);
                assert(next == spawn.settled());
            }
            assert(asked == seq![first] + requests(after, spawn.settled(), world));
            if first.deficit == 1 {
                assert(spawn.settled() == spawn_next(queue));
                lemma_requests_serve(after, queue, world);
            } else {
                assert forall|i: int| 0 <= i < settled.len() implies (
                #[trigger] settled[i]).deficit > 0 by {
                    if i > 0 {
                        assert(settled[i] == queue[i - 1]);
                    }
                }
                assert forall|i: int, j: int| 0 <= i < j < settled.len() implies (
                #[trigger] settled[i]).stack != (#[trigger] settled[j]).stack by {
                    assert(jobs[i].stack != jobs[j].stack);
                    assert(settled[j] == queue[j - 1]);
                    if i > 0 {
                        assert(settled[i] == queue[i - 1]);
                    }
                }
                lemma_requests_serve(after, settled, world);
            }
            lemma_served_behind(first, queue, requests(after, spawn.settled(), world), world);
        }
    } else {
        assert(requests(pool, spawn_next(jobs), world) =~= Seq::empty());
    }
}

proof fn lemma_requests_after_evictions(
    pool: PoolView,
    victims: Seq<Seq<char>>,
    world: spec_fn(JobView) -> Outcome,
) -> (planned: PoolView)
    ensures
        ({
            let (after, at) = pool.tick_evicting(victims);
            requests(after, at, world) == requests(planned, spawn_next(pool.jobs()), world)
        }),
    decreases victims.len(),
{
    if victims.len() == 0 {
        pool.reserved()
    } else {
        let counted = pool.count_evicted();
        let planned = lemma_requests_after_evictions(counted, victims.drop_first(), world);
        lemma_gather_same(
            pool.keys,
            |stack: StackKeyView| counted.buckets[stack].jobs(stack, counted.config),
            |stack: StackKeyView| pool.buckets[stack].jobs(stack, pool.config),
        );
        assert(counted.jobs() == pool.jobs());
        planned
    }
}

/// The requests of a refill tick that begins at `now`.
pub open spec fn requests_of_tick(
    pool: PoolView,
    now: Moment,
    world: spec_fn(JobView) -> Outcome,
) -> Seq<JobView> {
    let (begun, at) = pool.tick(now);
    requests(begun, at, world)
}

/// How many entries of `stack` have not passed the maximum age at `now`.
pub open spec fn young_depth(pool: PoolView, now: Moment, stack: StackKeyView) -> nat {
    pool.buckets[stack].entries.filter(
        |entry: EntryView| young(entry, now, pool.config.entry_max_age),
    ).len()
}

/// Whether `stack` is registered and has fewer entries left at `now` than either mark.
pub open spec fn runs_low(pool: PoolView, now: Moment, stack: StackKeyView) -> bool {
    &&& pool.buckets.contains_key(stack)
    &&& young_depth(pool, now, stack) < pool.config.min_depth
    &&& young_depth(pool, now, stack) < pool.config.max_depth
}

/// The requests of a refill tick are numbered consecutively, bucket by bucket: each is for
/// a key that runs low, is restored from the snapshot that is registered for the key, and
/// has the number that the bucket had when the tick began plus the number of requests
/// that the tick made for the same key before. Numbers end at the largest.
pub proof fn law_requests_are_numbered_consecutively(
    pool: PoolView,
    now: Moment,
    world: spec_fn(JobView) -> Outcome,
    n: int,
)
    requires
        pool.well_formed(),
        0 <= n < requests_of_tick(pool, now, world).len(),
    ensures
        ({
            let asked = requests_of_tick(pool, now, world);
            let stack = asked[n].stack;
            let earlier = times(asked.take(n), stack);
            let first = pool.buckets[stack].next_seed;
            &&& runs_low(pool, now, stack)
            &&& asked[n].snapshot == pool.buckets[stack].source_snapshot
            &&& asked[n].next_seed == (if first + earlier > u64::MAX {
                u64::MAX as int
            } else {
                first + earlier
            })
        }),
{
    let asked = requests_of_tick(pool, now, world);
    let jobs = lemma_requests_of_tick(pool, now, world);
    assert(is_next_of_some(asked, n, jobs));
    let j = choose|j: int| 0 <= j < jobs.len() && is_next_of(asked, n, #[trigger] jobs[j]);
    assert(runs_low(pool, now, jobs[j].stack));
}

/// The jobs that a refill tick serves: one for each key that runs low.
proof fn lemma_requests_of_tick(
    pool: PoolView,
    now: Moment,
    world: spec_fn(JobView) -> Outcome,
) -> (jobs: Seq<JobView>)
    requires
        pool.well_formed(),
    ensures
        served(jobs, requests_of_tick(pool, now, world), world),
        one_job_per_bucket(jobs),
        forall|j: int|
            0 <= j < jobs.len() ==> {
                let stack = (#[trigger] jobs[j]).stack;
                &&& runs_low(pool, now, stack)
                &&& jobs[j].deficit == pool.config.max_depth - young_depth(pool, now, stack)
                &&& jobs[j].snapshot == pool.buckets[stack].source_snapshot
                &&& jobs[j].next_seed == pool.buckets[stack].next_seed
            },
        forall|stack: StackKeyView| #[trigger]
            runs_low(pool, now, stack) ==> exists|j: int|
                0 <= j < jobs.len() && (#[trigger] jobs[j]).stack == stack,
{
    let kept = pool.without_aged(now);
    let jobs = kept.jobs();
    let max_age = pool.config.entry_max_age;
    let not_passed = |entry: EntryView| young(entry, now, max_age);
    let fresh_enough = |entry: EntryView| is_fresh(entry, now, max_age);
    assert(fresh_enough =~= not_passed);
    let planned = lemma_requests_after_evictions(kept, pool.aged_ids(now), world);
    lemma_planned_jobs(kept.keys, kept.buckets, kept.config);
    lemma_requests_serve(planned, jobs, world);
    assert forall|j: int| 0 <= j < jobs.len() implies {
        let stack = (#[trigger] jobs[j]).stack;
        &&& runs_low(pool, now, stack)
        &&& jobs[j].deficit == pool.config.max_depth - young_depth(pool, now, stack)
        &&& jobs[j].snapshot == pool.buckets[stack].source_snapshot
        &&& jobs[j].next_seed == pool.buckets[stack].next_seed
    } by {
        assert(kept.keys.contains(jobs[j].stack));
        assert(pool.buckets.contains_key(jobs[j].stack));
    }
    assert forall|stack: StackKeyView| #[trigger] runs_low(pool, now, stack) implies exists|j: int|
        0 <= j < jobs.len() && (#[trigger] jobs[j]).stack == stack by {
        assert(kept.keys.contains(stack));
        lemma_lacking_is_planned(kept.keys, kept.buckets, kept.config, stack);
    }
    jobs
}

/// A refill tick asks for VMs for just those keys that run low, for each as many as it
/// takes to the high-water mark, unless one of them is refused; behind a request that was
/// refused it asks for none of the same key.
pub proof fn law_tick_asks_for_what_lacks(
    pool: PoolView,
    now: Moment,
    world: spec_fn(JobView) -> Outcome,
    stack: StackKeyView,
)
    requires
        pool.well_formed(),
    ensures
        ({
            let asked = requests_of_tick(pool, now, world);
            let wanted = pool.config.max_depth - young_depth(pool, now, stack);
            &&& runs_low(pool, now, stack) ==> {
                &&& 0 < times(asked, stack) <= wanted
                &&& times(asked, stack) < wanted ==> refused(asked, stack, world)
            }
            &&& !runs_low(pool, now, stack) ==> times(asked, stack) == 0
            &&& forall|m: int, n: int|
                0 <= m < n < asked.len() && (#[trigger] asked[m]).stack == (
                #[trigger] asked[n]).stack ==> !(world(asked[m]) is Refused)
        }),
{
    let asked = requests_of_tick(pool, now, world);
    let jobs = lemma_requests_of_tick(pool, now, world);
    if runs_low(pool, now, stack) {
        let j = choose|j: int| 0 <= j < jobs.len() && (#[trigger] jobs[j]).stack == stack;
        assert(jobs[j].stack == stack);
    } else {
        assert forall|n: int| 0 <= n < asked.len() implies (#[trigger] asked[n]).stack != stack by {
            assert(is_next_of_some(asked, n, jobs));
            let j = choose|j: int| 0 <= j < jobs.len() && is_next_of(asked, n, #[trigger] jobs[j]);
            assert(runs_low(pool, now, jobs[j].stack));
        }
        lemma_times_none(asked, stack);
    }
}

proof fn lemma_times_grow(asked: Seq<JobView>, m: int, n: int)
    requires
        0 <= m < n < asked.len(),
        asked[m].stack == asked[n].stack,
    ensures
        times(asked.take(m), asked[m].stack) < times(asked.take(n), asked[n].stack),
    decreases asked.len(),
{
    let rest = asked.drop_first();
    let stack = asked[n].stack;
    assert(asked =~= seq![asked[0]] + rest);
    lemma_times_behind(asked[0], rest, n - 1, stack);
    if m == 0 {
        assert(asked.take(0) =~= Seq::empty());
    } else {
        lemma_times_behind(asked[0], rest, m - 1, stack);
        lemma_times_grow(rest, m - 1, n - 1);
    }
}

/// The VMs that one refill tick asks for on behalf of one key have different IDs, as long
/// as the numbers of the key's bucket do not run out: no two requests for the key are for
/// the same VM.
pub proof fn law_requests_have_different_ids(
    pool: PoolView,
    now: Moment,
    world: spec_fn(JobView) -> Outcome,
    m: int,
    n: int,
)
    requires
        pool.well_formed(),
        0 <= m < n < requests_of_tick(pool, now, world).len(),
        requests_of_tick(pool, now, world)[m].stack == requests_of_tick(pool, now, world)[n].stack,
        pool.buckets[requests_of_tick(pool, now, world)[n].stack].next_seed + times(
            requests_of_tick(pool, now, world).take(n),
            requests_of_tick(pool, now, world)[n].stack,
        ) <= u64::MAX,
    ensures
        ({
            let asked = requests_of_tick(pool, now, world);
            &&& asked[m].next_seed < asked[n].next_seed
            &&& vm_id(asked[m].stack, asked[m].next_seed) != vm_id(
                asked[n].stack,
                asked[n].next_seed,
            )
        }),
{
    let asked = requests_of_tick(pool, now, world);
    let jobs = lemma_requests_of_tick(pool, now, world);
    assert(is_next_of_some(asked, n, jobs));
    let j = choose|j: int| 0 <= j < jobs.len() && is_next_of(asked, n, #[trigger] jobs[j]);
    assert(runs_low(pool, now, jobs[j].stack));
    law_requests_are_numbered_consecutively(pool, now, world, m);
    law_requests_are_numbered_consecutively(pool, now, world, n);
    lemma_times_grow(asked, m, n);
    if vm_id(asked[m].stack, asked[m].next_seed) == vm_id(asked[n].stack, asked[n].next_seed) {
        law_vm_id_tells_its_parts(
            asked[m].stack,
            asked[m].next_seed,
            asked[n].stack,
            asked[n].next_seed,
        );
    }
}

/// Whether the VM `id` is spelled out with one of the `count` numbers from `first` on.
pub open spec fn named_from(id: Seq<char>, stack: StackKeyView, first: u64, count: nat) -> bool {
    exists|k: nat| k < count && #[trigger] spells(id, stack, (first + k) as u64)
}

proof fn lemma_spawned_numbers(job: JobView, world: spec_fn(JobView) -> Outcome) -> (numbers: Seq<u64>)
    requires
        job.deficit > 0 ==> job.next_seed + job.deficit <= u64::MAX + 1,
    ensures
        numbers.len() == spawned(job, world).len(),
        forall|i: int|
            0 <= i < numbers.len() ==> {
                &&& job.next_seed <= #[trigger] numbers[i] < job.next_seed + job.deficit
                &&& spawned(job, world)[i].vm_id == vm_id(job.stack, numbers[i])
            },
        forall|i: int, j: int|
            0 <= i < j < numbers.len() ==> #[trigger] numbers[i] < #[trigger] numbers[j],
    decreases job.deficit,
{
    if job.deficit == 0 {
        Seq::empty()
    } else {
        match world(job) {
            Outcome::Refused => Seq::empty(),
            Outcome::Unhealthy => lemma_spawned_numbers(job.advanced(), world),
            Outcome::Healthy(when) => {
                let rest = lemma_spawned_numbers(job.advanced(), world);
                let numbers = seq![job.next_seed] + rest;
                assert forall|i: int| 0 <= i < numbers.len() implies {
                    &&& job.next_seed <= #[trigger] numbers[i] < job.next_seed + job.deficit
                    &&& spawned(job, world)[i].vm_id == vm_id(job.stack, numbers[i])
                } by {
                    if i > 0 {
                        assert(numbers[i] == rest[i - 1]);
                        assert(spawned(job, world)[i] == spawned(job.advanced(), world)[i - 1]);
                    }
                }
                numbers
            },
        }
    }
}

/// The entries that join a bucket from one refill tick stand behind those that stayed, are
/// restored under numbers that the bucket had not used when the tick began, and are
/// different VMs: this needs nothing but that the bucket's numbers do not run out.
pub proof fn law_entries_of_one_tick_are_different(
    pool: PoolView,
    now: Moment,
    world: spec_fn(JobView) -> Outcome,
    stack: StackKeyView,
)
    requires
        pool.well_formed(),
        pool.buckets.contains_key(stack),
        runs_low(pool, now, stack) ==> pool.buckets[stack].next_seed + pool.config.max_depth
            - young_depth(pool, now, stack) <= u64::MAX + 1,
    ensures
        ({
            let (begun, at) = pool.tick(now);
            let after = tick_run(begun, at, world).buckets[stack].entries;
            let stayed = young_depth(pool, now, stack);
            let first = pool.buckets[stack].next_seed;
            &&& stayed <= after.len()
            &&& after.take(stayed as int) == pool.buckets[stack].entries.filter(
                |entry: EntryView| young(entry, now, pool.config.entry_max_age),
            )
            &&& forall|i: int|
                stayed <= i < after.len() ==> named_from(
                    (#[trigger] after[i]).vm_id,
                    stack,
                    first,
                    pool.config.max_depth as nat,
                )
            &&& forall|i: int, j: int|
                stayed <= i < j < after.len() ==> (#[trigger] after[i]).vm_id != (
                #[trigger] after[j]).vm_id
        }),
{
    let (begun, at) = pool.tick(now);
    let after = tick_run(begun, at, world).buckets[stack].entries;
    let kept = pool.without_aged(now);
    let stayed = young_depth(pool, now, stack);
    let first = pool.buckets[stack].next_seed;
    let max_age = pool.config.entry_max_age;
    let not_passed = |entry: EntryView| young(entry, now, max_age);
    let fresh_enough = |entry: EntryView| is_fresh(entry, now, max_age);
    assert(fresh_enough =~= not_passed);
    let job = job_for(kept.buckets[stack], stack, pool.config);
    let joined = spawned(job, world);
    law_tick_in_full(pool, now, world);
    assert(after == kept.buckets[stack].entries + joined);
    assert(after.take(stayed as int) =~= kept.buckets[stack].entries);
    let numbers = lemma_spawned_numbers(job, world);
    assert forall|i: int| stayed <= i < after.len() implies named_from(
        (#[trigger] after[i]).vm_id,
        stack,
        first,
        pool.config.max_depth as nat,
    ) by {
        let number = numbers[i - stayed];
        assert(after[i] == joined[i - stayed]);
        law_vm_id_is_spelled_out(stack, number);
        let k = (number - first) as nat;
        assert(spells(after[i].vm_id, stack, (first + k) as u64));
    }
    assert forall|i: int, j: int| stayed <= i < j < after.len() implies (#[trigger] after[i]).vm_id
        != (#[trigger] after[j]).vm_id by {
        assert(after[i] == joined[i - stayed]);
        assert(after[j] == joined[j - stayed]);
        let m = numbers[i - stayed];
        let n = numbers[j - stayed];
        assert(m < n);
        if vm_id(stack, m) == vm_id(stack, n) {
            law_vm_id_tells_its_parts(stack, m, stack, n);
        }
    }
}

} // verus!
