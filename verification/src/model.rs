//! The pool as a mathematical value, and what each operation makes of it.

use crate::clock::{Moment, Span};
use crate::config::WarmPoolConfig;
use crate::metrics::{bumped, Counters};
use crate::naming::vm_id;
use crate::stack_key::StackKeyView;
use microvm_runtime::model::SnapshotRef;
use vstd::prelude::*;

verus! {

/// One live entry in a bucket.
pub struct EntryView {
    /// The VM's identifier.
    pub vm_id: Seq<char>,
    /// When the entry joined the bucket.
    pub created_at: Moment,
}

/// One bucket.
#[verifier::ext_equal]
pub struct BucketView {
    /// Snapshot that new entries are restored from.
    pub source_snapshot: SnapshotRef,
    /// Live entries, oldest first.
    pub entries: Seq<EntryView>,
    /// The number that the next spawned entry is named by.
    pub next_seed: u64,
}

/// The pool.
#[verifier::ext_equal]
pub struct PoolView {
    /// The tunables that the pool was started with.
    pub config: WarmPoolConfig,
    /// The registered keys, in the order in which they were registered.
    pub keys: Seq<StackKeyView>,
    /// The bucket of each registered key.
    pub buckets: Map<StackKeyView, BucketView>,
    /// What the pool has counted.
    pub counters: Counters,
    /// Whether the pool has been told to shut down.
    pub shutdown: bool,
}

/// Spawns that a refill tick still owes to one bucket.
pub struct JobView {
    /// The bucket.
    pub stack: StackKeyView,
    /// How many entries to spawn.
    pub deficit: nat,
    /// The snapshot to restore them from.
    pub snapshot: SnapshotRef,
    /// The number that the first of them is named by.
    pub next_seed: u64,
}

/// An entry that is handed off, or about to be.
pub struct HandleView {
    /// The VM's identifier.
    pub source_vm_id: Seq<char>,
    /// The bucket that the entry was taken from.
    pub stack: StackKeyView,
    /// The bucket's snapshot when the entry was taken.
    pub source_snapshot: SnapshotRef,
}

/// Where an acquire stands.
pub enum AcquireView {
    /// The entry waits for its verdict.
    Validate(HandleView),
    /// The entry was turned down and waits to be destroyed.
    Destroy(HandleView),
    /// The acquire is over.
    Done(Option<HandleView>),
}

/// The spawns that a refill tick still owes: those of the bucket at hand, and
/// those of the buckets behind it.
#[verifier::ext_equal]
pub struct SpawnView {
    /// The bucket at hand.
    pub current: JobView,
    /// The buckets behind it.
    pub queue: Seq<JobView>,
}

/// Where a refill tick stands.
#[verifier::ext_equal]
pub enum TickView {
    /// Entries that are too old wait to be destroyed, the first of them now.
    Evict(Seq<Seq<char>>),
    /// The next VM of the bucket at hand waits to be created.
    Create(SpawnView),
    /// The created VM waits for its verdict.
    Validate(SpawnView),
    /// The created VM waits to be destroyed.
    Discard(SpawnView),
    /// The tick is over.
    Done,
}

/// The sequences that `f` gives for `keys`, one behind the other.
pub open spec fn gather<T>(keys: Seq<StackKeyView>, f: spec_fn(StackKeyView) -> Seq<T>) -> Seq<T>
    decreases keys.len(),
{
    if keys.len() == 0 {
        Seq::empty()
    } else {
        gather(keys.drop_last(), f) + f(keys.last())
    }
}

/// The characters of each of `strings`.
pub open spec fn texts(strings: Seq<String>) -> Seq<Seq<char>> {
    strings.map_values(|string: String| string@)
}

/// The VM IDs of `entries`.
pub open spec fn ids(entries: Seq<EntryView>) -> Seq<Seq<char>> {
    entries.map_values(|entry: EntryView| entry.vm_id)
}

/// Whether `entry` is at `now` no older than `max_age`.
pub open spec fn is_fresh(entry: EntryView, now: Moment, max_age: Span) -> bool {
    now.spec_since(entry.created_at).nanos <= max_age.nanos
}

/// The entries that are no older than `max_age`.
pub open spec fn fresh(entries: Seq<EntryView>, now: Moment, max_age: Span) -> Seq<EntryView> {
    entries.filter(|entry: EntryView| is_fresh(entry, now, max_age))
}

/// The entries that are older than `max_age`.
pub open spec fn aged(entries: Seq<EntryView>, now: Moment, max_age: Span) -> Seq<EntryView> {
    entries.filter(|entry: EntryView| !is_fresh(entry, now, max_age))
}

/// `seed` moved on by `by`, held at the largest number.
pub open spec fn seed_after(seed: u64, by: nat) -> u64 {
    if seed + by > u64::MAX {
        u64::MAX
    } else {
        (seed + by) as u64
    }
}

/// The tick that goes on with the first of `jobs` that still lacks an entry.
pub open spec fn spawn_next(jobs: Seq<JobView>) -> TickView
    decreases jobs.len(),
{
    if jobs.len() == 0 {
        TickView::Done
    } else if jobs[0].deficit == 0 {
        spawn_next(jobs.drop_first())
    } else {
        TickView::Create(SpawnView { current: jobs[0], queue: jobs.drop_first() })
    }
}

impl JobView {
    /// The job with its first spawn done.
    pub open spec fn advanced(self) -> JobView {
        JobView {
            deficit: if self.deficit == 0 {
                0
            } else {
                (self.deficit - 1) as nat
            },
            next_seed: seed_after(self.next_seed, 1),
            ..self
        }
    }
}

impl SpawnView {
    /// The VM ID of the spawn at hand.
    pub open spec fn vm_id(self) -> Seq<char> {
        vm_id(self.current.stack, self.current.next_seed)
    }

    /// The tick that follows once the spawn at hand is settled.
    pub open spec fn settled(self) -> TickView {
        spawn_next(seq![self.current.advanced()] + self.queue)
    }

    /// The tick that follows once the bucket at hand is given up.
    pub open spec fn given_up(self) -> TickView {
        spawn_next(self.queue)
    }
}

impl BucketView {
    /// A bucket that nothing was spawned for yet.
    pub open spec fn empty(source_snapshot: SnapshotRef) -> BucketView {
        BucketView { source_snapshot, entries: Seq::empty(), next_seed: 0 }
    }

    /// How many entries a refill tick owes the bucket: none from the low-water
    /// mark on; below it, as many as the high-water mark asks for.
    pub open spec fn deficit(self, config: WarmPoolConfig) -> nat {
        if self.entries.len() < config.min_depth && self.entries.len() < config.max_depth {
            (config.max_depth - self.entries.len()) as nat
        } else {
            0
        }
    }

    /// The bucket once the numbers for its deficit are taken.
    pub open spec fn reserved(self, config: WarmPoolConfig) -> BucketView {
        BucketView { next_seed: seed_after(self.next_seed, self.deficit(config)), ..self }
    }

    /// The job that makes up the deficit: none where there is no deficit.
    pub open spec fn jobs(self, stack: StackKeyView, config: WarmPoolConfig) -> Seq<JobView> {
        if self.deficit(config) == 0 {
            Seq::empty()
        } else {
            seq![
                JobView {
                    stack,
                    deficit: self.deficit(config),
                    snapshot: self.source_snapshot,
                    next_seed: self.next_seed,
                },
            ]
        }
    }
}

impl PoolView {
    /// A pool that no key is registered with.
    pub open spec fn empty(config: WarmPoolConfig) -> PoolView {
        PoolView {
            config,
            keys: Seq::empty(),
            buckets: Map::empty(),
            counters: Counters::zero(),
            shutdown: false,
        }
    }

    /// `keys` lists each registered key, and each once.
    pub open spec fn well_formed(self) -> bool {
        &&& self.keys.no_duplicates()
        &&& forall|stack: StackKeyView|
            self.keys.contains(stack) <==> #[trigger] self.buckets.contains_key(stack)
    }

    /// The entries of `stack`'s bucket: none where `stack` is not registered.
    pub open spec fn entries(self, stack: StackKeyView) -> Seq<EntryView> {
        if self.buckets.contains_key(stack) {
            self.buckets[stack].entries
        } else {
            Seq::empty()
        }
    }

    /// The pool with `entries` in the bucket of `stack`.
    pub open spec fn with_entries(self, stack: StackKeyView, entries: Seq<EntryView>) -> PoolView {
        PoolView {
            buckets: self.buckets.insert(stack, BucketView { entries, ..self.buckets[stack] }),
            ..self
        }
    }

    /// `stack` is kept warm from `source_snapshot`: a known key keeps its
    /// entries and its numbering, a new one starts empty.
    pub open spec fn register(self, stack: StackKeyView, source_snapshot: SnapshotRef) -> PoolView {
        if self.buckets.contains_key(stack) {
            PoolView {
                buckets: self.buckets.insert(
                    stack,
                    BucketView { source_snapshot, ..self.buckets[stack] },
                ),
                ..self
            }
        } else {
            PoolView {
                keys: self.keys.push(stack),
                buckets: self.buckets.insert(stack, BucketView::empty(source_snapshot)),
                ..self
            }
        }
    }

    /// `stack` is no longer tracked.
    pub open spec fn unregister(self, stack: StackKeyView) -> PoolView {
        if self.buckets.contains_key(stack) {
            PoolView {
                keys: self.keys.remove(self.keys.index_of(stack)),
                buckets: self.buckets.remove(stack),
                ..self
            }
        } else {
            self
        }
    }

    /// The newest entry of `stack`'s bucket is taken out.
    pub open spec fn pop(self, stack: StackKeyView) -> PoolView {
        self.with_entries(stack, self.entries(stack).drop_last())
    }

    /// An entry joins `stack`'s bucket as its newest.
    pub open spec fn push(self, stack: StackKeyView, entry: EntryView) -> PoolView {
        self.with_entries(stack, self.entries(stack).push(entry))
    }

    /// Every bucket is emptied, and the pool is told to shut down.
    pub open spec fn drained(self) -> PoolView {
        PoolView {
            buckets: self.buckets.map_values(
                |bucket: BucketView| BucketView { entries: Seq::empty(), ..bucket },
            ),
            shutdown: true,
            ..self
        }
    }

    /// The VM IDs of all entries, bucket by bucket.
    pub open spec fn all_ids(self) -> Seq<Seq<char>> {
        gather(self.keys, |stack: StackKeyView| ids(self.buckets[stack].entries))
    }

    /// Every bucket keeps only the entries that are young enough.
    pub open spec fn without_aged(self, now: Moment) -> PoolView {
        PoolView {
            buckets: self.buckets.map_values(
                |bucket: BucketView|
                    BucketView {
                        entries: fresh(bucket.entries, now, self.config.entry_max_age),
                        ..bucket
                    },
            ),
            ..self
        }
    }

    /// The VM IDs of the entries that are too old, bucket by bucket.
    pub open spec fn aged_ids(self, now: Moment) -> Seq<Seq<char>> {
        gather(
            self.keys,
            |stack: StackKeyView|
                ids(aged(self.buckets[stack].entries, now, self.config.entry_max_age)),
        )
    }

    /// Every bucket has the numbers for its deficit taken.
    pub open spec fn reserved(self) -> PoolView {
        PoolView {
            buckets: self.buckets.map_values(|bucket: BucketView| bucket.reserved(self.config)),
            ..self
        }
    }

    /// The jobs that make up the deficits, bucket by bucket.
    pub open spec fn jobs(self) -> Seq<JobView> {
        gather(self.keys, |stack: StackKeyView| self.buckets[stack].jobs(stack, self.config))
    }

    /// An acquire takes up the newest entry of `stack`'s bucket; it is over
    /// where there is none.
    pub open spec fn acquire(self, stack: StackKeyView) -> (PoolView, AcquireView) {
        if self.entries(stack).len() == 0 {
            (self, AcquireView::Done(None))
        } else {
            (
                self.pop(stack),
                AcquireView::Validate(
                    HandleView {
                        source_vm_id: self.entries(stack).last().vm_id,
                        stack,
                        source_snapshot: self.buckets[stack].source_snapshot,
                    },
                ),
            )
        }
    }

    /// An acquire has the verdict on its entry: a healthy one is handed off, an
    /// unhealthy one has to go.
    pub open spec fn acquire_validated(self, entry: HandleView, healthy: bool) -> (
        PoolView,
        AcquireView,
    ) {
        if healthy {
            (self.count_acquired(), AcquireView::Done(Some(entry)))
        } else {
            (self.count_validation_failure(), AcquireView::Destroy(entry))
        }
    }

    /// An acquire had its unhealthy entry destroyed, and takes up the next one.
    pub open spec fn acquire_destroyed(self, entry: HandleView) -> (PoolView, AcquireView) {
        self.count_evicted().acquire(entry.stack)
    }

    /// A refill tick begins: entries that are too old leave their buckets.
    pub open spec fn tick(self, now: Moment) -> (PoolView, TickView) {
        self.without_aged(now).tick_evicting(self.aged_ids(now))
    }

    /// A refill tick has `victims` to destroy; with none left it plans its
    /// spawns.
    pub open spec fn tick_evicting(self, victims: Seq<Seq<char>>) -> (PoolView, TickView) {
        if victims.len() == 0 {
            (self.reserved(), spawn_next(self.jobs()))
        } else {
            (self, TickView::Evict(victims))
        }
    }

    /// A refill tick had the first of `victims` destroyed.
    pub open spec fn tick_evicted(self, victims: Seq<Seq<char>>) -> (PoolView, TickView) {
        self.count_evicted().tick_evicting(victims.drop_first())
    }

    /// A refill tick learns whether its VM could be created. Where it could not,
    /// the bucket is left to the next tick.
    pub open spec fn tick_created(self, spawn: SpawnView, succeeded: bool) -> (
        PoolView,
        TickView,
    ) {
        if succeeded {
            (self.count_created(), TickView::Validate(spawn))
        } else {
            (self, spawn.given_up())
        }
    }

    /// A refill tick has the verdict on its VM: a healthy one joins its bucket.
    /// One that is unhealthy, or whose bucket is gone, has to go.
    pub open spec fn tick_validated(self, spawn: SpawnView, healthy: bool, now: Moment) -> (
        PoolView,
        TickView,
    ) {
        if !healthy {
            (self.count_validation_failure(), TickView::Discard(spawn))
        } else if self.buckets.contains_key(spawn.current.stack) {
            (
                self.push(
                    spawn.current.stack,
                    EntryView { vm_id: spawn.vm_id(), created_at: now },
                ),
                spawn.settled(),
            )
        } else {
            (self, TickView::Discard(spawn))
        }
    }

    /// A refill tick had its VM destroyed again.
    pub open spec fn tick_discarded(self, spawn: SpawnView) -> (PoolView, TickView) {
        (self.count_evicted(), spawn.settled())
    }

    /// One more entry was spawned.
    pub open spec fn count_created(self) -> PoolView {
        PoolView {
            counters: Counters { created: bumped(self.counters.created), ..self.counters },
            ..self
        }
    }

    /// One more entry was handed off.
    pub open spec fn count_acquired(self) -> PoolView {
        PoolView {
            counters: Counters { acquired: bumped(self.counters.acquired), ..self.counters },
            ..self
        }
    }

    /// One more entry was destroyed.
    pub open spec fn count_evicted(self) -> PoolView {
        PoolView {
            counters: Counters { evicted: bumped(self.counters.evicted), ..self.counters },
            ..self
        }
    }

    /// One more refill tick was run.
    pub open spec fn count_refill_run(self) -> PoolView {
        PoolView {
            counters: Counters { refill_runs: bumped(self.counters.refill_runs), ..self.counters },
            ..self
        }
    }

    /// One more entry was turned down by the validator.
    pub open spec fn count_validation_failure(self) -> PoolView {
        PoolView {
            counters: Counters {
                validation_failures: bumped(self.counters.validation_failures),
                ..self.counters
            },
            ..self
        }
    }
}

} // verus!
