//! The warm pool: its buckets, and what is done to them in one go.

use crate::clock::{Moment, Span};
use crate::config::WarmPoolConfig;
use crate::metrics::{Counters, WarmPoolMetrics};
use crate::model::{
    aged, fresh, gather, ids, texts, BucketView, EntryView, JobView, PoolView,
};
use crate::schedule::{millis, JoinWait, JOIN_BUDGET_MILLIS};
use crate::stack_key::{StackKey, StackKeyView};
use microvm_runtime::model::SnapshotRef;
use vstd::prelude::*;

verus! {

/// One live entry in a bucket.
#[derive(Debug)]
struct PoolEntry {
    vm_id: String,
    created_at: Moment,
}

impl View for PoolEntry {
    type V = EntryView;

    closed spec fn view(&self) -> EntryView {
        EntryView { vm_id: self.vm_id@, created_at: self.created_at }
    }
}

/// One bucket.
#[derive(Debug)]
struct BucketState {
    /// The key that the bucket belongs to.
    stack: StackKey,
    /// Snapshot that refill ticks restore new entries from.
    source_snapshot: SnapshotRef,
    /// Live, validated-on-spawn entries ready for handoff.
    entries: Vec<PoolEntry>,
    /// Monotonic counter for unique seed IDs.
    next_seed: u64,
}

spec fn entries_view(entries: Seq<PoolEntry>) -> Seq<EntryView> {
    entries.map_values(|entry: PoolEntry| entry@)
}

impl View for BucketState {
    type V = BucketView;

    closed spec fn view(&self) -> BucketView {
        BucketView {
            source_snapshot: self.source_snapshot,
            entries: entries_view(self.entries@),
            next_seed: self.next_seed,
        }
    }
}

spec fn keys_view(buckets: Seq<BucketState>) -> Seq<StackKeyView> {
    buckets.map_values(|bucket: BucketState| bucket.stack@)
}

spec fn buckets_view(buckets: Seq<BucketState>) -> Map<StackKeyView, BucketView> {
    Map::new(
        |stack: StackKeyView| keys_view(buckets).contains(stack),
        |stack: StackKeyView| buckets[keys_view(buckets).index_of(stack)]@,
    )
}

/// Spawns that a refill tick still owes to one bucket.
#[derive(Debug)]
pub struct RefillJob {
    /// The bucket.
    pub stack: StackKey,
    /// How many entries to spawn.
    pub deficit: usize,
    /// The snapshot to restore them from.
    pub snapshot: SnapshotRef,
    /// The number that the first of them is named by.
    pub next_seed: u64,
}

impl View for RefillJob {
    type V = JobView;

    open spec fn view(&self) -> JobView {
        JobView {
            stack: self.stack@,
            deficit: self.deficit as nat,
            snapshot: self.snapshot,
            next_seed: self.next_seed,
        }
    }
}

/// What each of `jobs` asks for.
pub open spec fn jobs_view(jobs: Seq<RefillJob>) -> Seq<JobView> {
    jobs.map_values(|job: RefillJob| job@)
}

/// Warm pool of pre-restored microVMs.
#[derive(Debug)]
pub struct WarmPool {
    config: WarmPoolConfig,
    buckets: Vec<BucketState>,
    counters: Counters,
    shutdown_flag: bool,
}

impl View for WarmPool {
    type V = PoolView;

    closed spec fn view(&self) -> PoolView {
        PoolView {
            config: self.config,
            keys: keys_view(self.buckets@),
            buckets: buckets_view(self.buckets@),
            counters: self.counters,
            shutdown: self.shutdown_flag,
        }
    }
}

/// Each key finds its own bucket.
proof fn lemma_buckets_view(buckets: Seq<BucketState>)
    requires
        keys_view(buckets).no_duplicates(),
    ensures
        forall|i: int|
            0 <= i < buckets.len() ==> {
                &&& buckets_view(buckets).contains_key(#[trigger] keys_view(buckets)[i])
                &&& buckets_view(buckets)[keys_view(buckets)[i]] == buckets[i]@
            },
        forall|stack: StackKeyView|
            keys_view(buckets).contains(stack) <==> #[trigger] buckets_view(buckets).contains_key(
                stack,
            ),
{
    let keys = keys_view(buckets);
    assert forall|i: int| 0 <= i < buckets.len() implies {
        &&& buckets_view(buckets).contains_key(#[trigger] keys[i])
        &&& buckets_view(buckets)[keys[i]] == buckets[i]@
    } by {
        assert(keys.contains(keys[i]));
        let found = keys.index_of(keys[i]);
        assert(0 <= found < keys.len() && keys[found] == keys[i]);
    }
}

/// A map that gives each key its own bucket, and has no further key, is the
/// view of the buckets.
proof fn lemma_buckets_view_is(
    buckets: Seq<BucketState>,
    expected: Map<StackKeyView, BucketView>,
)
    requires
        keys_view(buckets).no_duplicates(),
        forall|i: int|
            0 <= i < buckets.len() ==> {
                &&& expected.contains_key(#[trigger] keys_view(buckets)[i])
                &&& expected[keys_view(buckets)[i]] == buckets[i]@
            },
        forall|stack: StackKeyView| #[trigger]
            expected.contains_key(stack) ==> keys_view(buckets).contains(stack),
    ensures
        buckets_view(buckets) == expected,
{
    lemma_buckets_view(buckets);
    let keys = keys_view(buckets);
    assert forall|stack: StackKeyView| #[trigger] expected.contains_key(stack) <==> buckets_view(
        buckets,
    ).contains_key(stack) by {
        if keys.contains(stack) {
            assert(keys[keys.index_of(stack)] == stack);
        }
    }
    assert forall|stack: StackKeyView| #[trigger] expected.contains_key(stack) implies expected[stack]
        == buckets_view(buckets)[stack] by {
        assert(keys[keys.index_of(stack)] == stack);
    }
    assert(buckets_view(buckets) =~= expected);
}

/// Changing one bucket changes the map at its key.
proof fn lemma_one_bucket_changed(before: Seq<BucketState>, after: Seq<BucketState>, at: int)
    requires
        keys_view(before).no_duplicates(),
        keys_view(after) == keys_view(before),
        0 <= at < before.len(),
        forall|i: int| 0 <= i < before.len() && i != at ==> #[trigger] after[i] == before[i],
    ensures
        buckets_view(after) == buckets_view(before).insert(keys_view(before)[at], after[at]@),
{
    lemma_buckets_view(before);
    let keys = keys_view(before);
    assert(after.len() == keys_view(after).len());
    let expected = buckets_view(before).insert(keys[at], after[at]@);
    assert forall|i: int| 0 <= i < after.len() implies {
        &&& expected.contains_key(#[trigger] keys[i])
        &&& expected[keys[i]] == after[i]@
    } by {
        if i != at {
            assert(after[i] == before[i]);
        }
    }
    lemma_buckets_view_is(after, expected);
}

/// Changing every bucket in the same way changes every value of the map so.
proof fn lemma_every_bucket_changed(
    before: Seq<BucketState>,
    after: Seq<BucketState>,
    change: spec_fn(BucketView) -> BucketView,
)
    requires
        keys_view(before).no_duplicates(),
        keys_view(after) == keys_view(before),
        forall|i: int| 0 <= i < before.len() ==> (#[trigger] after[i])@ == change(before[i]@),
    ensures
        buckets_view(after) == buckets_view(before).map_values(change),
{
    lemma_buckets_view(before);
    let keys = keys_view(before);
    assert(after.len() == keys_view(after).len());
    let expected = buckets_view(before).map_values(change);
    assert forall|i: int| 0 <= i < after.len() implies {
        &&& expected.contains_key(#[trigger] keys[i])
        &&& expected[keys[i]] == after[i]@
    } by {
        assert(buckets_view(before).contains_key(keys[i]));
        assert(after[i]@ == change(before[i]@));
    }
    lemma_buckets_view_is(after, expected);
}

/// Move the VM IDs of `entries` behind what `out` holds.
fn move_ids(entries: Vec<PoolEntry>, out: &mut Vec<String>)
    ensures
        texts(final(out)@) == texts(old(out)@) + ids(entries_view(entries@)),
{
    let ghost all = entries@;
    for entry in it: entries
        invariant
            it.seq() == all,
            texts(out@) == texts(old(out)@) + ids(entries_view(all.take(it.index() as int))),
    {
        proof {
            assert(all.take(it.index() + 1) =~= all.take(it.index() as int).push(entry));
        }
        let ghost shorter = out@;
        out.push(entry.vm_id);
        proof {
            assert(texts(out@) =~= texts(shorter).push(entry@.vm_id));
            assert(ids(entries_view(all.take(it.index() + 1))) =~= ids(
                entries_view(all.take(it.index() as int)),
            ).push(entry@.vm_id));
        }
    }
    assert(all.take(all.len() as int) =~= all);
}

impl BucketState {
    /// Drop the entries that are older than `max_age`, and move their VM IDs
    /// behind what `victims` holds.
    fn evict_aged(&mut self, now: Moment, max_age: Span, victims: &mut Vec<String>)
        ensures
            final(self).stack == old(self).stack,
            final(self)@ == (BucketView {
                entries: fresh(old(self)@.entries, now, max_age),
                ..old(self)@
            }),
            texts(final(victims)@) == texts(old(victims)@) + ids(
                aged(old(self)@.entries, now, max_age),
            ),
    {
        let ghost before = self.entries@;
        let ghost all = entries_view(before);
        let ghost mut seen: int = 0;
        let mut i: usize = 0;
        proof {
            reveal(Seq::filter);
            assert(all.take(0) =~= Seq::empty());
            assert(before.skip(0) =~= before);
            assert(entries_view(self.entries@.take(0)) =~= fresh(all.take(0), now, max_age));
            assert(ids(aged(all.take(0), now, max_age)) =~= Seq::empty());
            assert(texts(victims@) =~= texts(old(victims)@) + ids(aged(all.take(0), now, max_age)));
        }
        while i < self.entries.len()
            invariant
                i <= self.entries.len(),
                0 <= seen <= before.len(),
                self.entries.len() - i == before.len() - seen,
                all == entries_view(before),
                self.entries@.skip(i as int) == before.skip(seen),
                entries_view(self.entries@.take(i as int)) == fresh(all.take(seen), now, max_age),
                texts(victims@) == texts(old(victims)@) + ids(
                    aged(all.take(seen), now, max_age),
                ),
                self.stack == old(self).stack,
                self.source_snapshot == old(self).source_snapshot,
                self.next_seed == old(self).next_seed,
            decreases self.entries.len() - i,
        {
            let ghost entry = before[seen];
            proof {
                reveal(Seq::filter);
                assert(before.skip(seen)[0] == entry);
                assert(self.entries@.skip(i as int)[0] == self.entries@[i as int]);
                assert(all.take(seen + 1).drop_last() =~= all.take(seen));
                assert(all.take(seen + 1).last() == entry@);
                assert(before.skip(seen + 1) =~= before.skip(seen).skip(1));
            }
            let ghost earlier = self.entries@;
            let age = now.since(self.entries[i].created_at);
            if age.nanos <= max_age.nanos {
                i += 1;
                proof {
                    assert(self.entries@.skip(i as int) =~= earlier.skip(i - 1).skip(1));
                    assert(entries_view(self.entries@.take(i as int)) =~= entries_view(
                        earlier.take(i - 1),
                    ).push(entry@));
                }
            } else {
                let ghost listed = victims@;
                let old_entry = self.entries.remove(i);
                victims.push(old_entry.vm_id);
                proof {
                    assert(self.entries@.skip(i as int) =~= earlier.skip(i as int).skip(1));
                    assert(self.entries@.take(i as int) =~= earlier.take(i as int));
                    assert(texts(victims@) =~= texts(listed).push(entry@.vm_id));
                    assert(ids(aged(all.take(seen + 1), now, max_age)) =~= ids(
                        aged(all.take(seen), now, max_age),
                    ).push(entry@.vm_id));
                }
            }
            proof {
                seen = seen + 1;
            }
        }
        proof {
            assert(all.take(seen) =~= all);
            assert(self.entries@.take(i as int) =~= self.entries@);
            assert(self@ =~= BucketView { entries: fresh(all, now, max_age), ..old(self)@ });
        }
    }
}

impl WarmPool {
    /// Start a pool that no key is registered with.
    pub fn start(config: WarmPoolConfig) -> (pool: WarmPool)
        ensures
            pool@.well_formed(),
            pool@ == PoolView::empty(config),
    {
        let pool = WarmPool {
            config,
            buckets: Vec::new(),
            counters: Counters::default(),
            shutdown_flag: false,
        };
        assert(pool@ =~= PoolView::empty(config));
        pool
    }

    /// Where the bucket of `stack` stands.
    fn find(&self, stack: &StackKey) -> (found: Option<usize>)
        ensures
            match found {
                Some(i) => i < self.buckets@.len() && keys_view(self.buckets@)[i as int] == stack@,
                None => !keys_view(self.buckets@).contains(stack@),
            },
    {
        let mut i: usize = 0;
        while i < self.buckets.len()
            invariant
                i <= self.buckets.len(),
                forall|j: int| 0 <= j < i ==> self.buckets@[j].stack@ != stack@,
            decreases self.buckets.len() - i,
        {
            if self.buckets[i].stack == *stack {
                return Some(i);
            }
            i += 1;
        }
        None
    }

    /// Tell the pool which snapshot to keep warm for `stack`. The next refill
    /// tick brings this bucket up.
    ///
    /// Calling `register` again for the same key replaces the snapshot but
    /// keeps existing entries: they continue to be served until evicted by
    /// age or validation. Operators wanting hard cutover should pair this
    /// with [`unregister`](Self::unregister).
    pub fn register(&mut self, stack: StackKey, source_snapshot: SnapshotRef)
        requires
            old(self)@.well_formed(),
        ensures
            final(self)@.well_formed(),
            final(self)@ == old(self)@.register(stack@, source_snapshot),
    {
        proof {
            lemma_buckets_view(self.buckets@);
        }
        let ghost before = self.buckets@;
        match self.find(&stack) {
            Some(i) => {
                self.buckets[i].source_snapshot = source_snapshot;
                proof {
                    assert(keys_view(self.buckets@) =~= keys_view(before));
                    lemma_buckets_view(self.buckets@);
                    assert(self@.buckets =~= old(self)@.register(stack@, source_snapshot).buckets);
                }
            },
            None => {
                let ghost key = stack@;
                self.buckets.push(
                    BucketState { stack, source_snapshot, entries: Vec::new(), next_seed: 0 },
                );
                proof {
                    let keys = keys_view(self.buckets@);
                    let expected = old(self)@.register(key, source_snapshot).buckets;
                    assert(keys =~= keys_view(before).push(key));
                    assert(self.buckets@.last()@ =~= BucketView::empty(source_snapshot));
                    assert forall|i: int| 0 <= i < self.buckets@.len() implies {
                        &&& expected.contains_key(#[trigger] keys[i])
                        &&& expected[keys[i]] == self.buckets@[i]@
                    } by {
                        if i < before.len() {
                            assert(keys[i] == keys_view(before)[i]);
                        }
                    }
                    assert forall|k: StackKeyView| #[trigger]
                        expected.contains_key(k) implies keys.contains(k) by {
                        if k == key {
                            assert(keys.last() == k);
                        } else {
                            let i = keys_view(before).index_of(k);
                            assert(keys[i] == k);
                        }
                    }
                    lemma_buckets_view_is(self.buckets@, expected);
                    lemma_buckets_view(self.buckets@);
                }
            },
        }
    }

    /// Stop tracking `stack`, and hand out the VM IDs of its entries.
    pub(crate) fn remove_bucket(&mut self, stack: &StackKey) -> (drained: Vec<String>)
        requires
            old(self)@.well_formed(),
        ensures
            final(self)@.well_formed(),
            final(self)@ == old(self)@.unregister(stack@),
            texts(drained@) == ids(old(self)@.entries(stack@)),
    {
        proof {
            lemma_buckets_view(self.buckets@);
        }
        let ghost before = self.buckets@;
        let mut drained: Vec<String> = Vec::new();
        match self.find(stack) {
            Some(i) => {
                let bucket = self.buckets.remove(i);
                move_ids(bucket.entries, &mut drained);
                proof {
                    let keys = keys_view(before);
                    let kept = keys_view(self.buckets@);
                    let expected = old(self)@.unregister(stack@).buckets;
                    assert(keys.contains(stack@));
                    assert(keys.index_of(stack@) == i);
                    assert(kept =~= keys.remove(i as int));
                    assert forall|j: int| 0 <= j < self.buckets@.len() implies {
                        &&& expected.contains_key(#[trigger] kept[j])
                        &&& expected[kept[j]] == self.buckets@[j]@
                    } by {
                        let was = if j < i {
                            j
                        } else {
                            j + 1
                        };
                        assert(kept[j] == keys[was]);
                    }
                    assert forall|k: StackKeyView| #[trigger]
                        expected.contains_key(k) implies kept.contains(k) by {
                        let was = keys.index_of(k);
                        assert(keys[was] == k);
                        assert(kept[if was < i {
                            was
                        } else {
                            was - 1
                        }] == k);
                    }
                    lemma_buckets_view_is(self.buckets@, expected);
                    lemma_buckets_view(self.buckets@);
                    assert(texts(drained@) =~= ids(old(self)@.entries(stack@)));
                }
            },
            None => {
                assert(texts(drained@) =~= ids(old(self)@.entries(stack@)));
            },
        }
        drained
    }

    /// Take the newest entry out of `stack`'s bucket.
    pub(crate) fn pop_entry(&mut self, stack: &StackKey) -> (popped: Option<(String, SnapshotRef)>)
        requires
            old(self)@.well_formed(),
        ensures
            final(self)@.well_formed(),
            match popped {
                Some((vm_id, source_snapshot)) => {
                    &&& old(self)@.entries(stack@).len() > 0
                    &&& vm_id@ == old(self)@.entries(stack@).last().vm_id
                    &&& source_snapshot == old(self)@.buckets[stack@].source_snapshot
                    &&& final(self)@ == old(self)@.pop(stack@)
                },
                None => {
                    &&& old(self)@.entries(stack@).len() == 0
                    &&& final(self)@ == old(self)@
                },
            },
    {
        proof {
            lemma_buckets_view(self.buckets@);
        }
        let ghost before = self.buckets@;
        let i: usize = match self.find(stack) {
            Some(i) => i,
            None => {
                return None;
            },
        };
        match self.buckets[i].entries.pop() {
            Some(entry) => {
                let source_snapshot = self.buckets[i].source_snapshot.clone();
                proof {
                    assert(keys_view(self.buckets@) =~= keys_view(before));
                    lemma_one_bucket_changed(before, self.buckets@, i as int);
                    lemma_buckets_view(self.buckets@);
                    assert(self.buckets@[i as int]@.entries
                        =~= before[i as int]@.entries.drop_last());
                }
                Some((entry.vm_id, source_snapshot))
            },
            None => {
                proof {
                    assert(keys_view(self.buckets@) =~= keys_view(before));
                    lemma_one_bucket_changed(before, self.buckets@, i as int);
                    assert(self.buckets@[i as int]@ =~= before[i as int]@);
                    assert(self@.buckets =~= old(self)@.buckets);
                }
                None
            },
        }
    }

    /// Put an entry into `stack`'s bucket as its newest, or hand its VM ID back
    /// where `stack` is not registered.
    pub(crate) fn push_entry(&mut self, stack: &StackKey, vm_id: String, now: Moment) -> (orphan:
        Option<String>)
        requires
            old(self)@.well_formed(),
        ensures
            final(self)@.well_formed(),
            match orphan {
                Some(id) => {
                    &&& !old(self)@.buckets.contains_key(stack@)
                    &&& id == vm_id
                    &&& final(self)@ == old(self)@
                },
                None => {
                    &&& old(self)@.buckets.contains_key(stack@)
                    &&& final(self)@ == old(self)@.push(
                        stack@,
                        EntryView { vm_id: vm_id@, created_at: now },
                    )
                },
            },
    {
        proof {
            lemma_buckets_view(self.buckets@);
        }
        let ghost before = self.buckets@;
        match self.find(stack) {
            Some(i) => {
                let entry = PoolEntry { vm_id, created_at: now };
                let ghost pushed = entry@;
                self.buckets[i].entries.push(entry);
                proof {
                    assert(keys_view(self.buckets@) =~= keys_view(before));
                    lemma_one_bucket_changed(before, self.buckets@, i as int);
                    lemma_buckets_view(self.buckets@);
                    assert(self.buckets@[i as int]@.entries =~= before[i as int]@.entries.push(
                        pushed,
                    ));
                }
                None
            },
            None => Some(vm_id),
        }
    }

    /// Empty every bucket, note that the pool is shut down, and hand out the VM
    /// IDs of the entries.
    pub(crate) fn drain_all(&mut self) -> (drained: Vec<String>)
        requires
            old(self)@.well_formed(),
        ensures
            final(self)@.well_formed(),
            final(self)@ == old(self)@.drained(),
            texts(drained@) == old(self)@.all_ids(),
    {
        let ghost before = self.buckets@;
        let ghost keys = keys_view(before);
        let ghost listed = |stack: StackKeyView| ids(old(self)@.buckets[stack].entries);
        let ghost emptied = |bucket: BucketView|
            BucketView { entries: Seq::empty(), ..bucket };
        proof {
            lemma_buckets_view(before);
        }
        self.shutdown_flag = true;
        let mut drained: Vec<String> = Vec::new();
        let mut i: usize = 0;
        assert(keys.take(0) =~= Seq::empty());
        assert(texts(drained@) =~= Seq::empty());
        while i < self.buckets.len()
            invariant
                i <= self.buckets.len(),
                self.buckets.len() == before.len(),
                keys.no_duplicates(),
                keys == keys_view(before),
                keys_view(self.buckets@) == keys,
                listed == (|stack: StackKeyView| ids(buckets_view(before)[stack].entries)),
                emptied == (|bucket: BucketView|
                    BucketView { entries: Seq::empty(), ..bucket }),
                forall|j: int| 0 <= j < i ==> (#[trigger] self.buckets@[j])@ == emptied(before[j]@),
                forall|j: int| i <= j < before.len() ==> #[trigger] self.buckets@[j] == before[j],
                texts(drained@) == gather(keys.take(i as int), listed),
                self.config == old(self).config,
                self.counters == old(self).counters,
                self.shutdown_flag,
            decreases before.len() - i,
        {
            let mut entries: Vec<PoolEntry> = Vec::new();
            std::mem::swap(&mut entries, &mut self.buckets[i].entries);
            proof {
                lemma_buckets_view(before);
                assert(self.buckets@[i as int]@ =~= emptied(before[i as int]@));
                assert(keys_view(self.buckets@) =~= keys);
                assert(keys.take(i + 1).drop_last() =~= keys.take(i as int));
                assert(keys.take(i + 1).last() == keys[i as int]);
            }
            move_ids(entries, &mut drained);
            i += 1;
        }
        proof {
            assert(keys.take(keys.len() as int) =~= keys);
            lemma_every_bucket_changed(before, self.buckets@, emptied);
            lemma_buckets_view(self.buckets@);
        }
        drained
    }

    /// Drop the entries that are too old from every bucket, and hand out their
    /// VM IDs.
    pub(crate) fn evict_aged(&mut self, now: Moment) -> (victims: Vec<String>)
        requires
            old(self)@.well_formed(),
        ensures
            final(self)@.well_formed(),
            final(self)@ == old(self)@.without_aged(now),
            texts(victims@) == old(self)@.aged_ids(now),
    {
        let ghost before = self.buckets@;
        let ghost keys = keys_view(before);
        let ghost max_age = self.config.entry_max_age;
        let ghost listed = |stack: StackKeyView|
            ids(aged(old(self)@.buckets[stack].entries, now, old(self)@.config.entry_max_age));
        let ghost cleaned = |bucket: BucketView|
            BucketView {
                entries: fresh(bucket.entries, now, old(self)@.config.entry_max_age),
                ..bucket
            };
        proof {
            lemma_buckets_view(before);
        }
        let mut victims: Vec<String> = Vec::new();
        let mut i: usize = 0;
        assert(keys.take(0) =~= Seq::empty());
        assert(texts(victims@) =~= Seq::empty());
        while i < self.buckets.len()
            invariant
                i <= self.buckets.len(),
                self.buckets.len() == before.len(),
                keys.no_duplicates(),
                keys == keys_view(before),
                keys_view(self.buckets@) == keys,
                max_age == self.config.entry_max_age,
                forall|stack: StackKeyView| #[trigger]
                    listed(stack) == ids(aged(buckets_view(before)[stack].entries, now, max_age)),
                forall|bucket: BucketView| #[trigger]
                    cleaned(bucket) == (BucketView {
                        entries: fresh(bucket.entries, now, max_age),
                        ..bucket
                    }),
                forall|j: int| 0 <= j < i ==> (#[trigger] self.buckets@[j])@ == cleaned(before[j]@),
                forall|j: int| i <= j < before.len() ==> #[trigger] self.buckets@[j] == before[j],
                texts(victims@) == gather(keys.take(i as int), listed),
                self.config == old(self).config,
                self.counters == old(self).counters,
                self.shutdown_flag == old(self).shutdown_flag,
            decreases before.len() - i,
        {
            self.buckets[i].evict_aged(now, self.config.entry_max_age, &mut victims);
            proof {
                lemma_buckets_view(before);
                assert(self.buckets@[i as int]@ == cleaned(before[i as int]@));
                assert(keys_view(self.buckets@) =~= keys);
                assert(keys.take(i + 1).drop_last() =~= keys.take(i as int));
                assert(keys.take(i + 1).last() == keys[i as int]);
            }
            i += 1;
        }
        proof {
            assert(keys.take(keys.len() as int) =~= keys);
            lemma_every_bucket_changed(before, self.buckets@, cleaned);
            lemma_buckets_view(self.buckets@);
        }
        victims
    }

    /// Take the numbers for what every bucket lacks, and hand out the jobs that
    /// make it up.
    ///
    /// The numbers are taken up front, so that two plans never name two entries
    /// of a bucket alike.
    pub(crate) fn plan_refills(&mut self) -> (jobs: Vec<RefillJob>)
        requires
            old(self)@.well_formed(),
        ensures
            final(self)@.well_formed(),
            final(self)@ == old(self)@.reserved(),
            jobs_view(jobs@) == old(self)@.jobs(),
    {
        let ghost before = self.buckets@;
        let ghost keys = keys_view(before);
        let ghost config = self.config;
        let ghost listed = |stack: StackKeyView|
            old(self)@.buckets[stack].jobs(stack, old(self)@.config);
        let ghost advanced = |bucket: BucketView| bucket.reserved(old(self)@.config);
        proof {
            lemma_buckets_view(before);
        }
        let mut jobs: Vec<RefillJob> = Vec::new();
        let mut i: usize = 0;
        assert(keys.take(0) =~= Seq::empty());
        assert(jobs_view(jobs@) =~= Seq::empty());
        while i < self.buckets.len()
            invariant
                i <= self.buckets.len(),
                self.buckets.len() == before.len(),
                keys.no_duplicates(),
                keys == keys_view(before),
                keys_view(self.buckets@) == keys,
                config == self.config,
                forall|stack: StackKeyView| #[trigger]
                    listed(stack) == buckets_view(before)[stack].jobs(stack, config),
                forall|bucket: BucketView| #[trigger] advanced(bucket) == bucket.reserved(config),
                forall|j: int|
                    0 <= j < i ==> (#[trigger] self.buckets@[j])@ == advanced(before[j]@),
                forall|j: int| i <= j < before.len() ==> #[trigger] self.buckets@[j] == before[j],
                jobs_view(jobs@) == gather(keys.take(i as int), listed),
                self.config == old(self).config,
                self.counters == old(self).counters,
                self.shutdown_flag == old(self).shutdown_flag,
            decreases before.len() - i,
        {
            let ghost planned = jobs@;
            let depth: usize = self.buckets[i].entries.len();
            assert(depth == before[i as int]@.entries.len());
            if depth < self.config.min_depth && depth < self.config.max_depth {
                let deficit: usize = self.config.max_depth - depth;
                let start: u64 = self.buckets[i].next_seed;
                self.buckets[i].next_seed = start.saturating_add(deficit as u64);
                jobs.push(
                    RefillJob {
                        stack: self.buckets[i].stack.clone(),
                        deficit,
                        snapshot: self.buckets[i].source_snapshot.clone(),
                        next_seed: start,
                    },
                );
            }
            proof {
                lemma_buckets_view(before);
                let bucket = before[i as int]@;
                assert(self.buckets@[i as int]@ =~= advanced(bucket));
                assert(keys_view(self.buckets@) =~= keys);
                assert(keys.take(i + 1).drop_last() =~= keys.take(i as int));
                assert(keys.take(i + 1).last() == keys[i as int]);
                assert(jobs_view(jobs@) =~= jobs_view(planned) + bucket.jobs(
                    keys[i as int],
                    config,
                ));
            }
            i += 1;
        }
        proof {
            assert(keys.take(keys.len() as int) =~= keys);
            lemma_every_bucket_changed(before, self.buckets@, advanced);
            lemma_buckets_view(self.buckets@);
        }
        jobs
    }

    /// Count a spawned entry.
    pub(crate) fn count_created(&mut self)
        ensures
            final(self)@ == old(self)@.count_created(),
    {
        self.counters.created = self.counters.created.wrapping_add(1);
    }

    /// Count a handed-off entry.
    pub(crate) fn count_acquired(&mut self)
        ensures
            final(self)@ == old(self)@.count_acquired(),
    {
        self.counters.acquired = self.counters.acquired.wrapping_add(1);
    }

    /// Count a destroyed entry.
    pub(crate) fn count_evicted(&mut self)
        ensures
            final(self)@ == old(self)@.count_evicted(),
    {
        self.counters.evicted = self.counters.evicted.wrapping_add(1);
    }

    /// Count a refill tick.
    pub(crate) fn count_refill_run(&mut self)
        ensures
            final(self)@ == old(self)@.count_refill_run(),
    {
        self.counters.refill_runs = self.counters.refill_runs.wrapping_add(1);
    }

    /// Count an entry that the validator turned down.
    pub(crate) fn count_validation_failure(&mut self)
        ensures
            final(self)@ == old(self)@.count_validation_failure(),
    {
        self.counters.validation_failures = self.counters.validation_failures.wrapping_add(1);
    }

    /// Snapshot of counters for observability scraping.
    pub fn metrics(&self) -> (metrics: WarmPoolMetrics)
        ensures
            metrics.created_total == self@.counters.created,
            metrics.acquired_total == self@.counters.acquired,
            metrics.evicted_total == self@.counters.evicted,
            metrics.refill_runs_total == self@.counters.refill_runs,
            metrics.validation_failures_total == self@.counters.validation_failures,
    {
        self.counters.snapshot()
    }

    /// How many entries are ready for `stack`: `None` where it is not
    /// registered.
    pub fn depth(&self, stack: &StackKey) -> (depth: Option<usize>)
        requires
            self@.well_formed(),
        ensures
            match depth {
                Some(n) => self@.buckets.contains_key(stack@) && n == self@.entries(stack@).len(),
                None => !self@.buckets.contains_key(stack@),
            },
    {
        proof {
            lemma_buckets_view(self.buckets@);
        }
        match self.find(stack) {
            Some(i) => Some(self.buckets[i].entries.len()),
            None => None,
        }
    }

    /// How many entries are ready for each registered key, in the order in which
    /// the keys were registered.
    pub fn depths(&self) -> (depths: Vec<(StackKey, usize)>)
        requires
            self@.well_formed(),
        ensures
            depths@.len() == self@.keys.len(),
            forall|i: int|
                0 <= i < depths@.len() ==> {
                    &&& (#[trigger] depths@[i]).0@ == self@.keys[i]
                    &&& depths@[i].1 == self@.entries(self@.keys[i]).len()
                },
    {
        proof {
            lemma_buckets_view(self.buckets@);
        }
        let mut depths: Vec<(StackKey, usize)> = Vec::new();
        let mut i: usize = 0;
        while i < self.buckets.len()
            invariant
                i <= self.buckets.len(),
                depths@.len() == i,
                keys_view(self.buckets@).no_duplicates(),
                forall|j: int|
                    0 <= j < i ==> {
                        &&& (#[trigger] depths@[j]).0@ == self@.keys[j]
                        &&& depths@[j].1 == self@.entries(self@.keys[j]).len()
                    },
            decreases self.buckets.len() - i,
        {
            let bucket = &self.buckets[i];
            depths.push((bucket.stack.clone(), bucket.entries.len()));
            proof {
                lemma_buckets_view(self.buckets@);
                assert(self@.keys[i as int] == bucket.stack@);
                assert(self@.buckets.contains_key(keys_view(self.buckets@)[i as int]));
            }
            i += 1;
        }
        depths
    }

    /// The snapshot that is registered for `stack`.
    pub fn source_snapshot(&self, stack: &StackKey) -> (snapshot: Option<&SnapshotRef>)
        requires
            self@.well_formed(),
        ensures
            match snapshot {
                Some(found) => {
                    &&& self@.buckets.contains_key(stack@)
                    &&& *found == self@.buckets[stack@].source_snapshot
                },
                None => !self@.buckets.contains_key(stack@),
            },
    {
        proof {
            lemma_buckets_view(self.buckets@);
        }
        match self.find(stack) {
            Some(i) => Some(&self.buckets[i].source_snapshot),
            None => None,
        }
    }

    /// The tunables that the pool was started with.
    pub fn config(&self) -> (config: WarmPoolConfig)
        ensures
            config == self@.config,
    {
        self.config
    }

    /// Tell the refill scheduler to stop, and wait for it from `now` on.
    pub fn request_shutdown(&mut self, now: Moment) -> (wait: JoinWait)
        requires
            old(self)@.well_formed(),
        ensures
            final(self)@.well_formed(),
            final(self)@ == (PoolView { shutdown: true, ..old(self)@ }),
            wait@ == now.spec_after(millis(JOIN_BUDGET_MILLIS)),
            now.nanos + 200_000_000 <= u128::MAX ==> wait@.nanos == now.nanos + 200_000_000,
    {
        self.shutdown_flag = true;
        JoinWait::new(now, Span::from_millis(JOIN_BUDGET_MILLIS))
    }

    /// Whether the pool has been told to shut down.
    pub fn is_shut_down(&self) -> (shutdown: bool)
        ensures
            shutdown == self@.shutdown,
    {
        self.shutdown_flag
    }
}

} // verus!
