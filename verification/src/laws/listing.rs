//! What is listed to be destroyed.

use crate::clock::Moment;
use crate::laws::effects::young;
use crate::laws::gathering::lemma_gather_same;
use crate::laws::identity::{distinct, tracks};
use crate::model::{aged, gather, ids, is_fresh, BucketView, EntryView, PoolView};
use crate::stack_key::StackKeyView;
use vstd::prelude::*;

verus! {

/// How much `f` gives for the first `n` of `keys` together.
pub open spec fn offset<T>(
    keys: Seq<StackKeyView>,
    f: spec_fn(StackKeyView) -> Seq<T>,
    n: int,
) -> int
    decreases n,
{
    if n <= 0 {
        0
    } else {
        offset(keys, f, n - 1) + f(keys[n - 1]).len()
    }
}

proof fn lemma_offset_of_front<T>(
    keys: Seq<StackKeyView>,
    f: spec_fn(StackKeyView) -> Seq<T>,
    n: int,
)
    requires
        n < keys.len(),
    ensures
        offset(keys.drop_last(), f, n) == offset(keys, f, n),
    decreases n,
{
    if n > 0 {
        lemma_offset_of_front(keys, f, n - 1);
    }
}

proof fn lemma_offset_of_same<S, T>(
    keys: Seq<StackKeyView>,
    f: spec_fn(StackKeyView) -> Seq<S>,
    g: spec_fn(StackKeyView) -> Seq<T>,
    n: int,
)
    requires
        forall|stack: StackKeyView| (#[trigger] f(stack)).len() == g(stack).len(),
    ensures
        offset(keys, f, n) == offset(keys, g, n),
    decreases n,
{
    if n > 0 {
        lemma_offset_of_same(keys, f, g, n - 1);
    }
}

/// What is gathered for a key stands behind what is gathered for the keys before it.
proof fn lemma_gathered_at<T>(
    keys: Seq<StackKeyView>,
    f: spec_fn(StackKeyView) -> Seq<T>,
    k: int,
    i: int,
)
    requires
        0 <= k < keys.len(),
        0 <= i < f(keys[k]).len(),
    ensures
        0 <= offset(keys, f, k) + i < gather(keys, f).len(),
        gather(keys, f)[offset(keys, f, k) + i] == f(keys[k])[i],
    decreases keys.len(),
{
    lemma_gathered_len(keys.drop_last(), f);
    lemma_offset_of_front(keys, f, keys.len() - 1);
    if k < keys.len() - 1 {
        lemma_offset_of_front(keys, f, k);
        lemma_gathered_at(keys.drop_last(), f, k, i);
    }
}

proof fn lemma_gathered_len<T>(keys: Seq<StackKeyView>, f: spec_fn(StackKeyView) -> Seq<T>)
    ensures
        gather(keys, f).len() == offset(keys, f, keys.len() as int),
    decreases keys.len(),
{
    if keys.len() > 0 {
        lemma_gathered_len(keys.drop_last(), f);
        lemma_offset_of_front(keys, f, keys.len() - 1);
    }
}

/// Whatever is gathered is gathered for one of the keys.
proof fn lemma_gathered_from<T>(
    keys: Seq<StackKeyView>,
    f: spec_fn(StackKeyView) -> Seq<T>,
    n: int,
) -> (found: (int, int))
    requires
        0 <= n < gather(keys, f).len(),
    ensures
        0 <= found.0 < keys.len(),
        0 <= found.1 < f(keys[found.0]).len(),
        n == offset(keys, f, found.0) + found.1,
        gather(keys, f)[n] == f(keys[found.0])[found.1],
    decreases keys.len(),
{
    let front = keys.drop_last();
    lemma_gathered_len(front, f);
    lemma_offset_of_front(keys, f, keys.len() - 1);
    if n < gather(front, f).len() {
        let found = lemma_gathered_from(front, f, n);
        lemma_offset_of_front(keys, f, found.0);
        found
    } else {
        (keys.len() - 1, n - gather(front, f).len())
    }
}

/// The entries of a filter are those entries that pass it, and are named differently
/// where the entries are.
proof fn lemma_filtered(entries: Seq<EntryView>, passes: spec_fn(EntryView) -> bool)
    ensures
        forall|i: int|
            #![trigger entries.filter(passes)[i]]
            0 <= i < entries.filter(passes).len() ==> passes(entries.filter(passes)[i])
                && entries.contains(entries.filter(passes)[i]),
        forall|i: int|
            #![trigger entries[i]]
            0 <= i < entries.len() && passes(entries[i]) ==> entries.filter(passes).contains(
                entries[i],
            ),
        ids(entries).no_duplicates() ==> ids(entries.filter(passes)).no_duplicates(),
    decreases entries.len(),
{
    reveal(Seq::filter);
    let kept = entries.filter(passes);
    if entries.len() > 0 {
        let front = entries.drop_last();
        let kept_front = front.filter(passes);
        lemma_filtered(front, passes);
        assert forall|i: int| 0 <= i < kept.len() implies passes(#[trigger] kept[i])
            && entries.contains(kept[i]) by {
            if i < kept_front.len() {
                assert(kept[i] == kept_front[i]);
                assert(entries[front.index_of(kept[i])] == kept[i]);
            } else {
                assert(entries[entries.len() - 1] == kept[i]);
            }
        }
        assert forall|i: int| #![trigger entries[i]]
            0 <= i < entries.len() && passes(entries[i]) implies kept.contains(entries[i]) by {
            if i < front.len() {
                assert(front[i] == entries[i]);
                assert(kept[kept_front.index_of(entries[i])] == entries[i]);
            } else {
                assert(kept[kept.len() - 1] == entries[i]);
            }
        }
        if ids(entries).no_duplicates() {
            assert(ids(front) =~= ids(entries).drop_last());
            assert forall|i: int, j: int| 0 <= i < j < kept.len() implies ids(kept)[i] != ids(
                kept,
            )[j] by {
                assert(kept[i] == kept_front[i]);
                if j < kept_front.len() {
                    assert(ids(kept_front)[i] != ids(kept_front)[j]);
                } else {
                    let k = front.index_of(kept_front[i]);
                    assert(ids(entries)[k] == kept[i].vm_id);
                    assert(ids(entries)[entries.len() - 1] == kept[j].vm_id);
                }
            }
        }
    }
}

/// A shutdown lists the VM of every entry, bucket by bucket and in order: each entry has
/// a place of its own in the list, and every place is that of an entry.
pub proof fn law_shutdown_lists_every_entry(pool: PoolView)
    ensures
        ({
            let entries_of = |stack: StackKeyView| pool.buckets[stack].entries;
            let listed = pool.all_ids();
            &&& listed.len() == offset(pool.keys, entries_of, pool.keys.len() as int)
            &&& forall|k: int, i: int|
                0 <= k < pool.keys.len() && 0 <= i < pool.buckets[pool.keys[k]].entries.len()
                    ==> listed[offset(pool.keys, entries_of, k) + i] == (
                #[trigger] pool.buckets[pool.keys[k]].entries[i]).vm_id
        }),
{
    let entries_of = |stack: StackKeyView| pool.buckets[stack].entries;
    let ids_of = |stack: StackKeyView| ids(pool.buckets[stack].entries);
    let listed = pool.all_ids();
    lemma_gathered_len(pool.keys, ids_of);
    lemma_offset_of_same(pool.keys, entries_of, ids_of, pool.keys.len() as int);
    assert forall|k: int, i: int|
        0 <= k < pool.keys.len() && 0 <= i < pool.buckets[pool.keys[k]].entries.len() implies listed[offset(
        pool.keys,
        entries_of,
        k,
    ) + i] == (#[trigger] pool.buckets[pool.keys[k]].entries[i]).vm_id by {
        lemma_gathered_at(pool.keys, ids_of, k, i);
        lemma_offset_of_same(pool.keys, entries_of, ids_of, k);
    }
}

/// The VMs that a shutdown has destroyed are those that the pool tracks, each once where
/// the entries are distinct. None of them is tracked any more.
pub proof fn law_shutdown_destroys_what_is_tracked(pool: PoolView)
    requires
        pool.well_formed(),
    ensures
        forall|id: Seq<char>| #[trigger] pool.all_ids().contains(id) <==> tracks(pool, id),
        distinct(pool) ==> pool.all_ids().no_duplicates(),
        forall|id: Seq<char>| !#[trigger] tracks(pool.drained(), id),
{
    let f = |stack: StackKeyView| ids(pool.buckets[stack].entries);
    let listed = pool.all_ids();
    assert forall|id: Seq<char>| #[trigger] listed.contains(id) implies tracks(pool, id) by {
        let (k, i) = lemma_gathered_from(pool.keys, f, listed.index_of(id));
        assert(pool.keys.contains(pool.keys[k]));
        assert(pool.entries(pool.keys[k])[i].vm_id == id);
    }
    assert forall|id: Seq<char>| #[trigger] tracks(pool, id) implies listed.contains(id) by {
        let (stack, i) = choose|stack: StackKeyView, i: int|
            0 <= i < pool.entries(stack).len() && (#[trigger] pool.entries(stack)[i]).vm_id == id;
        let k = pool.keys.index_of(stack);
        assert(pool.buckets.contains_key(stack));
        assert(pool.keys.contains(stack));
        lemma_gathered_at(pool.keys, f, k, i);
        assert(listed[offset(pool.keys, f, k) + i] == id);
    }
    if distinct(pool) {
        assert forall|m: int, n: int| 0 <= m < n < listed.len() implies listed[m] != listed[n] by {
            let (k, i) = lemma_gathered_from(pool.keys, f, m);
            let (l, j) = lemma_gathered_from(pool.keys, f, n);
            assert(pool.keys.contains(pool.keys[k]));
            assert(pool.keys.contains(pool.keys[l]));
            assert(pool.entries(pool.keys[k])[i].vm_id == listed[m]);
            assert(pool.entries(pool.keys[l])[j].vm_id == listed[n]);
        }
    }
}

/// The pool with only those entries that have passed the maximum age at `now`.
spec fn only_aged(pool: PoolView, now: Moment) -> PoolView {
    PoolView {
        buckets: pool.buckets.map_values(
            |bucket: BucketView|
                BucketView {
                    entries: bucket.entries.filter(
                        |entry: EntryView| !young(entry, now, pool.config.entry_max_age),
                    ),
                    ..bucket
                },
        ),
        ..pool
    }
}

/// Whether the pool has an entry that is the VM `id` and has passed the maximum age at
/// `now`.
pub open spec fn tracks_aged(pool: PoolView, id: Seq<char>, now: Moment) -> bool {
    exists|stack: StackKeyView, i: int|
        pool.buckets.contains_key(stack) && 0 <= i < pool.buckets[stack].entries.len() && (
        #[trigger] pool.buckets[stack].entries[i]).vm_id == id && !young(
            pool.buckets[stack].entries[i],
            now,
            pool.config.entry_max_age,
        )
}

/// Whether the pool has an entry that is the VM `id` and has not passed the maximum age at
/// `now`.
pub open spec fn tracks_young(pool: PoolView, id: Seq<char>, now: Moment) -> bool {
    exists|stack: StackKeyView, i: int|
        pool.buckets.contains_key(stack) && 0 <= i < pool.buckets[stack].entries.len() && (
        #[trigger] pool.buckets[stack].entries[i]).vm_id == id && young(
            pool.buckets[stack].entries[i],
            now,
            pool.config.entry_max_age,
        )
}

proof fn lemma_only_aged(pool: PoolView, now: Moment)
    requires
        pool.well_formed(),
    ensures
        only_aged(pool, now).well_formed(),
        only_aged(pool, now).all_ids() == pool.aged_ids(now),
        forall|id: Seq<char>| #[trigger]
            tracks(only_aged(pool, now), id) <==> tracks_aged(pool, id, now),
        distinct(pool) ==> distinct(only_aged(pool, now)),
{
    let max_age = pool.config.entry_max_age;
    let old_ones = only_aged(pool, now);
    let passed = |entry: EntryView| !young(entry, now, max_age);
    let stale = |entry: EntryView| !is_fresh(entry, now, max_age);
    assert(passed =~= stale);
    let f = |stack: StackKeyView| ids(old_ones.buckets[stack].entries);
    let g = |stack: StackKeyView| ids(aged(pool.buckets[stack].entries, now, max_age));
    assert forall|i: int| 0 <= i < pool.keys.len() implies f(#[trigger] pool.keys[i]) == g(
        pool.keys[i],
    ) by {
        assert(pool.keys.contains(pool.keys[i]));
        assert(pool.buckets.contains_key(pool.keys[i]));
    }
    lemma_gather_same(pool.keys, f, g);
    assert forall|id: Seq<char>| #[trigger] tracks(old_ones, id) implies tracks_aged(
        pool,
        id,
        now,
    ) by {
        let (stack, i) = choose|stack: StackKeyView, i: int|
            0 <= i < old_ones.entries(stack).len() && (#[trigger] old_ones.entries(stack)[i]).vm_id
                == id;
        let entries = pool.buckets[stack].entries;
        lemma_filtered(entries, passed);
        let j = entries.index_of(old_ones.entries(stack)[i]);
        assert(entries[j].vm_id == id);
    }
    assert forall|id: Seq<char>| tracks_aged(pool, id, now) implies #[trigger] tracks(
        old_ones,
        id,
    ) by {
        let (stack, i) = choose|stack: StackKeyView, i: int|
            pool.buckets.contains_key(stack) && 0 <= i < pool.buckets[stack].entries.len() && (
            #[trigger] pool.buckets[stack].entries[i]).vm_id == id && !young(
                pool.buckets[stack].entries[i],
                now,
                max_age,
            );
        let entries = pool.buckets[stack].entries;
        lemma_filtered(entries, passed);
        let j = entries.filter(passed).index_of(entries[i]);
        assert(old_ones.entries(stack)[j].vm_id == id);
    }
    if distinct(pool) {
        assert forall|a: StackKeyView, i: int, b: StackKeyView, j: int|
            0 <= i < old_ones.entries(a).len() && 0 <= j < old_ones.entries(b).len() && (
            #[trigger] old_ones.entries(a)[i]).vm_id == (
            #[trigger] old_ones.entries(b)[j]).vm_id implies a == b && i == j by {
            let of_a = pool.entries(a);
            let of_b = pool.entries(b);
            lemma_filtered(of_a, passed);
            lemma_filtered(of_b, passed);
            let x = of_a.index_of(old_ones.entries(a)[i]);
            let y = of_b.index_of(old_ones.entries(b)[j]);
            assert(pool.entries(a)[x].vm_id == pool.entries(b)[y].vm_id);
            assert(a == b);
            assert forall|m: int, n: int| 0 <= m < n < of_a.len() implies ids(of_a)[m] != ids(
                of_a,
            )[n] by {
                assert(pool.entries(a)[m].vm_id == ids(of_a)[m]);
                assert(pool.entries(a)[n].vm_id == ids(of_a)[n]);
            }
            let kept = old_ones.entries(a);
            assert(ids(kept)[i] == ids(kept)[j]);
        }
    }
}

/// The VMs that a refill tick has destroyed for their age are those of the entries that
/// have passed the maximum age, each once where the entries are distinct. The entries
/// that have not passed it stay, and no others: a VM that was tracked is tracked
/// afterwards or destroyed and, where the entries are distinct, never both.
pub proof fn law_tick_destroys_the_aged(pool: PoolView, now: Moment)
    requires
        pool.well_formed(),
    ensures
        forall|id: Seq<char>| #[trigger]
            pool.aged_ids(now).contains(id) <==> tracks_aged(pool, id, now),
        forall|id: Seq<char>| #[trigger]
            tracks(pool.without_aged(now), id) <==> tracks_young(pool, id, now),
        forall|id: Seq<char>| #[trigger]
            tracks(pool, id) <==> tracks(pool.without_aged(now), id) || pool.aged_ids(
                now,
            ).contains(id),
        distinct(pool) ==> pool.aged_ids(now).no_duplicates(),
        distinct(pool) ==> forall|id: Seq<char>| #[trigger]
            pool.aged_ids(now).contains(id) ==> !tracks(pool.without_aged(now), id),
{
    let max_age = pool.config.entry_max_age;
    let after = pool.without_aged(now);
    lemma_only_aged(pool, now);
    law_shutdown_destroys_what_is_tracked(only_aged(pool, now));
    let not_passed = |entry: EntryView| young(entry, now, max_age);
    let kept = |entry: EntryView| is_fresh(entry, now, max_age);
    assert(kept =~= not_passed);
    assert forall|id: Seq<char>| #[trigger] tracks(after, id) implies tracks_young(pool, id, now) by {
        let (stack, i) = choose|stack: StackKeyView, i: int|
            0 <= i < after.entries(stack).len() && (#[trigger] after.entries(stack)[i]).vm_id == id;
        let entries = pool.buckets[stack].entries;
        lemma_filtered(entries, not_passed);
        let j = entries.index_of(after.entries(stack)[i]);
        assert(entries[j].vm_id == id);
    }
    assert forall|id: Seq<char>| tracks_young(pool, id, now) implies #[trigger] tracks(
        after,
        id,
    ) by {
        let (stack, i) = choose|stack: StackKeyView, i: int|
            pool.buckets.contains_key(stack) && 0 <= i < pool.buckets[stack].entries.len() && (
            #[trigger] pool.buckets[stack].entries[i]).vm_id == id && young(
                pool.buckets[stack].entries[i],
                now,
                max_age,
            );
        let entries = pool.buckets[stack].entries;
        lemma_filtered(entries, not_passed);
        let j = entries.filter(not_passed).index_of(entries[i]);
        assert(after.entries(stack)[j].vm_id == id);
    }
    assert forall|id: Seq<char>| #[trigger] tracks(pool, id) <==> tracks_young(pool, id, now)
        || tracks_aged(pool, id, now) by {
        if tracks(pool, id) {
            let (stack, i) = choose|stack: StackKeyView, i: int|
                0 <= i < pool.entries(stack).len() && (#[trigger] pool.entries(stack)[i]).vm_id
                    == id;
            assert(pool.buckets[stack].entries[i].vm_id == id);
        }
        if tracks_young(pool, id, now) {
            let (stack, i) = choose|stack: StackKeyView, i: int|
                pool.buckets.contains_key(stack) && 0 <= i < pool.buckets[stack].entries.len() && (
                #[trigger] pool.buckets[stack].entries[i]).vm_id == id && young(
                    pool.buckets[stack].entries[i],
                    now,
                    max_age,
                );
            assert(pool.entries(stack)[i].vm_id == id);
        }
        if tracks_aged(pool, id, now) {
            let (stack, i) = choose|stack: StackKeyView, i: int|
                pool.buckets.contains_key(stack) && 0 <= i < pool.buckets[stack].entries.len() && (
                #[trigger] pool.buckets[stack].entries[i]).vm_id == id && !young(
                    pool.buckets[stack].entries[i],
                    now,
                    max_age,
                );
            assert(pool.entries(stack)[i].vm_id == id);
        }
    }
    if distinct(pool) {
        assert forall|id: Seq<char>| #[trigger] pool.aged_ids(now).contains(id) implies !tracks(
            after,
            id,
        ) by {
            assert(tracks_aged(pool, id, now));
            if tracks_young(pool, id, now) {
                let (a, i) = choose|stack: StackKeyView, i: int|
                    pool.buckets.contains_key(stack) && 0 <= i < pool.buckets[stack].entries.len()
                        && (#[trigger] pool.buckets[stack].entries[i]).vm_id == id && young(
                        pool.buckets[stack].entries[i],
                        now,
                        max_age,
                    );
                let (b, j) = choose|stack: StackKeyView, i: int|
                    pool.buckets.contains_key(stack) && 0 <= i < pool.buckets[stack].entries.len()
                        && (#[trigger] pool.buckets[stack].entries[i]).vm_id == id && !young(
                        pool.buckets[stack].entries[i],
                        now,
                        max_age,
                    );
                assert(pool.entries(a)[i].vm_id == pool.entries(b)[j].vm_id);
            }
        }
    }
}

/// A refill tick lists the entries that have passed the maximum age bucket by bucket and
/// in order, each once.
pub proof fn law_tick_lists_every_aged_entry(pool: PoolView, now: Moment)
    requires
        pool.well_formed(),
    ensures
        ({
            let passed = |entry: EntryView| !young(entry, now, pool.config.entry_max_age);
            let aged_of = |stack: StackKeyView| pool.buckets[stack].entries.filter(passed);
            let listed = pool.aged_ids(now);
            &&& listed.len() == offset(pool.keys, aged_of, pool.keys.len() as int)
            &&& forall|k: int, i: int|
                0 <= k < pool.keys.len() && 0 <= i < aged_of(pool.keys[k]).len()
                    ==> listed[offset(pool.keys, aged_of, k) + i] == (#[trigger] aged_of(
                    pool.keys[k],
                )[i]).vm_id
        }),
{
    let max_age = pool.config.entry_max_age;
    let passed = |entry: EntryView| !young(entry, now, max_age);
    let stale = |entry: EntryView| !is_fresh(entry, now, max_age);
    assert(passed =~= stale);
    let aged_of = |stack: StackKeyView| pool.buckets[stack].entries.filter(passed);
    let ids_of = |stack: StackKeyView| ids(aged(pool.buckets[stack].entries, now, max_age));
    let listed = pool.aged_ids(now);
    lemma_gathered_len(pool.keys, ids_of);
    lemma_offset_of_same(pool.keys, aged_of, ids_of, pool.keys.len() as int);
    assert forall|k: int, i: int|
        0 <= k < pool.keys.len() && 0 <= i < aged_of(pool.keys[k]).len() implies listed[offset(
        pool.keys,
        aged_of,
        k,
    ) + i] == (#[trigger] aged_of(pool.keys[k])[i]).vm_id by {
        lemma_gathered_at(pool.keys, ids_of, k, i);
        lemma_offset_of_same(pool.keys, aged_of, ids_of, k);
    }
}

} // verus!
