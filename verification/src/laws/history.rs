//! What the pool shows of all that was done to it since it was started.

use crate::clock::Moment;
use crate::config::WarmPoolConfig;
use crate::laws::effects::{
    counters_rose, lemma_register_stays_well_formed, lemma_unregister_stays_well_formed, rose,
};
use crate::model::{AcquireView, HandleView, PoolView, SpawnView};
use crate::stack_key::StackKeyView;
use microvm_runtime::model::SnapshotRef;
use vstd::prelude::*;

verus! {

/// One thing that is done to the pool.
pub enum Deed {
    /// A key is registered with a snapshot.
    Register(StackKeyView, SnapshotRef),
    /// A key is given up.
    Unregister(StackKeyView),
    /// A VM that was given up with its key, or by a shutdown, is destroyed.
    Destroyed,
    /// An acquire begins.
    Acquire(StackKeyView),
    /// An acquire has the verdict on its entry.
    AcquireValidated(HandleView, bool),
    /// An acquire had its unhealthy entry destroyed.
    AcquireDestroyed(HandleView),
    /// A refill tick begins.
    Tick(Moment),
    /// A refill tick had the first of these VMs destroyed.
    TickEvicted(Seq<Seq<char>>),
    /// A refill tick has its VM created, or not.
    TickCreated(SpawnView, bool),
    /// A refill tick has the verdict on its VM.
    TickValidated(SpawnView, bool, Moment),
    /// A refill tick had its VM destroyed again.
    TickDiscarded(SpawnView),
    /// A refill tick is reported.
    Ticked,
    /// The pool is told to shut down.
    RequestShutdown,
    /// The pool is shut down.
    Shutdown,
}

/// The pool once `deed` is done to it.
pub open spec fn done_to(pool: PoolView, deed: Deed) -> PoolView {
    match deed {
        Deed::Register(stack, snapshot) => pool.register(stack, snapshot),
        Deed::Unregister(stack) => pool.unregister(stack),
        Deed::Destroyed => pool.count_evicted(),
        Deed::Acquire(stack) => pool.acquire(stack).0,
        Deed::AcquireValidated(entry, healthy) => pool.acquire_validated(entry, healthy).0,
        Deed::AcquireDestroyed(entry) => pool.acquire_destroyed(entry).0,
        Deed::Tick(now) => pool.tick(now).0,
        Deed::TickEvicted(victims) => pool.tick_evicted(victims).0,
        Deed::TickCreated(spawn, succeeded) => pool.tick_created(spawn, succeeded).0,
        Deed::TickValidated(spawn, healthy, now) => pool.tick_validated(spawn, healthy, now).0,
        Deed::TickDiscarded(spawn) => pool.tick_discarded(spawn).0,
        Deed::Ticked => pool.count_refill_run(),
        Deed::RequestShutdown => PoolView { shutdown: true, ..pool },
        Deed::Shutdown => pool.drained(),
    }
}

/// The pool that was started with `config` once `deeds` were done to it, in order.
pub open spec fn pool_after(config: WarmPoolConfig, deeds: Seq<Deed>) -> PoolView
    decreases deeds.len(),
{
    if deeds.len() == 0 {
        PoolView::empty(config)
    } else {
        done_to(pool_after(config, deeds.drop_last()), deeds.last())
    }
}

/// A well-formed pool stays so, whatever is done to it.
pub proof fn law_every_deed_keeps_the_pool_well_formed(pool: PoolView, deed: Deed)
    requires
        pool.well_formed(),
    ensures
        done_to(pool, deed).well_formed(),
{
    match deed {
        Deed::Register(stack, snapshot) => {
            lemma_register_stays_well_formed(pool, stack, snapshot);
        },
        Deed::Unregister(stack) => {
            lemma_unregister_stays_well_formed(pool, stack);
        },
        _ => {},
    }
}

/// How many of `deeds` are of the sort that `counted` picks.
pub open spec fn tally(deeds: Seq<Deed>, counted: spec_fn(Deed) -> bool) -> nat
    decreases deeds.len(),
{
    if deeds.len() == 0 {
        0
    } else {
        tally(deeds.drop_last(), counted) + (if counted(deeds.last()) {
            1nat
        } else {
            0
        })
    }
}

/// Whether `deed` creates a VM.
pub open spec fn creates(deed: Deed) -> bool {
    deed matches Deed::TickCreated(_, succeeded) && succeeded
}

/// Whether `deed` hands an entry off.
pub open spec fn hands_off(deed: Deed) -> bool {
    deed matches Deed::AcquireValidated(_, healthy) && healthy
}

/// Whether `deed` destroys a VM.
pub open spec fn destroys(deed: Deed) -> bool {
    ||| deed is Destroyed
    ||| deed is AcquireDestroyed
    ||| deed is TickEvicted
    ||| deed is TickDiscarded
}

/// Whether `deed` turns a VM down.
pub open spec fn turns_down(deed: Deed) -> bool {
    ||| (deed matches Deed::AcquireValidated(_, healthy) && !healthy)
    ||| (deed matches Deed::TickValidated(_, healthy, _) && !healthy)
}

/// Whether `deed` reports a refill tick.
pub open spec fn reports(deed: Deed) -> bool {
    deed is Ticked
}

/// One, where `counted` picks `deed`, and otherwise none.
pub open spec fn share(deed: Deed, counted: spec_fn(Deed) -> bool) -> nat {
    if counted(deed) {
        1
    } else {
        0
    }
}

/// Each deed is counted once, in the counters that it belongs to and in no other,
/// whatever is registered: a created VM, a handed-off entry, a destroyed VM, a reported
/// refill tick, a VM that was turned down.
pub proof fn law_every_deed_is_counted_once(pool: PoolView, deed: Deed)
    ensures
        counters_rose(
            pool.counters,
            done_to(pool, deed).counters,
            share(deed, |d: Deed| creates(d)),
            share(deed, |d: Deed| hands_off(d)),
            share(deed, |d: Deed| destroys(d)),
            share(deed, |d: Deed| reports(d)),
            share(deed, |d: Deed| turns_down(d)),
        ),
        done_to(pool, deed).config == pool.config,
        done_to(pool, deed).shutdown <==> pool.shutdown || deed is RequestShutdown
            || deed is Shutdown,
{
}

proof fn lemma_rose_twice(start: u64, middle: u64, end: u64, a: nat, b: nat)
    requires
        rose(start, middle, a),
        rose(middle, end, b),
    ensures
        rose(start, end, a + b),
{
    let range = 0x1_0000_0000_0000_0000int;
    let x = middle - start - a;
    let y = end - middle - b;
    assert((x + y) % range == 0) by {
        vstd::arithmetic::div_mod::lemma_add_mod_noop(x, y, range);
    }
    assert(x + y == end - start - (a + b));
}

/// The counters show how many VMs were created, how many entries were handed off, how many
/// VMs were destroyed, how many refill ticks were reported and how many VMs were turned
/// down since the pool was started, each modulo its range. Nothing else is counted.
pub proof fn law_counters_show_what_was_done(config: WarmPoolConfig, deeds: Seq<Deed>)
    ensures
        ({
            let counters = pool_after(config, deeds).counters;
            let range = 0x1_0000_0000_0000_0000int;
            &&& counters.created == tally(deeds, |deed: Deed| creates(deed)) as int % range
            &&& counters.acquired == tally(deeds, |deed: Deed| hands_off(deed)) as int % range
            &&& counters.evicted == tally(deeds, |deed: Deed| destroys(deed)) as int % range
            &&& counters.refill_runs == tally(deeds, |deed: Deed| reports(deed)) as int % range
            &&& counters.validation_failures == tally(deeds, |deed: Deed| turns_down(deed)) as int
                % range
        }),
{
    lemma_counters_since_start(config, deeds);
}

proof fn lemma_counters_since_start(config: WarmPoolConfig, deeds: Seq<Deed>)
    ensures
        ({
            let start = PoolView::empty(config);
            let after = pool_after(config, deeds);
            counters_rose(
                start.counters,
                after.counters,
                tally(deeds, |deed: Deed| creates(deed)),
                tally(deeds, |deed: Deed| hands_off(deed)),
                tally(deeds, |deed: Deed| destroys(deed)),
                tally(deeds, |deed: Deed| reports(deed)),
                tally(deeds, |deed: Deed| turns_down(deed)),
            )
        }),
    decreases deeds.len(),
{
    if deeds.len() > 0 {
        let front = deeds.drop_last();
        let deed = deeds.last();
        let start = PoolView::empty(config).counters;
        let middle = pool_after(config, front);
        let end = done_to(middle, deed).counters;
        lemma_counters_since_start(config, front);
        law_every_deed_is_counted_once(middle, deed);
        let a = |d: Deed| creates(d);
        let b = |d: Deed| hands_off(d);
        let c = |d: Deed| destroys(d);
        let d = |d: Deed| reports(d);
        let e = |d: Deed| turns_down(d);
        let was = middle.counters;
        lemma_rose_twice(start.created, was.created, end.created, tally(front, a), share(deed, a));
        lemma_rose_twice(
            start.acquired,
            was.acquired,
            end.acquired,
            tally(front, b),
            share(deed, b),
        );
        lemma_rose_twice(start.evicted, was.evicted, end.evicted, tally(front, c), share(deed, c));
        lemma_rose_twice(
            start.refill_runs,
            was.refill_runs,
            end.refill_runs,
            tally(front, d),
            share(deed, d),
        );
        lemma_rose_twice(
            start.validation_failures,
            was.validation_failures,
            end.validation_failures,
            tally(front, e),
            share(deed, e),
        );
    }
}

/// The snapshot that `stack` was last registered with in `deeds`: none where it was never
/// registered, or given up since.
pub open spec fn last_registered(deeds: Seq<Deed>, stack: StackKeyView) -> Option<SnapshotRef>
    decreases deeds.len(),
{
    if deeds.len() == 0 {
        None
    } else {
        match deeds.last() {
            Deed::Register(key, snapshot) if key == stack => Some(snapshot),
            Deed::Unregister(key) if key == stack => None,
            _ => last_registered(deeds.drop_last(), stack),
        }
    }
}

/// A key is registered just when it was registered and not given up since, and its bucket
/// has the snapshot that was last registered for it: nothing but registering the key
/// changes that, no acquire, no refill tick and no shutdown. The pool keeps the config
/// that it was started with, and is shut down just when it was told to.
pub proof fn law_snapshot_is_the_last_registered(
    config: WarmPoolConfig,
    deeds: Seq<Deed>,
    stack: StackKeyView,
)
    ensures
        ({
            let pool = pool_after(config, deeds);
            &&& pool.well_formed()
            &&& pool.config == config
            &&& pool.buckets.contains_key(stack) <==> last_registered(deeds, stack) is Some
            &&& pool.buckets.contains_key(stack) ==> last_registered(deeds, stack) == Some(
                pool.buckets[stack].source_snapshot,
            )
            &&& pool.shutdown <==> exists|i: int|
                0 <= i < deeds.len() && (#[trigger] deeds[i] is RequestShutdown
                    || deeds[i] is Shutdown)
        }),
    decreases deeds.len(),
{
    if deeds.len() > 0 {
        let front = deeds.drop_last();
        let deed = deeds.last();
        let before = pool_after(config, front);
        law_snapshot_is_the_last_registered(config, front, stack);
        law_every_deed_keeps_the_pool_well_formed(before, deed);
        assert forall|i: int| 0 <= i < front.len() implies #[trigger] front[i] == deeds[i] by {}
        if before.shutdown {
            let i = choose|i: int|
                0 <= i < front.len() && (#[trigger] front[i] is RequestShutdown
                    || front[i] is Shutdown);
            assert(deeds[i] is RequestShutdown || deeds[i] is Shutdown);
        }
        if deed is RequestShutdown || deed is Shutdown {
            assert(deeds[deeds.len() - 1] is RequestShutdown || deeds[deeds.len() - 1] is Shutdown);
        }
        if exists|i: int|
            0 <= i < deeds.len() && (#[trigger] deeds[i] is RequestShutdown
                || deeds[i] is Shutdown) {
            let i = choose|i: int|
                0 <= i < deeds.len() && (#[trigger] deeds[i] is RequestShutdown
                    || deeds[i] is Shutdown);
            if i < front.len() {
                assert(front[i] is RequestShutdown || front[i] is Shutdown);
            }
        }
    }
}

/// The snapshot that an acquire takes up, and that its handle carries, is the one that was
/// last registered for the key.
pub proof fn law_handle_has_the_last_registered_snapshot(
    config: WarmPoolConfig,
    deeds: Seq<Deed>,
    stack: StackKeyView,
)
    ensures
        pool_after(config, deeds).acquire(stack).1 matches AcquireView::Validate(entry) ==> {
            &&& entry.stack == stack
            &&& last_registered(deeds, stack) == Some(entry.source_snapshot)
        },
{
    law_snapshot_is_the_last_registered(config, deeds, stack);
}

} // verus!
