//! When the refill scheduler runs a tick, and how long a shutdown waits for it.

use crate::clock::{Moment, Span, NANOS_PER_MILLI};
use crate::pool::WarmPool;
use vstd::prelude::*;

verus! {

/// The longest that the scheduler sleeps without looking whether the pool is
/// shut down, in milliseconds.
pub const SLEEP_SLICE_MILLIS: u64 = 25;

/// How long a shutdown waits for the scheduler, in milliseconds.
pub const JOIN_BUDGET_MILLIS: u64 = 200;

/// How long a shutdown waits before it looks for the scheduler again, in
/// milliseconds.
pub const JOIN_POLL_MILLIS: u64 = 5;

/// The span of `millis` milliseconds.
pub open spec fn millis(millis: u64) -> Span {
    Span { nanos: (millis * NANOS_PER_MILLI) as u128 }
}

/// What the refill scheduler does next.
#[derive(Debug, Clone, Copy, PartialEq, Eq, Structural)]
pub enum SchedulerStep {
    /// End.
    Stop,
    /// Run a refill tick, and report it with [`Scheduler::ticked`].
    Tick,
    /// Sleep, and ask again.
    Sleep(Span),
}

/// The refill scheduler, between two looks at the clock.
#[derive(Debug)]
pub struct Scheduler {
    deadline: Option<Moment>,
}

impl View for Scheduler {
    type V = Option<Moment>;

    /// When the next tick is due: `None` means at once.
    closed spec fn view(&self) -> Option<Moment> {
        self.deadline
    }
}

/// What a scheduler whose next tick is due at `deadline` does at `now`.
pub open spec fn scheduler_step(
    deadline: Option<Moment>,
    shutdown: bool,
    now: Moment,
) -> SchedulerStep {
    if shutdown {
        SchedulerStep::Stop
    } else {
        match deadline {
            Some(due) if now.nanos < due.nanos => SchedulerStep::Sleep(
                due.spec_since(now).spec_min(millis(SLEEP_SLICE_MILLIS)),
            ),
            _ => SchedulerStep::Tick,
        }
    }
}

impl Scheduler {
    /// A scheduler that ticks at once.
    pub fn new() -> (scheduler: Scheduler)
        ensures
            scheduler@ is None,
    {
        Scheduler { deadline: None }
    }

    /// What to do at `now`.
    ///
    /// Waits are cut into small slices, so that a shutdown takes effect promptly
    /// even with a long refill interval.
    pub fn next(&self, pool: &WarmPool, now: Moment) -> (step: SchedulerStep)
        ensures
            step == scheduler_step(self@, pool@.shutdown, now),
    {
        if pool.is_shut_down() {
            return SchedulerStep::Stop;
        }
        match self.deadline {
            Some(due) => {
                if now.nanos < due.nanos {
                    SchedulerStep::Sleep(due.since(now).min(Span::from_millis(SLEEP_SLICE_MILLIS)))
                } else {
                    SchedulerStep::Tick
                }
            },
            None => SchedulerStep::Tick,
        }
    }

    /// A refill tick was run, and was over at `now`. The next one is due when the
    /// refill interval has passed; where the clock cannot show that moment, no
    /// further tick runs.
    pub fn ticked(&mut self, pool: &mut WarmPool, now: Moment)
        requires
            old(pool)@.well_formed(),
        ensures
            final(pool)@.well_formed(),
            final(pool)@ == old(pool)@.count_refill_run(),
            final(self)@ == Some(now.spec_after(old(pool)@.config.refill_interval)),
            final(self)@ matches Some(due) && {
                let end = now.nanos + old(pool)@.config.refill_interval.nanos;
                due.nanos == (if end <= u128::MAX {
                    end
                } else {
                    u128::MAX as int
                })
            },
    {
        pool.count_refill_run();
        self.deadline = Some(now.after(pool.config().refill_interval));
    }
}

/// What a shutdown does about the scheduler next.
#[derive(Debug, Clone, Copy, PartialEq, Eq, Structural)]
pub enum JoinStep {
    /// Join it: it has ended.
    Join,
    /// Sleep, and look again.
    Sleep(Span),
    /// Leave it behind. It ends by itself once it sees that the pool is shut
    /// down.
    Leave,
}

/// A shutdown that waits for the scheduler to end.
#[derive(Debug)]
pub struct JoinWait {
    deadline: Moment,
}

impl View for JoinWait {
    type V = Moment;

    /// When the wait is given up.
    closed spec fn view(&self) -> Moment {
        self.deadline
    }
}

/// What a wait that is given up at `deadline` does at `now`, when the scheduler has
/// `finished` or not.
pub open spec fn join_step(deadline: Moment, now: Moment, finished: bool) -> JoinStep {
    if now.nanos >= deadline.nanos {
        JoinStep::Leave
    } else if finished {
        JoinStep::Join
    } else {
        JoinStep::Sleep(millis(JOIN_POLL_MILLIS))
    }
}

impl JoinWait {
    /// A wait that begins at `now` and lasts `timeout` at most.
    pub fn new(now: Moment, timeout: Span) -> (wait: JoinWait)
        ensures
            wait@ == now.spec_after(timeout),
            wait@.nanos == (if now.nanos + timeout.nanos <= u128::MAX {
                now.nanos + timeout.nanos
            } else {
                u128::MAX as int
            }),
    {
        JoinWait { deadline: now.after(timeout) }
    }

    /// What to do at `now`, when the scheduler has `finished` or not.
    pub fn next(&self, now: Moment, finished: bool) -> (step: JoinStep)
        ensures
            step == join_step(self@, now, finished),
    {
        if now.nanos >= self.deadline.nanos {
            JoinStep::Leave
        } else if finished {
            JoinStep::Join
        } else {
            JoinStep::Sleep(Span::from_millis(JOIN_POLL_MILLIS))
        }
    }
}

/// The scheduler stops as soon as it looks at a pool that is shut down, and never
/// sleeps longer than one slice without looking: a shutdown is noticed within
/// that slice, however long the refill interval is.
pub proof fn law_shutdown_is_noticed_promptly(
    deadline: Option<Moment>,
    shutdown: bool,
    now: Moment,
)
    ensures
        scheduler_step(deadline, shutdown, now) is Stop <==> shutdown,
        scheduler_step(deadline, shutdown, now) matches SchedulerStep::Sleep(slice) ==> 0
            < slice.nanos <= millis(SLEEP_SLICE_MILLIS).nanos,
{
}

/// Ticks keep the refill interval: the first is due at once; behind a tick that
/// was over at `ended` the next runs once the interval has passed, and the sleeps
/// in between never reach beyond that. Where the clock cannot show the end of the
/// interval, no tick runs before the clock itself ends.
pub proof fn law_ticks_keep_the_interval(ended: Moment, interval: Span, now: Moment)
    ensures
        scheduler_step(None, false, now) is Tick,
        scheduler_step(Some(ended.spec_after(interval)), false, now) is Tick <==> now.nanos
            >= ended.spec_after(interval).nanos,
        scheduler_step(Some(ended.spec_after(interval)), false, now) matches SchedulerStep::Sleep(
            slice,
        ) ==> now.nanos + slice.nanos <= ended.spec_after(interval).nanos,
        ended.nanos + interval.nanos > u128::MAX && now.nanos < u128::MAX ==> scheduler_step(
            Some(ended.spec_after(interval)),
            false,
            now,
        ) is Sleep,
{
}

/// A wait that began at `start` keeps its budget: it joins the scheduler only within
/// the budget and only if that has ended, leaves it from the end of the budget on,
/// and reaches beyond the budget by less than one poll.
pub proof fn law_join_keeps_its_budget(start: Moment, timeout: Span, now: Moment, finished: bool)
    requires
        start.nanos + timeout.nanos <= u128::MAX,
    ensures
        ({
            let step = join_step(start.spec_after(timeout), now, finished);
            &&& step is Leave <==> now.nanos >= start.nanos + timeout.nanos
            &&& step is Join <==> finished && now.nanos < start.nanos + timeout.nanos
            &&& step matches JoinStep::Sleep(poll) ==> {
                &&& poll.nanos > 0
                &&& now.nanos + poll.nanos < start.nanos + timeout.nanos + millis(
                    JOIN_POLL_MILLIS,
                ).nanos
            }
        }),
{
}

/// What the scheduler does, told in nanoseconds: it stops where the pool is shut down,
/// ticks where no tick was run yet or the next one is due, and sleeps otherwise: for 25
/// milliseconds, or until the tick is due where that is sooner.
pub proof fn law_scheduler_sleeps_in_slices(deadline: Option<Moment>, shutdown: bool, now: Moment)
    ensures
        ({
            let step = scheduler_step(deadline, shutdown, now);
            &&& shutdown ==> step is Stop
            &&& !shutdown && deadline is None ==> step is Tick
            &&& deadline matches Some(due) ==> {
                &&& !shutdown && now.nanos >= due.nanos ==> step is Tick
                &&& !shutdown && now.nanos < due.nanos ==> (step matches SchedulerStep::Sleep(
                    slice,
                ) && {
                    &&& slice.nanos <= 25_000_000
                    &&& now.nanos + slice.nanos <= due.nanos
                    &&& slice.nanos == 25_000_000 || now.nanos + slice.nanos == due.nanos
                })
            }
        }),
{
}

/// What a wait for the scheduler does, told in nanoseconds: from its deadline on it leaves
/// the scheduler; before, it joins a scheduler that has ended, and looks again after 5
/// milliseconds at one that has not.
pub proof fn law_join_polls(deadline: Moment, now: Moment, finished: bool)
    ensures
        ({
            let step = join_step(deadline, now, finished);
            &&& now.nanos >= deadline.nanos ==> step is Leave
            &&& now.nanos < deadline.nanos && finished ==> step is Join
            &&& now.nanos < deadline.nanos && !finished ==> (step matches JoinStep::Sleep(poll)
                && poll.nanos == 5_000_000)
        }),
{
}

} // verus!
