//! Names, spans, defaults, counters and the scheduler on their own.

use microvm_warm_pool::clock::NANOS_PER_SEC;
use microvm_warm_pool::naming::seed_vm_id;
use microvm_warm_pool::{
    sanitize, Counters, JoinStep, JoinWait, Moment, Scheduler, SchedulerStep, Span, StackKey,
    WarmPool, WarmPoolConfig, WarmPoolMetrics,
};

fn key(stack_name: &str, version: &str) -> StackKey {
    StackKey {
        stack_name: stack_name.into(),
        version: version.into(),
        vcpu_count: 2,
        mem_size_mib: 512,
    }
}

#[test]
fn sanitize_handles_special_characters() {
    assert_eq!(sanitize("alpha"), "alpha");
    assert_eq!(sanitize("1.0.0"), "1_0_0");
    assert_eq!(sanitize("a/b c"), "a_b_c");
    assert_eq!(sanitize("ALPHA-9"), "ALPHA_9");
}

#[test]
fn sanitize_handles_edges_of_the_ranges() {
    assert_eq!(sanitize(""), "");
    assert_eq!(sanitize("azAZ09"), "azAZ09");
    assert_eq!(sanitize("`{@[/:"), "______");
    assert_eq!(sanitize("caf\u{e9}\u{1f600}"), "caf__");
    assert_eq!(sanitize(&sanitize("a-b.c")), "a_b_c");
}

#[test]
fn vm_ids_tell_stack_version_and_seed() {
    assert_eq!(seed_vm_id(&key("node20", "1.4.2"), 0), "warm-node20-1_4_2-0");
    assert_eq!(seed_vm_id(&key("node20", "1.4.2"), 10), "warm-node20-1_4_2-10");
    assert_eq!(
        seed_vm_id(&key("python311-pytorch", "v2"), 1_234_567_890),
        "warm-python311_pytorch-v2-1234567890"
    );
    assert_eq!(
        seed_vm_id(&key("", ""), u64::MAX),
        "warm---18446744073709551615"
    );
    assert_ne!(seed_vm_id(&key("a", "b_1"), 2), seed_vm_id(&key("a_b", "1"), 2));
}

#[test]
fn stack_keys_are_equal_only_in_all_four_fields() {
    let base = key("node20", "1.4.2");
    assert_eq!(base, base.clone());
    assert_ne!(base, key("node21", "1.4.2"));
    assert_ne!(base, key("node20", "1.4.3"));
    assert_ne!(base, StackKey { vcpu_count: 3, ..base.clone() });
    assert_ne!(base, StackKey { mem_size_mib: 513, ..base.clone() });
}

#[test]
fn default_config() {
    let config = WarmPoolConfig::default();
    assert_eq!(config.min_depth, 1);
    assert_eq!(config.max_depth, 4);
    assert_eq!(config.refill_interval, Span::from_secs(5));
    assert_eq!(config.entry_max_age, Span::from_secs(600));
    assert_eq!(WarmPool::start(config).config(), config);
}

#[test]
fn counters_are_copied_field_by_field() {
    let counters = Counters {
        created: 1,
        acquired: 2,
        evicted: 3,
        refill_runs: 4,
        validation_failures: 5,
    };
    let m: WarmPoolMetrics = counters.snapshot();
    assert_eq!(m.created_total, 1);
    assert_eq!(m.acquired_total, 2);
    assert_eq!(m.evicted_total, 3);
    assert_eq!(m.refill_runs_total, 4);
    assert_eq!(m.validation_failures_total, 5);
    assert_eq!(Counters::default().snapshot().created_total, 0);
}

#[test]
fn spans_and_moments() {
    assert_eq!(Span::from_secs(3).nanos, 3_000_000_000);
    assert_eq!(Span::from_millis(25).nanos, 25_000_000);
    assert_eq!(Span::from_secs(u64::MAX).nanos, u64::MAX as u128 * NANOS_PER_SEC);
    assert_eq!(Span { nanos: 7 }.min(Span { nanos: 5 }), Span { nanos: 5 });
    assert_eq!(Span { nanos: 4 }.min(Span { nanos: 5 }), Span { nanos: 4 });
    let at = Moment { nanos: 100 };
    assert_eq!(at.since(Moment { nanos: 40 }), Span { nanos: 60 });
    assert_eq!(at.since(Moment { nanos: 140 }), Span { nanos: 0 });
    assert_eq!(at.after(Span { nanos: 11 }), Moment { nanos: 111 });
    assert_eq!(at.after(Span { nanos: u128::MAX }), Moment { nanos: u128::MAX });
}

#[test]
fn scheduler_sleeps_in_slices_until_the_next_tick() {
    let config = WarmPoolConfig { refill_interval: Span::from_millis(60), ..WarmPoolConfig::default() };
    let mut pool = WarmPool::start(config);
    let mut scheduler = Scheduler::new();
    let at = |millis: u64| Moment { nanos: Span::from_millis(millis).nanos };

    assert_eq!(scheduler.next(&pool, at(1000)), SchedulerStep::Tick);
    scheduler.ticked(&mut pool, at(1000));
    assert_eq!(pool.metrics().refill_runs_total, 1);
    assert_eq!(scheduler.next(&pool, at(1000)), SchedulerStep::Sleep(Span::from_millis(25)));
    assert_eq!(scheduler.next(&pool, at(1035)), SchedulerStep::Sleep(Span::from_millis(25)));
    assert_eq!(scheduler.next(&pool, at(1050)), SchedulerStep::Sleep(Span::from_millis(10)));
    assert_eq!(scheduler.next(&pool, at(1060)), SchedulerStep::Tick);

    // An interval that the clock cannot show the end of: no further tick.
    let mut endless = WarmPool::start(WarmPoolConfig {
        refill_interval: Span { nanos: u128::MAX },
        ..WarmPoolConfig::default()
    });
    let mut waiting = Scheduler::new();
    assert_eq!(waiting.next(&endless, at(7)), SchedulerStep::Tick);
    waiting.ticked(&mut endless, at(7));
    assert_eq!(endless.metrics().refill_runs_total, 1);
    assert_eq!(
        waiting.next(&endless, at(u64::MAX)),
        SchedulerStep::Sleep(Span::from_millis(25))
    );

    pool.request_shutdown(at(1060));
    assert_eq!(scheduler.next(&pool, at(1050)), SchedulerStep::Stop);
    assert_eq!(scheduler.next(&pool, at(1060)), SchedulerStep::Stop);
}

#[test]
fn shutdown_waits_for_the_scheduler_no_longer_than_its_budget() {
    let at = |millis: u64| Moment { nanos: Span::from_millis(millis).nanos };
    let mut pool = WarmPool::start(WarmPoolConfig::default());
    let wait = pool.request_shutdown(at(50));
    assert_eq!(wait.next(at(50), false), JoinStep::Sleep(Span::from_millis(5)));
    assert_eq!(wait.next(at(50), true), JoinStep::Join);
    assert_eq!(wait.next(at(249), false), JoinStep::Sleep(Span::from_millis(5)));
    assert_eq!(wait.next(at(249), true), JoinStep::Join);
    assert_eq!(wait.next(at(250), false), JoinStep::Leave);
    assert_eq!(wait.next(at(250), true), JoinStep::Leave);
    let longer = JoinWait::new(at(0), Span::from_millis(7));
    assert_eq!(longer.next(at(7), false), JoinStep::Leave);
}
