//! The pool driven against the in-memory provider, on a clock that the tests move.

use std::sync::atomic::{AtomicU64, Ordering};
use std::sync::{Arc, Mutex};

use microvm_runtime::model::{NetworkInterface, SnapshotRef, VmSpec, VmStatus, VmView};
use microvm_runtime::provider::{VmProvider, VmQuery};
use microvm_runtime::InMemoryVmProvider;
use microvm_warm_pool::{
    Acquire, EntryValidator, JoinStep, Moment, RefillTick, RestoreSpec, Scheduler, SchedulerStep,
    Span, StackKey, Teardown, ValidationResult, WarmPool, WarmPoolConfig, WarmPoolHandle,
};

const MILLI: u128 = 1_000_000;

fn stack_alpha() -> StackKey {
    StackKey {
        stack_name: "alpha".into(),
        version: "1.0.0".into(),
        vcpu_count: 1,
        mem_size_mib: 128,
    }
}

fn stack_beta() -> StackKey {
    StackKey {
        stack_name: "beta".into(),
        version: "2.0.0".into(),
        vcpu_count: 2,
        mem_size_mib: 256,
    }
}

fn snapshot_for(stack: &StackKey) -> SnapshotRef {
    SnapshotRef {
        vm_id: format!("tpl-{}", stack.stack_name),
        snapshot_id: format!("snap-{}-{}", stack.stack_name, stack.version),
        resume_immediately: true,
        network_overrides: Vec::new(),
    }
}

fn fast_config(refill_ms: u64) -> WarmPoolConfig {
    WarmPoolConfig {
        min_depth: 2,
        max_depth: 3,
        refill_interval: Span::from_millis(refill_ms),
        entry_max_age: Span::from_secs(600),
    }
}

/// Validator that always reports `Healthy`.
struct AlwaysHealthy;

impl EntryValidator for AlwaysHealthy {
    fn validate(&self, _vm_id: &str) -> ValidationResult {
        ValidationResult::Healthy
    }
}

/// Validator that always reports `Unhealthy`.
struct AlwaysBad;

impl EntryValidator for AlwaysBad {
    fn validate(&self, _vm_id: &str) -> ValidationResult {
        ValidationResult::Unhealthy("never trust this VM".into())
    }
}

/// A pool with its provider, its validator and its scheduler, which runs whenever
/// the clock is moved.
struct Rig {
    pool: WarmPool,
    provider: InMemoryVmProvider,
    validator: Arc<dyn EntryValidator>,
    scheduler: Scheduler,
    specs: Vec<RestoreSpec>,
    reasons: Vec<String>,
    now: Moment,
}

impl Rig {
    fn start(
        provider: InMemoryVmProvider,
        config: WarmPoolConfig,
        validator: Arc<dyn EntryValidator>,
    ) -> Rig {
        Rig {
            pool: WarmPool::start(config),
            provider,
            validator,
            scheduler: Scheduler::new(),
            specs: Vec::new(),
            reasons: Vec::new(),
            now: Moment { nanos: 0 },
        }
    }

    fn finish(&mut self, mut at: Teardown) -> Vec<String> {
        let mut destroyed = Vec::new();
        while let Teardown::Destroy(vm) = at {
            let _ = self.provider.destroy_vm(vm.vm_id());
            destroyed.push(vm.vm_id().to_owned());
            at = vm.destroyed(&mut self.pool);
        }
        destroyed
    }

    fn unregister(&mut self, stack: &StackKey) -> Vec<String> {
        let at = self.pool.unregister(stack);
        self.finish(at)
    }

    fn shutdown(&mut self) -> Vec<String> {
        let at = self.pool.shutdown();
        self.finish(at)
    }

    fn acquire(&mut self, stack: &StackKey) -> Option<WarmPoolHandle> {
        let mut at = self.pool.acquire(stack);
        loop {
            at = match at {
                Acquire::Validate(entry) => {
                    let verdict = self.validator.validate(entry.vm_id());
                    entry.validated(&mut self.pool, verdict)
                }
                Acquire::Destroy(entry) => {
                    self.reasons.push(entry.reason().to_owned());
                    let _ = self.provider.destroy_vm(entry.vm_id());
                    entry.destroyed(&mut self.pool)
                }
                Acquire::Done(handle) => return handle,
            };
        }
    }

    fn tick(&mut self) {
        let mut at = self.pool.refill_tick(self.now);
        loop {
            at = match at {
                RefillTick::Evict(vm) => {
                    let _ = self.provider.destroy_vm(vm.vm_id());
                    vm.destroyed(&mut self.pool)
                }
                RefillTick::Create(vm) => {
                    let spec = vm.spec();
                    let created = self.provider.create_vm_with_spec(
                        &vm.vm_id(),
                        &VmSpec {
                            vcpu_count: Some(spec.vcpu_count),
                            mem_size_mib: Some(spec.mem_size_mib),
                            restore_from: Some(spec.restore_from.clone()),
                            ..VmSpec::default()
                        },
                    );
                    self.specs.push(spec);
                    vm.created(&mut self.pool, created.is_ok())
                }
                RefillTick::Validate(vm) => {
                    let verdict = self.validator.validate(&vm.vm_id());
                    vm.validated(&mut self.pool, verdict, self.now)
                }
                RefillTick::Discard(vm) => {
                    self.reasons.extend(vm.reason().map(str::to_owned));
                    let _ = self.provider.destroy_vm(&vm.vm_id());
                    vm.destroyed(&mut self.pool)
                }
                RefillTick::Done => return,
            };
        }
    }

    /// One step of the scheduler. `false` once it has stopped.
    fn step(&mut self) -> bool {
        match self.scheduler.next(&self.pool, self.now) {
            SchedulerStep::Stop => false,
            SchedulerStep::Tick => {
                self.tick();
                self.scheduler.ticked(&mut self.pool, self.now);
                true
            }
            SchedulerStep::Sleep(span) => {
                self.now = self.now.after(span);
                true
            }
        }
    }

    /// Let the scheduler run until `done` holds. `false` if `millis` pass before.
    fn wait_until<F: Fn(&Rig) -> bool>(&mut self, millis: u64, done: F) -> bool {
        let deadline = self.now.after(Span::from_millis(millis));
        while self.now.nanos < deadline.nanos {
            if done(self) {
                return true;
            }
            if !self.step() {
                return done(self);
            }
        }
        false
    }

    fn sleep(&mut self, millis: u64) {
        self.wait_until(millis, |_| false);
    }

    fn depth(&self, stack: &StackKey) -> usize {
        self.pool.depth(stack).unwrap_or(0)
    }

    fn status(&self, vm_id: &str) -> VmStatus {
        self.provider.get_vm(vm_id).expect("query").expect("vm").status
    }
}

impl Drop for Rig {
    fn drop(&mut self) {
        self.shutdown();
    }
}

#[test]
fn refill_brings_bucket_to_max_depth() {
    let provider = InMemoryVmProvider::default();
    let mut rig = Rig::start(provider.clone(), fast_config(20), Arc::new(AlwaysHealthy));
    let stack = stack_alpha();
    rig.pool.register(stack.clone(), snapshot_for(&stack));

    let reached = rig.wait_until(2000, |rig| rig.depth(&stack_alpha()) == 3);
    assert!(
        reached,
        "expected depth == max_depth (3), got {}",
        rig.depth(&stack)
    );

    let m = rig.pool.metrics();
    assert_eq!(m.created_total, 3, "should have created exactly 3 entries");
    assert_eq!(m.acquired_total, 0);
    assert_eq!(m.validation_failures_total, 0);

    // Refilling stops at max_depth: a few more ticks don't blow past 3.
    rig.sleep(150);
    assert_eq!(rig.depth(&stack), 3);
    assert_eq!(rig.pool.metrics().created_total, 3);
}

#[test]
fn acquire_returns_none_when_bucket_empty() {
    let provider = InMemoryVmProvider::default();
    let mut rig = Rig::start(
        provider,
        WarmPoolConfig { refill_interval: Span::from_secs(60), ..fast_config(60) },
        Arc::new(AlwaysHealthy),
    );
    let stack = stack_alpha();
    assert!(rig.acquire(&stack).is_none(), "no bucket registered");

    // Registered, but not refilled: the bucket exists but is empty.
    rig.pool.register(stack.clone(), snapshot_for(&stack));
    assert!(
        rig.acquire(&stack).is_none(),
        "registered bucket should still be empty"
    );
    assert_eq!(rig.pool.metrics().acquired_total, 0);
}

#[test]
fn acquire_pops_healthy_entry_with_correct_snapshot() {
    let provider = InMemoryVmProvider::default();
    let mut rig = Rig::start(provider, fast_config(20), Arc::new(AlwaysHealthy));
    let stack = stack_alpha();
    let snap = snapshot_for(&stack);
    rig.pool.register(stack.clone(), snap.clone());

    assert!(rig.wait_until(2000, |rig| rig.depth(&stack_alpha()) >= 2));

    let handle = rig.acquire(&stack).expect("warm entry available");
    assert_eq!(handle.stack, stack);
    assert_eq!(handle.source_snapshot.vm_id, snap.vm_id);
    assert_eq!(handle.source_snapshot.snapshot_id, snap.snapshot_id);
    assert!(handle.source_vm_id.starts_with("warm-alpha-1_0_0-"));

    let m = rig.pool.metrics();
    assert_eq!(m.acquired_total, 1);
    assert_eq!(m.validation_failures_total, 0);
}

#[test]
fn acquire_evicts_unhealthy_entries_and_returns_next_healthy() {
    struct Phased {
        phase: Mutex<u8>, // 0 = refill (Healthy), 1 = acquire window (Unhealthy x2, then Healthy)
        unhealthy_left: Mutex<u32>,
    }
    impl EntryValidator for Phased {
        fn validate(&self, _vm_id: &str) -> ValidationResult {
            let phase = *self.phase.lock().expect("phase");
            if phase == 0 {
                return ValidationResult::Healthy;
            }
            let mut left = self.unhealthy_left.lock().expect("uh");
            if *left > 0 {
                *left -= 1;
                ValidationResult::Unhealthy("scripted bad".into())
            } else {
                ValidationResult::Healthy
            }
        }
    }
    let validator = Arc::new(Phased { phase: Mutex::new(0), unhealthy_left: Mutex::new(2) });
    let validator_for_pool: Arc<dyn EntryValidator> = validator.clone();
    let provider = InMemoryVmProvider::default();

    let mut rig = Rig::start(provider.clone(), fast_config(20), validator_for_pool);
    let stack = stack_alpha();
    rig.pool.register(stack.clone(), snapshot_for(&stack));

    assert!(rig.wait_until(2000, |rig| rig.depth(&stack_alpha()) == 3));

    // From here on the validator rejects two entries.
    *validator.phase.lock().expect("phase") = 1;

    let handle = rig.acquire(&stack).expect("eventually returns healthy");
    assert!(handle.source_vm_id.starts_with("warm-alpha-1_0_0-"));

    let m = rig.pool.metrics();
    assert_eq!(m.validation_failures_total, 2, "two entries rejected");
    assert_eq!(m.acquired_total, 1, "one entry served");
    // The acquired entry is not an eviction; it was handed off.
    assert_eq!(m.evicted_total, 2);

    let vms = provider.list_vms().expect("list");
    let destroyed = vms.iter().filter(|v| v.status == VmStatus::Destroyed).count();
    assert_eq!(destroyed, 2, "two rejected entries should be destroyed");
}

#[test]
fn acquire_returns_none_after_all_entries_rejected() {
    let provider = InMemoryVmProvider::default();
    // Refill itself rejects every entry it spawns, so the bucket stays empty.
    let mut rig = Rig::start(provider, fast_config(20), Arc::new(AlwaysBad));
    let stack = stack_alpha();
    rig.pool.register(stack.clone(), snapshot_for(&stack));

    assert!(rig.wait_until(2000, |rig| {
        rig.pool.metrics().validation_failures_total >= 3
    }));

    assert_eq!(rig.depth(&stack), 0);
    assert!(rig.acquire(&stack).is_none());
}

#[test]
fn entry_max_age_eviction() {
    let provider = InMemoryVmProvider::default();
    let config = WarmPoolConfig {
        min_depth: 2,
        max_depth: 3,
        refill_interval: Span::from_millis(30),
        entry_max_age: Span::from_millis(80),
    };
    let mut rig = Rig::start(provider.clone(), config, Arc::new(AlwaysHealthy));
    let stack = stack_alpha();
    rig.pool.register(stack.clone(), snapshot_for(&stack));

    // Initial fill.
    assert!(rig.wait_until(2000, |rig| rig.depth(&stack_alpha()) == 3));
    let after_fill = rig.pool.metrics().created_total;
    assert_eq!(after_fill, 3);

    // Entries age out and are replaced.
    assert!(rig.wait_until(3000, |rig| {
        let m = rig.pool.metrics();
        m.evicted_total >= 3 && m.created_total >= 6
    }));
}

#[test]
fn register_and_unregister() {
    let provider = InMemoryVmProvider::default();
    let mut rig = Rig::start(provider.clone(), fast_config(20), Arc::new(AlwaysHealthy));
    let alpha = stack_alpha();
    let beta = stack_beta();

    rig.pool.register(alpha.clone(), snapshot_for(&alpha));
    rig.pool.register(beta.clone(), snapshot_for(&beta));

    assert!(rig.wait_until(2000, |rig| {
        rig.depth(&stack_alpha()) == 3 && rig.depth(&stack_beta()) == 3
    }));

    let evictions_before = rig.pool.metrics().evicted_total;
    rig.unregister(&alpha);

    // alpha bucket gone, beta untouched.
    assert!(rig.pool.depth(&alpha).is_none());
    assert_eq!(rig.pool.depth(&beta), Some(3));

    // 3 alpha entries should have been destroyed.
    let m = rig.pool.metrics();
    assert_eq!(m.evicted_total - evictions_before, 3);
}

#[test]
fn register_replaces_snapshot_for_existing_bucket() {
    let provider = InMemoryVmProvider::default();
    let mut rig = Rig::start(
        provider,
        WarmPoolConfig { refill_interval: Span::from_secs(60), ..fast_config(60) },
        Arc::new(AlwaysHealthy),
    );
    let stack = stack_alpha();
    let snap_v1 = SnapshotRef {
        vm_id: "tpl-v1".into(),
        snapshot_id: "snap-v1".into(),
        resume_immediately: true,
        network_overrides: Vec::new(),
    };
    let snap_v2 = SnapshotRef {
        vm_id: "tpl-v2".into(),
        snapshot_id: "snap-v2".into(),
        resume_immediately: true,
        network_overrides: Vec::new(),
    };
    rig.pool.register(stack.clone(), snap_v1);
    rig.pool.register(stack.clone(), snap_v2.clone());

    let found = rig.pool.source_snapshot(&stack).expect("bucket");
    assert_eq!(found.snapshot_id, snap_v2.snapshot_id);
}

#[test]
fn metrics_increment_correctly() {
    let provider = InMemoryVmProvider::default();
    let mut rig = Rig::start(provider, fast_config(20), Arc::new(AlwaysHealthy));
    let stack = stack_alpha();
    rig.pool.register(stack.clone(), snapshot_for(&stack));

    assert!(rig.wait_until(2000, |rig| rig.depth(&stack_alpha()) == 3));
    let _h1 = rig.acquire(&stack).expect("h1");
    let _h2 = rig.acquire(&stack).expect("h2");

    let m = rig.pool.metrics();
    assert!(m.created_total >= 3);
    assert_eq!(m.acquired_total, 2);
    assert!(m.refill_runs_total >= 1);
}

#[test]
fn shutdown_stops_refill_within_budget() {
    let provider = InMemoryVmProvider::default();
    // refill_interval = 1s; shutdown should still complete in <500ms.
    let config = WarmPoolConfig {
        min_depth: 1,
        max_depth: 2,
        refill_interval: Span::from_secs(1),
        entry_max_age: Span::from_secs(600),
    };
    let mut rig = Rig::start(provider, config, Arc::new(AlwaysHealthy));
    let stack = stack_alpha();
    rig.pool.register(stack.clone(), snapshot_for(&stack));
    // The first refill tick adds at least one entry.
    rig.sleep(50);
    assert!(rig.depth(&stack) >= 1);

    // The scheduler has just gone to sleep for a whole slice.
    let awake = rig.now.after(Span::from_millis(25));
    let start = rig.now;
    let wait = rig.pool.request_shutdown(rig.now);
    loop {
        let finished = rig.now.nanos >= awake.nanos
            && rig.scheduler.next(&rig.pool, rig.now) == SchedulerStep::Stop;
        match wait.next(rig.now, finished) {
            JoinStep::Join | JoinStep::Leave => break,
            JoinStep::Sleep(span) => rig.now = rig.now.after(span),
        }
    }
    rig.shutdown();
    let elapsed = rig.now.since(start);
    assert!(
        elapsed.nanos < 500 * MILLI,
        "shutdown took {elapsed:?}, expected < 500ms"
    );
    assert_eq!(elapsed.nanos, 25 * MILLI);

    // After shutdown the buckets are drained.
    for (_k, depth) in rig.pool.depths() {
        assert!(depth == 0, "all entries should be drained");
    }
}

#[test]
fn drop_destroys_remaining_entries() {
    let provider = InMemoryVmProvider::default();
    let stack = stack_alpha();
    {
        let mut rig = Rig::start(provider.clone(), fast_config(20), Arc::new(AlwaysHealthy));
        rig.pool.register(stack.clone(), snapshot_for(&stack));
        assert!(rig.wait_until(2000, |rig| rig.depth(&stack_alpha()) == 3));
    } // drop here

    // All warm-alpha-* VMs should now be in Destroyed state.
    let vms = provider.list_vms().expect("list");
    let alpha_vms: Vec<&VmView> = vms
        .iter()
        .filter(|v| v.vm_id.starts_with("warm-alpha-"))
        .collect();
    assert_eq!(alpha_vms.len(), 3);
    for v in alpha_vms {
        assert_eq!(
            v.status,
            VmStatus::Destroyed,
            "vm {} not destroyed",
            v.vm_id
        );
    }
}

#[test]
fn refill_interval_is_honored_under_short_budget() {
    let provider = InMemoryVmProvider::default();
    let config = WarmPoolConfig {
        min_depth: 1,
        max_depth: 1,
        refill_interval: Span::from_millis(50),
        entry_max_age: Span::from_secs(600),
    };
    let mut rig = Rig::start(provider, config, Arc::new(AlwaysHealthy));
    // No buckets registered: ticks still run, just no-op.
    rig.sleep(350);
    let runs = rig.pool.metrics().refill_runs_total;
    assert!(
        runs >= 3,
        "expected refill thread to tick at least 3 times in 350ms, got {runs}"
    );
    assert_eq!(runs, 7);
}

#[test]
fn validator_failure_reason_is_logged_via_metrics_counter() {
    struct Counting {
        calls: AtomicU64,
    }
    impl EntryValidator for Counting {
        fn validate(&self, _vm_id: &str) -> ValidationResult {
            let n = self.calls.fetch_add(1, Ordering::SeqCst);
            if n % 2 == 0 {
                ValidationResult::Healthy
            } else {
                ValidationResult::Unhealthy(format!("scripted-fail-{n}"))
            }
        }
    }
    let provider = InMemoryVmProvider::default();
    let mut rig = Rig::start(
        provider,
        fast_config(20),
        Arc::new(Counting { calls: AtomicU64::new(0) }),
    );
    let stack = stack_alpha();
    rig.pool.register(stack.clone(), snapshot_for(&stack));

    // Half of the spawns fail: unhealthy entries are destroyed rather than landing
    // in the bucket.
    assert!(rig.wait_until(3000, |rig| {
        rig.pool.metrics().validation_failures_total >= 1
    }));
    assert!(rig.pool.metrics().created_total >= 2);
    assert_eq!(rig.depth(&stack), 2);
    assert_eq!(rig.pool.metrics().evicted_total, 1);
}

#[test]
fn separate_buckets_do_not_interfere() {
    let provider = InMemoryVmProvider::default();
    let mut rig = Rig::start(provider, fast_config(20), Arc::new(AlwaysHealthy));
    let alpha = stack_alpha();
    let beta = stack_beta();
    rig.pool.register(alpha.clone(), snapshot_for(&alpha));
    rig.pool.register(beta.clone(), snapshot_for(&beta));
    assert!(rig.wait_until(2000, |rig| {
        rig.depth(&stack_alpha()) == 3 && rig.depth(&stack_beta()) == 3
    }));

    // Drain alpha. Beta should remain at depth 3.
    for _ in 0..3 {
        assert!(rig.acquire(&alpha).is_some());
    }
    assert_eq!(rig.depth(&beta), 3);
}

#[test]
fn unregister_unknown_key_is_noop() {
    let provider = InMemoryVmProvider::default();
    let mut rig = Rig::start(provider, fast_config(60), Arc::new(AlwaysHealthy));
    let stack = stack_alpha();
    rig.unregister(&stack);
    assert_eq!(rig.pool.metrics().evicted_total, 0);
}

#[test]
fn entries_are_named_by_seed_and_handed_off_newest_first() {
    let provider = InMemoryVmProvider::default();
    let mut rig = Rig::start(provider, fast_config(20), Arc::new(AlwaysHealthy));
    let stack = stack_alpha();
    rig.pool.register(stack.clone(), snapshot_for(&stack));
    rig.tick();

    let order: Vec<String> = (0..3)
        .map(|_| rig.acquire(&stack).expect("entry").source_vm_id)
        .collect();
    assert_eq!(
        order,
        vec!["warm-alpha-1_0_0-2", "warm-alpha-1_0_0-1", "warm-alpha-1_0_0-0"]
    );
    assert!(rig.acquire(&stack).is_none());

    // The next tick goes on behind the numbers that are taken.
    rig.tick();
    assert_eq!(rig.acquire(&stack).expect("entry").source_vm_id, "warm-alpha-1_0_0-5");
}

#[test]
fn spawns_are_restored_from_the_registered_snapshot_in_its_shape() {
    let provider = InMemoryVmProvider::default();
    let mut rig = Rig::start(provider, fast_config(20), Arc::new(AlwaysHealthy));
    let stack = stack_beta();
    let mut snap = snapshot_for(&stack);
    snap.resume_immediately = false;
    snap.network_overrides = vec![NetworkInterface {
        iface_id: "eth0".into(),
        host_dev_name: "tap-tenant-abc".into(),
        guest_mac: None,
        rx_rate_limiter: None,
        tx_rate_limiter: None,
    }];
    rig.pool.register(stack.clone(), snap);
    rig.tick();

    assert_eq!(rig.specs.len(), 3);
    for spec in &rig.specs {
        assert_eq!(spec.vcpu_count, 2);
        assert_eq!(spec.mem_size_mib, 256);
        assert_eq!(spec.restore_from.vm_id, "tpl-beta");
        assert_eq!(spec.restore_from.snapshot_id, "snap-beta-2.0.0");
        assert!(!spec.restore_from.resume_immediately);
        assert_eq!(spec.restore_from.network_overrides.len(), 1);
        assert_eq!(spec.restore_from.network_overrides[0].host_dev_name, "tap-tenant-abc");
    }
    let handle = rig.acquire(&stack).expect("entry");
    assert!(!handle.source_snapshot.resume_immediately);
    assert_eq!(handle.source_snapshot.network_overrides[0].iface_id, "eth0");
}

#[test]
fn register_again_keeps_entries_and_serves_the_new_snapshot() {
    let provider = InMemoryVmProvider::default();
    let mut rig = Rig::start(provider, fast_config(20), Arc::new(AlwaysHealthy));
    let stack = stack_alpha();
    rig.pool.register(stack.clone(), snapshot_for(&stack));
    rig.tick();
    let mut newer = snapshot_for(&stack);
    newer.snapshot_id = "snap-newer".into();
    rig.pool.register(stack.clone(), newer);

    assert_eq!(rig.pool.depth(&stack), Some(3));
    let handle = rig.acquire(&stack).expect("entry");
    assert_eq!(handle.source_vm_id, "warm-alpha-1_0_0-2");
    assert_eq!(handle.source_snapshot.snapshot_id, "snap-newer");
}

#[test]
fn bucket_at_low_water_mark_is_left_alone() {
    let provider = InMemoryVmProvider::default();
    let mut rig = Rig::start(provider, fast_config(20), Arc::new(AlwaysHealthy));
    let stack = stack_alpha();
    rig.pool.register(stack.clone(), snapshot_for(&stack));
    rig.tick();

    assert!(rig.acquire(&stack).is_some());
    rig.tick();
    assert_eq!(rig.depth(&stack), 2, "min_depth is still met");
    assert!(rig.acquire(&stack).is_some());
    rig.tick();
    assert_eq!(rig.depth(&stack), 3, "below min_depth it goes up to max_depth");
    assert_eq!(rig.pool.metrics().created_total, 5);
}

#[test]
fn low_water_mark_above_high_water_mark_spawns_up_to_high_water_mark() {
    let provider = InMemoryVmProvider::default();
    let config = WarmPoolConfig { min_depth: 5, max_depth: 3, ..fast_config(20) };
    let mut rig = Rig::start(provider, config, Arc::new(AlwaysHealthy));
    let stack = stack_alpha();
    rig.pool.register(stack.clone(), snapshot_for(&stack));
    rig.tick();
    rig.tick();
    assert_eq!(rig.depth(&stack), 3);
    assert_eq!(rig.pool.metrics().created_total, 3);
}

#[test]
fn refused_spawn_leaves_the_bucket_to_the_next_tick() {
    let provider = InMemoryVmProvider::default();
    provider.create_vm("warm-alpha-1_0_0-1").expect("create");
    let mut rig = Rig::start(provider, fast_config(20), Arc::new(AlwaysHealthy));
    let alpha = stack_alpha();
    let beta = stack_beta();
    rig.pool.register(alpha.clone(), snapshot_for(&alpha));
    rig.pool.register(beta.clone(), snapshot_for(&beta));

    rig.tick();
    assert_eq!(rig.depth(&alpha), 1, "the second spawn was refused");
    assert_eq!(rig.depth(&beta), 3, "the next bucket is served all the same");
    assert_eq!(rig.pool.metrics().created_total, 4);
    assert_eq!(rig.pool.metrics().evicted_total, 0);

    // Numbers that were taken are not used again: 0, 1 and 2 are gone.
    rig.tick();
    assert_eq!(rig.depth(&alpha), 3);
    assert_eq!(rig.acquire(&alpha).expect("entry").source_vm_id, "warm-alpha-1_0_0-4");
}

#[test]
fn orphan_of_an_unregistered_bucket_is_destroyed() {
    let provider = InMemoryVmProvider::default();
    let mut rig = Rig::start(provider.clone(), fast_config(20), Arc::new(AlwaysHealthy));
    let stack = stack_alpha();
    rig.pool.register(stack.clone(), snapshot_for(&stack));

    let at = rig.pool.refill_tick(rig.now);
    let vm = match at {
        RefillTick::Create(vm) => vm,
        other => panic!("unexpected {other:?}"),
    };
    provider.create_vm(&vm.vm_id()).expect("create");
    let vm = match vm.created(&mut rig.pool, true) {
        RefillTick::Validate(vm) => vm,
        other => panic!("unexpected {other:?}"),
    };
    // The key goes while the VM is being probed.
    assert!(rig.unregister(&stack).is_empty());
    let vm = match vm.validated(&mut rig.pool, ValidationResult::Healthy, rig.now) {
        RefillTick::Discard(vm) => vm,
        other => panic!("unexpected {other:?}"),
    };
    assert_eq!(vm.vm_id(), "warm-alpha-1_0_0-0");
    assert!(vm.reason().is_none(), "nothing is wrong with an orphan");
    provider.destroy_vm(&vm.vm_id()).expect("destroy");
    let next = vm.destroyed(&mut rig.pool);
    assert!(matches!(next, RefillTick::Create(_)));
    let m = rig.pool.metrics();
    assert_eq!(m.created_total, 1);
    assert_eq!(m.evicted_total, 1);
    assert_eq!(m.validation_failures_total, 0);
    assert_eq!(rig.status("warm-alpha-1_0_0-0"), VmStatus::Destroyed);
}

#[test]
fn reasons_of_unhealthy_verdicts_are_handed_on() {
    // The second and the fourth call fail: the second spawn, then the newest entry on the acquire.
    struct Scripted {
        calls: AtomicU64,
    }
    impl EntryValidator for Scripted {
        fn validate(&self, vm_id: &str) -> ValidationResult {
            let n = self.calls.fetch_add(1, Ordering::SeqCst);
            if n == 1 || n == 3 {
                ValidationResult::Unhealthy(format!("call {n} on {vm_id}"))
            } else {
                ValidationResult::Healthy
            }
        }
    }
    let provider = InMemoryVmProvider::default();
    let mut rig = Rig::start(
        provider,
        fast_config(20),
        Arc::new(Scripted { calls: AtomicU64::new(0) }),
    );
    let stack = stack_alpha();
    rig.pool.register(stack.clone(), snapshot_for(&stack));
    rig.tick();
    assert_eq!(rig.reasons, vec!["call 1 on warm-alpha-1_0_0-1"]);

    let handle = rig.acquire(&stack).expect("entry");
    assert_eq!(handle.source_vm_id, "warm-alpha-1_0_0-0");
    assert_eq!(rig.reasons[1], "call 3 on warm-alpha-1_0_0-2");
    assert_eq!(rig.reasons.len(), 2);
}

#[test]
fn only_entries_beyond_max_age_are_evicted() {
    let provider = InMemoryVmProvider::default();
    let config = WarmPoolConfig { entry_max_age: Span::from_millis(80), ..fast_config(20) };
    let mut rig = Rig::start(provider, config, Arc::new(AlwaysHealthy));
    let stack = stack_alpha();
    rig.pool.register(stack.clone(), snapshot_for(&stack));
    rig.tick();

    // At exactly the maximum age an entry stays.
    rig.now = Moment { nanos: 80 * MILLI };
    rig.tick();
    assert_eq!(rig.pool.metrics().evicted_total, 0);

    rig.now = Moment { nanos: 80 * MILLI + 1 };
    rig.tick();
    assert_eq!(rig.pool.metrics().evicted_total, 3);
    assert_eq!(rig.pool.metrics().created_total, 6);
    assert_eq!(rig.depth(&stack), 3);
    assert_eq!(rig.status("warm-alpha-1_0_0-0"), VmStatus::Destroyed);
    assert_eq!(rig.status("warm-alpha-1_0_0-3"), VmStatus::Created);
}

#[test]
fn shutdown_is_idempotent_and_keeps_keys() {
    let provider = InMemoryVmProvider::default();
    let mut rig = Rig::start(provider, fast_config(20), Arc::new(AlwaysHealthy));
    let alpha = stack_alpha();
    let beta = stack_beta();
    rig.pool.register(alpha.clone(), snapshot_for(&alpha));
    rig.pool.register(beta.clone(), snapshot_for(&beta));
    rig.tick();

    assert!(!rig.pool.is_shut_down());
    assert_eq!(
        rig.shutdown(),
        vec![
            "warm-alpha-1_0_0-0",
            "warm-alpha-1_0_0-1",
            "warm-alpha-1_0_0-2",
            "warm-beta-2_0_0-0",
            "warm-beta-2_0_0-1",
            "warm-beta-2_0_0-2",
        ]
    );
    assert!(rig.pool.is_shut_down());
    assert_eq!(rig.pool.metrics().evicted_total, 6);
    assert_eq!(rig.pool.depths(), vec![(alpha.clone(), 0), (beta, 0)]);
    assert!(rig.acquire(&alpha).is_none());
    assert!(!rig.step(), "the scheduler has stopped");

    assert!(rig.shutdown().is_empty());
    assert_eq!(rig.pool.metrics().evicted_total, 6);
}

#[test]
fn unregister_undoes_register() {
    let provider = InMemoryVmProvider::default();
    let mut rig = Rig::start(provider, fast_config(20), Arc::new(AlwaysHealthy));
    let alpha = stack_alpha();
    let beta = stack_beta();
    rig.pool.register(alpha.clone(), snapshot_for(&alpha));
    rig.pool.register(beta.clone(), snapshot_for(&beta));
    assert!(rig.unregister(&beta).is_empty());
    assert_eq!(rig.pool.depths(), vec![(alpha.clone(), 0)]);
    assert!(rig.pool.source_snapshot(&beta).is_none());
    assert!(rig.acquire(&beta).is_none());
    assert!(rig.pool.source_snapshot(&alpha).is_some());
}

#[test]
fn every_spawned_vm_is_accounted_for() {
    struct EveryThirdBad {
        calls: AtomicU64,
    }
    impl EntryValidator for EveryThirdBad {
        fn validate(&self, _vm_id: &str) -> ValidationResult {
            if self.calls.fetch_add(1, Ordering::SeqCst) % 3 == 2 {
                ValidationResult::Unhealthy("third".into())
            } else {
                ValidationResult::Healthy
            }
        }
    }
    let provider = InMemoryVmProvider::default();
    let config = WarmPoolConfig {
        min_depth: 3,
        max_depth: 4,
        refill_interval: Span::from_millis(20),
        entry_max_age: Span::from_millis(90),
    };
    let mut rig = Rig::start(
        provider,
        config,
        Arc::new(EveryThirdBad { calls: AtomicU64::new(0) }),
    );
    let alpha = stack_alpha();
    let beta = stack_beta();
    rig.pool.register(alpha.clone(), snapshot_for(&alpha));
    rig.pool.register(beta.clone(), snapshot_for(&beta));
    for round in 0..40 {
        rig.sleep(15);
        let stack = if round % 3 == 0 { &beta } else { &alpha };
        let _ = rig.acquire(stack);
        let m = rig.pool.metrics();
        let live: usize = rig.pool.depths().iter().map(|(_, depth)| *depth).sum();
        assert_eq!(m.created_total, m.acquired_total + m.evicted_total + live as u64);
        assert!(rig.depth(&alpha) <= 4 && rig.depth(&beta) <= 4);
    }
    assert!(rig.pool.metrics().validation_failures_total > 0);
}

#[test]
fn no_vm_is_handed_off_twice() {
    let provider = InMemoryVmProvider::default();
    let mut rig = Rig::start(provider, fast_config(20), Arc::new(AlwaysHealthy));
    let stack = stack_alpha();
    rig.pool.register(stack.clone(), snapshot_for(&stack));
    let mut seen: Vec<String> = Vec::new();
    for _ in 0..20 {
        rig.tick();
        let id = rig.acquire(&stack).expect("entry").source_vm_id;
        assert!(!seen.contains(&id));
        seen.push(id);
    }
}
