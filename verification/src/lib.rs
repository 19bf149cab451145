//! Pre-restored Firecracker microVM pool harness.
//!
//! The pool turns a snapshot-restore-then-boot flow into a lookup: it is bucketed
//! by [`StackKey`] (`stack_name`, `version`, `vcpu_count`, `mem_size_mib`), and
//! different identities are not interchangeable, so each gets its own bucket. A
//! refill scheduler keeps every registered bucket between `min_depth` and
//! `max_depth` entries, evicts entries older than `entry_max_age`, and drops
//! entries whose [`EntryValidator`] reports them unhealthy.
//!
//! This library holds the pool's state and makes its decisions. It never talks to
//! a provider, reads a clock or starts a thread: an operation that needs such work
//! done says what it waits for ([`Acquire`], [`RefillTick`], [`Teardown`],
//! [`SchedulerStep`], [`JoinStep`]), and goes on when it is told the outcome. The
//! pool is free for other operations meanwhile.
//!
//! See [`WarmPool`] for the entry point, [`model`] for the pool as a mathematical
//! value, and [`laws`] for what is proved of it.

pub mod acquire;
pub mod clock;
pub mod config;
pub mod laws;
pub mod metrics;
pub mod model;
pub mod naming;
pub mod pool;
pub mod refill;
pub mod schedule;
pub mod snapshot;
pub mod stack_key;
pub mod teardown;
pub mod validator;

pub use acquire::{Acquire, Candidate, Rejected, WarmPoolHandle};
pub use clock::{Moment, Span};
pub use config::WarmPoolConfig;
pub use metrics::{Counters, WarmPoolMetrics};
pub use naming::sanitize;
pub use pool::WarmPool;
pub use refill::{Creating, Discarding, Evicting, RefillTick, RestoreSpec, Validating};
pub use schedule::{JoinStep, JoinWait, Scheduler, SchedulerStep};
pub use stack_key::StackKey;
pub use teardown::{Destroying, Teardown};
pub use validator::{EntryValidator, ValidationResult};
