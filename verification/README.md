# microvm-warm-pool

Pre-restored Firecracker microVM pool for fast warm handoff, written and verified
in Verus.

The pool keeps a number of pre-restored VMs ready per `StackKey` (`stack_name`,
`version`, `vcpu_count`, `mem_size_mib`): acquiring one is a lookup instead of a
boot. A refill scheduler keeps every registered bucket between a low and a high
water mark, evicts entries that are too old, and drops entries that fail their
health probe.

## Layout

- `src/` is the verified library. It holds the pool's state and makes its
  decisions, and does no I/O: an operation says what it waits for, and goes on
  when it is told the outcome.
  - `model` is the pool as a mathematical value, with what each operation makes
    of it; the contracts speak of it.
  - `pool` holds the buckets; `acquire`, `refill` and `teardown` are the
    operations that need a provider or a validator; `schedule` decides when a
    tick runs and how long a shutdown waits.
  - `naming`, `clock`, `config`, `metrics`, `stack_key`, `validator` and
    `snapshot` are what they build on.
  - `laws` holds what is proved of the pool as a whole: no bucket outgrows its
    high-water mark, no VM is lost, keys do not interfere, what an acquire and
    what a refill tick come to. No VM is handed off twice either, as long as the
    provider creates none under an ID that the pool already tracks: keys that
    differ only in machine shape, or whose names and versions are alike once
    sanitized, share their IDs, and so does a key that is given up and registered
    again.
- `app/` puts the library behind a lock and a refill thread, and performs what it
  asks for with a `VmProvider` of `microvm_runtime`.
- `tests/` drives the library against the in-memory provider of
  `microvm_runtime`, on a clock that the tests move.

## What is trusted

- `SnapshotRef` of `microvm_runtime` is carried through unread; its `clone` is
  taken to give an equal value.
- `String::push` of std is taken to append the character.
