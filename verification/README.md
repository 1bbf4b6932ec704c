# thread_sentry

Deadlock and data-race detection for monitored locks and fields, with the
detection logic verified by Verus.

- `src/tracker.rs`: the thread id each thread keeps, which thread holds and
  waits for which lock, and the lock-order graph built from the waits.
- `src/deadlock.rs`: the wait-for graph, a depth-first cycle search proved
  to find only cycles, and for every cycle through two locks or more one
  that shares a lock with it; deadlock reports are deduplicated by a key
  that every rotation of a cycle shares.
- `src/race.rs`: the race rules and the per-address access history, with
  race reports deduplicated by thread pair and address; each address
  keeps its latest accesses.
- `src/tls.rs`, `src/sentinel_field.rs`, `src/sentinel_mutex.rs`: the
  per-thread slots, tracked fields, and what a monitored mutex records
  before blocking, after acquiring and on release.
- `src/collections.rs`, `src/runtime.rs`: the `dashmap` and `smallvec`
  collections, the clock and the call stack, behind specified wrappers.
- `app/`: the process-wide shared state, thread-local slots, the monitored
  mutex and its guard, console reports, and the `sentry_track` expansion.
