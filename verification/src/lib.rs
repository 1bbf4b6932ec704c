pub mod collections;
pub mod deadlock;
pub mod race;
pub mod runtime;
pub mod sentinel_field;
pub mod sentinel_mutex;
pub mod tls;
pub mod tracker;

pub use deadlock::{DeadlockDetector, DeadlockReport, LockChainEntry};
pub use race::{AccessType, MemoryAccess, MemoryAccessRecord, RaceDetector, RaceReport};
pub use sentinel_field::{SentryField, SentryFieldGuard, SentryFieldMutGuard};
pub use tls::ThreadContext;
pub use tracker::{GlobalTracker, LockEvent, LockInfo, LockType, ThreadLockState};
