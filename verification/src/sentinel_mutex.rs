//! What a monitored mutex records around its lock: before a thread blocks on
//! it, once the thread holds it, and when the thread lets it go. Blocking on
//! the lock itself is left to the caller.
use vstd::prelude::*;

use crate::deadlock::{deadlock_checked, DeadlockDetector, DeadlockReport};
use crate::runtime::frame_window;
use crate::tls::{clear_current_lock, clear_current_thread_id, set_current_lock, set_current_thread_id, ThreadContext};
use crate::tracker::{
    acquire_recorded, release_recorded, thread_id_given, wait_recorded, GlobalTracker, LockId, LockType,
    ThreadId, LOCK_EVENT_FRAMES, LOCK_EVENT_SKIP,
};

verus! {

/// Before the thread whose slots are `context` blocks on the mutex `lock_id`:
/// the tracker gives the thread its id, the thread's wait for the mutex is
/// recorded, and the mutex's detector searches the lock-order graph for
/// deadlocks. Hands back the thread id and the deadlock reports.
pub fn lock_requested(
    lock_id: LockId,
    context: &ThreadContext,
    tracker: &mut GlobalTracker,
    detector: &mut DeadlockDetector,
) -> (r: (ThreadId, Vec<DeadlockReport>))
    requires
        old(tracker).thread_id_available(context.thread_key@),
        old(tracker).wait_fits(old(tracker).thread_id_for(context.thread_key@), lock_id),
    ensures
        thread_id_given(*old(tracker), *final(tracker), context.thread_key@, r.0),
        wait_recorded(*old(tracker), *final(tracker), lock_id, LockType::Mutex, r.0),
        old(tracker).thread_ids_distinct() ==> final(tracker).thread_ids_distinct(),
        deadlock_checked(
            *old(detector),
            *final(detector),
            final(tracker).edges().dom(),
            final(tracker).events(),
            r.1@,
        ),
{
    let thread_id = tracker.get_or_allocate_thread_id(&context.thread_key);
    proof {
        assert(tracker.held_by(thread_id) == old(tracker).held_by(thread_id));
        assert forall|h: LockId| #[trigger] tracker.edge_count(h, lock_id) == old(tracker).edge_count(h, lock_id) by {}
    }
    tracker.record_lock_wait(lock_id, LockType::Mutex, thread_id);
    let reports = detector.check_deadlock(tracker);
    (thread_id, reports)
}

/// Once `thread_id` holds the mutex `lock_id`: the acquisition is recorded and
/// the thread's slots name the mutex and the thread.
pub fn lock_acquired(
    lock_id: LockId,
    thread_id: ThreadId,
    tracker: &mut GlobalTracker,
    context: &mut ThreadContext,
)
    ensures
        acquire_recorded(*old(tracker), *final(tracker), lock_id, LockType::Mutex, thread_id),
        final(tracker).events()[lock_id].backtrace@ == frame_window(
            final(tracker).captured_stack(),
            LOCK_EVENT_SKIP as nat,
            LOCK_EVENT_FRAMES as nat,
        ),
        final(tracker).next_thread() == old(tracker).next_thread(),
        final(tracker).next_lock() == old(tracker).next_lock(),
        final(tracker).thread_keys() == old(tracker).thread_keys(),
        old(tracker).thread_ids_distinct() ==> final(tracker).thread_ids_distinct(),
        final(context).current_lock == Some(lock_id),
        final(context).current_thread_id == Some(thread_id),
        final(context).thread_key == old(context).thread_key,
{
    tracker.record_lock_acquire(lock_id, LockType::Mutex, thread_id);
    set_current_lock(context, lock_id);
    set_current_thread_id(context, thread_id);
}

/// When `thread_id` lets the mutex `lock_id` go: the thread's slots are
/// emptied and the release is recorded.
pub fn lock_released(
    lock_id: LockId,
    thread_id: ThreadId,
    tracker: &mut GlobalTracker,
    context: &mut ThreadContext,
)
    ensures
        release_recorded(*old(tracker), *final(tracker), lock_id, thread_id),
        final(tracker).next_thread() == old(tracker).next_thread(),
        final(tracker).next_lock() == old(tracker).next_lock(),
        final(tracker).thread_keys() == old(tracker).thread_keys(),
        old(tracker).thread_ids_distinct() ==> final(tracker).thread_ids_distinct(),
        final(context).current_lock is None,
        final(context).current_thread_id is None,
        final(context).thread_key == old(context).thread_key,
{
    clear_current_lock(context);
    clear_current_thread_id(context);
    tracker.record_lock_release(lock_id, thread_id);
}

} // verus!
