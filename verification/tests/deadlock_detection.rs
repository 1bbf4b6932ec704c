use thread_sentry::{DeadlockDetector, GlobalTracker, LockType};

fn inversion() -> GlobalTracker {
    // Thread 1 holds lock 1 and waits for lock 2; thread 2 holds lock 2 and
    // waits for lock 1.
    let mut tracker = GlobalTracker::new();
    tracker.record_lock_acquire(1, LockType::Mutex, 1);
    tracker.record_lock_wait(2, LockType::Mutex, 1);
    tracker.record_lock_acquire(2, LockType::Mutex, 2);
    tracker.record_lock_wait(1, LockType::Mutex, 2);
    tracker
}

#[test]
fn lock_order_inversion_is_reported() {
    let tracker = inversion();
    let mut detector = DeadlockDetector::new();
    let reports = detector.check_deadlock(&tracker);
    assert_eq!(reports.len(), 1);
    let report = &reports[0];
    assert_eq!(report.cycle_length, 2);
    assert_eq!(report.lock_chain.len(), 2);
    let mut locks: Vec<usize> = report.lock_chain.iter().map(|e| e.lock_id).collect();
    locks.sort();
    assert_eq!(locks, vec![1, 2]);
    for entry in &report.lock_chain {
        assert_eq!(entry.lock_type, LockType::Mutex);
        // Lock n was acquired by thread n.
        assert_eq!(entry.thread_id, entry.lock_id);
        assert!(entry.backtrace.len() <= 10);
    }
}

#[test]
fn a_cycle_is_reported_once() {
    // Wherever the search enters the inversion, it is the same cycle, with
    // the key (1, 2): it is reported on the first search only.
    let tracker = inversion();
    let mut detector = DeadlockDetector::new();
    assert_eq!(detector.check_deadlock(&tracker).len(), 1);
    for _ in 0..20 {
        assert!(detector.check_deadlock(&tracker).is_empty());
    }
    // Another detector has its own memory of what it reported.
    let mut other = DeadlockDetector::new();
    assert_eq!(other.check_deadlock(&tracker).len(), 1);
}

#[test]
fn rotations_of_a_cycle_share_one_report() {
    let tracker = GlobalTracker::new();
    let mut detector = DeadlockDetector::new();
    let reports = detector.report_cycles(&tracker, vec![vec![2, 3, 1], vec![3, 1, 2], vec![1, 2, 3]]);
    assert_eq!(reports.len(), 1);
    assert_eq!(reports[0].cycle_length, 3);
    let again = detector.report_cycles(&tracker, vec![vec![1, 2, 3]]);
    assert!(again.is_empty());
    // The other direction round the same locks is another cycle.
    let reversed = detector.report_cycles(&tracker, vec![vec![3, 2, 1]]);
    assert_eq!(reversed.len(), 1);
}

#[test]
fn consistent_lock_order_is_not_reported() {
    let mut tracker = GlobalTracker::new();
    tracker.record_lock_acquire(1, LockType::Mutex, 1);
    tracker.record_lock_wait(2, LockType::Mutex, 1);
    tracker.record_lock_acquire(2, LockType::Mutex, 1);
    tracker.record_lock_wait(3, LockType::Mutex, 1);
    tracker.record_lock_acquire(1, LockType::Mutex, 2);
    tracker.record_lock_wait(3, LockType::Mutex, 2);
    let mut detector = DeadlockDetector::new();
    assert!(detector.check_deadlock(&tracker).is_empty());
}

#[test]
fn relocking_a_held_lock_is_not_reported() {
    let mut tracker = GlobalTracker::new();
    tracker.record_lock_acquire(1, LockType::Mutex, 1);
    tracker.record_lock_wait(1, LockType::Mutex, 1);
    let mut detector = DeadlockDetector::new();
    assert!(detector.check_deadlock(&tracker).is_empty());
}

#[test]
fn three_lock_cycle_is_reported() {
    let mut tracker = GlobalTracker::new();
    tracker.record_lock_acquire(1, LockType::Mutex, 1);
    tracker.record_lock_wait(2, LockType::Mutex, 1);
    tracker.record_lock_acquire(2, LockType::Mutex, 2);
    tracker.record_lock_wait(3, LockType::Mutex, 2);
    tracker.record_lock_acquire(3, LockType::Mutex, 3);
    tracker.record_lock_wait(1, LockType::Mutex, 3);
    let mut detector = DeadlockDetector::new();
    let reports = detector.check_deadlock(&tracker);
    assert_eq!(reports.len(), 1);
    assert_eq!(reports[0].cycle_length, 3);
    assert_eq!(reports[0].lock_chain.len(), 3);
}

#[test]
fn released_locks_are_left_out_of_the_chain() {
    let mut tracker = inversion();
    tracker.record_lock_release(2, 2);
    let mut detector = DeadlockDetector::new();
    let reports = detector.check_deadlock(&tracker);
    // The edges stay in the lock-order graph; lock 2 has no event any more.
    assert_eq!(reports.len(), 1);
    assert_eq!(reports[0].cycle_length, 2);
    assert_eq!(reports[0].lock_chain.len(), 1);
    assert_eq!(reports[0].lock_chain[0].lock_id, 1);
}

#[test]
fn report_cycles_reports_fresh_long_cycles_in_order() {
    let mut tracker = GlobalTracker::new();
    tracker.record_lock_acquire(7, LockType::RwLockRead, 4);
    let mut detector = DeadlockDetector::new();
    let cycles = vec![vec![7], vec![7, 8], vec![8, 7], vec![7, 8, 9], vec![9, 7]];
    let reports = detector.report_cycles(&tracker, cycles);
    // A cycle's key is its smallest lock and the next: [7] is too short, and
    // [8, 7] and [7, 8, 9] have the key (7, 8) of [7, 8].
    assert_eq!(reports.len(), 2);
    assert_eq!(reports[0].cycle_length, 2);
    assert_eq!(reports[0].lock_chain.len(), 1);
    assert_eq!(reports[0].lock_chain[0].lock_id, 7);
    assert_eq!(reports[0].lock_chain[0].thread_id, 4);
    assert_eq!(reports[0].lock_chain[0].lock_type, LockType::RwLockRead);
    assert_eq!(reports[1].cycle_length, 2);
    assert_eq!(reports[1].lock_chain.len(), 1);
    assert_eq!(reports[1].lock_chain[0].lock_id, 7);
    let again = detector.report_cycles(&tracker, vec![vec![8, 7], vec![7, 9], vec![8, 9]]);
    assert_eq!(again.len(), 1);
    assert_eq!(again[0].cycle_length, 2);
    assert!(again[0].lock_chain.is_empty());
}

#[test]
fn two_independent_inversions_are_both_reported() {
    // Locks 1 and 2 are taken in opposite orders by threads 1 and 2, locks 3
    // and 4 by threads 3 and 4.
    let mut tracker = GlobalTracker::new();
    tracker.record_lock_acquire(1, LockType::Mutex, 1);
    tracker.record_lock_wait(2, LockType::Mutex, 1);
    tracker.record_lock_acquire(2, LockType::Mutex, 2);
    tracker.record_lock_wait(1, LockType::Mutex, 2);
    tracker.record_lock_acquire(3, LockType::Mutex, 3);
    tracker.record_lock_wait(4, LockType::Mutex, 3);
    tracker.record_lock_acquire(4, LockType::Mutex, 4);
    tracker.record_lock_wait(3, LockType::Mutex, 4);
    let mut detector = DeadlockDetector::new();
    let reports = detector.check_deadlock(&tracker);
    assert_eq!(reports.len(), 2);
    let mut locks: Vec<usize> = reports.iter().flat_map(|r| r.lock_chain.iter().map(|e| e.lock_id)).collect();
    locks.sort();
    assert_eq!(locks, vec![1, 2, 3, 4]);
    assert!(detector.check_deadlock(&tracker).is_empty());
}
