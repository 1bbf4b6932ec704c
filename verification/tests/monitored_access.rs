use thread_sentry::runtime::select_frames;
use thread_sentry::sentinel_mutex::{lock_acquired, lock_released, lock_requested};
use thread_sentry::{DeadlockDetector, GlobalTracker, LockType, RaceDetector, SentryField, ThreadContext};

#[test]
fn field_access_is_attributed_to_the_slots() {
    let mut tracker = GlobalTracker::new();
    let mut detector = RaceDetector::new();
    let mut context = ThreadContext::new("ThreadId(1)".to_string());
    context.current_lock = Some(3);
    context.current_thread_id = Some(11);
    let field = SentryField::new(5u64);
    let (guard, report) = field.get(0x100, &context, &mut tracker, &mut detector);
    assert!(report.is_none());
    assert_eq!(*guard.value(), 5);
    // The tracker was not asked for a thread id.
    assert_eq!(tracker.thread_ids.next_id(), 1);
    assert_eq!(tracker.thread_ids.get(&"ThreadId(1)".to_string()), None);
}

#[test]
fn field_access_without_a_slot_asks_the_tracker() {
    let mut tracker = GlobalTracker::new();
    let mut detector = RaceDetector::new();
    let main = ThreadContext::new("ThreadId(1)".to_string());
    let mut field = SentryField::new(0u32);
    assert!(field.set(7, 0x200, &main, &mut tracker, &mut detector).is_none());
    assert_eq!(tracker.thread_ids.next_id(), 2);
    // The same thread again: same id, no race with itself.
    let (guard, report) = field.get(0x200, &main, &mut tracker, &mut detector);
    assert_eq!(*guard.value(), 7);
    assert!(report.is_none());
    assert_eq!(tracker.thread_ids.next_id(), 2);
    // Another thread, holding no lock, races with the write.
    let worker = ThreadContext::new("ThreadId(2)".to_string());
    let (guard, report) = field.get(0x200, &worker, &mut tracker, &mut detector);
    assert_eq!(*guard.value(), 7);
    let report = report.expect("race");
    assert_eq!(report.access1.thread_id, 1);
    assert_eq!(report.access2.thread_id, 2);
    assert_eq!(report.access1.data_size, 4);
    assert_eq!(report.access1.lock_held, None);
}

#[test]
fn fields_under_one_mutex_do_not_race() {
    let mut tracker = GlobalTracker::new();
    let mut detector = RaceDetector::new();
    let mut deadlocks = DeadlockDetector::new();
    let lock_id = tracker.allocate_lock_id();
    let mut field = SentryField::new(0u64);

    let mut first = ThreadContext::new("ThreadId(1)".to_string());
    let (t1, reports) = lock_requested(lock_id, &first, &mut tracker, &mut deadlocks);
    assert!(reports.is_empty());
    lock_acquired(lock_id, t1, &mut tracker, &mut first);
    assert!(field.set(100, 0x300, &first, &mut tracker, &mut detector).is_none());
    lock_released(lock_id, t1, &mut tracker, &mut first);
    assert_eq!(first.current_lock, None);

    let mut second = ThreadContext::new("ThreadId(2)".to_string());
    let (t2, _) = lock_requested(lock_id, &second, &mut tracker, &mut deadlocks);
    assert_ne!(t1, t2);
    lock_acquired(lock_id, t2, &mut tracker, &mut second);
    let (guard, report) = field.get(0x300, &second, &mut tracker, &mut detector);
    assert!(report.is_none());
    assert_eq!(*guard.value(), 100);
}

#[test]
fn fields_under_different_mutexes_race() {
    let mut tracker = GlobalTracker::new();
    let mut detector = RaceDetector::new();
    let mut deadlocks = DeadlockDetector::new();
    let lock1 = tracker.allocate_lock_id();
    let lock2 = tracker.allocate_lock_id();
    let mut field = SentryField::new(0u64);

    let mut first = ThreadContext::new("ThreadId(1)".to_string());
    let (t1, _) = lock_requested(lock1, &first, &mut tracker, &mut deadlocks);
    lock_acquired(lock1, t1, &mut tracker, &mut first);
    {
        let (mut guard, report) = field.get_mut(0x400, &first, &mut tracker, &mut detector);
        assert!(report.is_none());
        *guard.inner = 9;
    }
    let mut second = ThreadContext::new("ThreadId(2)".to_string());
    let (t2, _) = lock_requested(lock2, &second, &mut tracker, &mut deadlocks);
    lock_acquired(lock2, t2, &mut tracker, &mut second);
    let (guard, report) = field.get(0x400, &second, &mut tracker, &mut detector);
    assert_eq!(*guard.value(), 9);
    let report = report.expect("race");
    assert_eq!(report.access1.lock_held, Some(lock1));
    assert_eq!(report.access2.lock_held, Some(lock2));
}

#[test]
fn mutex_steps_update_the_tracker() {
    let mut tracker = GlobalTracker::new();
    let mut deadlocks = DeadlockDetector::new();
    let mut context = ThreadContext::new("ThreadId(1)".to_string());
    let lock_id = tracker.allocate_lock_id();
    let (thread_id, reports) = lock_requested(lock_id, &context, &mut tracker, &mut deadlocks);
    assert!(reports.is_empty());
    assert_eq!(
        tracker.thread_states.get(&thread_id).expect("state").waiting_for,
        Some((lock_id, LockType::Mutex))
    );
    lock_acquired(lock_id, thread_id, &mut tracker, &mut context);
    assert_eq!(context.current_lock, Some(lock_id));
    assert_eq!(context.current_thread_id, Some(thread_id));
    assert!(tracker.lock_events.get(&lock_id).is_some());
    lock_released(lock_id, thread_id, &mut tracker, &mut context);
    assert!(tracker.lock_events.get(&lock_id).is_none());
    assert_eq!(context.current_thread_id, None);
    let state = tracker.thread_states.get(&thread_id).expect("state");
    assert!(state.held_list().is_empty());
}

#[test]
fn frame_window_keeps_the_frames_asked_for() {
    let frames: Vec<String> = (0..6).map(|i| format!("f{}", i)).collect();
    assert_eq!(select_frames(frames.clone(), 3, 2), vec!["f3".to_string(), "f4".to_string()]);
    assert_eq!(select_frames(frames.clone(), 4, 10), vec!["f4".to_string(), "f5".to_string()]);
    assert!(select_frames(frames.clone(), 9, 3).is_empty());
    assert_eq!(select_frames(frames, 0, 1), vec!["f0".to_string()]);
}

#[test]
fn lock_order_inversion_between_threads_is_reported() {
    let mut tracker = GlobalTracker::new();
    let mut deadlocks = DeadlockDetector::new();
    let lock1 = tracker.allocate_lock_id();
    let lock2 = tracker.allocate_lock_id();

    // The main thread takes lock1, then lock2.
    let mut main = ThreadContext::new("ThreadId(1)".to_string());
    let (t1, reports) = lock_requested(lock1, &main, &mut tracker, &mut deadlocks);
    assert!(reports.is_empty());
    lock_acquired(lock1, t1, &mut tracker, &mut main);
    let (again, reports) = lock_requested(lock2, &main, &mut tracker, &mut deadlocks);
    assert_eq!(again, t1);
    assert!(reports.is_empty());
    lock_acquired(lock2, t1, &mut tracker, &mut main);
    lock_released(lock2, t1, &mut tracker, &mut main);
    lock_released(lock1, t1, &mut tracker, &mut main);

    // A worker takes them the other way round.
    let mut worker = ThreadContext::new("ThreadId(2)".to_string());
    let (t2, reports) = lock_requested(lock2, &worker, &mut tracker, &mut deadlocks);
    assert_ne!(t2, t1);
    assert!(reports.is_empty());
    lock_acquired(lock2, t2, &mut tracker, &mut worker);
    let (_, reports) = lock_requested(lock1, &worker, &mut tracker, &mut deadlocks);
    assert_eq!(reports.len(), 1);
    assert_eq!(reports[0].cycle_length, 2);
    // Only lock2 is held now, so only it has an entry in the chain.
    assert_eq!(reports[0].lock_chain.len(), 1);
    assert_eq!(reports[0].lock_chain[0].lock_id, lock2);
    assert_eq!(reports[0].lock_chain[0].thread_id, t2);
}
