use thread_sentry::{GlobalTracker, LockType};

#[test]
fn lock_ids_count_up_from_one() {
    let mut tracker = GlobalTracker::new();
    assert_eq!(tracker.allocate_lock_id(), 1);
    assert_eq!(tracker.allocate_lock_id(), 2);
    assert_eq!(tracker.allocate_lock_id(), 3);
    assert_eq!(tracker.next_lock_id, 4);
}

#[test]
fn each_thread_keeps_its_thread_id() {
    let mut tracker = GlobalTracker::new();
    let main = "ThreadId(1)".to_string();
    let worker = "ThreadId(2)".to_string();
    assert_eq!(tracker.get_or_allocate_thread_id(&main), 1);
    assert_eq!(tracker.get_or_allocate_thread_id(&worker), 2);
    assert_eq!(tracker.allocate_lock_id(), 1);
    assert_eq!(tracker.get_or_allocate_thread_id(&main), 1);
    assert_eq!(tracker.get_or_allocate_thread_id(&worker), 2);
    assert_eq!(tracker.get_or_allocate_thread_id(&"ThreadId(7)".to_string()), 3);
    assert_eq!(tracker.thread_ids.next_id(), 4);
}

#[test]
fn acquisition_records_event_and_held_lock() {
    let mut tracker = GlobalTracker::new();
    tracker.record_lock_acquire(4, LockType::Mutex, 9);
    {
        let event = tracker.lock_events.get(&4).expect("event");
        assert_eq!(event.lock_id, 4);
        assert_eq!(event.lock_type, LockType::Mutex);
        assert_eq!(event.thread_id, 9);
        assert!(event.backtrace.len() <= 10);
    }
    {
        let state = tracker.thread_states.get(&9).expect("state");
        assert_eq!(state.held_list(), &[(4, LockType::Mutex)]);
        assert_eq!(state.waiting_for, None);
    }
    tracker.record_lock_acquire(5, LockType::RwLockRead, 9);
    let state = tracker.thread_states.get(&9).expect("state");
    assert_eq!(state.held_list(), &[(4, LockType::Mutex), (5, LockType::RwLockRead)]);
}

#[test]
fn release_undoes_acquisition() {
    let mut tracker = GlobalTracker::new();
    tracker.record_lock_acquire(1, LockType::Mutex, 7);
    tracker.record_lock_acquire(2, LockType::Mutex, 7);
    tracker.record_lock_release(2, 7);
    assert!(tracker.lock_events.get(&2).is_none());
    assert!(tracker.lock_events.get(&1).is_some());
    let state = tracker.thread_states.get(&7).expect("state");
    assert_eq!(state.held_list(), &[(1, LockType::Mutex)]);
}

#[test]
fn release_drops_every_entry_of_the_lock() {
    let mut tracker = GlobalTracker::new();
    tracker.record_lock_acquire(3, LockType::RwLockRead, 1);
    tracker.record_lock_acquire(4, LockType::Mutex, 1);
    tracker.record_lock_acquire(3, LockType::RwLockRead, 1);
    tracker.record_lock_release(3, 1);
    let state = tracker.thread_states.get(&1).expect("state");
    assert_eq!(state.held_list(), &[(4, LockType::Mutex)]);
}

#[test]
fn release_by_unknown_thread_only_drops_event() {
    let mut tracker = GlobalTracker::new();
    tracker.record_lock_acquire(1, LockType::Mutex, 2);
    tracker.record_lock_release(1, 3);
    assert!(tracker.lock_events.get(&1).is_none());
    assert!(tracker.thread_states.get(&3).is_none());
    let state = tracker.thread_states.get(&2).expect("state");
    assert_eq!(state.held_list().len(), 1);
}

#[test]
fn wait_adds_edges_from_held_locks() {
    let mut tracker = GlobalTracker::new();
    tracker.record_lock_acquire(1, LockType::Mutex, 5);
    tracker.record_lock_acquire(2, LockType::Mutex, 5);
    tracker.record_lock_wait(3, LockType::RwLockWrite, 5);
    assert_eq!(*tracker.lock_graph.get(&(1, 3)).expect("edge"), 1);
    assert_eq!(*tracker.lock_graph.get(&(2, 3)).expect("edge"), 1);
    assert_eq!(tracker.lock_graph.len(), 2);
    assert_eq!(tracker.thread_states.get(&5).expect("state").waiting_for, Some((3, LockType::RwLockWrite)));
    tracker.record_lock_wait(3, LockType::RwLockWrite, 5);
    assert_eq!(*tracker.lock_graph.get(&(1, 3)).expect("edge"), 2);
    // Acquiring clears the wait.
    tracker.record_lock_acquire(3, LockType::RwLockWrite, 5);
    assert_eq!(tracker.thread_states.get(&5).expect("state").waiting_for, None);
}

#[test]
fn wait_counts_each_held_entry() {
    let mut tracker = GlobalTracker::new();
    tracker.record_lock_acquire(1, LockType::RwLockRead, 5);
    tracker.record_lock_acquire(1, LockType::RwLockRead, 5);
    tracker.record_lock_wait(2, LockType::Mutex, 5);
    assert_eq!(*tracker.lock_graph.get(&(1, 2)).expect("edge"), 2);
}

#[test]
fn wait_of_a_thread_without_locks_adds_no_edge() {
    let mut tracker = GlobalTracker::new();
    tracker.record_lock_wait(1, LockType::Mutex, 8);
    assert_eq!(tracker.lock_graph.len(), 0);
    let state = tracker.thread_states.get(&8).expect("state");
    assert_eq!(state.held_list().len(), 0);
    assert_eq!(state.waiting_for, Some((1, LockType::Mutex)));
}

#[test]
fn thread_id_checks_answer_without_allocating() {
    let mut tracker = GlobalTracker::new();
    let main = "ThreadId(1)".to_string();
    assert_eq!(tracker.thread_id_of(&main), 1);
    assert!(tracker.thread_id_left(&main));
    assert_eq!(tracker.thread_ids.next_id(), 1);
    assert_eq!(tracker.get_or_allocate_thread_id(&main), 1);
    assert_eq!(tracker.thread_id_of(&main), 1);
    assert_eq!(tracker.thread_id_of(&"ThreadId(2)".to_string()), 2);
    assert!(tracker.thread_id_left(&"ThreadId(2)".to_string()));
}

#[test]
fn wait_would_fit_checks_the_edge_counts() {
    let mut tracker = GlobalTracker::new();
    // A thread without state raises no count.
    assert!(tracker.wait_would_fit(5, 2));
    tracker.record_lock_acquire(1, LockType::Mutex, 5);
    tracker.record_lock_acquire(1, LockType::Mutex, 5);
    assert!(tracker.wait_would_fit(5, 2));
    tracker.lock_graph.insert((1, 2), usize::MAX - 2);
    assert!(tracker.wait_would_fit(5, 2));
    tracker.lock_graph.insert((1, 2), usize::MAX - 1);
    // Lock 1 is held twice, so the count would rise by two.
    assert!(!tracker.wait_would_fit(5, 2));
    assert!(tracker.wait_would_fit(5, 3));
    // The tracker is left as it was.
    assert_eq!(tracker.thread_states.get(&5).expect("state").held_list().len(), 2);
    assert_eq!(*tracker.lock_graph.get(&(1, 2)).expect("edge"), usize::MAX - 1);
}
