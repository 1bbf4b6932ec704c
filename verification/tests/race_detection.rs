use thread_sentry::race::RaceDetector;
use thread_sentry::AccessType;

#[test]
fn unlocked_write_then_read_by_another_thread_races() {
    let mut detector = RaceDetector::new();
    assert!(detector.record_access(0x1000, 1, AccessType::Write, None, 8).is_none());
    let report = detector.record_access(0x1000, 2, AccessType::Read, None, 8).expect("race");
    assert_eq!(report.address, 0x1000);
    assert_eq!(report.access1.thread_id, 1);
    assert_eq!(report.access1.access_type, AccessType::Write);
    assert_eq!(report.access1.lock_held, None);
    assert_eq!(report.access1.data_size, 8);
    assert_eq!(report.access2.thread_id, 2);
    assert_eq!(report.access2.access_type, AccessType::Read);
    assert_eq!(report.access2.lock_held, None);
    assert!(report.access1.backtrace.len() <= 8);
    assert!(report.access2.backtrace.len() <= 8);
}

#[test]
fn accesses_of_one_thread_never_race() {
    let mut detector = RaceDetector::new();
    assert!(detector.record_access(0x2000, 7, AccessType::Write, None, 4).is_none());
    assert!(detector.record_access(0x2000, 7, AccessType::Write, None, 4).is_none());
    assert!(detector.record_access(0x2000, 7, AccessType::Read, Some(3), 4).is_none());
}

#[test]
fn concurrent_reads_never_race() {
    let mut detector = RaceDetector::new();
    assert!(detector.record_access(0x3000, 1, AccessType::Read, None, 8).is_none());
    assert!(detector.record_access(0x3000, 2, AccessType::Read, None, 8).is_none());
    assert!(detector.record_access(0x3000, 3, AccessType::Read, Some(9), 8).is_none());
}

#[test]
fn same_lock_protects_accesses() {
    let mut detector = RaceDetector::new();
    assert!(detector.record_access(0x4000, 1, AccessType::Write, Some(5), 8).is_none());
    assert!(detector.record_access(0x4000, 2, AccessType::Read, Some(5), 8).is_none());
    assert!(detector.record_access(0x4000, 3, AccessType::Write, Some(5), 8).is_none());
}

#[test]
fn different_locks_do_not_protect() {
    let mut detector = RaceDetector::new();
    assert!(detector.record_access(0x5000, 1, AccessType::Write, Some(2), 8).is_none());
    let report = detector.record_access(0x5000, 2, AccessType::Read, Some(3), 8).expect("race");
    assert_eq!(report.access1.lock_held, Some(2));
    assert_eq!(report.access2.lock_held, Some(3));
}

#[test]
fn one_locked_one_unlocked_access_race() {
    let mut detector = RaceDetector::new();
    assert!(detector.record_access(0x5100, 1, AccessType::Read, Some(2), 8).is_none());
    assert!(detector.record_access(0x5100, 2, AccessType::Write, None, 8).is_some());
}

#[test]
fn a_race_is_reported_once() {
    let mut detector = RaceDetector::new();
    assert!(detector.record_access(0x6000, 1, AccessType::Write, None, 8).is_none());
    assert!(detector.record_access(0x6000, 2, AccessType::Write, None, 8).is_some());
    // The pair of threads 1 and 2 was reported at this address already.
    assert!(detector.record_access(0x6000, 2, AccessType::Read, None, 8).is_none());
    // Thread 1 against the accesses of thread 2 is another pair.
    let report = detector.record_access(0x6000, 1, AccessType::Write, None, 8).expect("race");
    assert_eq!(report.access1.thread_id, 2);
    assert_eq!(report.access2.thread_id, 1);
}

#[test]
fn the_last_fresh_race_is_the_one_reported() {
    let mut detector = RaceDetector::new();
    assert!(detector.record_access(0x7000, 1, AccessType::Write, None, 8).is_none());
    assert!(detector.record_access(0x7000, 3, AccessType::Read, None, 8).is_some());
    let report = detector.record_access(0x7000, 2, AccessType::Write, None, 8).expect("race");
    assert_eq!(report.access1.thread_id, 3);
    assert_eq!(report.access1.access_type, AccessType::Read);
}

#[test]
fn races_are_keyed_by_the_pair_of_threads() {
    // Threads 1 then 2002 and threads 3 then 2 are different pairs; the race
    // of the second pair is reported although the first was.
    let mut detector = RaceDetector::new();
    let a = 0x10;
    assert!(detector.record_access(a, 1, AccessType::Write, Some(9), 8).is_none());
    let first = detector.record_access(a, 2002, AccessType::Read, Some(8), 8).expect("race");
    assert_eq!(first.access1.thread_id, 1);
    let second = detector.record_access(a, 3, AccessType::Write, Some(7), 8).expect("race");
    assert_eq!(second.access1.thread_id, 2002);
    let third = detector.record_access(a, 2, AccessType::Read, Some(9), 8).expect("race");
    assert_eq!(third.access1.thread_id, 3);
    assert_eq!(third.access2.thread_id, 2);
}

#[test]
fn an_address_keeps_its_latest_accesses() {
    let mut detector = RaceDetector::new();
    let a = 0x20;
    // Thread 2 writes without a lock; thread 1 then reads under lock 5 eight
    // times, which pushes the write out of the address's history.
    assert!(detector.record_access(a, 2, AccessType::Write, None, 8).is_none());
    assert!(detector.record_access(a, 1, AccessType::Read, Some(5), 8).is_some());
    for _ in 1..8 {
        assert!(detector.record_access(a, 1, AccessType::Read, Some(5), 8).is_none());
    }
    // A write of thread 3 under lock 5 meets only the reads under lock 5.
    assert!(detector.record_access(a, 3, AccessType::Write, Some(5), 8).is_none());
}

#[test]
fn an_address_below_the_limit_keeps_every_access() {
    let mut detector = RaceDetector::new();
    let a = 0x30;
    assert!(detector.record_access(a, 2, AccessType::Write, None, 8).is_none());
    assert!(detector.record_access(a, 1, AccessType::Read, Some(5), 8).is_some());
    for _ in 1..7 {
        assert!(detector.record_access(a, 1, AccessType::Read, Some(5), 8).is_none());
    }
    // Seven reads follow the write: it is still kept, and races with thread 3.
    let report = detector.record_access(a, 3, AccessType::Write, Some(5), 8).expect("race");
    assert_eq!(report.access1.thread_id, 2);
}

#[test]
fn addresses_are_checked_apart() {
    let mut detector = RaceDetector::new();
    assert!(detector.record_access(0x9000, 1, AccessType::Write, None, 8).is_none());
    assert!(detector.record_access(0x9008, 2, AccessType::Write, None, 8).is_none());
}

#[test]
fn races_do_not_depend_on_order() {
    let mut first = RaceDetector::new();
    assert!(first.record_access(0xc000, 1, AccessType::Read, Some(1), 8).is_none());
    assert!(first.record_access(0xc000, 2, AccessType::Write, None, 8).is_some());
    let mut second = RaceDetector::new();
    assert!(second.record_access(0xc000, 2, AccessType::Write, None, 8).is_none());
    assert!(second.record_access(0xc000, 1, AccessType::Read, Some(1), 8).is_some());
}
