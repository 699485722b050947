use vexfs::ai::logger::{AccessEvent, AccessKind, AccessLog};

#[test]
fn test_records_and_retrieves() {
    let mut log = AccessLog::new(1000);
    log.record(AccessEvent::now(2, "main.rs", AccessKind::Open, 1024));
    log.record(AccessEvent::now(3, "lib.rs", AccessKind::Open, 512));
    log.record(AccessEvent::now(2, "main.rs", AccessKind::Write, 1024));

    assert_eq!(log.access_count(2), 2);
    assert_eq!(log.access_count(3), 1);
    assert_eq!(log.len(), 3);
}

#[test]
fn test_bounded_size() {
    let mut log = AccessLog::new(5);
    for i in 0..10 {
        log.record(AccessEvent::now(i, "file", AccessKind::Open, 0));
    }
    assert_eq!(log.len(), 5);
}

#[test]
fn test_today_filter() {
    let mut log = AccessLog::new(100);
    log.record(AccessEvent::now(2, "recent.rs", AccessKind::Open, 0));
    assert_eq!(log.today().len(), 1);
}

#[test]
fn oldest_event_dropped_when_full() {
    let mut log = AccessLog::new(2);
    log.record(AccessEvent::at(1, "a", AccessKind::Open, 0, 10));
    log.record(AccessEvent::at(2, "b", AccessKind::Open, 0, 20));
    log.record(AccessEvent::at(3, "c", AccessKind::Open, 0, 30));
    let inos: Vec<u64> = log.all_events().iter().map(|e| e.ino).collect();
    assert_eq!(inos, vec![2, 3]);
}

#[test]
fn zero_limit_keeps_latest_event() {
    let mut log = AccessLog::new(0);
    log.record(AccessEvent::at(1, "a", AccessKind::Open, 0, 10));
    log.record(AccessEvent::at(2, "b", AccessKind::Open, 0, 20));
    assert_eq!(log.len(), 1);
    assert_eq!(log.all_events()[0].ino, 2);
}

#[test]
fn recent_opens_newest_first() {
    let mut log = AccessLog::new(10);
    log.record(AccessEvent::at(1, "a", AccessKind::Open, 0, 10));
    log.record(AccessEvent::at(1, "a", AccessKind::Write, 0, 11));
    log.record(AccessEvent::at(2, "b", AccessKind::Open, 0, 12));
    log.record(AccessEvent::at(3, "c", AccessKind::Open, 0, 13));
    let inos: Vec<u64> = log.recent_opens(2).iter().map(|e| e.ino).collect();
    assert_eq!(inos, vec![3, 2]);
    assert_eq!(log.recent_opens(10).len(), 3);
}

#[test]
fn last_access_and_events_for() {
    let mut log = AccessLog::new(10);
    log.record(AccessEvent::at(1, "a", AccessKind::Open, 0, 50));
    log.record(AccessEvent::at(1, "a", AccessKind::Read, 0, 40));
    log.record(AccessEvent::at(2, "b", AccessKind::Open, 0, 60));
    assert_eq!(log.last_access(1), Some(50));
    assert_eq!(log.last_access(9), None);
    assert_eq!(log.events_for(1).len(), 2);
}

#[test]
fn day_windows() {
    let e = AccessEvent::at(1, "a", AccessKind::Open, 0, 100_000);
    assert!(e.is_recent_at(100_010, 10));
    assert!(!e.is_recent_at(100_011, 10));
    assert!(e.is_yesterday_at(100_000 + 86_400));
    assert!(!e.is_yesterday_at(100_000 + 172_800));
    assert!(e.is_recent_at(50, 0));
    let mut log = AccessLog::new(10);
    log.record(e);
    assert_eq!(log.yesterday_at(100_000 + 90_000).len(), 1);
    assert_eq!(log.today_at(100_000 + 90_000).len(), 0);
}
