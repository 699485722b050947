use std::collections::HashMap;
use vexfs::ai::workspace::{detect_stalls, profile_session, unfinished_files, SessionKind};

fn counts(pairs: &[(u64, u32)]) -> HashMap<u64, u32> {
    pairs.iter().copied().collect()
}

fn names() -> HashMap<u64, String> {
    let mut n = HashMap::new();
    n.insert(1, "main.rs".to_string());
    n.insert(2, "lib.rs".to_string());
    n.insert(3, "snapshot.rs".to_string());
    n
}

#[test]
fn debugging_session_lists_reopened_files() {
    let writes = counts(&[(1, 2)]);
    let opens = counts(&[(1, 1), (3, 4)]);
    let projects = vec![("storage".to_string(), vec![3, 9]), ("ai".to_string(), vec![1])];
    let p = profile_session(&[1, 3], &writes, &opens, &names(), &projects);
    assert_eq!(p.kind, SessionKind::Debugging);
    assert_eq!(p.reopen_without_write, vec!["snapshot.rs".to_string()]);
    assert_eq!(p.files_touched, 2);
    assert_eq!(p.writes_made, 2);
    // both projects have one file in the session: the later one wins
    assert_eq!(p.primary_project, "ai");
}

#[test]
fn focus_exploration_and_mixed_sessions() {
    let none: HashMap<u64, u32> = HashMap::new();
    let p = profile_session(&[1, 2], &counts(&[(1, 3), (2, 2)]), &none, &names(), &[]);
    assert_eq!(p.kind, SessionKind::Focus);
    assert_eq!(p.primary_project, "unknown");
    let p = profile_session(&[1, 2, 3, 4, 5, 6], &counts(&[(1, 6)]), &none, &names(), &[]);
    assert_eq!(p.kind, SessionKind::Exploration);
    let p = profile_session(&[1, 2, 3, 4], &counts(&[(1, 1)]), &none, &names(), &[]);
    assert_eq!(p.kind, SessionKind::Mixed);
}

#[test]
fn stalls_need_many_opens_and_few_writes() {
    let mut stats = HashMap::new();
    stats.insert(3u64, ("snapshot.rs".to_string(), 6u32, 0u64, 0u64));
    stats.insert(1u64, ("main.rs".to_string(), 10u32, 0u64, 0u64));
    stats.insert(7u64, ("gone.rs".to_string(), 5u32, 0u64, 0u64));
    let writes = counts(&[(1, 4), (3, 1)]);
    let opens = counts(&[(1, 3), (3, 5), (7, 2)]);
    let mut stalls = detect_stalls(&stats, &writes, &opens, &names());
    stalls.sort_by_key(|s| s.ino);
    assert_eq!(stalls.len(), 2);
    assert_eq!(stalls[0].ino, 3);
    assert_eq!(stalls[0].name, "snapshot.rs");
    assert_eq!(stalls[0].stall_session_count, 2);
    assert_eq!(stalls[0].open_without_write, 5);
    assert_eq!(stalls[1].name, "ino_7");
}

#[test]
fn unfinished_files_were_written_and_reopened() {
    let writes = counts(&[(1, 1), (2, 1)]);
    let opens = counts(&[(1, 2), (2, 1), (3, 5)]);
    assert_eq!(unfinished_files(&[1, 2, 3], &writes, &opens, &names()), vec!["main.rs".to_string()]);
}
