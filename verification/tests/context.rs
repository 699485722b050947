use std::collections::HashMap;
use vexfs::ai::memory::MemoryEngine;

const DAY: u64 = 86_400;

fn two_days_of_work() -> (MemoryEngine, u64) {
    let b = DAY * 100;
    let mut e = MemoryEngine::new_at(b);
    e.record_access_at(2, "main.rs", b + 9 * 3600);
    e.record_access_at(2, "main.rs", b + 9 * 3600 + 5);
    e.record_access_at(2, "main.rs", b + 9 * 3600 + 10);
    e.close_session_at(b + 9 * 3600 + 600);
    e.record_access_at(2, "main.rs", b + DAY + 10 * 3600);
    e.record_access_at(2, "main.rs", b + DAY + 10 * 3600 + 30);
    e.record_write(2);
    (e, b + DAY + 10 * 3600 + 60)
}

#[test]
fn context_summary_of_two_days() {
    let (e, now) = two_days_of_work();
    let text = e.context_summary_at(&HashMap::new(), now);
    let expected = "## Current session (24h 51m)\n\
Files touched: main.rs\n\
Writes: 1  Reads: 0\n\
\n## Memory (2 sessions total)\n\
Trending:\n  ⭐ new main.rs (5 accesses this week)\n\
Streaks:\n  🔥 main.rs — 2 days in a row (best: 2)\n\
\nRecent sessions:\n  1d ago — 9h  focus: main.rs  (1 files)\n\
\nInsight: you usually work on 'main.rs' on Saturdays around 9am\n";
    assert_eq!(text, expected);
}

#[test]
fn context_summary_prefers_callers_names() {
    let (e, now) = two_days_of_work();
    let mut lookup = HashMap::new();
    lookup.insert(2u64, "src/main.rs".to_string());
    let text = e.context_summary_at(&lookup, now);
    assert!(text.contains("⭐ new src/main.rs (5 accesses"));
    assert!(text.contains("🔥 src/main.rs — 2 days"));
    assert!(text.contains("work on 'src/main.rs' on"));
    // the session list shows the stored focus name
    assert!(text.contains("focus: main.rs"));
}

#[test]
fn context_summary_of_a_fresh_memory() {
    let e = MemoryEngine::new_at(1_000);
    let text = e.context_summary_at(&HashMap::new(), 1_045);
    assert_eq!(
        text,
        "## Current session (45s)\nNo files opened yet.\nWrites: 0  Reads: 0\n\n## Memory (1 sessions total)\n"
    );
}
