use vexfs::ai::memory::{pair_key_of, CoAccessMap, MemoryEngine, Session, Streak, TemporalPattern, Trend, TrendTracker};

#[test]
fn test_session_tracks_files() {
    let mut mem = MemoryEngine::new();
    mem.record_access(2, "main.rs");
    mem.record_access(3, "lib.rs");
    mem.record_access(2, "main.rs");
    assert_eq!(mem.current_session.files_touched.len(), 2);
}

#[test]
fn session_clock_fields() {
    // 2024-01-01 00:00:00 UTC was a Monday; 13:30 that day
    let s = Session::new_at(1, 1_704_067_200 + 13 * 3600 + 1800);
    assert_eq!(s.start_hour(), 13);
    assert_eq!(s.day_of_week(), 0);
    assert!(s.is_active());
    assert_eq!(s.duration_secs_at(1_704_067_200 + 14 * 3600), 1800);
}

#[test]
fn temporal_peaks_and_labels() {
    let mut p = TemporalPattern::default();
    p.record(3600 * 5);
    p.record(3600 * 5 + 10);
    p.record(3600 * 9);
    assert_eq!(p.peak_hour(), 5);
    assert_eq!(p.total, 3);
    // 1970-01-01 was a Thursday
    assert_eq!(p.peak_day(), 3);
    assert_eq!(TemporalPattern::day_name(3), "Thursday");
    assert_eq!(TemporalPattern::day_name(9), "Unknown");
    assert_eq!(TemporalPattern::hour_label(0), "midnight");
    assert_eq!(TemporalPattern::hour_label(9), "9am");
    assert_eq!(TemporalPattern::hour_label(12), "noon");
    assert_eq!(TemporalPattern::hour_label(15), "3pm");
    let q = TemporalPattern::default();
    assert_eq!(q.peak_hour(), 23);
}

#[test]
fn streak_runs() {
    let mut s = Streak::new();
    s.touch(86400 * 1);
    assert_eq!((s.current_days, s.longest_days), (1, 1));
    s.touch(86400 * 2 + 5);
    s.touch(86400 * 2 + 99);
    assert_eq!((s.current_days, s.longest_days), (2, 2));
    s.touch(86400 * 10);
    assert_eq!((s.current_days, s.longest_days), (1, 2));
    let mut fresh = Streak::new();
    fresh.touch(86400 * 5);
    assert_eq!((fresh.current_days, fresh.longest_days), (1, 0));
}

#[test]
fn co_access_counts_pairs_once_per_session() {
    let mut m = CoAccessMap::new();
    let files = vec![(5u64, "e".to_string()), (2, "b".to_string()), (5, "e".to_string()), (9, "i".to_string())];
    m.record_session(&files);
    m.record_session(&files[..2]);
    assert_eq!(m.pairs[&pair_key_of(2, 5)], 2);
    assert_eq!(m.pairs[&pair_key_of(5, 9)], 1);
    assert_eq!(m.pairs[&pair_key_of(2, 9)], 1);
    assert_eq!(m.pairs.len(), 3);
    m.record_session(&files[..1]);
    assert_eq!(m.pairs.len(), 3);
    assert_eq!(m.top_partners(5, 10), vec![(2, 2), (9, 1)]);
    assert_eq!(m.top_partners(5, 1), vec![(2, 2)]);
    assert!(m.top_partners(77, 5).is_empty());
}

#[test]
fn co_access_takes_first_twenty_distinct() {
    let mut m = CoAccessMap::new();
    let files: Vec<(u64, String)> = (0..25u64).map(|i| (i, format!("f{i}"))).collect();
    m.record_session(&files);
    assert_eq!(m.pairs.len(), 20 * 19 / 2);
    assert!(!m.pairs.contains_key(&pair_key_of(0, 20)));
}

#[test]
fn trend_windows() {
    let mut t = TrendTracker::new_at(100 * 86400);
    for _ in 0..3 {
        t.record_at(1, 100 * 86400 + 5);
    }
    assert_eq!(t.trend(1), Trend::New);
    assert_eq!(t.trend(2), Trend::Stable);
    t.record_at(2, 100 * 86400);
    // a week later: the counts above are now the prior week
    t.record_at(2, 107 * 86400);
    t.record_at(2, 107 * 86400);
    assert_eq!(t.trend(2), Trend::Rising);
    assert_eq!(t.trend(1), Trend::Falling);
    assert_eq!(t.daily[&1][6], 3);
    assert_eq!(t.daily[&1][13], 0);
    let trending = t.trending_files();
    assert_eq!(trending, vec![(2, Trend::Rising, 2)]);
    assert_eq!(Trend::Rising.label(), "📈 rising");
}

#[test]
fn close_session_archives_and_counts() {
    let mut mem = MemoryEngine::new_at(1000);
    mem.record_access_at(2, "main.rs", 1000);
    mem.record_access_at(3, "lib.rs", 1001);
    mem.record_write(2);
    mem.close_session_at(2000);
    assert_eq!(mem.total_sessions, 1);
    assert_eq!(mem.sessions.len(), 1);
    let s = &mem.sessions[0];
    assert_eq!(s.end_ts, 2000);
    assert_eq!(s.total_writes, 1);
    assert!(s.focus_file.is_some());
    assert_eq!(mem.current_session.id, 2001);
    assert!(mem.current_session.files_touched.is_empty());
    assert_eq!(mem.top_cofiles(2, 5), vec!["lib.rs".to_string()]);
    // day 0 is the day a fresh streak already counts as last touched
    assert_eq!(mem.streak(2), 0);
    assert_eq!(mem.streak(42), 0);
    let st = mem.stats();
    assert_eq!(st.total_sessions, 2);
    assert_eq!(st.tracked_files, 2);
    assert_eq!(st.co_access_pairs, 1);
    assert_eq!(st.active_streaks, 0);
}

#[test]
fn focus_is_the_most_opened_file() {
    let mut mem = MemoryEngine::new_at(1000);
    mem.record_access_at(2, "main.rs", 1000);
    mem.record_access_at(3, "lib.rs", 1001);
    mem.record_access_at(3, "lib.rs", 1002);
    mem.record_access_at(2, "main.rs", 1003);
    mem.record_access_at(3, "lib.rs", 1004);
    assert_eq!(mem.current_session.files_touched, vec![(2, "main.rs".to_string()), (3, "lib.rs".to_string())]);
    mem.close_session_at(2000);
    assert_eq!(mem.sessions[0].focus_file, Some("lib.rs".to_string()));
    assert!(mem.session_hits.is_empty());

    // equally often: the first listed
    mem.record_access_at(5, "a.rs", 2001);
    mem.record_access_at(6, "b.rs", 2002);
    mem.close_session_at(3000);
    assert_eq!(mem.sessions[1].focus_file, Some("a.rs".to_string()));
}
