use vexfs::ai::markov::MarkovPrefetcher;
use std::collections::HashMap;

#[test]
fn test_memory_cap() {
    let mut m = MarkovPrefetcher::new(5);
    for i in 0..10 {
        m.record_transition(1, i, "file");
    }
    assert!(m.entry_count() <= 5);
}

#[test]
fn repeated_transition_counts_up() {
    let mut m = MarkovPrefetcher::new(10);
    m.record_transition(2, 3, "lib.rs");
    m.record_transition(2, 3, "lib.rs");
    m.record_transition(2, 4, "mod.rs");
    assert_eq!(m.entry_count(), 2);
    let t = &m.transitions[&2];
    assert_eq!(t[0], (3, "lib.rs".to_string(), 2));
    assert_eq!(t[1], (4, "mod.rs".to_string(), 1));
}

#[test]
fn cap_stops_new_and_repeated_transitions() {
    let mut m = MarkovPrefetcher::new(1);
    m.record_transition(1, 2, "a");
    m.record_transition(1, 2, "a");
    m.record_transition(1, 3, "b");
    assert_eq!(m.entry_count(), 1);
    assert_eq!(m.transitions[&1], vec![(2, "a".to_string(), 1)]);
}

#[test]
fn ranked_transitions_most_frequent_first() {
    let mut m = MarkovPrefetcher::new(10000);
    m.record_transition(2, 4, "mod.rs");
    m.record_transition(2, 3, "lib.rs");
    m.record_transition(2, 3, "lib.rs");
    m.record_transition(2, 3, "lib.rs");
    m.record_transition(2, 5, "a.rs");
    let r = m.ranked_transitions(2);
    let order: Vec<(u64, u32)> = r.iter().map(|t| (t.0, t.2)).collect();
    // equal counts keep the order in which they were first seen
    assert_eq!(order, vec![(3, 3), (4, 1), (5, 1)]);
    assert_eq!(r[0].1, "lib.rs");
    assert!(m.ranked_transitions(999).is_empty());
}

#[test]
fn replay_gives_back_a_saved_table() {
    let mut saved: HashMap<u64, Vec<(u64, String, u32)>> = HashMap::new();
    saved.insert(1, vec![(2, "b".to_string(), 3), (3, "c".to_string(), 1)]);
    saved.insert(5, vec![(1, "a".to_string(), 2)]);
    saved.insert(9, vec![]);
    let mut m = MarkovPrefetcher::new(50_000);
    m.replay(&saved);
    assert_eq!(m.transitions.get(&1), saved.get(&1));
    assert_eq!(m.transitions.get(&5), saved.get(&5));
    assert!(m.transitions.get(&9).is_none());
    assert_eq!(m.entry_count(), 3);
}

#[test]
fn replay_at_the_cap_stops_counting() {
    let mut saved: HashMap<u64, Vec<(u64, String, u32)>> = HashMap::new();
    saved.insert(1, vec![(2, "b".to_string(), 3)]);
    let mut m = MarkovPrefetcher::new(1);
    m.replay(&saved);
    assert_eq!(m.transitions.get(&1), Some(&vec![(2, "b".to_string(), 1)]));
}

#[test]
fn entry_count_matches_stored_pairs() {
    let mut m = MarkovPrefetcher::new(100);
    m.record_transition(1, 2, "b");
    m.record_transition(1, 3, "c");
    m.record_transition(1, 2, "b");
    m.record_transition(4, 1, "a");
    let pairs: usize = m.transitions.values().map(|v| v.len()).sum();
    assert_eq!(m.entry_count(), pairs);
    assert_eq!(pairs, 3);
}
