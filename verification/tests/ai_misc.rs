use vexfs::ai::entropy::{byte_histogram, is_suspicious_extension, record_in_window, ThreatLevel};
use vexfs::ai::importance::{ImportanceEngine, StorageTier};
use vexfs::ai::jarvis::{SuggestionKind, SuggestionPriority};
use vexfs::ai::workspace::SessionKind;

#[test]
fn test_suspicious_extension() {
    assert!(is_suspicious_extension("document.locked"));
    assert!(is_suspicious_extension("photo.enc"));
    assert!(is_suspicious_extension("BACKUP.WNCRY"));
    assert!(!is_suspicious_extension("main.rs"));
    assert!(!is_suspicious_extension("readme.txt"));
}

#[test]
fn suspicious_extension_edge_cases() {
    assert!(is_suspicious_extension(".petya"));
    assert!(!is_suspicious_extension("enc"));
    assert!(!is_suspicious_extension("file.encx"));
    assert!(is_suspicious_extension("a.b.CrYpTeD"));
    assert!(!is_suspicious_extension(""));
}

#[test]
fn labels() {
    assert_eq!(ThreatLevel::Critical.label(), "🚨 CRITICAL");
    assert_eq!(ThreatLevel::Extension.label(), "🔍 SUSPICIOUS");
    assert_eq!(StorageTier::Hot.label(), "🔥 HOT");
    assert_eq!(StorageTier::Cold.label(), "🧊 COLD");
    assert_eq!(SuggestionPriority::High.label(), "⚠ HIGH");
    assert_eq!(SuggestionKind::PreWarm.label(), "PreWarm");
    assert_eq!(SessionKind::Debugging.label(), "Debugging");
    assert!(SuggestionPriority::High < SuggestionPriority::Low);
}

#[test]
fn importance_counts_accesses() {
    let mut e = ImportanceEngine::new();
    e.record_access_at(2, "main.rs", 10, 1000);
    e.record_access_at(2, "other-name.rs", 5, 2000);
    assert_eq!(e.stats[&2], ("main.rs".to_string(), 2, 2000, 15));
    e.record_access(3, "lib.rs", 0);
    assert_eq!(e.stats[&3].1, 1);
}

#[test]
fn byte_histogram_counts_each_value() {
    let h = byte_histogram(b"abracadabra");
    assert_eq!(h.len(), 256);
    assert_eq!(h[b'a' as usize], 5);
    assert_eq!(h[b'b' as usize], 2);
    assert_eq!(h[b'r' as usize], 2);
    assert_eq!(h[b'c' as usize], 1);
    assert_eq!(h[b'z' as usize], 0);
    assert_eq!(h.iter().sum::<u64>(), 11);
}

#[test]
fn write_window_drops_old_writes() {
    let mut stamps = vec![100, 150, 170];
    assert_eq!(record_in_window(&mut stamps, 200, 60), 3);
    assert_eq!(stamps, vec![150, 170, 200]);
    assert_eq!(record_in_window(&mut stamps, 1000, 60), 1);
    assert_eq!(stamps, vec![1000]);
}

#[test]
fn open_records_transition_only_on_change_of_file() {
    assert_eq!(vexfs::ai::engine::open_transition(None, 5), None);
    assert_eq!(vexfs::ai::engine::open_transition(Some(5), 5), None);
    assert_eq!(vexfs::ai::engine::open_transition(Some(4), 5), Some((4, 5)));
    let mut acc = vec![1u8, 2];
    vexfs::ai::engine::accumulate_write(&mut acc, &[3, 4]);
    assert_eq!(acc, vec![1, 2, 3, 4]);
}
