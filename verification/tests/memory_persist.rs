use vexfs::ai::memory::{pair_key_of, MemoryEngine};
use vexfs::ai::memory_persist::{decode_memory_file, decode_memory_file_at, encode_memory_file, MemoryPersistence};

#[test]
fn memory_persist_test_save_and_load_roundtrip() {
    let mut engine = MemoryEngine::new();
    engine.record_access(2, "main.rs");
    engine.record_access(3, "auth.rs");
    engine.record_write(2);
    engine.close_session();
    engine.record_access(2, "main.rs");

    let file = encode_memory_file(&engine);
    let restored = decode_memory_file(&file).expect("should restore");

    assert_eq!(restored.total_sessions, engine.total_sessions);
    assert!(restored.names.contains_key(&2));
}

#[test]
fn test_corrupt_file_returns_none() {
    assert!(decode_memory_file(b"this is not valid memory data at all!!!").is_none());
}

#[test]
fn memory_file_sits_beside_the_image() {
    let p = MemoryPersistence::new("/data/vexfs.img");
    assert_eq!(p.path(), "/data/vexfs.img.mem");
}

#[test]
fn image_of_a_fresh_memory() {
    let engine = MemoryEngine::new_at(86_400 * 10);
    let image = engine.to_bytes();
    let mut expected = b"VEXMEM01".to_vec();
    expected.extend_from_slice(&0u64.to_le_bytes()); // sessions ever archived
    expected.extend_from_slice(&0u32.to_le_bytes()); // sessions
    expected.extend_from_slice(&0u32.to_le_bytes()); // patterns
    expected.extend_from_slice(&0u32.to_le_bytes()); // streaks
    expected.extend_from_slice(&0u32.to_le_bytes()); // pairs
    expected.extend_from_slice(&10u64.to_le_bytes()); // trend window's last day
    expected.extend_from_slice(&0u32.to_le_bytes()); // windows
    expected.extend_from_slice(&0u32.to_le_bytes()); // names
    assert_eq!(image, expected);
}

#[test]
fn image_roundtrip_keeps_what_was_learned() {
    let day = 86_400u64;
    let mut engine = MemoryEngine::new_at(day * 100);
    engine.record_access_at(2, "main.rs", day * 100 + 3600 * 9);
    engine.record_access_at(3, "lib.rs", day * 100 + 3600 * 9 + 5);
    engine.record_read(2);
    engine.close_session_at(day * 100 + 3600 * 10);
    engine.record_access_at(2, "main.rs", day * 101 + 3600 * 11);

    let image = engine.to_bytes();
    let back = MemoryEngine::from_bytes_at(&image, 42).unwrap();

    assert_eq!(back.total_sessions, 1);
    assert_eq!(back.sessions.len(), 1);
    let s = &back.sessions[0];
    assert_eq!(s.start_ts, engine.sessions[0].start_ts);
    assert_eq!(s.end_ts, day * 100 + 3600 * 10);
    assert_eq!(s.total_reads, 1);
    assert_eq!(s.files_touched.len(), 2);
    assert_eq!(s.files_touched[1], (3, "lib.rs".to_string()));
    assert_eq!(s.peak_files, 0);
    assert_eq!(s.focus_file, engine.sessions[0].focus_file);

    assert_eq!(back.temporal[&2].by_hour[9], 1);
    assert_eq!(back.temporal[&2].by_hour[11], 1);
    assert_eq!(back.temporal[&2].total, 2);
    assert_eq!(back.streaks[&2].current_days, 2);
    assert_eq!(back.streaks[&2].last_touched_day, 101);
    assert_eq!(back.co_access.pairs.get(&pair_key_of(2, 3)), Some(&1));
    assert_eq!(back.trends.daily[&2], engine.trends.daily[&2]);
    assert_eq!(back.trends.last_day(), 101);
    assert_eq!(back.names[&3], "lib.rs");

    // the current session is not part of the image
    assert_eq!(back.current_session.id, 42);
    assert_eq!(back.current_session.start_ts, 42);
    assert!(back.current_session.files_touched.is_empty());
}

#[test]
fn image_reading_fails_on_short_or_foreign_data() {
    let engine = MemoryEngine::new_at(0);
    let image = engine.to_bytes();
    assert!(MemoryEngine::from_bytes_at(&image[..image.len() - 1], 0).is_none());
    assert!(MemoryEngine::from_bytes_at(&image[..19], 0).is_none());
    let mut foreign = image.clone();
    foreign[7] = b'2';
    assert!(MemoryEngine::from_bytes_at(&foreign, 0).is_none());
    assert!(MemoryEngine::from_bytes_at(&image, 0).is_some());
}

#[test]
fn damaged_memory_file_is_ignored() {
    let engine = MemoryEngine::new_at(1000);
    let mut file = encode_memory_file(&engine);
    assert!(decode_memory_file_at(&file, 5).is_some());
    file[3] ^= 0x20;
    assert!(decode_memory_file_at(&file, 5).is_none());
    assert!(decode_memory_file_at(&file[..39], 5).is_none());
}
