use vexfs::fs::snapshot::{Snapshot, SnapshotManager};
use vexfs::fs::disk::SnapshotRaw;
use vexfs::fs::snapshot_disk::SNAPSHOT_MAGIC;

#[test]
fn test_snapshot_and_restore() {
    let mut mgr = SnapshotManager::new(10);
    mgr.snapshot(2, "file.txt", b"version 1 content", 1000);
    let id1 = mgr.list(2)[0].id;
    mgr.snapshot(2, "file.txt", b"version 2 content", 2000);
    let id2 = mgr.list(2)[1].id;
    assert_eq!(mgr.restore(2, id1).unwrap(), b"version 1 content");
    assert_eq!(mgr.restore(2, id2).unwrap(), b"version 2 content");
}

#[test]
fn test_max_snapshots_enforced() {
    let mut mgr = SnapshotManager::new(3);
    for i in 0..10 {
        mgr.snapshot(2, "file.txt", format!("version {}", i).as_bytes(), i as u64 * 100);
    }
    assert!(mgr.list(2).len() <= 3);
}

#[test]
fn test_list_by_name() {
    let mut mgr = SnapshotManager::new(10);
    mgr.snapshot(2, "auth.rs", b"original auth code", 1000);
    mgr.snapshot(3, "main.rs", b"main content", 2000);
    let snaps = mgr.list_by_name("auth.rs");
    assert_eq!(snaps.len(), 1);
    assert_eq!(snaps[0].name, "auth.rs");
}

#[test]
fn test_remove_file_cleans_snapshots() {
    let mut mgr = SnapshotManager::new(10);
    mgr.snapshot(2, "file.txt", b"some data", 1000);
    assert_eq!(mgr.total_snapshots(), 1);
    mgr.remove_file(2);
    assert_eq!(mgr.total_snapshots(), 0);
}

#[test]
fn test_all_recent_sorted() {
    let mut mgr = SnapshotManager::new(10);
    mgr.snapshot(2, "old.txt", b"old", 1000);
    mgr.snapshot(3, "new.txt", b"new", 2000);
    mgr.snapshots.get_mut(&2).unwrap()[0].timestamp = 100;
    mgr.snapshots.get_mut(&3).unwrap()[0].timestamp = 999;
    let recent = mgr.all_recent(10);
    assert_eq!(recent[0].name, "new.txt");
}

#[test]
fn oldest_snapshot_leaves_first() {
    let mut mgr = SnapshotManager::new(2);
    mgr.snapshot(5, "f", b"a", 0);
    mgr.snapshot(5, "f", b"b", 0);
    mgr.snapshot(5, "f", b"c", 0);
    let ids: Vec<u32> = mgr.list(5).iter().map(|s| s.id).collect();
    assert_eq!(ids, vec![2, 3]);
    assert!(mgr.restore(5, 1).is_none());
    assert_eq!(mgr.restore(5, 3).unwrap(), b"c");
    assert_eq!(mgr.next_id, 4);
}

#[test]
fn empty_data_is_not_kept() {
    let mut mgr = SnapshotManager::new(2);
    mgr.snapshot(5, "f", b"", 0);
    assert_eq!(mgr.files_with_snapshots(), 0);
    assert_eq!(mgr.next_id, 1);
    assert!(mgr.list(5).is_empty());
    assert!(mgr.get(5, 1).is_none());
}

#[test]
fn all_recent_breaks_ties_by_id_and_limits() {
    let mut mgr = SnapshotManager::new(10);
    mgr.snapshot(1, "a", b"1", 0);
    mgr.snapshot(2, "b", b"2", 0);
    mgr.snapshot(1, "a", b"3", 0);
    for list in mgr.snapshots.values_mut() {
        for s in list.iter_mut() {
            s.timestamp = 50;
        }
    }
    let ids: Vec<u32> = mgr.all_recent(2).iter().map(|s| s.id).collect();
    assert_eq!(ids, vec![3, 2]);
    assert_eq!(mgr.all_recent(0).len(), 0);
    assert_eq!(mgr.total_snapshots(), 3);
    assert_eq!(mgr.files_with_snapshots(), 2);
}

#[test]
fn age_text_units() {
    let s = Snapshot::new_at(1, 2, "x", b"d", 0, 1000);
    assert_eq!(s.age_str_at(1059), "59s ago");
    assert_eq!(s.age_str_at(1000 + 120), "2m ago");
    assert_eq!(s.age_str_at(1000 + 7200), "2h ago");
    assert_eq!(s.age_str_at(1000 + 3 * 86400), "3d ago");
    assert_eq!(s.age_str_at(10), "0s ago");
    assert_eq!(s.size, 1);
}

#[test]
fn restored_records_rejoin_history_and_numbering_resumes() {
    let mut mgr = SnapshotManager::new(10);
    let mut rec = SnapshotRaw::empty();
    rec.magic = SNAPSHOT_MAGIC;
    rec.is_used = 1;
    rec.id = 7;
    rec.ino = 3;
    rec.size = 2;
    rec.timestamp = 55;
    rec.set_name("a.txt");
    assert!(mgr.restore_record(&rec, b"hi".to_vec()));
    rec.id = 4;
    assert!(mgr.restore_record(&rec, b"yo".to_vec()));
    let mut foreign = rec.clone();
    foreign.magic = 1;
    assert!(!mgr.restore_record(&foreign, vec![]));
    let list = mgr.list(3);
    assert_eq!(list.len(), 2);
    assert_eq!(list[0].id, 7);
    assert_eq!(list[1].data, b"yo".to_vec());
    assert_eq!(list[1].name, "a.txt");
    assert_eq!(mgr.next_id, 1);
    mgr.resume_numbering();
    assert_eq!(mgr.next_id, 8);
    let mut empty = SnapshotManager::new(10);
    empty.resume_numbering();
    assert_eq!(empty.next_id, 1);
}
