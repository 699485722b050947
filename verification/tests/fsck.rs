use vexfs::fs::disk::{InodeRaw, SnapshotRaw, SuperblockRaw};
use vexfs::fs::free_list::FreeList;
use vexfs::fs::fsck::{Finding, FsckReport};
use vexfs::fs::layout::{DATA_OFFSET, MAGIC};

const DISK: u64 = 64 * 1024 * 1024;

fn inode(ino: u64, name: &str, offset: u64, size: u64) -> InodeRaw {
    let mut i = InodeRaw::empty();
    i.ino = ino;
    i.is_used = 1;
    i.data_offset = offset;
    i.size = size;
    i.set_name(name);
    i
}

fn names_of(fs: &[Finding]) -> Vec<String> {
    fs.iter().map(|f| format!("{:?}", f)).collect()
}

#[test]
fn fsck_clean_table() {
    let mut r = FsckReport::new(DISK);
    assert!(!r.visit_inode(0, Some(InodeRaw::empty())));
    assert!(!r.visit_inode(1, Some(inode(2, "a.txt", DATA_OFFSET, 100))));
    assert!(!r.visit_inode(2, Some(inode(3, "b.txt", DATA_OFFSET + 512, 50))));
    assert_eq!(r.total_inodes(), 3);
    assert_eq!(r.valid_inodes(), 2);
    assert_eq!(r.used_extents(), &[(DATA_OFFSET, 100), (DATA_OFFSET + 512, 50)]);
    assert!(r.is_clean());
    assert_eq!(r.exit_code(false), 0);
    assert_eq!(r.exit_code(true), 0);
}

#[test]
fn fsck_orphan_and_unreadable() {
    let mut r = FsckReport::new(DISK);
    let mut orphan = InodeRaw::empty();
    orphan.is_used = 1;
    assert!(r.visit_inode(0, Some(orphan)));
    assert!(!r.visit_inode(1, None));
    assert_eq!(r.orphaned_inodes(), 1);
    assert_eq!(r.corrupt_inodes(), 1);
    assert_eq!(names_of(r.warnings()), vec!["Orphaned { slot: 0 }".to_string()]);
    assert_eq!(names_of(r.errors()), vec!["InodeUnreadable { slot: 1 }".to_string()]);
    r.zeroing_failed(0);
    assert_eq!(r.errors().len(), 2);
    assert_eq!(r.exit_code(false), 2);
    assert_eq!(r.exit_code(true), 1);
}

#[test]
fn fsck_duplicate_names_point_at_latest_earlier_slot() {
    let mut r = FsckReport::new(DISK);
    r.visit_inode(0, Some(inode(2, "same", 0, 0)));
    r.visit_inode(1, Some(inode(3, "other", 0, 0)));
    r.visit_inode(2, Some(inode(4, "same", 0, 0)));
    r.visit_inode(3, Some(inode(5, "same", 0, 0)));
    assert_eq!(r.duplicate_names(), 2);
    let errs = names_of(r.errors());
    assert_eq!(errs[0], "DuplicateName { name: \"same\", first: 0, second: 2 }");
    assert_eq!(errs[1], "DuplicateName { name: \"same\", first: 2, second: 3 }");
}

#[test]
fn fsck_duplicate_inode_numbers() {
    let mut r = FsckReport::new(DISK);
    r.visit_inode(5, Some(inode(9, "x", 0, 0)));
    r.visit_inode(6, Some(inode(9, "y", 0, 0)));
    assert_eq!(r.duplicate_inos(), 1);
    assert_eq!(r.duplicate_names(), 0);
    assert_eq!(names_of(r.errors()), vec!["DuplicateIno { ino: 9, first: 5, second: 6 }".to_string()]);
}

#[test]
fn fsck_bad_data_offsets_and_reserved_numbers() {
    let mut r = FsckReport::new(DISK);
    r.visit_inode(0, Some(inode(1, "low", DATA_OFFSET - 1, 10)));
    r.visit_inode(1, Some(inode(7, "far", DISK - 5, 10)));
    r.visit_inode(2, Some(inode(8, "edge", DISK - 10, 10)));
    assert_eq!(r.bad_data_offsets(), 2);
    assert_eq!(r.used_extents(), &[(DISK - 10, 10)]);
    let errs = names_of(r.errors());
    assert_eq!(errs[0], format!("DataBeforeRegion {{ ino: 1, name: \"low\", offset: {} }}", DATA_OFFSET - 1));
    assert_eq!(errs[1], format!("DataBeyondDisk {{ ino: 7, name: \"far\", end: {}, disk_size: {} }}", DISK + 5, DISK));
    assert_eq!(names_of(r.warnings()), vec!["ReservedIno { ino: 1, name: \"low\" }".to_string()]);
}

#[test]
fn fsck_free_list_drift() {
    let mut r = FsckReport::new(DISK);
    assert!(!r.check_free_list(10_000, 14_096));
    assert!(!r.free_list_stale());
    assert!(r.check_free_list(10_000, 14_097));
    assert!(r.free_list_stale());
    assert!(r.check_free_list(20_000, 10_000));
    assert_eq!(r.warnings().len(), 2);
    // a stale list is a warning, not an error
    assert!(r.is_clean());
}

#[test]
fn fsck_free_list_from_used_extents() {
    let mut r = FsckReport::new(DISK);
    r.visit_inode(0, Some(inode(2, "a", DATA_OFFSET, 4096)));
    let rebuilt = FreeList::rebuild_from_inodes(r.used_extents(), r.disk_size(), DATA_OFFSET);
    assert_eq!(rebuilt.total_free_bytes(), DISK - DATA_OFFSET - 4096);
}

#[test]
fn fsck_superblock_checks() {
    let mut sb = SuperblockRaw {
        magic: MAGIC,
        version: 1,
        block_size: 4096,
        total_blocks: 16384,
        free_blocks: 0,
        inode_count: 0,
        next_data_offset: DATA_OFFSET,
        created_at: 0,
        crc32: 0,
    };
    let mut r = FsckReport::new(DISK);
    assert!(!r.check_superblock(&sb));
    assert!(r.is_clean());
    sb.magic = 7;
    sb.block_size = 512;
    sb.next_data_offset = 0;
    assert!(r.check_superblock(&sb));
    assert_eq!(
        names_of(r.errors()),
        vec!["BadMagic { found: 7 }".to_string(), "NextOffsetBeforeData { offset: 0 }".to_string()]
    );
    assert_eq!(names_of(r.warnings()), vec!["UnusualBlockSize { block_size: 512 }".to_string()]);
    r.superblock_not_repaired();
    assert_eq!(r.errors().len(), 3);
}

#[test]
fn fsck_snapshot_table() {
    let mut r = FsckReport::new(DISK);
    let mut good = SnapshotRaw::empty();
    good.is_used = 1;
    good.set_name("v1");
    let mut nameless = SnapshotRaw::empty();
    nameless.is_used = 1;
    r.visit_snapshot(0, Some(good));
    r.visit_snapshot(1, Some(nameless));
    r.visit_snapshot(2, Some(SnapshotRaw::empty()));
    r.visit_snapshot(3, None);
    assert_eq!(r.valid_snapshots(), 1);
    assert_eq!(r.corrupt_snapshots(), 2);
    assert_eq!(
        names_of(r.warnings()),
        vec!["SnapshotNameMissing { slot: 1 }".to_string(), "SnapshotUnreadable { slot: 3 }".to_string()]
    );
    assert!(r.is_clean());
}

#[test]
fn duplicate_names_count_per_directory() {
    let mut r = FsckReport::new(DISK);
    assert!(!r.visit_inode_in(0, Some(inode(2, "a.txt", DATA_OFFSET, 10)), 1));
    assert!(!r.visit_inode_in(1, Some(inode(3, "a.txt", DATA_OFFSET + 512, 10)), 7));
    assert!(r.is_clean());
    assert!(!r.visit_inode_in(2, Some(inode(4, "a.txt", DATA_OFFSET + 1024, 10)), 1));
    assert!(!r.is_clean());
    let errs = names_of(r.errors());
    assert_eq!(errs.len(), 1);
    assert!(errs[0].contains("DuplicateNameIn"));
    match &r.errors()[0] {
        Finding::DuplicateNameIn { name, parent, first, second } => {
            assert_eq!((name.as_str(), *parent, *first, *second), ("a.txt", 1, 0, 2));
        }
        other => panic!("unexpected finding {:?}", other),
    }
}
