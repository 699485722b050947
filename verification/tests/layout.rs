use vexfs::fs::free_list::FreeList;
use vexfs::fs::journal::JOURNAL_OFFSET;
use vexfs::fs::layout::{
    allocate_data, fresh_superblock, snapshot_slot_offset, DATA_OFFSET, JOURNAL_START, MAGIC, SNAPSHOT_TABLE_OFFSET,
};

#[test]
fn layout_offsets() {
    assert_eq!(SNAPSHOT_TABLE_OFFSET, 4096 + 262_144);
    assert_eq!(JOURNAL_START, JOURNAL_OFFSET);
    assert_eq!(DATA_OFFSET, JOURNAL_START + 262_208);
    assert_eq!(snapshot_slot_offset(0), SNAPSHOT_TABLE_OFFSET);
    assert_eq!(snapshot_slot_offset(3), SNAPSHOT_TABLE_OFFSET + 3 * 512);
}

#[test]
fn fresh_superblock_of_twenty_megabytes() {
    let sb = fresh_superblock(20 * 1024 * 1024, 1_700_000_000);
    assert_eq!(sb.magic, MAGIC);
    assert_eq!(sb.version, 1);
    assert_eq!(sb.block_size, 4096);
    assert_eq!(sb.total_blocks, 5120);
    assert_eq!(sb.free_blocks, 5120);
    assert_eq!(sb.inode_count, 0);
    assert_eq!(sb.next_data_offset, DATA_OFFSET);
    assert_eq!(sb.created_at, 1_700_000_000);
}

#[test]
fn data_goes_to_the_end_and_the_end_is_aligned() {
    let mut list = FreeList::new();
    let (off, next, end) = allocate_data(&mut list, 1_000_000, 1_000_000, 100);
    assert_eq!(off, 1_000_000);
    // 1_000_100 rounded up to a multiple of 512
    assert_eq!(next, 1_000_448);
    // the inode table's view of the end follows the data, unaligned
    assert_eq!(end, 1_000_100);
    let (off, next, end) = allocate_data(&mut list, 1_024, 5_000, 512);
    assert_eq!((off, next, end), (1_024, 1_536, 5_000));
}

#[test]
fn data_reuses_a_free_extent() {
    let mut list = FreeList::new();
    list.free(8192, 4096);
    let (off, next, end) = allocate_data(&mut list, 1_000_000, 1_000_000, 1000);
    assert_eq!(off, 8192);
    assert_eq!((next, end), (1_000_000, 1_000_000));
    assert_eq!(list.total_free_bytes(), 3096);
}
