use vexfs::fs::inode_table::{InodeTable, BLOCK_DIR_BYTES, INODES_PER_BLOCK, INODE_BLOCK_SIZE, MAX_INODE_BLOCKS};

#[test]
fn test_inode_offset_calculation() {
    let table = InodeTable::new(4096, 1024 * 1024);
    assert_eq!(table.inode_offset(0), Some(4096));
    assert_eq!(table.inode_offset(1), Some(4096 + 256));
    assert_eq!(table.inode_offset(1023), Some(4096 + 1023 * 256));
    assert_eq!(table.inode_offset(1024), None);
}

#[test]
fn test_directory_persistence() {
    let original_offset: u64 = 4096;
    let next_disk_end = original_offset + INODE_BLOCK_SIZE;
    let mut table = InodeTable::new(original_offset, next_disk_end);
    for _ in 0..2 {
        let slot = table.next_block_slot().unwrap();
        table.place_block(slot);
    }
    assert_eq!(table.block_count(), 3);
    let dir = table.directory_bytes();

    let table = InodeTable::from_directory(&dir, original_offset, next_disk_end);
    assert_eq!(table.block_count(), 3);
    assert_eq!(table.capacity(), 3 * INODES_PER_BLOCK);
}

#[test]
fn test_old_image_compat() {
    let dir = [0u8; BLOCK_DIR_BYTES];
    let table = InodeTable::from_directory(&dir, 4096, 4096 + INODE_BLOCK_SIZE);
    assert_eq!(table.block_count(), 1);
    assert_eq!(table.capacity(), INODES_PER_BLOCK);
}

#[test]
fn new_block_extends_addressable_indices() {
    let mut table = InodeTable::new(4096, 4096 + INODE_BLOCK_SIZE);
    assert_eq!(table.next_block_slot(), Some(1));
    table.place_block(1);
    assert_eq!(table.next_disk_end, 4096 + 2 * INODE_BLOCK_SIZE);
    assert_eq!(table.inode_offset(1024), Some(4096 + INODE_BLOCK_SIZE));
    assert_eq!(table.inode_offset(1025), Some(4096 + INODE_BLOCK_SIZE + 256));
    assert_eq!(table.capacity(), 2048);
    assert_eq!(InodeTable::block_for(2050), 2);
    assert_eq!(InodeTable::slot_in_block(2050), 2);
}

#[test]
fn directory_full_has_no_free_slot() {
    let mut table = InodeTable::new(4096, 1 << 20);
    for _ in 1..MAX_INODE_BLOCKS {
        let slot = table.next_block_slot().unwrap();
        table.place_block(slot);
    }
    assert_eq!(table.next_block_slot(), None);
    assert_eq!(table.block_count(), MAX_INODE_BLOCKS);
    assert_eq!(table.inode_offset(MAX_INODE_BLOCKS * INODES_PER_BLOCK), None);
}
