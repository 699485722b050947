//! Where things live in an image, and the decisions the disk manager makes
//! about them: a new image's superblock, where snapshot slots are, and
//! where new file data goes.
use vstd::prelude::*;
use crate::fs::disk::SuperblockRaw;
use crate::fs::free_list::{after_claim, best_fit, ends_fit, fits_somewhere, FreeList};
use crate::fs::inode_table::{INODE_BLOCK_SIZE, MAX_INODES_TOTAL};
use crate::fs::journal::{JOURNAL_OFFSET, JOURNAL_REGION_SIZE};

verus! {

pub const MAGIC: u64 = 0x5645584653000001;

pub const BLOCK_SIZE: usize = 4096;

/// Most inodes an image can address.
pub const MAX_FILES: usize = MAX_INODES_TOTAL;

pub const SUPERBLOCK_OFFSET: u64 = 0;

pub const INODE_TABLE_OFFSET: u64 = 4096;

pub const INODE_SIZE: usize = 256;

pub const SNAPSHOT_TABLE_OFFSET: u64 = INODE_TABLE_OFFSET + INODE_BLOCK_SIZE;

pub const SNAPSHOT_TABLE_SIZE: u64 = 256 * 512;

/// The journal lives right after the snapshot table.
pub const JOURNAL_START: u64 = SNAPSHOT_TABLE_OFFSET + SNAPSHOT_TABLE_SIZE;

/// File data starts after the journal.
pub const DATA_OFFSET: u64 = JOURNAL_START + JOURNAL_REGION_SIZE;

pub const MAX_SNAPSHOT_SLOTS: usize = 256;

pub const SNAPSHOT_RECORD_SIZE: usize = 512;

/// The journal module places its region where the layout puts it.
pub proof fn lemma_journal_placed()
    ensures
        JOURNAL_OFFSET == JOURNAL_START,
        DATA_OFFSET == JOURNAL_START + JOURNAL_REGION_SIZE,
{
}

/// The superblock of a new image of `size_bytes` formatted at `now`: every
/// block free, no inodes, data starting after the journal.
pub fn fresh_superblock(size_bytes: u64, now: u64) -> (r: SuperblockRaw)
    ensures
        r == (SuperblockRaw {
            magic: MAGIC,
            version: 1,
            block_size: BLOCK_SIZE as u32,
            total_blocks: size_bytes / BLOCK_SIZE as u64,
            free_blocks: size_bytes / BLOCK_SIZE as u64,
            inode_count: 0,
            next_data_offset: DATA_OFFSET,
            created_at: now,
            crc32: 0,
        }),
{
    let total_blocks = size_bytes / BLOCK_SIZE as u64;
    SuperblockRaw {
        magic: MAGIC,
        version: 1,
        block_size: BLOCK_SIZE as u32,
        total_blocks,
        free_blocks: total_blocks,
        inode_count: 0,
        next_data_offset: DATA_OFFSET,
        created_at: now,
        crc32: 0,
    }
}

/// Where snapshot slot `index` is stored.
pub fn snapshot_slot_offset(index: usize) -> (r: u64)
    requires
        index < MAX_SNAPSHOT_SLOTS,
    ensures
        r == SNAPSHOT_TABLE_OFFSET + index * SNAPSHOT_RECORD_SIZE,
{
    SNAPSHOT_TABLE_OFFSET + (index * SNAPSHOT_RECORD_SIZE) as u64
}

/// `x` rounded up to a multiple of 512.
pub open spec fn aligned_512(x: int) -> int {
    if x % 512 == 0 {
        x
    } else {
        x + 512 - x % 512
    }
}

/// The end of the data region after `size` more bytes were placed at it.
pub open spec fn bumped_end(next_data_offset: u64, size: u64) -> int {
    aligned_512(next_data_offset + size)
}

/// The inode table's view of the end after the same placement.
pub open spec fn bumped_disk_end(next_data_offset: u64, disk_end: u64, size: u64) -> int {
    if next_data_offset + size > disk_end {
        next_data_offset + size
    } else {
        disk_end as int
    }
}

/// Space for file data: the best-fitting free extent when one is large
/// enough, else the end of the data region, which then moves past the new
/// data and up to a multiple of 512 bytes. Returns the offset, the new end
/// of the data region and the inode table's new view of the end.
pub fn allocate_data(free_list: &mut FreeList, next_data_offset: u64, disk_end: u64, size: usize) -> (r: (
    u64,
    u64,
    u64,
))
    requires
        ends_fit(old(free_list)@),
        next_data_offset + size + 512 <= u64::MAX,
    ensures
        ends_fit(final(free_list)@),
        fits_somewhere(old(free_list)@, size as int) ==> {
            &&& r.1 == next_data_offset
            &&& r.2 == disk_end
            &&& exists|i: int|
                #[trigger] best_fit(old(free_list)@, size as int, i) && r.0 == old(free_list)@[i].offset
                    && final(free_list)@ == after_claim(old(free_list)@, i, size as int)
        },
        !fits_somewhere(old(free_list)@, size as int) ==> {
            &&& r.0 == next_data_offset
            &&& r.1 == bumped_end(next_data_offset, size as u64)
            &&& r.2 == bumped_disk_end(next_data_offset, disk_end, size as u64)
            &&& final(free_list)@ == old(free_list)@
        },
{
    match free_list.allocate(size) {
        Some(offset) => (offset, next_data_offset, disk_end),
        None => {
            let offset = next_data_offset;
            let mut next = next_data_offset + size as u64;
            let end = if next > disk_end { next } else { disk_end };
            let rem = next % 512;
            if rem != 0 {
                next = next + (512 - rem);
            }
            (offset, next, end)
        },
    }
}

} // verus!
