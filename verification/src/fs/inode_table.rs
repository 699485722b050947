//! Growable inode table: a directory of up to `MAX_INODE_BLOCKS` block
//! offsets, each block holding `INODES_PER_BLOCK` inode slots.
//!
//! Logical index `i` lives in block `i / INODES_PER_BLOCK`, slot
//! `i % INODES_PER_BLOCK`. Block 0 is the original fixed table; a zero offset
//! marks a block that is not allocated. An image without a directory (all
//! zeroes) has block 0 only.
use vstd::prelude::*;
use vstd::bytes::*;
use crate::codec::{append_u64, le64_at, read_le64, to_array};
use crate::fs::disk::INODE_BYTES;

verus! {

/// Inodes per block (same as the original fixed table).
pub const INODES_PER_BLOCK: usize = 1024;

/// Maximum number of inode blocks (block 0 and 63 extension blocks).
pub const MAX_INODE_BLOCKS: usize = 64;

/// Maximum total inodes supported.
pub const MAX_INODES_TOTAL: usize = 65536;

/// Size of one inode block on disk.
pub const INODE_BLOCK_SIZE: u64 = 262144;

/// Number of bytes in the block directory (one 8-byte offset per block).
pub const BLOCK_DIR_BYTES: usize = 512;

/// Where the block directory lives on disk: the last 512 bytes of block 0.
pub const INODE_BLOCK_DIR_OFFSET: u64 = 3584;

/// Number of non-zero offsets.
pub open spec fn count_nonzero(s: Seq<u64>) -> nat
    decreases s.len(),
{
    if s.len() == 0 {
        0
    } else {
        count_nonzero(s.drop_last()) + if s.last() != 0 { 1nat } else { 0nat }
    }
}

/// The directory image: every block offset as 8 little-endian bytes.
pub open spec fn directory_image(s: Seq<u64>) -> Seq<u8>
    decreases s.len(),
{
    if s.len() == 0 {
        Seq::empty()
    } else {
        directory_image(s.drop_last()) + spec_u64_to_le_bytes(s.last())
    }
}

/// The first unallocated extension block, if any.
pub open spec fn first_free_block(s: Seq<u64>, b: int) -> bool {
    &&& 1 <= b < s.len()
    &&& s[b] == 0
    &&& forall|j: int| 1 <= j < b ==> #[trigger] s[j] != 0
}

/// Manages a growable inode table's block directory.
pub struct InodeTable {
    /// Disk offsets of each inode block; 0 marks an unallocated block.
    block_offsets: Vec<u64>,
    /// Next end-of-image offset, where a new block is placed.
    pub next_disk_end: u64,
}

impl View for InodeTable {
    type V = Seq<u64>;

    closed spec fn view(&self) -> Seq<u64> {
        self.block_offsets@
    }
}

impl InodeTable {
    /// Where the next block would be placed.
    pub closed spec fn disk_end(&self) -> u64 {
        self.next_disk_end
    }

    /// The directory always holds `MAX_INODE_BLOCKS` offsets.
    pub closed spec fn wf(&self) -> bool {
        self.block_offsets@.len() == MAX_INODE_BLOCKS
    }

    /// A fresh table whose only block is the original one.
    pub fn new(original_offset: u64, next_disk_end: u64) -> (r: Self)
        ensures
            r.wf(),
            r@.len() == MAX_INODE_BLOCKS,
            r@[0] == original_offset,
            forall|i: int| 1 <= i < MAX_INODE_BLOCKS ==> #[trigger] r@[i] == 0,
            r.disk_end() == next_disk_end,
    {
        let mut block_offsets: Vec<u64> = Vec::new();
        block_offsets.push(original_offset);
        let mut i: usize = 1;
        while i < MAX_INODE_BLOCKS
            invariant
                1 <= i <= MAX_INODE_BLOCKS,
                block_offsets@.len() == i,
                block_offsets@[0] == original_offset,
                forall|j: int| 1 <= j < i ==> #[trigger] block_offsets@[j] == 0,
            decreases MAX_INODE_BLOCKS - i,
        {
            block_offsets.push(0);
            i = i + 1;
        }
        Self { block_offsets, next_disk_end }
    }

    /// The table described by a stored block directory: block 0 is always
    /// the original table, the other offsets come from the directory.
    pub fn from_directory(dir: &[u8; BLOCK_DIR_BYTES], original_offset: u64, next_disk_end: u64) -> (r: Self)
        ensures
            r.wf(),
            r@[0] == original_offset,
            forall|i: int| 1 <= i < MAX_INODE_BLOCKS ==> #[trigger] r@[i] == le64_at(dir@, 8 * i),
            r.disk_end() == next_disk_end,
    {
        let s = dir.as_slice();
        let mut block_offsets: Vec<u64> = Vec::new();
        block_offsets.push(original_offset);
        let mut i: usize = 1;
        while i < MAX_INODE_BLOCKS
            invariant
                s@ == dir@,
                s@.len() == BLOCK_DIR_BYTES,
                1 <= i <= MAX_INODE_BLOCKS,
                block_offsets@.len() == i,
                block_offsets@[0] == original_offset,
                forall|j: int| 1 <= j < i ==> #[trigger] block_offsets@[j] == le64_at(dir@, 8 * j),
            decreases MAX_INODE_BLOCKS - i,
        {
            block_offsets.push(read_le64(s, 8 * i));
            i = i + 1;
        }
        Self { block_offsets, next_disk_end }
    }

    /// The bytes that persist the block directory.
    pub fn directory_bytes(&self) -> (r: [u8; BLOCK_DIR_BYTES])
        requires
            self.wf(),
        ensures
            r@ == directory_image(self@),
    {
        let mut v: Vec<u8> = Vec::new();
        let mut i: usize = 0;
        while i < MAX_INODE_BLOCKS
            invariant
                self.block_offsets@.len() == MAX_INODE_BLOCKS,
                i <= MAX_INODE_BLOCKS,
                v@ == directory_image(self.block_offsets@.take(i as int)),
                v@.len() == 8 * i,
            decreases MAX_INODE_BLOCKS - i,
        {
            append_u64(&mut v, self.block_offsets[i]);
            proof {
                let t = self.block_offsets@.take(i + 1);
                assert(t.drop_last() =~= self.block_offsets@.take(i as int));
                lemma_auto_spec_u64_to_from_le_bytes();
            }
            i = i + 1;
        }
        assert(self.block_offsets@.take(MAX_INODE_BLOCKS as int) =~= self.block_offsets@);
        to_array::<BLOCK_DIR_BYTES>(v.as_slice())
    }

    pub fn block_for(index: usize) -> (r: usize)
        ensures
            r == index / INODES_PER_BLOCK,
    {
        index / INODES_PER_BLOCK
    }

    pub fn slot_in_block(index: usize) -> (r: usize)
        ensures
            r == index % INODES_PER_BLOCK,
    {
        index % INODES_PER_BLOCK
    }

    /// Disk byte offset of inode `index`, or `None` when its block is not
    /// allocated (or lies beyond the directory).
    pub fn inode_offset(&self, index: usize) -> (r: Option<u64>)
        requires
            self.wf(),
            index / INODES_PER_BLOCK < MAX_INODE_BLOCKS ==> self@[(index / INODES_PER_BLOCK) as int]
                + (index % INODES_PER_BLOCK) * INODE_BYTES <= u64::MAX,
        ensures
            r == (if index / INODES_PER_BLOCK < MAX_INODE_BLOCKS && self@[(index / INODES_PER_BLOCK) as int] != 0 {
                Some((self@[(index / INODES_PER_BLOCK) as int] + (index % INODES_PER_BLOCK) * INODE_BYTES) as u64)
            } else {
                None::<u64>
            }),
    {
        let block = Self::block_for(index);
        let slot = Self::slot_in_block(index);
        let base: u64 = if block < self.block_offsets.len() { self.block_offsets[block] } else { 0 };
        if base == 0 {
            return None;
        }
        Some(base + (slot * INODE_BYTES) as u64)
    }

    /// Number of inode blocks currently allocated (including block 0).
    pub fn block_count(&self) -> (r: usize)
        requires
            self.wf(),
        ensures
            r == count_nonzero(self@),
            r <= MAX_INODE_BLOCKS,
    {
        let mut n: usize = 0;
        let mut i: usize = 0;
        while i < self.block_offsets.len()
            invariant
                self.block_offsets@.len() == MAX_INODE_BLOCKS,
                i <= MAX_INODE_BLOCKS,
                n == count_nonzero(self.block_offsets@.take(i as int)),
                n <= i,
            decreases MAX_INODE_BLOCKS - i,
        {
            proof {
                let t = self.block_offsets@.take(i + 1);
                assert(t.drop_last() =~= self.block_offsets@.take(i as int));
            }
            if self.block_offsets[i] != 0 {
                n = n + 1;
            }
            i = i + 1;
        }
        assert(self.block_offsets@.take(MAX_INODE_BLOCKS as int) =~= self.block_offsets@);
        n
    }

    /// Total inode slots currently addressable.
    pub fn capacity(&self) -> (r: usize)
        requires
            self.wf(),
        ensures
            r == count_nonzero(self@) * INODES_PER_BLOCK,
    {
        self.block_count() * INODES_PER_BLOCK
    }

    /// The directory slot a new block would take: the first unallocated
    /// extension block, or `None` when all are in use.
    pub fn next_block_slot(&self) -> (r: Option<usize>)
        requires
            self.wf(),
        ensures
            r is None <==> forall|j: int| 1 <= j < MAX_INODE_BLOCKS ==> #[trigger] self@[j] != 0,
            r matches Some(b) ==> first_free_block(self@, b as int),
    {
        let mut i: usize = 1;
        while i < MAX_INODE_BLOCKS
            invariant
                self.block_offsets@.len() == MAX_INODE_BLOCKS,
                1 <= i <= MAX_INODE_BLOCKS,
                forall|j: int| 1 <= j < i ==> #[trigger] self.block_offsets@[j] != 0,
            decreases MAX_INODE_BLOCKS - i,
        {
            if self.block_offsets[i] == 0 {
                assert(self@[i as int] == 0);
                return Some(i);
            }
            i = i + 1;
        }
        None
    }

    /// Record a new block, zeroed on disk at `next_disk_end`, in directory
    /// slot `slot`, and move the end of the image past it.
    pub fn place_block(&mut self, slot: usize)
        requires
            old(self).wf(),
            1 <= slot < MAX_INODE_BLOCKS,
            old(self).disk_end() + INODE_BLOCK_SIZE <= u64::MAX,
        ensures
            final(self).wf(),
            final(self)@ == old(self)@.update(slot as int, old(self).disk_end()),
            final(self).disk_end() == old(self).disk_end() + INODE_BLOCK_SIZE,
    {
        let at = self.next_disk_end;
        self.block_offsets.set(slot, at);
        self.next_disk_end = at + INODE_BLOCK_SIZE;
    }
}

/// The directory holds offsets at fixed places: reading back the directory
/// of a table gives its offsets.
pub proof fn lemma_directory_roundtrip(s: Seq<u64>)
    ensures
        directory_image(s).len() == 8 * s.len(),
        forall|i: int| 0 <= i < s.len() ==> le64_at(directory_image(s), 8 * i) == #[trigger] s[i],
    decreases s.len(),
{
    lemma_auto_spec_u64_to_from_le_bytes();
    if s.len() > 0 {
        let t = s.drop_last();
        lemma_directory_roundtrip(t);
        let d = directory_image(s);
        assert forall|i: int| 0 <= i < s.len() implies le64_at(d, 8 * i) == #[trigger] s[i] by {
            if i < t.len() {
                assert(d.subrange(8 * i, 8 * i + 8) =~= directory_image(t).subrange(8 * i, 8 * i + 8));
                assert(t[i] == s[i]);
            } else {
                assert(d.subrange(8 * i, 8 * i + 8) =~= spec_u64_to_le_bytes(s.last()));
            }
        }
    }
}

} // verus!
