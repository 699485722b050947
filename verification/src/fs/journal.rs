//! Write-ahead journal: the records that let a crashed mount be repaired.
//!
//! Layout (its own region after the snapshot table):
//!
//!   [JournalHeader 64 bytes]
//!   [JournalEntry 512 bytes] × MAX_JOURNAL_ENTRIES
//!
//! Every entry of a transaction shares its id, and only transactions that
//! carry a commit entry are replayed. The journal's bookkeeping (slots,
//! transaction ids, chunking, replay selection) lives here; reading and
//! writing the region is left to the caller.
use vstd::prelude::*;
use vstd::bytes::*;
use vstd::slice::*;
use std::collections::HashSet;
use crate::codec::{append_bytes, append_u32, append_u64, le32_at, le64_at, read_le32, read_le64, to_array, zeros};
use crate::fs::disk::{crc32, crc_check, crc32_checksum, other_io_error, verify_crc32, DiskError, DiskResult};

verus! {

broadcast use vstd::std_specs::hash::group_hash_axioms;

/// Where the journal starts on disk: after the superblock block, the inode
/// table and the snapshot table.
pub const JOURNAL_OFFSET: u64 = 4096 + 1024 * 256 + 256 * 512;

pub const JOURNAL_HEADER_SIZE: usize = 64;
pub const JOURNAL_ENTRY_SIZE: usize = 512;
pub const MAX_JOURNAL_ENTRIES: usize = 512;
pub const JOURNAL_MAGIC: u64 = 0x4A524E4C00000001;

/// Total journal region size in bytes.
pub const JOURNAL_REGION_SIZE: u64 = 262208;

pub const ENTRY_FREE: u8 = 0;
pub const ENTRY_WRITE_INODE: u8 = 1;
pub const ENTRY_WRITE_DATA: u8 = 2;
pub const ENTRY_FREE_EXTENT: u8 = 3;
pub const ENTRY_COMMIT: u8 = 4;

pub const STATE_FREE: u8 = 0;
pub const STATE_WRITTEN: u8 = 1;
pub const STATE_COMMITTED: u8 = 2;
pub const STATE_REPLAYED: u8 = 3;

pub const JOURNAL_PAYLOAD_SIZE: usize = 490;

// ── Header ───────────────────────────────────────────────────────────────────

/// The 64-byte journal header: magic, version, next transaction id and the
/// number of entries in use, with a CRC-32 over the first 20 bytes.
#[derive(Debug, Clone, Copy, PartialEq, Eq, Structural)]
pub struct JournalHeader {
    pub magic: u64,
    pub version: u32,
    pub next_tx_id: u32,
    pub entry_count: u32,
}

/// The 20 checksummed header bytes.
pub open spec fn header_fields(h: JournalHeader) -> Seq<u8> {
    spec_u64_to_le_bytes(h.magic) + spec_u32_to_le_bytes(h.version) + spec_u32_to_le_bytes(h.next_tx_id)
        + spec_u32_to_le_bytes(h.entry_count)
}

/// The full 64-byte header image.
pub open spec fn header_image(h: JournalHeader) -> Seq<u8> {
    header_fields(h) + spec_u32_to_le_bytes(crc32_checksum(header_fields(h))) + zeros(40)
}

/// What decoding a 64-byte header image yields.
pub open spec fn parse_header(b: Seq<u8>) -> DiskResult<JournalHeader> {
    match crc_check(b.subrange(0, 20), le32_at(b, 20)) {
        Err(e) => Err(e),
        Ok(_) => Ok(
            JournalHeader {
                magic: le64_at(b, 0),
                version: le32_at(b, 8),
                next_tx_id: le32_at(b, 12),
                entry_count: le32_at(b, 16),
            },
        ),
    }
}

/// A header read from the region that the journal can use.
pub open spec fn header_usable(b: Seq<u8>) -> bool {
    parse_header(b) matches Ok(h) && h.magic == JOURNAL_MAGIC
}

impl JournalHeader {
    pub fn new() -> (r: Self)
        ensures
            r == (JournalHeader { magic: JOURNAL_MAGIC, version: 1, next_tx_id: 1, entry_count: 0 }),
    {
        Self { magic: JOURNAL_MAGIC, version: 1, next_tx_id: 1, entry_count: 0 }
    }

    pub fn to_bytes(&self) -> (r: [u8; JOURNAL_HEADER_SIZE])
        ensures
            r@ == header_image(*self),
    {
        let mut v: Vec<u8> = Vec::new();
        append_u64(&mut v, self.magic);
        append_u32(&mut v, self.version);
        append_u32(&mut v, self.next_tx_id);
        append_u32(&mut v, self.entry_count);
        let checksum = crc32(v.as_slice());
        append_u32(&mut v, checksum);
        append_bytes(&mut v, &[0u8; 40]);
        proof {
            lemma_auto_spec_u64_to_from_le_bytes();
            lemma_auto_spec_u32_to_from_le_bytes();
            assert(v@ =~= header_image(*self));
        }
        to_array::<JOURNAL_HEADER_SIZE>(v.as_slice())
    }

    pub fn from_bytes(b: &[u8; JOURNAL_HEADER_SIZE]) -> (r: DiskResult<Self>)
        ensures
            r == parse_header(b@),
    {
        let s = b.as_slice();
        let stored = read_le32(s, 20);
        match verify_crc32(slice_subrange(s, 0, 20), stored) {
            Err(e) => Err(e),
            Ok(_) => Ok(
                Self {
                    magic: read_le64(s, 0),
                    version: read_le32(s, 8),
                    next_tx_id: read_le32(s, 12),
                    entry_count: read_le32(s, 16),
                },
            ),
        }
    }

    pub fn is_valid(&self) -> (r: bool)
        ensures
            r == (self.magic == JOURNAL_MAGIC),
    {
        self.magic == JOURNAL_MAGIC
    }
}

/// Decoding an encoded header gives it back.
pub proof fn lemma_header_roundtrip(h: JournalHeader)
    ensures
        parse_header(header_image(h)) == Ok::<JournalHeader, DiskError>(h),
{
    lemma_auto_spec_u64_to_from_le_bytes();
    lemma_auto_spec_u32_to_from_le_bytes();
    let b = header_image(h);
    assert(b.subrange(0, 20) =~= header_fields(h));
    assert(b.subrange(0, 8) =~= spec_u64_to_le_bytes(h.magic));
    assert(b.subrange(8, 12) =~= spec_u32_to_le_bytes(h.version));
    assert(b.subrange(12, 16) =~= spec_u32_to_le_bytes(h.next_tx_id));
    assert(b.subrange(16, 20) =~= spec_u32_to_le_bytes(h.entry_count));
    assert(b.subrange(20, 24) =~= spec_u32_to_le_bytes(crc32_checksum(header_fields(h))));
}

// ── Entries ──────────────────────────────────────────────────────────────────

/// One 512-byte journal slot. The disk offset is stored as two 32-bit
/// halves; the CRC covers the 18 header bytes and the used payload bytes.
#[derive(Debug, Clone)]
pub struct JournalEntry {
    pub entry_type: u8,
    pub state: u8,
    pub tx_id: u32,
    pub payload_len: u32,
    /// Full 64-bit disk offset (or inode slot index for inode entries).
    pub disk_offset: u64,
    pub payload: [u8; JOURNAL_PAYLOAD_SIZE],
}

/// Low 32 bits of an offset.
pub open spec fn offset_lo(off: u64) -> u32 {
    off as u32
}

/// High 32 bits of an offset.
pub open spec fn offset_hi(off: u64) -> u32 {
    (off >> 32u64) as u32
}

/// The offset put back together from its stored halves.
pub open spec fn join_offset(lo: u32, hi: u32) -> u64 {
    ((hi as u64) << 32u64) | (lo as u64)
}

/// Number of payload bytes a length field covers.
pub open spec fn span_len(plen: u32) -> int {
    if plen > JOURNAL_PAYLOAD_SIZE {
        JOURNAL_PAYLOAD_SIZE as int
    } else {
        plen as int
    }
}

/// The 18 header bytes of an entry.
pub open spec fn entry_head(e: JournalEntry) -> Seq<u8> {
    seq![e.entry_type, e.state] + spec_u32_to_le_bytes(e.tx_id) + spec_u32_to_le_bytes(e.payload_len)
        + spec_u32_to_le_bytes(offset_lo(e.disk_offset)) + spec_u32_to_le_bytes(offset_hi(e.disk_offset))
}

/// The full 512-byte image of an entry.
pub open spec fn entry_image(e: JournalEntry) -> Seq<u8> {
    let head = entry_head(e);
    head + spec_u32_to_le_bytes(crc32_checksum(head + e.payload@.take(span_len(e.payload_len)))) + e.payload@
}

/// The checksum check that decoding an entry image performs: none for a
/// free slot, else over the header bytes and the used payload bytes.
pub open spec fn entry_check(b: Seq<u8>) -> DiskResult<()> {
    if b[0] == ENTRY_FREE {
        Ok(())
    } else {
        crc_check(b.subrange(0, 18) + b.subrange(22, 22 + span_len(le32_at(b, 6))), le32_at(b, 18))
    }
}

/// `e` holds the fields stored in the entry image `b`.
pub open spec fn entry_decodes(b: Seq<u8>, e: JournalEntry) -> bool {
    &&& e.entry_type == b[0]
    &&& e.state == b[1]
    &&& e.tx_id == le32_at(b, 2)
    &&& e.payload_len == le32_at(b, 6)
    &&& e.disk_offset == join_offset(le32_at(b, 10), le32_at(b, 14))
    &&& e.payload@ == b.subrange(22, 512)
}

/// A payload holding `data` followed by zeros.
pub open spec fn payload_holds(p: Seq<u8>, data: Seq<u8>) -> bool {
    &&& p.len() == JOURNAL_PAYLOAD_SIZE
    &&& p.take(data.len() as int) == data
    &&& forall|i: int| data.len() <= i < JOURNAL_PAYLOAD_SIZE ==> p[i] == 0
}

impl JournalEntry {
    pub fn empty() -> (r: Self)
        ensures
            r.entry_type == ENTRY_FREE && r.state == STATE_FREE,
            r.tx_id == 0 && r.payload_len == 0 && r.disk_offset == 0,
            r.payload@ == zeros(JOURNAL_PAYLOAD_SIZE as nat),
    {
        let r = Self {
            entry_type: ENTRY_FREE,
            state: STATE_FREE,
            tx_id: 0,
            payload_len: 0,
            disk_offset: 0,
            payload: [0u8; JOURNAL_PAYLOAD_SIZE],
        };
        assert(r.payload@ =~= zeros(JOURNAL_PAYLOAD_SIZE as nat));
        r
    }

    pub fn to_bytes(&self) -> (r: [u8; JOURNAL_ENTRY_SIZE])
        ensures
            r@ == entry_image(*self),
    {
        let mut v: Vec<u8> = Vec::new();
        v.push(self.entry_type);
        v.push(self.state);
        append_u32(&mut v, self.tx_id);
        append_u32(&mut v, self.payload_len);
        append_u32(&mut v, self.disk_offset as u32);
        append_u32(&mut v, (self.disk_offset >> 32) as u32);
        let plen: usize = if self.payload_len > JOURNAL_PAYLOAD_SIZE as u32 {
            JOURNAL_PAYLOAD_SIZE
        } else {
            self.payload_len as usize
        };
        let mut covered: Vec<u8> = Vec::new();
        append_bytes(&mut covered, v.as_slice());
        append_bytes(&mut covered, slice_subrange(self.payload.as_slice(), 0, plen));
        let checksum = crc32(covered.as_slice());
        append_u32(&mut v, checksum);
        append_bytes(&mut v, self.payload.as_slice());
        proof {
            lemma_auto_spec_u32_to_from_le_bytes();
            assert(covered@ =~= entry_head(*self) + self.payload@.take(span_len(self.payload_len)));
            assert(v@ =~= entry_image(*self));
        }
        to_array::<JOURNAL_ENTRY_SIZE>(v.as_slice())
    }

    pub fn from_bytes(b: &[u8; JOURNAL_ENTRY_SIZE]) -> (r: DiskResult<Self>)
        ensures
            r is Ok <==> entry_check(b@) is Ok,
            r matches Err(e) ==> entry_check(b@) == Err::<(), DiskError>(e),
            r matches Ok(e) ==> entry_decodes(b@, e),
    {
        let s = b.as_slice();
        let entry_type = s[0];
        let state = s[1];
        let tx_id = read_le32(s, 2);
        let payload_len = read_le32(s, 6);
        let lo = read_le32(s, 10);
        let hi = read_le32(s, 14);
        let disk_offset = ((hi as u64) << 32u64) | (lo as u64);
        let stored = read_le32(s, 18);
        if entry_type != ENTRY_FREE {
            let plen: usize = if payload_len > JOURNAL_PAYLOAD_SIZE as u32 {
                JOURNAL_PAYLOAD_SIZE
            } else {
                payload_len as usize
            };
            let mut covered: Vec<u8> = Vec::new();
            append_bytes(&mut covered, slice_subrange(s, 0, 18));
            append_bytes(&mut covered, slice_subrange(s, 22, 22 + plen));
            match verify_crc32(covered.as_slice(), stored) {
                Err(e) => {
                    return Err(e);
                },
                Ok(_) => {},
            }
        }
        let payload = to_array::<JOURNAL_PAYLOAD_SIZE>(slice_subrange(s, 22, 512));
        Ok(Self { entry_type, state, tx_id, payload_len, disk_offset, payload })
    }

    pub fn is_free(&self) -> (r: bool)
        ensures
            r == (self.entry_type == ENTRY_FREE),
    {
        self.entry_type == ENTRY_FREE
    }

    /// A written entry of the given type carrying `data` at the front of its
    /// payload.
    fn written(entry_type: u8, tx_id: u32, disk_offset: u64, data: &[u8]) -> (r: Self)
        requires
            data@.len() <= JOURNAL_PAYLOAD_SIZE,
        ensures
            r.entry_type == entry_type && r.state == STATE_WRITTEN && r.tx_id == tx_id,
            r.disk_offset == disk_offset && r.payload_len == data@.len(),
            payload_holds(r.payload@, data@),
    {
        let mut e = JournalEntry::empty();
        e.entry_type = entry_type;
        e.state = STATE_WRITTEN;
        e.tx_id = tx_id;
        e.disk_offset = disk_offset;
        e.payload_len = data.len() as u32;
        let mut i: usize = 0;
        while i < data.len()
            invariant
                i <= data@.len() <= JOURNAL_PAYLOAD_SIZE,
                e.payload@.len() == JOURNAL_PAYLOAD_SIZE,
                forall|k: int| 0 <= k < i ==> e.payload@[k] == data@[k],
                forall|k: int| i <= k < JOURNAL_PAYLOAD_SIZE ==> e.payload@[k] == 0,
                e.entry_type == entry_type && e.state == STATE_WRITTEN && e.tx_id == tx_id,
                e.disk_offset == disk_offset && e.payload_len == data@.len(),
            decreases data@.len() - i,
        {
            e.payload[i] = data[i];
            i = i + 1;
        }
        assert(e.payload@.take(data@.len() as int) =~= data@);
        e
    }

    /// The entry that journals an inode write: the inode's slot index and
    /// its bytes.
    pub fn inode_write(tx_id: u32, inode_slot: usize, inode_bytes: &[u8]) -> (r: Self)
        requires
            inode_bytes@.len() <= JOURNAL_PAYLOAD_SIZE,
        ensures
            r.entry_type == ENTRY_WRITE_INODE && r.state == STATE_WRITTEN && r.tx_id == tx_id,
            r.disk_offset == inode_slot && r.payload_len == inode_bytes@.len(),
            payload_holds(r.payload@, inode_bytes@),
    {
        Self::written(ENTRY_WRITE_INODE, tx_id, inode_slot as u64, inode_bytes)
    }

    /// The entry that journals one chunk of a data write.
    pub fn data_write(tx_id: u32, disk_offset: u64, chunk: &[u8]) -> (r: Self)
        requires
            chunk@.len() <= JOURNAL_PAYLOAD_SIZE,
        ensures
            r.entry_type == ENTRY_WRITE_DATA && r.state == STATE_WRITTEN && r.tx_id == tx_id,
            r.disk_offset == disk_offset && r.payload_len == chunk@.len(),
            payload_holds(r.payload@, chunk@),
    {
        Self::written(ENTRY_WRITE_DATA, tx_id, disk_offset, chunk)
    }

    /// The entry that commits a transaction.
    pub fn commit(tx_id: u32) -> (r: Self)
        ensures
            r.entry_type == ENTRY_COMMIT && r.state == STATE_WRITTEN && r.tx_id == tx_id,
            r.disk_offset == 0 && r.payload_len == 0,
            r.payload@ == zeros(JOURNAL_PAYLOAD_SIZE as nat),
    {
        let mut e = JournalEntry::empty();
        e.entry_type = ENTRY_COMMIT;
        e.state = STATE_WRITTEN;
        e.tx_id = tx_id;
        e.payload_len = 0;
        e
    }
}

/// Decoding an encoded entry passes the checksum and gives back every field.
pub proof fn lemma_entry_roundtrip(e: JournalEntry)
    ensures
        entry_check(entry_image(e)) is Ok,
        entry_decodes(entry_image(e), e),
{
    lemma_auto_spec_u32_to_from_le_bytes();
    let b = entry_image(e);
    let head = entry_head(e);
    assert(b.subrange(0, 18) =~= head);
    assert(b.subrange(2, 6) =~= spec_u32_to_le_bytes(e.tx_id));
    assert(b.subrange(6, 10) =~= spec_u32_to_le_bytes(e.payload_len));
    assert(b.subrange(10, 14) =~= spec_u32_to_le_bytes(offset_lo(e.disk_offset)));
    assert(b.subrange(14, 18) =~= spec_u32_to_le_bytes(offset_hi(e.disk_offset)));
    assert(b.subrange(18, 22) =~= spec_u32_to_le_bytes(crc32_checksum(head + e.payload@.take(span_len(e.payload_len)))));
    assert(b.subrange(22, 512) =~= e.payload@);
    assert(b.subrange(22, 22 + span_len(e.payload_len)) =~= e.payload@.take(span_len(e.payload_len)));
    let off = e.disk_offset;
    assert(join_offset(offset_lo(off), offset_hi(off)) == off) by (bit_vector);
}


// ── Replay selection ─────────────────────────────────────────────────────────

/// The bytes of slot `i` of the entry region.
pub open spec fn slot_bytes(region: Seq<u8>, i: int) -> Seq<u8> {
    region.subrange(JOURNAL_ENTRY_SIZE * i, JOURNAL_ENTRY_SIZE * i + JOURNAL_ENTRY_SIZE)
}

/// Slot `i` holds an entry that is in use and passes its checksum.
pub open spec fn slot_live(region: Seq<u8>, i: int) -> bool {
    entry_check(slot_bytes(region, i)) is Ok && slot_bytes(region, i)[0] != ENTRY_FREE
}

/// `entries` are the entries of the live slots from the start of the region
/// up to the first slot that is free or corrupt.
pub open spec fn scanned(region: Seq<u8>, entries: Seq<JournalEntry>) -> bool {
    &&& entries.len() <= MAX_JOURNAL_ENTRIES
    &&& forall|i: int|
        #![trigger entries[i]]
        #![trigger slot_live(region, i)]
        0 <= i < entries.len() ==> slot_live(region, i) && entry_decodes(slot_bytes(region, i), entries[i])
    &&& entries.len() < MAX_JOURNAL_ENTRIES ==> !slot_live(region, entries.len() as int)
}

/// Entry `j` commits transaction `tx`.
pub open spec fn commits(entries: Seq<JournalEntry>, j: int, tx: u32) -> bool {
    entries[j].entry_type == ENTRY_COMMIT && entries[j].state == STATE_WRITTEN && entries[j].tx_id == tx
}

/// Some entry commits transaction `tx`.
pub open spec fn committed(entries: Seq<JournalEntry>, tx: u32) -> bool {
    exists|j: int| 0 <= j < entries.len() && #[trigger] commits(entries, j, tx)
}

/// An entry that recovery re-applies: a written inode or data entry of a
/// committed transaction.
pub open spec fn replayable(entries: Seq<JournalEntry>, e: JournalEntry) -> bool {
    &&& committed(entries, e.tx_id)
    &&& e.state == STATE_WRITTEN
    &&& (e.entry_type == ENTRY_WRITE_INODE || e.entry_type == ENTRY_WRITE_DATA)
}

/// The test recovery applies to each entry.
pub open spec fn replay_pred(entries: Seq<JournalEntry>) -> spec_fn(JournalEntry) -> bool {
    |e: JournalEntry| replayable(entries, e)
}

/// The entries recovery re-applies, in journal order.
pub open spec fn replay_set(entries: Seq<JournalEntry>) -> Seq<JournalEntry> {
    entries.filter(replay_pred(entries))
}

proof fn lemma_filter_step(s: Seq<JournalEntry>, i: int, pred: spec_fn(JournalEntry) -> bool)
    requires
        0 <= i < s.len(),
    ensures
        s.subrange(0, i + 1).filter(pred) == (if pred(s[i]) {
            s.subrange(0, i).filter(pred).push(s[i])
        } else {
            s.subrange(0, i).filter(pred)
        }),
{
    reveal(Seq::filter);
    assert(s.subrange(0, i + 1).drop_last() =~= s.subrange(0, i));
    assert(s.subrange(0, i + 1).last() == s[i]);
}

/// Only entries of committed transactions are ever replayed, and every
/// written inode or data entry of a committed transaction is.
pub proof fn lemma_replay_only_committed(entries: Seq<JournalEntry>)
    ensures
        forall|i: int| 0 <= i < replay_set(entries).len() ==> committed(entries, (#[trigger] replay_set(entries)[i]).tx_id),
        forall|i: int| 0 <= i < entries.len() && replayable(entries, #[trigger] entries[i])
            ==> replay_set(entries).contains(entries[i]),
{
    let pred = replay_pred(entries);
    assert forall|i: int| 0 <= i < replay_set(entries).len() implies committed(entries, (#[trigger] replay_set(entries)[i]).tx_id) by {
        entries.filter_lemma(pred);
    }
    assert forall|i: int| 0 <= i < entries.len() && replayable(entries, #[trigger] entries[i]) implies replay_set(entries).contains(entries[i]) by {
        entries.filter_lemma(pred);
        assert(pred(entries[i]));
    }
}

/// Chunks a data write of `len` bytes is split into.
pub open spec fn chunk_count(len: int) -> int {
    if len % (JOURNAL_PAYLOAD_SIZE as int) == 0 {
        len / (JOURNAL_PAYLOAD_SIZE as int)
    } else {
        len / (JOURNAL_PAYLOAD_SIZE as int) + 1
    }
}

/// Entry `e` journals chunk `k` of writing `data` at `disk_offset`.
pub open spec fn chunk_entry(e: JournalEntry, tx_id: u32, disk_offset: u64, data: Seq<u8>, k: int) -> bool {
    let start = JOURNAL_PAYLOAD_SIZE * k;
    let end = if start + JOURNAL_PAYLOAD_SIZE < data.len() { start + JOURNAL_PAYLOAD_SIZE } else { data.len() as int };
    &&& e.entry_type == ENTRY_WRITE_DATA
    &&& e.state == STATE_WRITTEN
    &&& e.tx_id == tx_id
    &&& e.disk_offset == disk_offset + start
    &&& e.payload_len == end - start
    &&& payload_holds(e.payload@, data.subrange(start, end))
}

proof fn lemma_chunk_bounds(len: int, k: int)
    requires
        0 <= len,
        0 <= k < chunk_count(len),
    ensures
        JOURNAL_PAYLOAD_SIZE * k < len,
{
    let q = len / 490;
    let r = len % 490;
    assert(len == 490 * q + r && 0 <= r < 490) by (nonlinear_arith)
        requires q == len / 490, r == len % 490, 0 <= len;
    if r == 0 {
        assert(k < q);
        assert(490 * k < 490 * q) by (nonlinear_arith)
            requires k < q;
    } else {
        assert(k <= q);
        assert(490 * k <= 490 * q) by (nonlinear_arith)
            requires k <= q;
    }
}

proof fn lemma_chunk_count_bound(len: int)
    requires
        0 <= len,
    ensures
        0 <= chunk_count(len) <= len / 490 + 1,
        len > 0 ==> chunk_count(len) >= 1,
{
    assert(len / 490 >= 0) by (nonlinear_arith)
        requires 0 <= len;
    if len > 0 && len % 490 == 0 {
        assert(len / 490 >= 1) by (nonlinear_arith)
            requires len > 0, len % 490 == 0;
    }
}

/// The journal's in-memory state: its header and the next free slot.
pub struct Journal {
    header: JournalHeader,
    next_slot: usize,
}

impl Journal {
    /// The header as currently held.
    pub closed spec fn header_state(&self) -> JournalHeader {
        self.header
    }

    /// Slots in use.
    pub closed spec fn used_slots(&self) -> nat {
        self.next_slot as nat
    }

    /// A journal with a fresh header and no entries, as formatting leaves it.
    pub fn new() -> (r: Self)
        ensures
            r.header_state() == (JournalHeader { magic: JOURNAL_MAGIC, version: 1, next_tx_id: 1, entry_count: 0 }),
            r.used_slots() == 0,
    {
        Self { header: JournalHeader::new(), next_slot: 0 }
    }

    pub fn header(&self) -> (r: &JournalHeader)
        ensures
            *r == self.header_state(),
    {
        &self.header
    }

    /// Begin a new transaction. Returns the tx_id.
    pub fn begin(&mut self) -> (r: u32)
        ensures
            r == old(self).header_state().next_tx_id,
            final(self).header_state() == (JournalHeader {
                next_tx_id: if r == u32::MAX { 0 } else { (r + 1) as u32 },
                ..old(self).header_state()
            }),
            final(self).used_slots() == old(self).used_slots(),
    {
        let id = self.header.next_tx_id;
        self.header.next_tx_id = self.header.next_tx_id.wrapping_add(1);
        id
    }

    /// The journal is getting full and needs a checkpoint.
    pub fn needs_checkpoint(&self) -> (r: bool)
        ensures
            r == (self.used_slots() >= MAX_JOURNAL_ENTRIES - 16),
    {
        self.next_slot >= MAX_JOURNAL_ENTRIES.saturating_sub(16)
    }

    /// Where the next entry goes, or an I/O error when every slot is taken.
    pub fn next_entry_offset(&self) -> (r: DiskResult<u64>)
        ensures
            r is Err <==> self.used_slots() >= MAX_JOURNAL_ENTRIES,
            r matches Err(e) ==> e is Io,
            r matches Ok(off) ==> off == JOURNAL_OFFSET + JOURNAL_HEADER_SIZE + self.used_slots() * JOURNAL_ENTRY_SIZE,
    {
        if self.next_slot >= MAX_JOURNAL_ENTRIES {
            return Err(DiskError::Io(other_io_error("journal full \u{2014} checkpoint required")));
        }
        Ok(JOURNAL_OFFSET + JOURNAL_HEADER_SIZE as u64 + (self.next_slot * JOURNAL_ENTRY_SIZE) as u64)
    }

    /// Account for an entry written at `next_entry_offset`; the header's
    /// entry count follows the slot count.
    pub fn entry_written(&mut self)
        requires
            old(self).used_slots() < MAX_JOURNAL_ENTRIES,
        ensures
            final(self).used_slots() == old(self).used_slots() + 1,
            final(self).header_state() == (JournalHeader {
                entry_count: (old(self).used_slots() + 1) as u32,
                ..old(self).header_state()
            }),
    {
        self.next_slot = self.next_slot + 1;
        self.header.entry_count = self.next_slot as u32;
    }

    /// Forget every entry, as clearing the region does.
    pub fn reset_slots(&mut self)
        ensures
            final(self).used_slots() == 0,
            final(self).header_state() == (JournalHeader { entry_count: 0, ..old(self).header_state() }),
    {
        self.next_slot = 0;
        self.header.entry_count = 0;
    }

    /// Room check for a data write of `data_len` bytes: the number of chunk
    /// entries it needs, or an I/O error when those and a commit entry do
    /// not fit in the free slots. An empty write needs none.
    pub fn check_room(&self, data_len: usize) -> (r: DiskResult<usize>)
        ensures
            data_len == 0 ==> r == Ok::<usize, DiskError>(0),
            data_len > 0 ==> (r is Err <==> chunk_count(data_len as int) + 1 > MAX_JOURNAL_ENTRIES - self.used_slots()),
            r matches Err(e) ==> e is Io,
            r matches Ok(n) ==> n == chunk_count(data_len as int),
    {
        if data_len == 0 {
            return Ok(0);
        }
        proof {
            lemma_chunk_count_bound(data_len as int);
        }
        let needed = if data_len % JOURNAL_PAYLOAD_SIZE == 0 {
            data_len / JOURNAL_PAYLOAD_SIZE
        } else {
            data_len / JOURNAL_PAYLOAD_SIZE + 1
        };
        let available = MAX_JOURNAL_ENTRIES.saturating_sub(self.next_slot);
        if needed + 1 > available {
            return Err(DiskError::Io(other_io_error("journal full: not enough free slots for data + commit")));
        }
        Ok(needed)
    }

    /// The entries that journal writing `data` at `disk_offset`, split into
    /// payload-sized chunks under one transaction id.
    pub fn data_write_entries(tx_id: u32, disk_offset: u64, data: &[u8]) -> (r: Vec<JournalEntry>)
        requires
            disk_offset + data@.len() <= u64::MAX,
        ensures
            r@.len() == chunk_count(data@.len() as int),
            forall|k: int| 0 <= k < r@.len() ==> chunk_entry(#[trigger] r@[k], tx_id, disk_offset, data@, k),
    {
        let len = data.len();
        let count = if len % JOURNAL_PAYLOAD_SIZE == 0 {
            len / JOURNAL_PAYLOAD_SIZE
        } else {
            len / JOURNAL_PAYLOAD_SIZE + 1
        };
        let mut out: Vec<JournalEntry> = Vec::new();
        let mut k: usize = 0;
        while k < count
            invariant
                len == data@.len(),
                count == chunk_count(len as int),
                disk_offset + len <= u64::MAX,
                k <= count,
                out@.len() == k,
                forall|j: int| 0 <= j < k ==> chunk_entry(#[trigger] out@[j], tx_id, disk_offset, data@, j),
            decreases count - k,
        {
            proof {
                lemma_chunk_bounds(len as int, k as int);
            }
            let start = JOURNAL_PAYLOAD_SIZE * k;
            let end = if len - start > JOURNAL_PAYLOAD_SIZE { start + JOURNAL_PAYLOAD_SIZE } else { len };
            let e = JournalEntry::data_write(tx_id, disk_offset + start as u64, slice_subrange(data, start, end));
            out.push(e);
            proof {
                assert(chunk_entry(out@[k as int], tx_id, disk_offset, data@, k as int));
            }
            k = k + 1;
        }
        out
    }

    /// Rebuild the journal from its header bytes and its entry region: the
    /// journal state and the entries to replay. A corrupt header or one with
    /// the wrong magic gives a fresh journal and nothing to replay.
    pub fn recover(hdr: &[u8; JOURNAL_HEADER_SIZE], region: &[u8]) -> (r: (Journal, Vec<JournalEntry>))
        requires
            region@.len() == MAX_JOURNAL_ENTRIES * JOURNAL_ENTRY_SIZE,
        ensures
            !header_usable(hdr@) ==> {
                &&& r.0.header_state() == (JournalHeader { magic: JOURNAL_MAGIC, version: 1, next_tx_id: 1, entry_count: 0 })
                &&& r.0.used_slots() == 0
                &&& r.1@.len() == 0
            },
            header_usable(hdr@) ==> {
                &&& parse_header(hdr@) == Ok::<JournalHeader, DiskError>(r.0.header_state())
                &&& exists|entries: Seq<JournalEntry>| #[trigger] scanned(region@, entries)
                    && r.0.used_slots() == entries.len()
                    && r.1@ == replay_set(entries)
            },
    {
        let header = match JournalHeader::from_bytes(hdr) {
            Ok(h) => {
                if h.is_valid() {
                    h
                } else {
                    return (Journal::new(), Vec::new());
                }
            },
            Err(_) => {
                return (Journal::new(), Vec::new());
            },
        };
        let mut entries: Vec<JournalEntry> = Vec::new();
        let mut i: usize = 0;
        let mut done = false;
        while i < MAX_JOURNAL_ENTRIES && !done
            invariant
                region@.len() == MAX_JOURNAL_ENTRIES * JOURNAL_ENTRY_SIZE,
                i <= MAX_JOURNAL_ENTRIES,
                entries@.len() == i,
                forall|j: int|
                    #![trigger entries@[j]]
                    #![trigger slot_live(region@, j)]
                    0 <= j < i ==> slot_live(region@, j) && entry_decodes(slot_bytes(region@, j), entries@[j]),
                done ==> i < MAX_JOURNAL_ENTRIES && !slot_live(region@, i as int),
            decreases MAX_JOURNAL_ENTRIES - i + (if done { 0int } else { 1int }),
        {
            assert(i * 512 + 512 <= 512 * 512 && i * 512 == 512 * i) by (nonlinear_arith)
                requires i < 512;
            let start = i * JOURNAL_ENTRY_SIZE;
            let buf = to_array::<JOURNAL_ENTRY_SIZE>(slice_subrange(region, start, start + JOURNAL_ENTRY_SIZE));
            assert(buf@ == slot_bytes(region@, i as int));
            match JournalEntry::from_bytes(&buf) {
                Ok(entry) => {
                    if !entry.is_free() {
                        let ghost before = entries@;
                        entries.push(entry);
                        assert forall|j: int|
                            #![trigger entries@[j]]
                            #![trigger slot_live(region@, j)]
                            0 <= j < i + 1 implies slot_live(region@, j) && entry_decodes(slot_bytes(region@, j), entries@[j]) by {
                            if j < i {
                                assert(entries@[j] == before[j]);
                            }
                        }
                        i = i + 1;
                    } else {
                        done = true;
                    }
                },
                Err(_) => {
                    done = true;
                },
            }
        }
        let ghost scanned_entries = entries@;
        assert(scanned(region@, scanned_entries));
        let mut commits_seen: HashSet<u32> = HashSet::new();
        let mut j: usize = 0;
        while j < entries.len()
            invariant
                j <= entries@.len(),
                entries@ == scanned_entries,
                forall|t: u32| commits_seen@.contains(t) <==> exists|m: int| 0 <= m < j && #[trigger] commits(scanned_entries, m, t),
            decreases entries@.len() - j,
        {
            if entries[j].entry_type == ENTRY_COMMIT && entries[j].state == STATE_WRITTEN {
                commits_seen.insert(entries[j].tx_id);
            }
            proof {
                assert forall|t: u32| commits_seen@.contains(t) <==> exists|m: int| 0 <= m < j + 1 && #[trigger] commits(scanned_entries, m, t) by {
                    if commits(scanned_entries, j as int, t) {
                        assert(commits_seen@.contains(t));
                    }
                }
            }
            j = j + 1;
        }
        let ghost pred = replay_pred(scanned_entries);
        let n = entries.len();
        let mut replay: Vec<JournalEntry> = Vec::new();
        let mut rest: Vec<JournalEntry> = entries;
        let mut k: usize = 0;
        proof {
            reveal(Seq::filter);
            assert(scanned_entries.subrange(0, 0).filter(pred) =~= Seq::<JournalEntry>::empty());
        }
        while k < n
            invariant
                n == scanned_entries.len(),
                k <= n,
                rest@ == scanned_entries.subrange(k as int, n as int),
                forall|t: u32| commits_seen@.contains(t) <==> exists|m: int| 0 <= m < n && #[trigger] commits(scanned_entries, m, t),
                pred == replay_pred(scanned_entries),
                replay@ == scanned_entries.subrange(0, k as int).filter(pred),
            decreases n - k,
        {
            let e = rest.remove(0);
            assert(e == scanned_entries[k as int]);
            assert(rest@ =~= scanned_entries.subrange(k + 1, n as int));
            proof {
                lemma_filter_step(scanned_entries, k as int, pred);
            }
            let keep = commits_seen.contains(&e.tx_id) && e.state == STATE_WRITTEN
                && (e.entry_type == ENTRY_WRITE_INODE || e.entry_type == ENTRY_WRITE_DATA);
            proof {
                assert(pred(e) == replayable(scanned_entries, e));
                if commits_seen@.contains(e.tx_id) {
                    let m = choose|m: int| 0 <= m < n && #[trigger] commits(scanned_entries, m, e.tx_id);
                    assert(committed(scanned_entries, e.tx_id));
                }
                if committed(scanned_entries, e.tx_id) {
                    let m = choose|m: int| 0 <= m < scanned_entries.len() && #[trigger] commits(scanned_entries, m, e.tx_id);
                    assert(commits_seen@.contains(e.tx_id));
                }
                assert(keep == pred(e));
            }
            if keep {
                replay.push(e);
            }
            k = k + 1;
        }
        assert(scanned_entries.subrange(0, n as int) =~= scanned_entries);
        (Journal { header, next_slot: n }, replay)
    }
}

} // verus!
