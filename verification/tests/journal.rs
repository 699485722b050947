use vexfs::fs::journal::{
    Journal, JournalEntry, JournalHeader, ENTRY_COMMIT, ENTRY_WRITE_DATA, ENTRY_WRITE_INODE,
    JOURNAL_ENTRY_SIZE, JOURNAL_HEADER_SIZE, JOURNAL_MAGIC, JOURNAL_OFFSET, JOURNAL_PAYLOAD_SIZE,
    MAX_JOURNAL_ENTRIES, STATE_WRITTEN,
};

/// An in-memory journal region standing in for the disk image.
struct Region {
    hdr: [u8; JOURNAL_HEADER_SIZE],
    slots: Vec<u8>,
}

impl Region {
    fn format() -> (Journal, Region) {
        let j = Journal::new();
        let r = Region { hdr: j.header().to_bytes(), slots: vec![0u8; MAX_JOURNAL_ENTRIES * JOURNAL_ENTRY_SIZE] };
        (j, r)
    }

    fn write(&mut self, j: &mut Journal, e: &JournalEntry) -> Result<(), ()> {
        let off = j.next_entry_offset().map_err(|_| ())?;
        let at = (off - JOURNAL_OFFSET) as usize - JOURNAL_HEADER_SIZE;
        self.slots[at..at + JOURNAL_ENTRY_SIZE].copy_from_slice(&e.to_bytes());
        j.entry_written();
        self.hdr = j.header().to_bytes();
        Ok(())
    }

    fn open(&self) -> (Journal, Vec<JournalEntry>) {
        Journal::recover(&self.hdr, &self.slots)
    }
}

#[test]
fn test_journal_entry_roundtrip() {
    let mut entry = JournalEntry::empty();
    entry.entry_type = ENTRY_WRITE_INODE;
    entry.state = STATE_WRITTEN;
    entry.tx_id = 42;
    entry.disk_offset = 7;
    entry.payload_len = 8;
    entry.payload[..8].copy_from_slice(b"testdata");

    let bytes = entry.to_bytes();
    let entry2 = JournalEntry::from_bytes(&bytes).unwrap();
    assert_eq!(entry2.tx_id, 42);
    assert_eq!(entry2.disk_offset, 7);
    assert_eq!(&entry2.payload[..8], b"testdata");
}

#[test]
fn test_disk_offset_u64_roundtrip() {
    let mut entry = JournalEntry::empty();
    entry.entry_type = ENTRY_WRITE_DATA;
    entry.state = STATE_WRITTEN;
    entry.tx_id = 1;
    entry.disk_offset = 0x0000_0002_FFFF_0000;
    entry.payload_len = 4;
    entry.payload[..4].copy_from_slice(b"hi!!");

    let bytes = entry.to_bytes();
    let decoded = JournalEntry::from_bytes(&bytes).unwrap();
    assert_eq!(decoded.disk_offset, 0x0000_0002_FFFF_0000);
}

#[test]
fn test_journal_format_and_open() {
    let (_j, region) = Region::format();
    let (journal, to_replay) = region.open();
    assert!(journal.header().is_valid());
    assert!(to_replay.is_empty());
}

#[test]
fn test_commit_marks_replay_entries() {
    let (mut journal, mut region) = Region::format();
    let tx = journal.begin();
    let inode_data = vec![0xABu8; 256];
    region.write(&mut journal, &JournalEntry::inode_write(tx, 3, &inode_data)).unwrap();
    region.write(&mut journal, &JournalEntry::commit(tx)).unwrap();

    let (_j2, to_replay) = region.open();
    assert_eq!(to_replay.len(), 1);
    assert_eq!(to_replay[0].tx_id, tx);
    assert_eq!(to_replay[0].entry_type, ENTRY_WRITE_INODE);
}

#[test]
fn test_uncommitted_tx_not_replayed() {
    let (mut journal, mut region) = Region::format();
    let tx = journal.begin();
    region.write(&mut journal, &JournalEntry::inode_write(tx, 2, &[0u8; 256])).unwrap();
    let (_j2, to_replay) = region.open();
    assert!(to_replay.is_empty(), "uncommitted tx must not be replayed");
}

#[test]
fn test_large_write_split_into_chunks() {
    let (mut journal, mut region) = Region::format();
    let tx = journal.begin();
    let big_data = vec![0xCDu8; 3072];
    let needed = journal.check_room(big_data.len()).unwrap();
    let entries = Journal::data_write_entries(tx, 0x10000, &big_data);
    assert_eq!(needed, entries.len());
    for e in &entries {
        region.write(&mut journal, e).unwrap();
    }
    assert_eq!(entries.len(), big_data.len().div_ceil(JOURNAL_PAYLOAD_SIZE));
    region.write(&mut journal, &JournalEntry::commit(tx)).unwrap();

    let (_j2, to_replay) = region.open();
    assert_eq!(to_replay.len(), entries.len());
    for entry in &to_replay {
        assert_eq!(entry.entry_type, ENTRY_WRITE_DATA);
        assert_eq!(entry.tx_id, tx);
    }
    let mut expected_offset = 0x10000u64;
    for entry in &to_replay {
        assert_eq!(entry.disk_offset, expected_offset);
        expected_offset += entry.payload_len as u64;
    }
}

#[test]
fn test_large_write_data_integrity() {
    let (mut journal, mut region) = Region::format();
    let tx = journal.begin();
    let mut big_data = Vec::new();
    for i in 0u8..=255 {
        big_data.extend(std::iter::repeat(i).take(20));
    }
    for e in &Journal::data_write_entries(tx, 0, &big_data) {
        region.write(&mut journal, e).unwrap();
    }
    region.write(&mut journal, &JournalEntry::commit(tx)).unwrap();
    let (_j2, to_replay) = region.open();
    let mut reassembled = Vec::new();
    for entry in &to_replay {
        reassembled.extend_from_slice(&entry.payload[..entry.payload_len as usize]);
    }
    assert_eq!(reassembled, big_data);
}

#[test]
fn test_multiple_transactions_only_committed_replayed() {
    let (mut journal, mut region) = Region::format();
    let tx1 = journal.begin();
    region.write(&mut journal, &JournalEntry::inode_write(tx1, 0, &[0xAAu8; 256])).unwrap();
    region.write(&mut journal, &JournalEntry::commit(tx1)).unwrap();
    let tx2 = journal.begin();
    region.write(&mut journal, &JournalEntry::inode_write(tx2, 1, &[0xBBu8; 256])).unwrap();

    let (j, to_replay) = region.open();
    assert_eq!(to_replay.len(), 1);
    assert_eq!(to_replay[0].tx_id, tx1);
    assert!(!j.needs_checkpoint());
}

#[test]
fn test_journal_full_returns_error() {
    let (mut journal, mut region) = Region::format();
    let mut failed = false;
    for _ in 0..300 {
        let tx = journal.begin();
        if region.write(&mut journal, &JournalEntry::data_write(tx, 0, &[0u8; 4])).is_err() {
            failed = true;
            break;
        }
        if region.write(&mut journal, &JournalEntry::commit(tx)).is_err() {
            failed = true;
            break;
        }
    }
    assert!(failed, "expected journal-full error");
    assert!(journal.needs_checkpoint());
    assert!(journal.check_room(1).is_err());
}

#[test]
fn test_journal_clear() {
    let (mut journal, mut region) = Region::format();
    let tx = journal.begin();
    region.write(&mut journal, &JournalEntry::inode_write(tx, 0, &[0u8; 256])).unwrap();
    region.write(&mut journal, &JournalEntry::commit(tx)).unwrap();
    journal.reset_slots();
    region.hdr = journal.header().to_bytes();
    region.slots = vec![0u8; MAX_JOURNAL_ENTRIES * JOURNAL_ENTRY_SIZE];
    let (_j2, to_replay) = region.open();
    assert!(to_replay.is_empty());
}

#[test]
fn header_roundtrip_and_bad_checksum() {
    let h = JournalHeader { magic: JOURNAL_MAGIC, version: 1, next_tx_id: 77, entry_count: 5 };
    let mut b = h.to_bytes();
    assert_eq!(JournalHeader::from_bytes(&b).unwrap(), h);
    b[12] ^= 1;
    assert!(JournalHeader::from_bytes(&b).is_err());
}

#[test]
fn corrupt_header_gives_fresh_journal() {
    let (mut journal, mut region) = Region::format();
    let tx = journal.begin();
    region.write(&mut journal, &JournalEntry::inode_write(tx, 0, &[1u8; 8])).unwrap();
    region.write(&mut journal, &JournalEntry::commit(tx)).unwrap();
    region.hdr[0] ^= 0xff;
    let (j, to_replay) = region.open();
    assert!(to_replay.is_empty());
    assert_eq!(j.header().next_tx_id, 1);
}

#[test]
fn corrupt_entry_stops_the_scan() {
    let (mut journal, mut region) = Region::format();
    let tx = journal.begin();
    region.write(&mut journal, &JournalEntry::inode_write(tx, 0, &[1u8; 8])).unwrap();
    region.write(&mut journal, &JournalEntry::commit(tx)).unwrap();
    // damage the payload of the first entry: its checksum no longer matches
    region.slots[22] ^= 0xff;
    let (j, to_replay) = region.open();
    assert!(to_replay.is_empty());
    assert!(JournalEntry::from_bytes(&region.slots[..JOURNAL_ENTRY_SIZE].try_into().unwrap()).is_err());
    assert!(!j.needs_checkpoint());
}

#[test]
fn begin_wraps_transaction_ids() {
    let mut hdr = JournalHeader::new();
    hdr.next_tx_id = u32::MAX;
    let region_hdr = hdr.to_bytes();
    let slots = vec![0u8; MAX_JOURNAL_ENTRIES * JOURNAL_ENTRY_SIZE];
    let (mut j, _) = Journal::recover(&region_hdr, &slots);
    assert_eq!(j.begin(), u32::MAX);
    assert_eq!(j.begin(), 0);
}

#[test]
fn chunk_sizes_and_offsets() {
    let data: Vec<u8> = (0..1000u32).map(|i| i as u8).collect();
    let entries = Journal::data_write_entries(9, 100, &data);
    assert_eq!(entries.len(), 3);
    assert_eq!(entries[0].payload_len, 490);
    assert_eq!(entries[1].payload_len, 490);
    assert_eq!(entries[2].payload_len, 20);
    assert_eq!(entries[2].disk_offset, 1080);
    assert_eq!(&entries[2].payload[..20], &data[980..]);
    assert!(entries[2].payload[20..].iter().all(|b| *b == 0));
    assert!(Journal::data_write_entries(9, 100, &[]).is_empty());
    let (j, _) = Region::format();
    assert_eq!(j.check_room(0).unwrap(), 0);
    assert_eq!(j.check_room(490).unwrap(), 1);
    assert_eq!(j.check_room(491).unwrap(), 2);
    assert!(j.check_room(511 * 490).is_ok());
    assert!(j.check_room(511 * 490 + 1).is_err());
}

#[test]
fn entry_type_of_commit() {
    let c = JournalEntry::commit(5);
    assert_eq!(c.entry_type, ENTRY_COMMIT);
    assert!(!c.is_free());
    assert!(JournalEntry::empty().is_free());
}

#[test]
fn test_single_chunk_write_compat() {
    let (mut journal, mut region) = Region::format();
    let tx = journal.begin();
    region.write(&mut journal, &JournalEntry::data_write(tx, 0x8000, &[0x42u8; 100])).unwrap();
    region.write(&mut journal, &JournalEntry::commit(tx)).unwrap();

    let (_j, to_replay) = region.open();
    assert_eq!(to_replay.len(), 1);
    assert_eq!(to_replay[0].disk_offset, 0x8000);
    assert_eq!(to_replay[0].payload_len, 100);
}
