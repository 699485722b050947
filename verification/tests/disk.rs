use vexfs::fs::disk::{InodeRaw, SnapshotRaw, SuperblockRaw, INODE_BYTES, SNAPSHOT_BYTES, crc32, verify_crc32, u64_to_le, le_to_u64, u32_to_le, le_to_u32, DiskError};

#[test]
fn test_superblock_roundtrip() {
    let sb = SuperblockRaw {
        magic: 0x5645584653000001,
        version: 1,
        block_size: 4096,
        total_blocks: 25600,
        free_blocks: 25000,
        inode_count: 3,
        next_data_offset: 1_048_576,
        created_at: 1_700_000_000,
        crc32: 0,
    };
    let bytes = sb.to_bytes();
    let sb2 = SuperblockRaw::from_bytes(&bytes).unwrap();
    assert_eq!(sb.magic, sb2.magic);
    assert_eq!(sb.total_blocks, sb2.total_blocks);
    assert_eq!(sb.next_data_offset, sb2.next_data_offset);
}

#[test]
fn test_superblock_bad_checksum() {
    let sb = SuperblockRaw {
        magic: 0x5645584653000001,
        version: 1,
        block_size: 4096,
        total_blocks: 25600,
        free_blocks: 25000,
        inode_count: 0,
        next_data_offset: 0,
        created_at: 0,
        crc32: 0,
    };
    let mut bytes = sb.to_bytes();
    bytes[0] ^= 0xFF;
    assert!(SuperblockRaw::from_bytes(&bytes).is_err());
}

#[test]
fn test_inode_roundtrip() {
    let mut inode = InodeRaw::empty();
    inode.ino = 42;
    inode.size = 1024;
    inode.data_offset = 65536;
    inode.is_used = 1;
    inode.set_name("hello_world.rs");

    let bytes = inode.to_bytes();
    assert_eq!(bytes.len(), INODE_BYTES);
    let inode2 = InodeRaw::from_bytes(&bytes).unwrap();
    assert_eq!(inode2.ino, 42);
    assert_eq!(inode2.size, 1024);
    assert_eq!(inode2.get_name(), "hello_world.rs");
}

#[test]
fn test_inode_bad_checksum() {
    let mut inode = InodeRaw::empty();
    inode.ino = 1;
    inode.is_used = 1;
    inode.set_name("file.txt");
    let mut bytes = inode.to_bytes();
    bytes[5] ^= 0xFF;
    assert!(InodeRaw::from_bytes(&bytes).is_err());
}

#[test]
fn test_snapshot_roundtrip() {
    let mut snap = SnapshotRaw::empty();
    snap.magic = 0x534E415000000001;
    snap.ino = 5;
    snap.size = 2048;
    snap.id = 7;
    snap.is_used = 1;
    snap.set_name("config.toml");

    let bytes = snap.to_bytes();
    assert_eq!(bytes.len(), SNAPSHOT_BYTES);
    let snap2 = SnapshotRaw::from_bytes(&bytes).unwrap();
    assert_eq!(snap2.ino, 5);
    assert_eq!(snap2.id, 7);
    assert_eq!(snap2.get_name(), "config.toml");
}

#[test]
fn test_inode_name_max_length() {
    let mut inode = InodeRaw::empty();
    inode.is_used = 1;
    let long_name = "a".repeat(300);
    inode.set_name(&long_name);
    let bytes = inode.to_bytes();
    let inode2 = InodeRaw::from_bytes(&bytes).unwrap();
    assert!(inode2.get_name().len() <= 207);
}

#[test]
fn disk_crc32_known_value() {
    // CRC-32 (IEEE) of "123456789" is 0xCBF43926.
    assert_eq!(crc32(b"123456789"), 0xCBF4_3926);
    assert!(verify_crc32(b"123456789", 0xCBF4_3926).is_ok());
    match verify_crc32(b"123456789", 7) {
        Err(DiskError::BadChecksum { expected, got }) => {
            assert_eq!(expected, 7);
            assert_eq!(got, 0xCBF4_3926);
        }
        _ => panic!("expected a checksum error"),
    }
}

#[test]
fn disk_le_encodings() {
    assert_eq!(u64_to_le(0x0102_0304_0506_0708), [8, 7, 6, 5, 4, 3, 2, 1]);
    assert_eq!(le_to_u64(&[8, 7, 6, 5, 4, 3, 2, 1]), 0x0102_0304_0506_0708);
    assert_eq!(u32_to_le(0xA1B2_C3D4), [0xD4, 0xC3, 0xB2, 0xA1]);
    assert_eq!(le_to_u32(&[0xD4, 0xC3, 0xB2, 0xA1]), 0xA1B2_C3D4);
}

#[test]
fn disk_inode_layout_and_validity() {
    let mut inode = InodeRaw::empty();
    assert!(!inode.is_valid());
    inode.is_used = 1;
    assert!(!inode.is_valid());
    inode.set_name(" x");
    assert!(!inode.is_valid());
    inode.set_name("x");
    assert!(inode.is_valid());
    inode.ino = 0x0102;
    inode.is_dir = 1;
    let b = inode.to_bytes();
    assert_eq!(b[0], 0x02);
    assert_eq!(b[1], 0x01);
    assert_eq!(b[40], 1);
    assert_eq!(b[41], 1);
    assert_eq!(b[46], 0);
    assert_eq!(b[47], 0);
    assert_eq!(b[48], b'x');
    let stored = u32::from_le_bytes([b[42], b[43], b[44], b[45]]);
    assert_eq!(stored, crc32(&b[..42]));
}

#[test]
fn disk_get_name_rejects_undisplayable_bytes() {
    let mut inode = InodeRaw::empty();
    inode.set_name("bad/name");
    assert_eq!(inode.get_name(), "");
    inode.set_name("héllo");
    assert_eq!(inode.get_name(), "");
    inode.set_name("ok name-1_2.txt");
    assert_eq!(inode.get_name(), "ok name-1_2.txt");
}

#[test]
fn disk_snapshot_validity() {
    let mut snap = SnapshotRaw::empty();
    snap.magic = 9;
    snap.is_used = 1;
    assert!(snap.is_valid(9));
    assert!(!snap.is_valid(8));
    snap.is_used = 2;
    assert!(!snap.is_valid(9));
    let mut b = snap.to_bytes();
    b[44] ^= 1;
    assert!(SnapshotRaw::from_bytes(&b).is_err());
}
