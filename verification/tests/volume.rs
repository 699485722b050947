use vexfs::cache::ArcCache;
use vexfs::fs::disk::InodeRaw;
use vexfs::fs::layout::DATA_OFFSET;
use vexfs::fs::mount::{read_window, resize_zeroed, write_window, Errno, VirtualFile, ROOT_INO, SEARCH_INO};
use vexfs::fs::volume::{directory_inode, stored_bytes, stored_inode, Lookup, MountTable};

#[test]
fn read_window_clips_to_the_data() {
    let data = b"hello world";
    assert_eq!(read_window(data, 0, 5), b"hello".to_vec());
    assert_eq!(read_window(data, 6, 100), b"world".to_vec());
    assert_eq!(read_window(data, 11, 4), Vec::<u8>::new());
    assert_eq!(read_window(data, 50, 4), Vec::<u8>::new());
}

#[test]
fn write_window_grows_with_zeros_and_reads_back() {
    let mut d = b"abc".to_vec();
    write_window(&mut d, 5, b"xy");
    assert_eq!(d, vec![b'a', b'b', b'c', 0, 0, b'x', b'y']);
    assert_eq!(read_window(&d, 5, 2), b"xy".to_vec());
    write_window(&mut d, 1, b"Q");
    assert_eq!(d, vec![b'a', b'Q', b'c', 0, 0, b'x', b'y']);
}

#[test]
fn resize_cuts_or_pads() {
    let mut d = b"abcdef".to_vec();
    resize_zeroed(&mut d, 3);
    assert_eq!(d, b"abc".to_vec());
    resize_zeroed(&mut d, 5);
    assert_eq!(d, vec![b'a', b'b', b'c', 0, 0]);
}

#[test]
fn virtual_files_by_name_and_number() {
    assert_eq!(VirtualFile::by_name(".vexfs-search"), Some(VirtualFile::Search));
    assert_eq!(VirtualFile::by_name(".vexfs-telemetry.json"), Some(VirtualFile::Telemetry));
    assert_eq!(VirtualFile::by_name("notes.txt"), None);
    assert_eq!(VirtualFile::by_ino(SEARCH_INO), Some(VirtualFile::Search));
    assert_eq!(VirtualFile::Ask.name(), ".vexfs-ask");
    assert_eq!(VirtualFile::Context.ino(), 0xFFFF_FFFB);
}

#[test]
fn create_lookup_unlink() {
    let mut t = MountTable::new();
    assert_eq!(t.check_new_entry(ROOT_INO, "a.txt"), Ok(()));
    assert_eq!(t.check_new_entry(7, "a.txt"), Err(Errno::NotFound));
    let ino = t.add_entry("a.txt", 3, false, 100);
    assert_eq!(ino, 2);
    assert_eq!(t.next_inode(), 3);
    assert_eq!(t.check_new_entry(ROOT_INO, "a.txt"), Err(Errno::Exists));
    let f = t.file(ino).unwrap();
    assert!(f.dirty);
    assert_eq!(f.open_since, Some(100));
    assert_eq!(f.data_offset, DATA_OFFSET);
    assert_eq!(t.lookup(ROOT_INO, "a.txt", 200), Ok(Lookup::Stored { ino, size: 0 }));
    assert_eq!(t.file(ino).unwrap().open_since, Some(200));
    assert_eq!(t.lookup(ROOT_INO, ".vexfs-ask", 200), Ok(Lookup::Virtual(VirtualFile::Ask)));
    assert_eq!(t.lookup(5, "a.txt", 200), Err(Errno::NotFound));
    let gone = t.unlink(ROOT_INO, "a.txt").unwrap();
    assert_eq!(gone.disk_index, 3);
    assert_eq!(t.lookup(ROOT_INO, "a.txt", 300), Err(Errno::NotFound));
    assert!(t.unlink(ROOT_INO, "a.txt").is_err());
}

#[test]
fn mkdir_rmdir_and_not_a_directory() {
    let mut t = MountTable::new();
    let d = t.add_entry("docs", 1, true, 5);
    assert_eq!(t.file(d).unwrap().open_since, None);
    t.add_entry("f", 2, false, 5);
    assert_eq!(t.rmdir(ROOT_INO, "f"), Err(Errno::NotDir));
    assert_eq!(t.rmdir(ROOT_INO, "docs"), Ok(1));
    assert_eq!(t.rmdir(ROOT_INO, "docs"), Err(Errno::NotFound));
}

#[test]
fn rename_moves_the_name() {
    let mut t = MountTable::new();
    let ino = t.add_entry("old", 4, false, 1);
    t.take_dirty(ino);
    assert_eq!(t.rename(ROOT_INO, "old", ROOT_INO, "new"), Ok(()));
    assert_eq!(t.lookup(ROOT_INO, "new", 2), Ok(Lookup::Stored { ino, size: 0 }));
    assert_eq!(t.lookup(ROOT_INO, "old", 2), Err(Errno::NotFound));
    assert_eq!(t.file(ino).unwrap().name, "new");
    assert!(t.file(ino).unwrap().dirty);
    assert_eq!(t.rename(ROOT_INO, "missing", ROOT_INO, "x"), Err(Errno::NotFound));
    assert_eq!(t.rename(ROOT_INO, "new", 9, "x"), Err(Errno::NotFound));
}

#[test]
fn write_then_read_gives_the_bytes_back() {
    let mut t = MountTable::new();
    let mut cache = ArcCache::new(1 << 20);
    let ino = t.add_entry("w.txt", 0, false, 1);
    let contents = t.write(&mut cache, ino, 4, b"data", 9).unwrap();
    assert_eq!(contents, vec![0, 0, 0, 0, b'd', b'a', b't', b'a']);
    assert_eq!(read_window(&contents, 4, 4), b"data".to_vec());
    let f = t.file(ino).unwrap();
    assert_eq!(f.size, 8);
    assert_eq!(f.modified_at, Some(9));
    cache.insert(ino, contents);
    let again = t.write(&mut cache, ino, 0, b"AB", 10).unwrap();
    assert_eq!(again, vec![b'A', b'B', 0, 0, b'd', b'a', b't', b'a']);
    assert!(t.write(&mut cache, 999, 0, b"x", 1).is_none());
}

#[test]
fn set_size_marks_only_real_changes() {
    let mut t = MountTable::new();
    let ino = t.add_entry("s", 0, false, 1);
    t.take_dirty(ino);
    assert_eq!(t.set_size(ino, Some(0)), Some(false));
    assert!(!t.file(ino).unwrap().dirty);
    assert_eq!(t.set_size(ino, Some(10)), Some(true));
    assert_eq!(t.file(ino).unwrap().size, 10);
    assert!(t.file(ino).unwrap().dirty);
    assert_eq!(t.set_size(ino, None), Some(false));
    assert_eq!(t.set_size(77, Some(1)), None);
}

#[test]
fn listing_is_sorted_after_the_fixed_entries() {
    let mut t = MountTable::new();
    t.add_entry("zeta", 0, false, 1);
    t.add_entry("alpha", 1, false, 1);
    t.add_entry("mid", 2, true, 1);
    let list = t.dir_listing(ROOT_INO).unwrap();
    let names: Vec<&str> = list.iter().map(|e| e.2.as_str()).collect();
    assert_eq!(
        names,
        vec![".", "..", ".vexfs-search", ".vexfs-telemetry.json", ".vexfs-ask", ".vexfs-context", "alpha", "mid", "zeta"]
    );
    assert!(list[7].1);
    assert_eq!(t.dir_listing(5), Err(Errno::NotFound));
    assert_eq!(t.stored_entries().len(), 3);
}

#[test]
fn loading_inodes_moves_numbering_past_them() {
    let mut t = MountTable::new();
    let mut i = InodeRaw::empty();
    i.ino = 40;
    i.is_used = 1;
    i.size = 12;
    i.data_offset = DATA_OFFSET + 4096;
    i.set_name("kept.txt");
    assert!(t.add_loaded(5, &i));
    assert_eq!(t.next_inode(), 41);
    let mut bad = InodeRaw::empty();
    bad.is_used = 1;
    assert!(!t.add_loaded(6, &bad));
    assert_eq!(t.lookup(ROOT_INO, "kept.txt", 1), Ok(Lookup::Stored { ino: 40, size: 12 }));
    let f = t.file(40).unwrap();
    assert!(!f.dirty);
    assert_eq!(f.disk_index, 5);
    assert_eq!(t.old_extent(40), Some((DATA_OFFSET + 4096, 12)));
    t.set_data_offset(40, DATA_OFFSET);
    assert_eq!(t.old_extent(40), Some((DATA_OFFSET, 12)));
}

#[test]
fn durations_and_statfs_estimate() {
    let mut t = MountTable::new();
    let ino = t.add_entry("o", 0, false, 100);
    assert_eq!(t.open_duration(ino, 160), 60);
    assert_eq!(t.open_duration(ino, 50), 0);
    assert_eq!(t.open_duration(12345, 160), 0);
    assert_eq!(t.free_inode_estimate(), 1023);
    assert_eq!(t.file_count(), 1);
    assert_eq!(t.take_dirty(ino).map(|(n, i)| (n, i)), Some(("o".to_string(), 0)));
    assert_eq!(t.take_dirty(ino), None);
}

#[test]
fn records_written_for_data_and_directories() {
    let r = stored_inode(9, "f.bin", 300, DATA_OFFSET, 77);
    assert_eq!((r.ino, r.size, r.data_offset, r.is_used, r.is_dir), (9, 300, DATA_OFFSET, 1, 0));
    assert_eq!((r.created_at, r.modified_at), (77, 77));
    assert_eq!(r.get_name(), "f.bin");
    let d = directory_inode(10, "dir");
    assert_eq!((d.ino, d.is_dir, d.is_used, d.size), (10, 1, 1, 0));
    assert_eq!(d.get_name(), "dir");
    let plain = vec![7u8; 2000];
    assert_eq!(stored_bytes(false, &plain), plain);
    let squeezed = stored_bytes(true, &plain);
    assert!(squeezed.len() < plain.len());
    assert_eq!(vexfs::fs::compress::decompress(&squeezed), plain);
    assert_eq!(stored_bytes(true, b"short"), b"short".to_vec());
}
