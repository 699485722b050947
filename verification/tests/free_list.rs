use vexfs::fs::free_list::{FreeExtent, FreeList, FREE_LIST_HEADER, MAX_PERSISTED_EXTENTS};

fn load_image(image: &[u8]) -> FreeList {
    let mut hdr = [0u8; FREE_LIST_HEADER];
    hdr.copy_from_slice(&image[..FREE_LIST_HEADER]);
    match FreeList::stored_count(&hdr) {
        None => FreeList::new(),
        Some(n) => {
            let recs = &image[FREE_LIST_HEADER..FREE_LIST_HEADER + n * 16];
            FreeList::from_disk_parts(&hdr, recs)
        }
    }
}

#[test]
fn test_alloc_and_free() {
    let mut fl = FreeList::new();
    fl.free(4096, 1024);
    fl.free(8192, 2048);
    assert_eq!(fl.len(), 2);

    let addr = fl.allocate(512).unwrap();
    assert!(addr == 4096 || addr == 8192);
}

#[test]
fn test_best_fit() {
    let mut fl = FreeList::new();
    fl.free(100_000, 4096);
    fl.free(200_000, 512);
    let addr = fl.allocate(512).unwrap();
    assert_eq!(addr, 200_000);
}

#[test]
fn test_merge_adjacent() {
    let mut fl = FreeList::new();
    fl.free(4096, 512);
    fl.free(4608, 512);
    assert_eq!(fl.len(), 1);
    assert_eq!(fl.extents()[0].offset, 4096);
    assert_eq!(fl.extents()[0].length, 1024);
}

#[test]
fn test_persist_and_load() {
    let mut fl = FreeList::new();
    fl.free(65536, 4096);
    fl.free(131072, 8192);
    let image = fl.to_disk_image();

    let fl2 = load_image(&image);
    assert_eq!(fl2.len(), 2);
    assert_eq!(fl2.total_free_bytes(), 4096 + 8192);
}

#[test]
fn test_load_empty() {
    let image = vec![0u8; 8192 - 512];
    let fl = load_image(&image);
    assert!(fl.is_empty());
}

#[test]
fn test_rebuild_from_inodes() {
    let used = vec![(65536u64, 4096u64), (131072, 8192)];
    let fl = FreeList::rebuild_from_inodes(&used, 1_048_576, 65536);
    assert!(!fl.is_empty());
    assert!(fl.extents().iter().any(|e| e.offset == 65536 + 4096));
}

#[test]
fn test_remainder_returned_on_partial_alloc() {
    let mut fl = FreeList::new();
    fl.free(4096, 8192);
    let addr = fl.allocate(512).unwrap();
    assert_eq!(addr, 4096);
    assert!(fl.extents().iter().any(|e| e.offset == 4096 + 512 && e.length == 8192 - 512));
}

#[test]
fn free_overlapping_extents_merge_into_one() {
    let mut fl = FreeList::new();
    fl.free(1000, 500);
    fl.free(1200, 1000);
    fl.free(5000, 10);
    assert_eq!(fl.extents(), &[FreeExtent::new(1000, 1200), FreeExtent::new(5000, 10)][..]);
}

#[test]
fn free_bridging_extent_joins_neighbours() {
    let mut fl = FreeList::new();
    fl.free(3000, 100);
    fl.free(1000, 100);
    fl.free(1100, 1900);
    assert_eq!(fl.extents(), &[FreeExtent::new(1000, 2100)][..]);
}

#[test]
fn free_ignores_zero_offset_and_zero_length() {
    let mut fl = FreeList::new();
    fl.free(0, 100);
    fl.free(100, 0);
    assert!(fl.is_empty());
}

#[test]
fn free_ignored_when_list_full() {
    let mut fl = FreeList::new();
    for i in 0..MAX_PERSISTED_EXTENTS as u64 {
        fl.free(1000 + i * 100, 10);
    }
    assert_eq!(fl.len(), MAX_PERSISTED_EXTENTS);
    fl.free(1_000_000, 10);
    assert_eq!(fl.len(), MAX_PERSISTED_EXTENTS);
    assert!(!fl.extents().iter().any(|e| e.offset == 1_000_000));
}

#[test]
fn allocate_none_when_nothing_fits() {
    let mut fl = FreeList::new();
    fl.free(4096, 100);
    assert_eq!(fl.allocate(200), None);
    assert_eq!(fl.len(), 1);
}

#[test]
fn allocate_small_remainder_dropped() {
    let mut fl = FreeList::new();
    fl.free(4096, 1000);
    assert_eq!(fl.allocate(600), Some(4096));
    assert!(fl.is_empty());
}

#[test]
fn allocate_prefers_first_of_equal_best_fits() {
    let mut fl = FreeList::new();
    fl.free(50_000, 600);
    fl.free(10_000, 600);
    fl.free(90_000, 4000);
    // sorted by offset after merging: 10_000 comes first
    assert_eq!(fl.allocate(600), Some(10_000));
}

#[test]
fn rebuild_with_no_used_extents_frees_everything() {
    let fl = FreeList::rebuild_from_inodes(&[], 1_048_576, 65536);
    assert_eq!(fl.extents(), &[FreeExtent::new(65536, 1_048_576 - 65536)][..]);
    let fl = FreeList::rebuild_from_inodes(&[], 1000, 65536);
    assert_eq!(fl.extents(), &[FreeExtent::new(65536, 0)][..]);
}

#[test]
fn rebuild_frees_exact_gaps() {
    let used = vec![(131072u64, 8192u64), (65536, 4096), (70000, 100)];
    let fl = FreeList::rebuild_from_inodes(&used, 1_048_576, 65536);
    assert_eq!(
        fl.extents(),
        &[
            FreeExtent::new(69632, 70000 - 69632),
            FreeExtent::new(70100, 131072 - 70100),
            FreeExtent::new(139264, 1_048_576 - 139264),
        ][..]
    );
    assert_eq!(fl.total_free_bytes(), 1_048_576 - 65536 - 4096 - 100 - 8192);
}

#[test]
fn extent_bytes_roundtrip() {
    let e = FreeExtent::new(0x0102_0304_0506_0708, 42);
    let b = e.to_bytes();
    assert_eq!(b[0], 0x08);
    assert_eq!(b[8], 42);
    assert_eq!(FreeExtent::from_bytes(&b), e);
}

#[test]
fn corrupt_image_loads_empty() {
    let mut fl = FreeList::new();
    fl.free(65536, 4096);
    let mut image = fl.to_disk_image();
    let last = image.len() - 1;
    image[last] ^= 0xff;
    assert!(load_image(&image).is_empty());
    let mut hdr = [0u8; FREE_LIST_HEADER];
    hdr.copy_from_slice(&image[..FREE_LIST_HEADER]);
    assert_eq!(FreeList::stored_count(&hdr), Some(1));
    assert!(FreeList::from_disk_parts(&hdr, &image[FREE_LIST_HEADER..FREE_LIST_HEADER + 8]).is_empty());
}

#[test]
fn freeing_a_disjoint_range_adds_its_length() {
    let mut fl = FreeList::new();
    fl.free(4096, 1024);
    fl.free(8192, 2048);
    let before = fl.total_free_bytes();
    fl.free(5120, 3072);
    assert_eq!(fl.total_free_bytes(), before + 3072);
    assert_eq!(fl.len(), 1);
    fl.free(20_000, 10);
    assert_eq!(fl.total_free_bytes(), before + 3072 + 10);
}
