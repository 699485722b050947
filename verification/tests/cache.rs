use vexfs::cache::ArcCache;

#[test]
fn test_cache_respects_memory_limit() {
    let mut cache = ArcCache::new(1024);
    cache.insert(1, vec![0u8; 512]);
    cache.insert(2, vec![0u8; 512]);
    assert!(cache.used_bytes() <= 1024);
}

#[test]
fn test_cache_hit() {
    let mut cache = ArcCache::new(1024 * 1024);
    cache.insert(42, vec![1, 2, 3, 4]);
    let result = cache.get(42);
    assert!(result.is_some());
    assert_eq!(result.unwrap(), &vec![1, 2, 3, 4]);
}

#[test]
fn test_cache_miss() {
    let mut cache = ArcCache::new(1024 * 1024);
    assert!(cache.get(99).is_none());
}

#[test]
fn test_eviction_under_pressure() {
    let mut cache = ArcCache::new(512);
    cache.insert(1, vec![0u8; 256]);
    cache.insert(2, vec![0u8; 256]);
    cache.insert(3, vec![0u8; 256]);
    assert!(cache.used_bytes() <= 512);
}

#[test]
fn test_evicted_list_populated() {
    let mut cache = ArcCache::new(512);
    cache.insert(1, vec![0u8; 300]);
    cache.insert(2, vec![0u8; 300]);
    let evicted = cache.drain_evicted();
    assert!(!evicted.is_empty());
}

#[test]
fn test_remove_key() {
    let mut cache = ArcCache::new(1024 * 1024);
    cache.insert(5, vec![9, 8, 7]);
    assert!(cache.contains(5));
    cache.remove(5);
    assert!(!cache.contains(5));
}

#[test]
fn mod_test_update_existing() {
    let mut cache = ArcCache::new(1024 * 1024);
    cache.insert(1, vec![1, 2, 3]);
    cache.insert(1, vec![4, 5, 6]);
    assert_eq!(cache.get(1).unwrap(), &vec![4, 5, 6]);
}

#[test]
fn test_ghost_hit_adapts_p() {
    let mut cache = ArcCache::new(512);
    cache.insert(1, vec![0u8; 300]);
    cache.insert(2, vec![0u8; 300]);
    let p_before = cache.p();
    cache.get(1);
    assert!(cache.p() >= p_before);
}

#[test]
fn test_promotion_t1_to_t2() {
    let mut cache = ArcCache::new(1024 * 1024);
    cache.insert(10, vec![1, 2, 3]);
    assert!(cache.in_recent(10));
    cache.get(10);
    assert!(!cache.in_recent(10));
    assert!(cache.in_frequent(10));
}

#[test]
fn test_large_scale_no_panic() {
    let mut cache = ArcCache::new(1024 * 1024);
    for i in 0..10_000u64 {
        cache.insert(i, vec![0u8; 100]);
    }
    for i in 0..10_000u64 {
        cache.get(i);
    }
    assert!(cache.used_bytes() <= 1024 * 1024);
}

#[test]
fn ghost_hit_raises_p_by_one() {
    let mut cache = ArcCache::new(512);
    cache.insert(1, vec![0u8; 300]);
    cache.insert(2, vec![0u8; 300]);
    assert_eq!(cache.drain_evicted(), vec![1]);
    assert_eq!(cache.p(), 0);
    assert!(cache.get(1).is_none());
    assert_eq!(cache.p(), 1);
}

#[test]
fn frequent_ghost_hit_lowers_p() {
    let mut cache = ArcCache::new(512);
    cache.insert(1, vec![0u8; 300]);
    cache.insert(2, vec![0u8; 300]);
    cache.get(1);
    assert_eq!(cache.p(), 1);
    cache.get(2);
    assert!(cache.in_frequent(2));
    cache.insert(3, vec![0u8; 300]);
    assert!(!cache.contains(2));
    cache.get(2);
    assert_eq!(cache.p(), 0);
    cache.get(99);
    assert_eq!(cache.p(), 0);
}

#[test]
fn remove_returns_value_and_frees_bytes() {
    let mut cache = ArcCache::new(1024);
    cache.insert(7, vec![1, 2, 3]);
    assert_eq!(cache.used_bytes(), 3);
    assert_eq!(cache.remove(7), Some(vec![1, 2, 3]));
    assert_eq!(cache.used_bytes(), 0);
    assert_eq!(cache.remove(7), None);
}

#[test]
fn peek_candidate_only_when_full() {
    let mut cache = ArcCache::new(600);
    cache.insert(1, vec![0u8; 300]);
    assert_eq!(cache.peek_eviction_candidate(), None);
    cache.insert(2, vec![0u8; 300]);
    assert_eq!(cache.peek_eviction_candidate(), Some(1));
    cache.get(1);
    assert_eq!(cache.peek_eviction_candidate(), Some(2));
}

#[test]
fn growing_update_evicts_to_stay_under_ceiling() {
    let mut cache = ArcCache::new(1024);
    cache.insert(1, vec![0u8; 500]);
    cache.insert(2, vec![0u8; 500]);
    cache.drain_evicted();
    cache.insert(2, vec![7u8; 1000]);
    assert_eq!(cache.used_bytes(), 1000);
    assert!(cache.used_bytes() <= cache.max_bytes());
    assert!(!cache.contains(1));
    assert_eq!(cache.get(2), Some(&vec![7u8; 1000]));
    assert_eq!(cache.drain_evicted(), vec![1]);
}

#[test]
fn peeked_key_is_evicted_next() {
    let mut cache = ArcCache::new(900);
    cache.insert(1, vec![0u8; 300]);
    cache.insert(2, vec![0u8; 300]);
    cache.insert(3, vec![0u8; 300]);
    cache.get(1);
    let victim = cache.peek_eviction_candidate();
    assert_eq!(victim, Some(2));
    cache.drain_evicted();
    cache.insert(4, vec![0u8; 10]);
    assert_eq!(cache.drain_evicted(), vec![2]);
}
