use toposaic::cache::{
    hash_bytes, hash_u32, hash_u64, piece_cache_key, CacheKey, PieceCacheKey, PreparedGeometryCache, FNV_OFFSET,
    MAX_CACHE_BYTES, ORDER_COMPACTION_MULTIPLIER, ORDER_COMPACTION_SLACK,
};
use toposaic::timing::{elapsed_us, micros_as_u64};

#[test]
fn fnv_hashes_match_the_published_vectors() {
    let mut state = FNV_OFFSET;
    hash_bytes(&mut state, b"");
    assert_eq!(state, 0xcbf2_9ce4_8422_2325);
    hash_bytes(&mut state, b"a");
    assert_eq!(state, 0xaf63_dc4c_8601_ec8c);
    let mut foobar = FNV_OFFSET;
    hash_bytes(&mut foobar, b"foobar");
    assert_eq!(foobar, 0x8594_4171_f739_67e8);
}

#[test]
fn integers_hash_as_their_little_endian_bytes() {
    let mut by_int = FNV_OFFSET;
    hash_u32(&mut by_int, 0x0403_0201);
    let mut by_bytes = FNV_OFFSET;
    hash_bytes(&mut by_bytes, &[1, 2, 3, 4]);
    assert_eq!(by_int, by_bytes);
    let mut wide = FNV_OFFSET;
    hash_u64(&mut wide, 7);
    let mut wide_bytes = FNV_OFFSET;
    hash_bytes(&mut wide_bytes, &7u64.to_le_bytes());
    assert_eq!(wide, wide_bytes);
}

#[test]
fn piece_keys_depend_on_the_frame() {
    let outline = vec![(0.0f32.to_bits(), 0.0f32.to_bits()), (20.0f32.to_bits(), 0.0f32.to_bits())];
    let frame = [0.0f32.to_bits(), 0.0f32.to_bits(), 20.0f32.to_bits(), 20.0f32.to_bits()];
    let key = piece_cache_key(9, frame, &outline);
    assert_eq!(key, piece_cache_key(9, frame, &outline));
    let moved = [20.0f32.to_bits(), 0.0f32.to_bits(), 40.0f32.to_bits(), 20.0f32.to_bits()];
    assert_ne!(key.piece, piece_cache_key(9, moved, &outline).piece);
    assert_eq!(piece_cache_key(3, frame, &outline).surface, 3);
    let mut manual = FNV_OFFSET;
    for value in frame {
        hash_u32(&mut manual, value);
    }
    hash_u64(&mut manual, 2);
    for point in &outline {
        hash_u32(&mut manual, point.0);
        hash_u32(&mut manual, point.1);
    }
    assert_eq!(key.piece, manual);
}

fn key(n: u64) -> CacheKey {
    CacheKey::Ribbons(PieceCacheKey { surface: n, piece: n })
}

#[test]
fn repeated_cache_hits_keep_lru_metadata_bounded() {
    let cache_key = key(1);
    let mut cache: PreparedGeometryCache<u32> = PreparedGeometryCache::new();
    cache.insert(cache_key, 5, 0);

    for _ in 0..10_000 {
        cache.touch(cache_key);
    }

    assert!(
        cache.order_len()
            <= cache
                .entry_count()
                .saturating_mul(ORDER_COMPACTION_MULTIPLIER)
                .saturating_add(ORDER_COMPACTION_SLACK),
        "{} LRU records for {} live entries",
        cache.order_len(),
        cache.entry_count()
    );
}

#[test]
fn stored_values_are_found_again() {
    let mut cache: PreparedGeometryCache<&str> = PreparedGeometryCache::new();
    cache.insert(key(1), "one", 10);
    cache.insert(CacheKey::Buildings(PieceCacheKey { surface: 1, piece: 1 }, 7), "buildings", 10);
    assert_eq!(cache.lookup(key(1)), Some(&"one"));
    assert_eq!(cache.lookup(key(2)), None);
    cache.insert(key(1), "replaced", 20);
    assert_eq!(cache.lookup(key(1)), Some(&"replaced"));
    assert_eq!(cache.entry_count(), 2);
    assert_eq!(cache.byte_total(), 30);
}

#[test]
fn eviction_removes_the_least_recently_used_first() {
    let mut cache: PreparedGeometryCache<u64> = PreparedGeometryCache::new();
    let third = MAX_CACHE_BYTES / 3;
    cache.insert(key(1), 1, third);
    cache.insert(key(2), 2, third);
    cache.insert(key(3), 3, third);
    cache.touch(key(1));
    cache.insert(key(4), 4, third);
    assert_eq!(cache.lookup(key(2)), None);
    assert_eq!(cache.lookup(key(1)), Some(&1));
    assert_eq!(cache.lookup(key(3)), Some(&3));
    assert_eq!(cache.lookup(key(4)), Some(&4));
    assert!(cache.byte_total() <= MAX_CACHE_BYTES);
}

#[test]
fn oversized_values_are_not_stored() {
    let mut cache: PreparedGeometryCache<u8> = PreparedGeometryCache::new();
    cache.insert(key(1), 1, MAX_CACHE_BYTES + 1);
    assert_eq!(cache.entry_count(), 0);
    cache.insert(key(1), 1, MAX_CACHE_BYTES);
    assert_eq!(cache.entry_count(), 1);
    cache.clear_for_tests();
    assert_eq!(cache.entry_count(), 0);
    assert_eq!(cache.order_len(), 0);
}

#[test]
fn elapsed_time_saturates_at_u64() {
    assert_eq!(micros_as_u64(5), 5);
    assert_eq!(micros_as_u64(u128::MAX), u64::MAX);
    let started = std::time::Instant::now();
    let first = elapsed_us(started);
    let second = elapsed_us(started);
    assert!(second >= first);
}

#[test]
fn touching_a_missing_key_records_nothing() {
    let mut cache: PreparedGeometryCache<u8> = PreparedGeometryCache::new();
    cache.insert(key(1), 1, 4);
    assert_eq!(cache.order_len(), 1);
    cache.touch(key(2));
    assert_eq!(cache.order_len(), 1);
    assert_eq!(cache.clock(), 2);
    cache.touch(key(1));
    assert_eq!(cache.order_len(), 2);
}

#[test]
fn eviction_pops_records_without_compacting_again() {
    let mut cache: PreparedGeometryCache<u8> = PreparedGeometryCache::new();
    let quarter = MAX_CACHE_BYTES / 4;
    cache.insert(key(1), 1, quarter);
    cache.insert(key(2), 2, quarter);
    cache.insert(key(3), 3, quarter);
    cache.insert(key(4), 4, 0);
    while cache.order_len() < 4 * ORDER_COMPACTION_MULTIPLIER + ORDER_COMPACTION_SLACK {
        cache.touch(key(4));
    }
    assert_eq!(cache.order_len(), 80);
    cache.insert(key(5), 5, MAX_CACHE_BYTES / 2 + 1);
    assert_eq!(cache.lookup(key(1)), None);
    assert_eq!(cache.lookup(key(2)), None);
    assert_eq!(cache.entry_count(), 3);
    // Eviction only pops; the log stays within what compaction allowed for
    // the five entries held when the value was stored.
    assert_eq!(cache.order_len(), 79);
    assert!(cache.order_len() > 3 * ORDER_COMPACTION_MULTIPLIER + ORDER_COMPACTION_SLACK);
    assert!(cache.order_len() <= 5 * ORDER_COMPACTION_MULTIPLIER + ORDER_COMPACTION_SLACK);
}

#[test]
fn refused_values_leave_the_byte_total_alone() {
    let mut cache: PreparedGeometryCache<u8> = PreparedGeometryCache::new();
    cache.insert(key(1), 1, 10);
    cache.insert(key(2), 2, MAX_CACHE_BYTES + 1);
    assert_eq!(cache.byte_total(), 10);
    assert_eq!(cache.entry_count(), 1);
}
