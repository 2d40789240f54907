use universe_wasm::ForceCache;

#[test]
fn empty_cache_misses() {
    let mut c: ForceCache<[i32; 3]> = ForceCache::new();
    assert_eq!(c.len(), 0);
    assert_eq!(c.lookup(42), None);
    assert_eq!(c.hits(), 0);
    assert_eq!(c.misses(), 0);
}

#[test]
fn lookup_after_store_returns_value() {
    let mut c: ForceCache<[i32; 3]> = ForceCache::new();
    c.store(7, [1, 2, 3]);
    assert_eq!(c.misses(), 1);
    assert_eq!(c.lookup(7), Some([1, 2, 3]));
    assert_eq!(c.hits(), 1);
    assert_eq!(c.lookup(8), None);
    assert_eq!(c.hits(), 1);
    assert!(c.contains(7));
    assert!(!c.contains(8));
    c.store(8, [4, 5, 6]);
    assert_eq!(c.lookup(8), Some([4, 5, 6]));
    assert_eq!(c.lookup(7), Some([1, 2, 3]));
    assert_eq!(c.len(), 2);
    assert_eq!(c.misses(), 2);
    assert_eq!(c.hits(), 3);
}

#[test]
fn clear_empties_and_zeroes() {
    let mut c: ForceCache<u8> = ForceCache::new();
    c.store(1, 10);
    c.store(2, 20);
    assert_eq!(c.lookup(2), Some(20));
    c.clear();
    assert_eq!(c.len(), 0);
    assert_eq!(c.hits(), 0);
    assert_eq!(c.misses(), 0);
    assert_eq!(c.lookup(1), None);
}

#[test]
fn reset_counters_keeps_entries() {
    let mut c: ForceCache<u8> = ForceCache::new();
    c.store(1, 10);
    assert_eq!(c.lookup(1), Some(10));
    c.reset_counters();
    assert_eq!(c.hits(), 0);
    assert_eq!(c.misses(), 0);
    assert_eq!(c.len(), 1);
    assert_eq!(c.lookup(1), Some(10));
}

#[test]
fn size_equals_misses_from_empty() {
    let mut c: ForceCache<u32> = ForceCache::new();
    for key in [3u64, 9, 3, 27, 9, 3] {
        if c.lookup(key).is_none() {
            c.store(key, key as u32 * 2);
        }
        assert_eq!(c.len(), c.misses() as usize);
    }
    assert_eq!(c.misses(), 3);
    assert_eq!(c.hits(), 3);
}
