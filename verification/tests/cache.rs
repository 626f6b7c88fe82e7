use evaporchain_execution::cache::ExecutionCache;

fn h(byte: u8) -> [u8; 32] {
    [byte; 32]
}

#[test]
fn cache_read_after_write() {
    let mut cache = ExecutionCache::new(4);
    assert!(cache.is_empty());
    cache.put(&h(1), &h(9), 21_000, true, 5);
    assert_eq!(cache.get(&h(1), &h(9)), Some((21_000, true)));
    assert_eq!(cache.len(), 1);
    assert!(!cache.is_empty());
}

#[test]
fn cache_key_includes_pre_state_root() {
    let mut cache = ExecutionCache::new(4);
    cache.put(&h(1), &h(9), 21_000, true, 5);
    assert_eq!(cache.get(&h(1), &h(8)), None, "another pre-state is another key");
    assert_eq!(cache.get(&h(9), &h(1)), None, "the two halves are not interchangeable");
}

#[test]
fn cache_overwrites_same_key() {
    let mut cache = ExecutionCache::new(4);
    cache.put(&h(1), &h(9), 21_000, true, 5);
    cache.put(&h(1), &h(9), 30_000, false, 6);
    assert_eq!(cache.get(&h(1), &h(9)), Some((30_000, false)));
    assert_eq!(cache.len(), 1);
}

#[test]
fn cache_evicts_least_recently_used_at_capacity() {
    let mut cache = ExecutionCache::new(2);
    cache.put(&h(1), &h(0), 1, true, 10);
    cache.put(&h(2), &h(0), 2, true, 5);
    cache.put(&h(3), &h(0), 3, true, 20);
    assert_eq!(cache.len(), 2);
    assert_eq!(cache.get(&h(2), &h(0)), None, "the entry used longest ago leaves");
    assert_eq!(cache.get(&h(1), &h(0)), Some((1, true)));
    assert_eq!(cache.get(&h(3), &h(0)), Some((3, true)));
}

#[test]
fn cache_at_capacity_evicts_before_overwriting() {
    let mut cache = ExecutionCache::new(2);
    cache.put(&h(1), &h(0), 1, true, 10);
    cache.put(&h(2), &h(0), 2, true, 5);
    // Re-putting an existing key at capacity still evicts the oldest entry first.
    cache.put(&h(1), &h(0), 7, false, 30);
    assert_eq!(cache.len(), 1);
    assert_eq!(cache.get(&h(1), &h(0)), Some((7, false)));
    assert_eq!(cache.get(&h(2), &h(0)), None);
}

#[test]
fn zero_capacity_cache_holds_one_entry() {
    let mut cache = ExecutionCache::new(0);
    cache.put(&h(1), &h(0), 1, true, 1);
    assert_eq!(cache.len(), 1);
    cache.put(&h(2), &h(0), 2, true, 2);
    assert_eq!(cache.len(), 1);
    assert_eq!(cache.get(&h(2), &h(0)), Some((2, true)));
}

#[test]
fn cache_clear_empties() {
    let mut cache = ExecutionCache::new(3);
    cache.put(&h(1), &h(0), 1, true, 1);
    cache.put(&h(2), &h(0), 2, false, 2);
    cache.clear();
    assert!(cache.is_empty());
    assert_eq!(cache.get(&h(1), &h(0)), None);
}

#[test]
fn cache_size_stays_within_capacity() {
    let mut cache = ExecutionCache::new(3);
    for i in 0..20u8 {
        cache.put(&h(i), &h(100), i as u64, i % 2 == 0, i as u64);
        assert!(cache.len() <= 3);
    }
    assert_eq!(cache.len(), 3);
    assert_eq!(cache.get(&h(19), &h(100)), Some((19, false)));
    assert_eq!(cache.get(&h(16), &h(100)), None);
}
