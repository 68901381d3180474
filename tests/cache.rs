use rag_llm::cache::MemoryCache;

#[test]
fn test_cache_basic_operations() {
    let mut cache = MemoryCache::new(2);

    cache.set("key1", "value1");
    assert_eq!(cache.get(&"key1"), Some(&"value1"));

    cache.set("key2", "value2");
    assert_eq!(cache.size(), 2);

    cache.set("key3", "value3");
    assert_eq!(cache.size(), 2);
}

#[test]
fn cache_overwrite_keeps_size() {
    let mut cache: MemoryCache<u64, u64> = MemoryCache::new(2);
    cache.set(1, 10);
    cache.set(2, 20);
    cache.set(1, 11);
    assert_eq!(cache.size(), 2);
    assert_eq!(cache.get(&1), Some(&11));
    assert_eq!(cache.get(&2), Some(&20));
}

#[test]
fn cache_eviction_keeps_new_key() {
    let mut cache: MemoryCache<u64, u64> = MemoryCache::new(2);
    cache.set(1, 10);
    cache.set(2, 20);
    cache.set(3, 30);
    assert_eq!(cache.size(), 2);
    assert!(cache.contains(&3));
    assert_eq!(cache.contains(&1) as u32 + cache.contains(&2) as u32, 1);
}

#[test]
fn cache_remove_and_clear() {
    let mut cache: MemoryCache<u64, u64> = MemoryCache::new(3);
    assert!(cache.is_empty());
    cache.set(1, 10);
    cache.set(2, 20);
    assert_eq!(cache.remove(&1), Some(10));
    assert_eq!(cache.remove(&1), None);
    assert!(!cache.contains(&1));
    assert_eq!(cache.size(), 1);
    cache.clear();
    assert!(cache.is_empty());
    assert_eq!(cache.get(&2), None);
}

#[test]
fn cache_zero_capacity_still_stores_one() {
    let mut cache: MemoryCache<u64, u64> = MemoryCache::new(0);
    cache.set(1, 10);
    assert_eq!(cache.size(), 1);
    cache.set(2, 20);
    assert_eq!(cache.size(), 1);
    assert_eq!(cache.get(&2), Some(&20));
}

#[test]
fn cache_default_is_empty() {
    let cache: MemoryCache<u64, u64> = MemoryCache::default();
    assert!(cache.is_empty());
    assert_eq!(cache.size(), 0);
}
