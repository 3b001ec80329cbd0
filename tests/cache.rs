use logkv::cache::TableCache;
use logkv::{LRUCache, Table};
use std::fmt::Debug;

fn assert_opt_eq<V: PartialEq + Debug>(opt: Option<&V>, v: V) {
    assert!(opt.is_some());
    assert_eq!(opt.unwrap(), &v);
}

#[test]
fn test_put_and_get() {
    let mut cache = LRUCache::new(10);

    assert_eq!(cache.put("hello", "world"), None);
    assert_eq!(cache.put("lorem", "ipsum"), None);

    assert_opt_eq(cache.get(&"hello"), "world");
    assert_opt_eq(cache.get(&"lorem"), "ipsum");
    assert!(cache.get(&"paris").is_none());
}

#[test]
fn put_replaces_and_returns_old_value() {
    let mut cache = LRUCache::new(2);
    assert_eq!(cache.put(1u64, "a"), None);
    assert_eq!(cache.put(1u64, "b"), Some("a"));
    assert_eq!(cache.len(), 1);
    assert_opt_eq(cache.get(&1u64), "b");
}

#[test]
fn full_cache_evicts_least_recently_used() {
    let mut cache = LRUCache::new(2);
    cache.put(1u64, 10u32);
    cache.put(2u64, 20u32);
    // touching 1 makes 2 the least recently used
    assert_opt_eq(cache.get(&1u64), 10u32);
    assert_eq!(cache.put(3u64, 30u32), None);
    assert!(cache.get(&2u64).is_none());
    assert_opt_eq(cache.get(&1u64), 10u32);
    assert_opt_eq(cache.get(&3u64), 30u32);
}

#[test]
fn eviction_without_gets_follows_insertion_order() {
    let mut cache = LRUCache::new(3);
    for i in 0..10u64 {
        cache.put(i, i * 2);
        assert!(cache.len() <= 3);
    }
    assert_eq!(cache.len(), 3);
    for i in 0..7u64 {
        assert!(cache.get(&i).is_none());
    }
    for i in 7..10u64 {
        assert_opt_eq(cache.get(&i), i * 2);
    }
}

#[test]
fn table_cache_stays_within_capacity() {
    let mut cache = TableCache::new(4);
    for id in 0..20u64 {
        let t = Table::open("dir", id, &[]).unwrap();
        cache.put(id, t);
    }
    let mut present = 0;
    for id in 0..20u64 {
        if let Some(t) = cache.get(id) {
            assert_eq!(t.file_no(), id);
            present += 1;
        }
    }
    assert_eq!(present, 4);
    assert!(cache.get(19).is_some());
    assert!(cache.get(0).is_none());
}

#[test]
fn table_cache_of_capacity_zero_holds_one() {
    let mut cache = TableCache::new(0);
    cache.put(1, Table::open("dir", 1, &[]).unwrap());
    cache.put(2, Table::open("dir", 2, &[]).unwrap());
    assert!(cache.get(1).is_none());
    assert!(cache.get(2).is_some());
}
