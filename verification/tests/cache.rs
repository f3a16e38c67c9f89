use tobdd::cache::{Cache, CacheStat, LockFreeCache};

#[test]
fn value_is_found_until_its_entry_is_taken() {
    let mut cache: LockFreeCache<(usize, usize), usize> = LockFreeCache::with_capacity(4);
    assert_eq!(cache.size_exp(), 3);
    assert_eq!(cache.get(3, &(1, 2)), 0);
    assert!(cache.insert(3, (1, 2), 7));
    assert_eq!(cache.get(3, &(1, 2)), 7);
    assert_eq!(cache.get(3, &(2, 1)), 0);
    // The same entry of eight.
    assert!(cache.insert(11, (4, 5), 9));
    assert_eq!(cache.get(3, &(1, 2)), 0);
    assert_eq!(cache.get(11, &(4, 5)), 9);
    // Another entry.
    assert!(cache.insert(4, (1, 2), 8));
    assert_eq!(cache.get(4, &(1, 2)), 8);
    assert_eq!(cache.get(11, &(4, 5)), 9);
}

#[test]
fn invalidated_cache_has_forgotten_everything() {
    let mut cache: LockFreeCache<usize, usize> = LockFreeCache::with_capacity(2);
    for key in 1..5 {
        cache.insert(key as u64, key, 10 * key);
    }
    cache.invalidate_all();
    for key in 1..5 {
        assert_eq!(cache.get(key as u64, &key), 0);
    }
    assert_eq!(cache.size_exp(), 2);
    assert_eq!(cache.stat().clear_cnt, 1);
}

#[test]
fn grown_cache_is_empty_and_twice_as_large() {
    let mut cache: LockFreeCache<usize, usize> = LockFreeCache::with_capacity(2);
    cache.insert(1, 1, 10);
    assert_eq!(cache.get(1, &1), 10);
    cache.grow();
    assert_eq!(cache.size_exp(), 3);
    assert_eq!(cache.get(1, &1), 0);
    cache.insert(1, 1, 10);
    cache.insert(5, 5, 50);
    assert_eq!(cache.get(1, &1), 10);
    assert_eq!(cache.get(5, &5), 50);
}

#[test]
fn hits_and_misses_are_counted() {
    let mut cache: LockFreeCache<usize, usize> = LockFreeCache::with_capacity(2);
    cache.insert(1, 1, 10);
    cache.get(1, &1);
    cache.get(1, &1);
    cache.get(2, &2);
    assert_eq!(cache.stat().unique_hit, 2);
    assert_eq!(cache.stat().unique_miss, 1);
    cache.grow();
    assert_eq!(cache.stat().grow_cnt, 1);
    assert_eq!(cache.stat().last_hit, 0);
    assert_eq!(cache.stat().last_miss, 0);
    assert_eq!(cache.stat().unique_hit, 2);
    cache.get(1, &1);
    assert_eq!(cache.stat().last_miss, 1);
    assert_eq!(cache.stat().unique_miss, 2);
    assert_eq!(cache.stat().to_text(), "unique_hit: 2, unique_miss: 2");
}

#[test]
fn cache_counts_wrap_around() {
    let mut stat = CacheStat::default();
    stat.unique_hit = usize::MAX;
    stat.record_hit();
    assert_eq!(stat.unique_hit, 0);
    assert_eq!(stat.last_hit, 1);
    stat.record_miss();
    stat.record_clear();
    stat.record_grow();
    assert_eq!((stat.unique_miss, stat.clear_cnt, stat.grow_cnt), (1, 1, 1));
    assert_eq!((stat.last_hit, stat.last_miss), (0, 0));
}

#[test]
fn lookup_gives_the_last_value_of_its_place() {
    let mut cache: LockFreeCache<usize, usize> = LockFreeCache::with_capacity(4);
    // Hashes up to the capacity have places of their own.
    for key in 1..5 {
        cache.insert(key as u64, key, 10 * key);
    }
    for key in 1..5 {
        assert_eq!(cache.get(key as u64, &key), 10 * key);
    }
    cache.insert(1, 1, 11);
    assert_eq!(cache.get(1, &1), 11);
    cache.insert(9, 9, 90);
    assert_eq!((cache.get(1, &1), cache.get(9, &9)), (0, 90));
    cache.grow();
    cache.insert(9, 9, 91);
    cache.insert(1, 1, 12);
    assert_eq!((cache.get(1, &1), cache.get(9, &9)), (12, 91));
    cache.invalidate_all();
    assert_eq!((cache.get(1, &1), cache.get(9, &9)), (0, 0));
}
