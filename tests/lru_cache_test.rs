use pandas_pouch::client::Client;
use pandas_pouch::lru::LRUCache;

#[test]
fn test_lru_cache() {
    let mut cache = LRUCache::new(2, None); // default expiration of one hour

    cache.put(1, "a");
    assert_eq!(cache.get(1), Some("a"));
    cache.put(2, "b");
    assert_eq!(cache.get(2), Some("b"));

    cache.put(3, "c");
    assert_eq!(cache.get(1), None);
    assert_eq!(cache.get(2), Some("b"));
    assert_eq!(cache.get(3), Some("c"));

    cache.put(4, "d");
    assert_eq!(cache.get(2), None);
    assert_eq!(cache.get(3), Some("c"));
    assert_eq!(cache.get(4), Some("d"));
}

#[test]
fn test_lru_cache_with_expiration() {
    // two seconds of lifespan; the reads come five seconds later
    let mut cache = LRUCache::new(2, Some(2_000));

    cache.put_at(1, "a", 0);
    assert_eq!(cache.get_at(1, 0), Some("a"));
    cache.put_at(2, "b", 0);
    assert_eq!(cache.get_at(2, 0), Some("b"));

    assert_eq!(cache.get_at(1, 5_000), None);
    assert_eq!(cache.get_at(2, 5_000), None);
}

#[test]
fn each_caller_reads_its_own_value() {
    let mut cache = LRUCache::new(100, Some(1_000));
    for i in 0..10u64 {
        cache.put(i, i * 2);
        assert_eq!(cache.get(i), Some(i * 2));
    }
}

#[test]
fn eviction_follows_touch_order() {
    let mut cache = LRUCache::new(2, None);
    cache.put_at(1, "a", 0);
    cache.put_at(2, "b", 1);
    cache.put_at(3, "c", 2);
    assert_eq!(cache.get_at(1, 3), None);
    assert_eq!(cache.get_at(2, 4), Some("b"));
    assert_eq!(cache.get_at(3, 5), Some("c"));
    cache.put_at(4, "d", 6);
    assert_eq!(cache.get_at(2, 7), None);
    assert_eq!(cache.get_at(3, 8), Some("c"));
    assert_eq!(cache.get_at(4, 9), Some("d"));
}

#[test]
fn size_never_exceeds_capacity() {
    let mut cache = LRUCache::new(3, None);
    for i in 0..20u64 {
        cache.put_at(i, i, i);
        assert!(cache.print_at(i).len() <= 3);
    }
    assert_eq!(cache.print_at(20), vec![(19, 19), (18, 18), (17, 17)]);
}

#[test]
fn read_makes_key_most_recent() {
    let mut cache = LRUCache::new(2, None);
    cache.put_at(1, "a", 0);
    cache.put_at(2, "b", 0);
    assert_eq!(cache.get_at(1, 1), Some("a"));
    assert_eq!(cache.print_at(1), vec![(1, "a"), (2, "b")]);
    cache.put_at(3, "c", 2);
    assert_eq!(cache.get_at(2, 3), None);
    assert_eq!(cache.get_at(1, 3), Some("a"));
}

#[test]
fn write_makes_key_most_recent() {
    let mut cache = LRUCache::new(3, None);
    cache.put_at(1, "a", 0);
    cache.put_at(2, "b", 0);
    cache.put_at(3, "c", 0);
    cache.put_at(1, "z", 1);
    assert_eq!(cache.print_at(1), vec![(1, "z"), (3, "c"), (2, "b")]);
}

#[test]
fn one_past_capacity_evicts_least_recent() {
    let mut cache = LRUCache::new(3, None);
    for k in 1..=4u64 {
        cache.put_at(k, k * 10, 0);
    }
    assert_eq!(cache.print_at(0), vec![(4, 40), (3, 30), (2, 20)]);
    assert_eq!(cache.get_at(1, 0), None);
}

#[test]
fn capacity_one_keeps_newest() {
    let mut cache = LRUCache::new(1, None);
    cache.put_at(1, "a", 0);
    cache.put_at(2, "b", 0);
    assert_eq!(cache.get_at(1, 0), None);
    assert_eq!(cache.get_at(2, 0), Some("b"));
}

#[test]
fn expired_entry_is_absent_and_removed() {
    let mut cache = LRUCache::new(2, Some(100));
    cache.put_at(7, "x", 10);
    assert_eq!(cache.get_at(7, 109), Some("x"));
    assert_eq!(cache.get_at(7, 110), None);
    assert_eq!(cache.print_at(0), vec![]);
}

#[test]
fn read_does_not_extend_lifespan() {
    let mut cache = LRUCache::new(2, Some(100));
    cache.put_at(1, "a", 0);
    assert_eq!(cache.get_at(1, 50), Some("a"));
    assert_eq!(cache.get_at(1, 99), Some("a"));
    assert_eq!(cache.get_at(1, 100), None);
}

#[test]
fn overwrite_keeps_count_and_resets_lifespan() {
    let mut cache = LRUCache::new(2, Some(100));
    cache.put_at(1, "a", 0);
    cache.put_at(2, "b", 0);
    assert_eq!(cache.print_at(0).len(), 2);
    cache.put_at(1, "v", 60);
    assert_eq!(cache.print_at(60).len(), 2);
    assert_eq!(cache.get_at(1, 150), Some("v"));
    assert_eq!(cache.get_at(2, 150), None);
}

#[test]
fn default_lifespan_is_one_hour() {
    let mut cache = LRUCache::new(2, None);
    cache.put_at(1, "a", 0);
    assert_eq!(cache.get_at(1, 3_599_999), Some("a"));
    assert_eq!(cache.get_at(1, 3_600_000), None);
}

#[test]
fn expiry_saturates_at_end_of_time() {
    let mut cache = LRUCache::new(2, Some(10));
    cache.put_at(1, "a", u64::MAX - 1);
    assert_eq!(cache.get_at(1, u64::MAX - 1), Some("a"));
    assert_eq!(cache.get_at(1, u64::MAX), None);
}

#[test]
fn listing_drops_expired_and_keeps_order() {
    let mut cache = LRUCache::new(4, Some(100));
    cache.put_at(1, "a", 0);
    cache.put_at(2, "b", 50);
    cache.put_at(3, "c", 10);
    cache.put_at(4, "d", 60);
    assert_eq!(cache.print_at(120), vec![(4, "d"), (2, "b")]);
    // the expired slots are reused by later entries
    cache.put_at(5, "e", 120);
    cache.put_at(6, "f", 120);
    assert_eq!(cache.print_at(120), vec![(6, "f"), (5, "e"), (4, "d"), (2, "b")]);
    cache.put_at(7, "g", 121);
    assert_eq!(cache.print_at(121), vec![(7, "g"), (6, "f"), (5, "e"), (4, "d")]);
}

#[test]
fn absent_key_reads_nothing() {
    let mut cache: LRUCache<&str> = LRUCache::new(2, None);
    assert_eq!(cache.get_at(9, 0), None);
    cache.put_at(1, "a", 0);
    assert_eq!(cache.get_at(9, 0), None);
    assert_eq!(cache.print_at(0), vec![(1, "a")]);
}

#[test]
fn clock_reads_see_fresh_entries() {
    let mut cache = LRUCache::new(2, None);
    cache.put(1, 10u32);
    assert_eq!(cache.print(), vec![(1, 10)]);
}

#[test]
fn client_delegates_to_cache() {
    let mut client = Client::new("localhost", 11211, 300, Some(5_000));
    client.put(1, "value1");
    assert_eq!(client.get(1), Some("value1"));
    assert_eq!(client.get(2), None);
}
