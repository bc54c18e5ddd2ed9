use edge_steer::cache::{Entry, LruCache, Stats};

fn entry(body: &[u8], etag: &str, expires_at: u64) -> Entry {
    Entry { body: body.to_vec(), etag: etag.to_string(), expires_at }
}

fn record() -> usize {
    std::mem::size_of::<Entry>()
}

#[test]
fn size_counts_body_tag_and_record() {
    let e = entry(b"0123456789", "abc", 0);
    assert_eq!(e.size(), 10 + 3 + record());
}

#[test]
fn size_counts_tag_in_utf8_bytes() {
    let e = entry(b"", "é", 0);
    assert_eq!(e.size(), 2 + record());
}

#[test]
fn new_cache_is_empty_with_zero_stats() {
    let mut c = LruCache::new(1000);
    let s = c.stats;
    assert_eq!((s.hits, s.misses, s.evictions, s.revalidations, s.bytes_stored), (0, 0, 0, 0, 0));
    assert!(c.get("/a", 0).is_none());
    assert_eq!(c.stats.misses, 1);
    assert_eq!(c.stats.hits, 0);
}

#[test]
fn default_stats_are_zero() {
    let s = Stats::default();
    assert_eq!((s.hits, s.misses, s.evictions, s.revalidations, s.bytes_stored), (0, 0, 0, 0, 0));
}

#[test]
fn put_then_get_is_a_hit() {
    let mut c = LruCache::new(10_000);
    c.put("/a".to_string(), entry(b"hello", "v1", 100));
    let got = c.get("/a", 50).expect("stored");
    assert_eq!(got.body, b"hello".to_vec());
    assert_eq!(got.etag, "v1");
    assert_eq!(got.expires_at, 100);
    assert_eq!(c.stats.hits, 1);
    assert_eq!(c.stats.misses, 0);
    assert_eq!(c.stats.bytes_stored, 5 + 2 + record());
}

#[test]
fn stale_entry_is_returned_but_counted_as_miss() {
    let mut c = LruCache::new(10_000);
    c.put("/a".to_string(), entry(b"old", "v1", 100));
    let got = c.get("/a", 100).expect("present though stale");
    assert_eq!(got.body, b"old".to_vec());
    assert_eq!(c.stats.hits, 0);
    assert_eq!(c.stats.misses, 1);
    assert_eq!(c.stats.revalidations, 0);
}

#[test]
fn least_recently_used_is_evicted_first() {
    let one = 1 + record();
    let mut c = LruCache::new(2 * one);
    c.put("a".to_string(), entry(b"A", "", 100));
    c.put("b".to_string(), entry(b"B", "", 100));
    // Touch `a`, so `b` becomes the least recently used.
    assert!(c.get("a", 0).is_some());
    c.put("c".to_string(), entry(b"C", "", 100));
    assert_eq!(c.stats.evictions, 1);
    assert!(c.get("b", 0).is_none());
    assert!(c.get("a", 0).is_some());
    assert!(c.get("c", 0).is_some());
    assert_eq!(c.stats.bytes_stored, 2 * one);
}

#[test]
fn stale_get_does_not_refresh_recency() {
    let one = 1 + record();
    let mut c = LruCache::new(2 * one);
    c.put("a".to_string(), entry(b"A", "", 10));
    c.put("b".to_string(), entry(b"B", "", 100));
    // `a` is stale at 50: no touch, so it stays least recently used.
    assert!(c.get("a", 50).is_some());
    c.put("c".to_string(), entry(b"C", "", 100));
    assert!(c.get("a", 0).is_none());
    assert!(c.get("b", 0).is_some());
}

#[test]
fn eviction_makes_room_for_a_large_entry() {
    let one = 1 + record();
    let mut c = LruCache::new(3 * one);
    c.put("a".to_string(), entry(b"A", "", 100));
    c.put("b".to_string(), entry(b"B", "", 100));
    c.put("c".to_string(), entry(b"C", "", 100));
    let big = vec![7u8; 1 + one];
    c.put("d".to_string(), entry(&big, "", 100));
    assert_eq!(c.stats.evictions, 2);
    assert!(c.get("a", 0).is_none());
    assert!(c.get("b", 0).is_none());
    assert!(c.get("c", 0).is_some());
    assert!(c.get("d", 0).is_some());
}

#[test]
fn oversize_entry_is_refused_and_old_copy_dropped() {
    let mut c = LruCache::new(100 + record());
    c.put("a".to_string(), entry(b"small", "", 100));
    let stored = c.stats.bytes_stored;
    let big = vec![0u8; 101];
    c.put("a".to_string(), entry(&big, "", 100));
    assert!(c.get("a", 0).is_none());
    assert_eq!(c.stats.evictions, 0);
    // The refused put does not refresh the exported byte count.
    assert_eq!(c.stats.bytes_stored, stored);
}

#[test]
fn put_replaces_existing_key() {
    let mut c = LruCache::new(10_000);
    c.put("a".to_string(), entry(b"one", "v1", 100));
    c.put("a".to_string(), entry(b"two!", "v2", 200));
    let got = c.get("a", 0).unwrap();
    assert_eq!(got.body, b"two!".to_vec());
    assert_eq!(got.etag, "v2");
    assert_eq!(c.stats.bytes_stored, 4 + 2 + record());
    assert_eq!(c.stats.evictions, 0);
}

#[test]
fn zero_capacity_stores_nothing() {
    let mut c = LruCache::new(0);
    c.put("a".to_string(), entry(b"", "", 100));
    assert!(c.get("a", 0).is_none());
}

#[test]
fn storing_one_key_leaves_others_alone() {
    let mut c = LruCache::new(10_000);
    c.put("a".to_string(), entry(b"A", "ta", 100));
    c.put("b".to_string(), entry(b"B", "tb", 100));
    c.put("b".to_string(), entry(b"BB", "tb2", 100));
    let a = c.get("a", 0).unwrap();
    assert_eq!((a.body, a.etag), (b"A".to_vec(), "ta".to_string()));
}
