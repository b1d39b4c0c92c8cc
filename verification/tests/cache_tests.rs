use indexer_native::embeddings::{CacheEntry, EmbeddingCache, DEFAULT_CAPACITY};

fn entry(v: &[f32], hash: &str) -> CacheEntry<Vec<f32>> {
    CacheEntry { embedding: v.to_vec(), timestamp: 7, hash: hash.to_string() }
}

#[test]
fn a_new_cache_is_empty() {
    let cache: EmbeddingCache<Vec<f32>> = EmbeddingCache::new(3);
    assert_eq!(cache.len(), 0);
    assert_eq!(cache.max_size(), 3);
    assert!(!cache.contains_key("a"));
    assert_eq!(DEFAULT_CAPACITY, 10000);
}

#[test]
fn get_returns_what_set_stored() {
    let mut cache = EmbeddingCache::new(2);
    cache.set("a".to_string(), entry(&[1.0, 2.0], "a"));
    assert_eq!(cache.get("a"), Some(&vec![1.0f32, 2.0]));
    assert_eq!(cache.get("b"), None);
    assert_eq!(cache.len(), 1);
}

#[test]
fn set_on_a_present_key_replaces_the_entry() {
    let mut cache = EmbeddingCache::new(2);
    cache.set("a".to_string(), entry(&[1.0], "a"));
    cache.set("b".to_string(), entry(&[2.0], "b"));
    cache.set("a".to_string(), entry(&[3.0], "a"));
    assert_eq!(cache.len(), 2);
    assert_eq!(cache.get("a"), Some(&vec![3.0f32]));
    assert_eq!(cache.get("b"), Some(&vec![2.0f32]));
}

#[test]
fn set_on_a_present_key_in_a_full_cache_evicts_nothing() {
    let mut cache = EmbeddingCache::new(2);
    cache.set("a".to_string(), entry(&[1.0], "a"));
    cache.set("b".to_string(), entry(&[2.0], "b"));
    cache.set("b".to_string(), entry(&[4.0], "b"));
    assert!(cache.contains_key("a"));
    assert!(cache.contains_key("b"));
    // the update made "b" the most recently used: "a" leaves next
    cache.set("c".to_string(), entry(&[5.0], "c"));
    assert!(!cache.contains_key("a"));
    assert!(cache.contains_key("b"));
    assert!(cache.contains_key("c"));
}

#[test]
fn one_key_too_many_evicts_the_first() {
    for capacity in 1..6usize {
        let mut cache = EmbeddingCache::new(capacity);
        for i in 0..=capacity {
            cache.set(format!("k{}", i), entry(&[i as f32], "h"));
        }
        assert_eq!(cache.len(), capacity);
        assert!(!cache.contains_key("k0"));
        for i in 1..=capacity {
            assert!(cache.contains_key(&format!("k{}", i)));
            assert_eq!(cache.get(&format!("k{}", i)), Some(&vec![i as f32]));
        }
    }
}

#[test]
fn a_refreshed_key_outlives_an_older_one() {
    let mut cache = EmbeddingCache::new(2);
    cache.set("a".to_string(), entry(&[1.0], "a"));
    cache.set("b".to_string(), entry(&[2.0], "b"));
    cache.set("c".to_string(), entry(&[3.0], "c"));
    // "a" left when "c" came; the lookup misses and changes nothing
    assert_eq!(cache.get("a"), None);
    cache.set("d".to_string(), entry(&[4.0], "d"));
    assert!(!cache.contains_key("b"));
    assert!(!cache.contains_key("a"));
    assert!(cache.contains_key("c"));
    assert!(cache.contains_key("d"));
    assert_eq!(cache.len(), 2);
}

#[test]
fn a_hit_makes_the_key_the_most_recently_used() {
    let mut cache = EmbeddingCache::new(3);
    cache.set("a".to_string(), entry(&[1.0], "a"));
    cache.set("b".to_string(), entry(&[2.0], "b"));
    cache.set("c".to_string(), entry(&[3.0], "c"));
    assert_eq!(cache.get("a"), Some(&vec![1.0f32]));
    cache.set("d".to_string(), entry(&[4.0], "d"));
    assert!(cache.contains_key("a"));
    assert!(!cache.contains_key("b"));
    cache.set("e".to_string(), entry(&[5.0], "e"));
    assert!(!cache.contains_key("c"));
    assert!(cache.contains_key("a"));
    assert!(cache.contains_key("d"));
    assert!(cache.contains_key("e"));
}

#[test]
fn contains_key_does_not_refresh() {
    let mut cache = EmbeddingCache::new(2);
    cache.set("a".to_string(), entry(&[1.0], "a"));
    cache.set("b".to_string(), entry(&[2.0], "b"));
    assert!(cache.contains_key("a"));
    cache.set("c".to_string(), entry(&[3.0], "c"));
    assert!(!cache.contains_key("a"));
}

#[test]
fn clear_empties_the_cache_and_keeps_the_capacity() {
    let mut cache = EmbeddingCache::new(2);
    cache.set("a".to_string(), entry(&[1.0], "a"));
    cache.set("b".to_string(), entry(&[2.0], "b"));
    cache.clear();
    assert_eq!(cache.len(), 0);
    assert_eq!(cache.max_size(), 2);
    assert_eq!(cache.get("a"), None);
    cache.set("c".to_string(), entry(&[3.0], "c"));
    cache.set("d".to_string(), entry(&[4.0], "d"));
    cache.set("e".to_string(), entry(&[5.0], "e"));
    assert_eq!(cache.len(), 2);
    assert!(!cache.contains_key("c"));
}

#[test]
fn a_cache_of_capacity_zero_stores_nothing() {
    let mut cache = EmbeddingCache::new(0);
    cache.set("a".to_string(), entry(&[1.0], "a"));
    assert_eq!(cache.len(), 0);
    assert_eq!(cache.get("a"), None);
}

#[test]
fn the_size_never_exceeds_the_capacity() {
    let mut cache = EmbeddingCache::new(4);
    for i in 0..50u32 {
        cache.set(format!("k{}", (i * 7) % 13), entry(&[i as f32], "h"));
        let _ = cache.get(&format!("k{}", (i * 5) % 11));
        assert!(cache.len() <= 4);
    }
    assert_eq!(cache.len(), 4);
}
