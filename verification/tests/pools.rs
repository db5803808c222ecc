use llmao::config::RotationStrategy;
use llmao::key_pool::{ApiKey, KeyPool};

const NOW: u64 = 1_000_000;

fn pool_of(keys: &[&str], strategy: RotationStrategy) -> KeyPool {
    KeyPool::new(
        "test".to_string(),
        keys.iter().map(|k| k.to_string()).collect(),
        strategy,
    )
}

#[test]
fn test_key_rate_limiting() {
    let mut key = ApiKey::new("test-key".to_string());

    assert!(!key.is_rate_limited(NOW));

    key.mark_rate_limited(NOW, 60_000);
    assert!(key.is_rate_limited(NOW));

    key.clear_rate_limit();
    assert!(!key.is_rate_limited(NOW));
}

#[test]
fn test_key_pool_round_robin() {
    let mut pool = pool_of(&["key1", "key2", "key3"], RotationStrategy::RoundRobin);

    let k1 = pool.get_key(NOW, 0).unwrap();
    assert_eq!(pool.key_at(k1).value(), "key1");
    let k2 = pool.get_key(NOW, 0).unwrap();
    assert_eq!(pool.key_at(k2).value(), "key2");
    let k3 = pool.get_key(NOW, 0).unwrap();
    assert_eq!(pool.key_at(k3).value(), "key3");
    let k4 = pool.get_key(NOW, 0).unwrap();
    assert_eq!(pool.key_at(k4).value(), "key1");
}

#[test]
fn test_key_pool_skips_rate_limited() {
    let mut pool = pool_of(&["key1", "key2"], RotationStrategy::RoundRobin);

    pool.mark_rate_limited("key1", NOW, 60_000);

    let k = pool.get_key(NOW, 0).unwrap();
    assert_eq!(pool.key_at(k).value(), "key2");
}

#[test]
fn test_all_rate_limited() {
    let mut pool = pool_of(&["key1", "key2"], RotationStrategy::RoundRobin);

    assert!(!pool.all_rate_limited(NOW));

    pool.mark_rate_limited("key1", NOW, 60_000);
    pool.mark_rate_limited("key2", NOW, 60_000);

    assert!(pool.all_rate_limited(NOW));
}

#[test]
fn test_exhausted_pool_selects_soonest() {
    let mut pool = pool_of(&["key1", "key2"], RotationStrategy::RoundRobin);

    pool.mark_rate_limited("key1", NOW, 60_000);
    pool.mark_rate_limited("key2", NOW, 30_000);

    assert!(pool.all_rate_limited(NOW));
    let k = pool.get_key(NOW, 0).unwrap();
    assert_eq!(pool.key_at(k).value(), "key2");
    assert_eq!(pool.min_wait_time(NOW), Some(30_000));
}

#[test]
fn test_lru_prefers_least_recently_used() {
    let mut pool = pool_of(&["key1", "key2"], RotationStrategy::LeastRecentlyUsed);

    // with no usage recorded, the first of equals wins
    let t = pool.get_key(NOW, 0).unwrap();
    assert_eq!(pool.key_at(t).value(), "key1");

    // after key1 is used, key2 is the least recently used
    pool.keys[0].record_usage(NOW);
    let k = pool.get_key(NOW, 0).unwrap();
    assert_eq!(pool.key_at(k).value(), "key2");
}

#[test]
fn test_random_uses_draw() {
    let mut pool = pool_of(&["a", "b", "c"], RotationStrategy::Random);
    let k = pool.get_key(NOW, 4).unwrap();
    // the draw picks among usable keys modulo their count: 4 % 3 == 1
    assert_eq!(pool.key_at(k).value(), "b");
}

#[test]
fn test_pool_stats() {
    let mut pool = pool_of(&["key1", "key2", "key3"], RotationStrategy::RoundRobin);
    pool.mark_rate_limited("key2", NOW, 60_000);
    let stats = pool.stats(NOW);
    assert_eq!(stats.total_keys, 3);
    assert_eq!(stats.rate_limited_keys, 1);
    assert_eq!(stats.available_keys, 2);
    assert_eq!(stats.total_requests, 0);
}

#[test]
fn test_empty_pool_yields_none() {
    let mut pool = pool_of(&[], RotationStrategy::RoundRobin);
    assert!(pool.is_empty());
    assert_eq!(pool.len(), 0);
    assert!(pool.get_key(NOW, 0).is_none());
}
