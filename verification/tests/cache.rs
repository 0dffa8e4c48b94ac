use pi_sync::cache::{IdentityCache, CACHE_CAPACITY, CACHE_TTL_SECS, MAX_TTL_SECS};
use std::time::{Duration, Instant};

fn wait_until(start: Instant, after: Duration) {
    while start.elapsed() < after {
        std::hint::spin_loop();
    }
}

#[test]
fn an_entry_is_seen_before_its_time_is_up_and_not_after() {
    let mut cache = IdentityCache::new(10);
    let start = Instant::now();
    cache.put("uid".to_string(), "remote".to_string(), 1);
    assert_eq!(cache.get("uid"), Some("remote".to_string()));
    wait_until(start, Duration::from_millis(700));
    assert_eq!(cache.get("uid"), Some("remote".to_string()));
    wait_until(start, Duration::from_millis(1300));
    assert_eq!(cache.get("uid"), None);
}

#[test]
fn storing_again_starts_the_time_anew() {
    let mut cache = IdentityCache::new(10);
    let start = Instant::now();
    cache.put("uid".to_string(), "first".to_string(), 1);
    wait_until(start, Duration::from_millis(700));
    cache.put("uid".to_string(), "second".to_string(), 1);
    wait_until(start, Duration::from_millis(1300));
    assert_eq!(cache.get("uid"), Some("second".to_string()));
}

#[test]
fn a_miss_is_nothing_and_a_hit_is_what_was_stored_last() {
    let mut cache = IdentityCache::new(10);
    assert_eq!(cache.get("a"), None);
    cache.put("a".to_string(), "1".to_string(), CACHE_TTL_SECS);
    cache.put("b".to_string(), "2".to_string(), MAX_TTL_SECS);
    cache.put("a".to_string(), "3".to_string(), CACHE_TTL_SECS);
    assert_eq!(cache.get("a"), Some("3".to_string()));
    assert_eq!(cache.get("b"), Some("2".to_string()));
    assert_eq!(cache.get("c"), None);
}

#[test]
fn a_full_cache_drops_what_was_stored_longest_ago() {
    let mut cache = IdentityCache::new(2);
    cache.put("a".to_string(), "1".to_string(), CACHE_TTL_SECS);
    cache.put("b".to_string(), "2".to_string(), CACHE_TTL_SECS);
    cache.put("c".to_string(), "3".to_string(), CACHE_TTL_SECS);
    assert_eq!(cache.get("a"), None);
    assert_eq!(cache.get("b"), Some("2".to_string()));
    assert_eq!(cache.get("c"), Some("3".to_string()));
    cache.put("b".to_string(), "4".to_string(), CACHE_TTL_SECS);
    cache.put("d".to_string(), "5".to_string(), CACHE_TTL_SECS);
    assert_eq!(cache.get("c"), None);
    assert_eq!(cache.get("b"), Some("4".to_string()));
    assert_eq!(cache.get("d"), Some("5".to_string()));
}

#[test]
fn a_cache_without_room_keeps_nothing() {
    let mut cache = IdentityCache::new(0);
    cache.put("a".to_string(), "1".to_string(), CACHE_TTL_SECS);
    assert_eq!(cache.get("a"), None);
}

#[test]
fn the_defaults_are_a_day_and_a_hundred_entries() {
    assert_eq!(CACHE_TTL_SECS, 24 * 60 * 60);
    assert_eq!(CACHE_CAPACITY, 100);
    assert!(CACHE_TTL_SECS <= MAX_TTL_SECS);
}
