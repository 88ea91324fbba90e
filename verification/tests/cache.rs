use aw_work_sync::cache::{cache_key, CacheEntry, QueryCache};
use aw_work_sync::time::SECOND;
use aw_work_sync::working_hours::Event;

fn entry(duration: Option<i128>, result: Option<Vec<Event>>, cached_at: i128, ttl_secs: i64) -> CacheEntry {
    CacheEntry {
        duration: duration.map(|secs| secs * SECOND),
        result,
        cached_at: cached_at * SECOND,
        ttl_secs,
        first_event_ts: None,
        last_event_end_ts: None,
    }
}

fn keys(cache: &QueryCache) -> Vec<&str> {
    cache.serialize_entries_descending().iter().map(|(k, _)| k.as_str()).collect()
}

#[test]
fn keys_name_the_window() {
    assert_eq!(
        cache_key(0, 1_500_000_000),
        "1970-01-01T00:00:00+00:00|1970-01-01T00:00:01.500+00:00"
    );
    assert_ne!(cache_key(0, 1), cache_key(1, 0));
}

#[test]
fn an_entry_expires_after_its_time() {
    let e = entry(Some(1), None, 100, 10);
    assert!(!e.is_expired(100 * SECOND));
    assert!(!e.is_expired(110 * SECOND + 999_999_999));
    assert!(e.is_expired(111 * SECOND));
    assert!(!e.is_expired(0));
}

#[test]
fn test_migrate_and_sort_cache() {
    let events = vec![
        Event { timestamp: 0, duration: 60 * SECOND },
        Event { timestamp: 120 * SECOND, duration: 60 * SECOND },
        Event { timestamp: 3000 * SECOND, duration: 1_500_000_000 },
    ];
    let (cache, migrated) = QueryCache::load(
        vec![
            ("b".to_string(), entry(None, Some(events), 0, 100)),
            ("c".to_string(), entry(Some(7), Some(vec![]), 0, 100)),
            ("a".to_string(), entry(None, None, 0, 100)),
        ],
        50 * SECOND,
    );
    assert!(migrated);
    assert_eq!(keys(&cache), vec!["c", "b", "a"]);
    assert_eq!(cache.get("b").unwrap().duration, Some(181 * SECOND));
    assert!(cache.get("b").unwrap().result.is_none());
    assert_eq!(cache.get("c").unwrap().duration, Some(7 * SECOND));
    assert!(cache.get("c").unwrap().result.is_none());
    assert_eq!(cache.get("a").unwrap().duration, None);
    println!("Saved cache sorted!");
}

#[test]
fn old_entries_are_left_out() {
    let (cache, migrated) = QueryCache::load(
        vec![
            ("old".to_string(), entry(Some(1), None, 0, 10)),
            ("new".to_string(), entry(Some(2), None, 0, 1000)),
        ],
        50 * SECOND,
    );
    assert!(!migrated);
    assert_eq!(keys(&cache), vec!["new"]);
    assert!(cache.get("old").is_none());
}

#[test]
fn an_expired_entry_with_events_still_makes_the_file_out_of_date() {
    let (cache, migrated) =
        QueryCache::load(vec![("k".to_string(), entry(None, Some(vec![]), 0, 10))], 50 * SECOND);
    assert!(migrated);
    assert!(cache.get("k").is_none());
}

#[test]
fn a_later_entry_takes_the_place_of_an_earlier_one() {
    let (mut cache, _) = QueryCache::load(
        vec![
            ("k".to_string(), entry(Some(1), None, 0, 10)),
            ("k".to_string(), entry(Some(2), None, 0, 10)),
        ],
        0,
    );
    assert_eq!(cache.get("k").unwrap().duration, Some(2 * SECOND));
    cache.insert("k".to_string(), 3, Some(4), Some(5), 6, 7);
    let e = cache.get("k").unwrap();
    assert_eq!(
        (e.duration, e.first_event_ts, e.last_event_end_ts, e.ttl_secs, e.cached_at),
        (Some(3), Some(4), Some(5), 6, 7)
    );
    assert!(e.result.is_none());
    cache.insert("z".to_string(), 1, None, None, 6, 7);
    assert_eq!(keys(&cache), vec!["z", "k"]);
}

#[test]
fn what_was_saved_is_loaded() {
    let (mut cache, _) = QueryCache::load(vec![], 0);
    cache.insert("a".to_string(), 1, Some(1), Some(2), 100, 0);
    cache.insert("b".to_string(), 2, None, None, 1, 0);
    let saved: Vec<(String, CacheEntry)> = cache
        .serialize_entries_descending()
        .into_iter()
        .map(|(k, e)| {
            (
                k.clone(),
                CacheEntry {
                    duration: e.duration,
                    result: None,
                    cached_at: e.cached_at,
                    ttl_secs: e.ttl_secs,
                    first_event_ts: e.first_event_ts,
                    last_event_end_ts: e.last_event_end_ts,
                },
            )
        })
        .collect();
    let (loaded, migrated) = QueryCache::load(saved, 50 * SECOND);
    assert!(!migrated);
    assert_eq!(keys(&loaded), vec!["a"]);
    assert_eq!(loaded.get("a").unwrap().last_event_end_ts, Some(2));
}
