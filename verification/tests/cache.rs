use konnect_core::args::{Json, JsonNumber};
use konnect_core::cache::{QueryCache, DEFAULT_TTL_NANOS};
use konnect_core::num::Num;

const SECOND: u128 = 1_000_000_000;
const MILLISECOND: u128 = 1_000_000;

fn count(n: u64) -> Json {
    let number = JsonNumber { value: Num { bits: (n as f64).to_bits() }, unsigned: Some(n) };
    Json::Object(vec![("count".to_string(), Json::Number(number))])
}

fn shown(value: Option<&Json>) -> Option<String> {
    value.map(|v| format!("{v:?}"))
}

#[test]
fn miss_on_unknown_key() {
    let cache: QueryCache<Json> = QueryCache::new(60 * SECOND);
    assert!(cache.get("nope", 0).is_none());
}

#[test]
fn put_then_get_roundtrips() {
    let mut cache = QueryCache::new(60 * SECOND);
    cache.put("key".to_string(), count(3), 0);
    assert_eq!(shown(cache.get("key", 0)), Some(format!("{:?}", count(3))));
}

#[test]
fn entry_expires_after_ttl() {
    let mut cache = QueryCache::new(10 * MILLISECOND);
    cache.put("key".to_string(), "value", 0);
    assert_eq!(cache.get("key", 0), Some(&"value"));
    assert!(cache.get("key", 20 * MILLISECOND).is_none());
}

#[test]
fn put_overwrites_existing_entry() {
    let mut cache = QueryCache::new(60 * SECOND);
    cache.put("key".to_string(), "first", 0);
    cache.put("key".to_string(), "second", 0);
    assert_eq!(cache.get("key", 0), Some(&"second"));
}

#[test]
fn an_entry_expires_at_its_time_to_live_and_not_before() {
    let mut cache = QueryCache::new(10);
    cache.put("key".to_string(), 7, 100);
    assert_eq!(cache.get("key", 109), Some(&7));
    assert_eq!(cache.get("key", 110), None);
}

#[test]
fn storing_again_renews_an_expired_entry_and_leaves_others_alone() {
    let mut cache = QueryCache::new(10);
    cache.put("a".to_string(), 1, 0);
    cache.put("b".to_string(), 2, 5);
    cache.put("a".to_string(), 3, 12);
    assert_eq!(cache.get("a", 14), Some(&3));
    assert_eq!(cache.get("b", 14), Some(&2));
    assert_eq!(cache.entries.len(), 2);
}

#[test]
fn an_entry_from_a_later_time_is_fresh() {
    let mut cache = QueryCache::new(10);
    cache.put("key".to_string(), 7, 100);
    assert_eq!(cache.get("key", 90), Some(&7));
}

#[test]
fn results_are_kept_for_five_minutes_by_default() {
    let cache: QueryCache<u8> = QueryCache::default();
    assert_eq!(cache.ttl, DEFAULT_TTL_NANOS);
    assert_eq!(cache.ttl, 300 * SECOND);
}
