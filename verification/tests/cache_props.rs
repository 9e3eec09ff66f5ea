use fscache::cache::{Cache, Lookup};
use fscache::errors::CacheError;
use fscache::index::CacheIndex;
use fscache::store::BucketStore;

fn empty_cache() -> Cache {
    Cache::new(CacheIndex::new(""), BucketStore::new())
}

/// Counts the slots of `bucket` whose key record trims to `key`.
fn slots_for(store: &BucketStore, bucket: u64, key: &str) -> usize {
    let mut n = 0;
    for b in store.buckets.iter() {
        if b.id == bucket {
            for s in b.slots.iter() {
                if let Some(k) = &s.key {
                    if k.trim() == key {
                        n += 1;
                    }
                }
            }
        }
    }
    n
}

#[test]
fn round_trip_put_then_get() {
    let mut cache = empty_cache();
    let mut fetches = 0;
    cache.put("K", "D".to_string()).unwrap();
    match cache.get("K").unwrap() {
        Lookup::Hit(d) => assert_eq!(d, "D"),
        Lookup::Miss => {
            // only a miss would invoke the fetch collaborator
            fetches += 1;
            panic!("expected a hit");
        }
    }
    assert_eq!(fetches, 0);
}

#[test]
fn idempotent_overwrite() {
    let mut cache = empty_cache();
    cache.put("K", "D1".to_string()).unwrap();
    cache.put("K", "D2".to_string()).unwrap();
    let h = cache.get_hash("K");
    assert_eq!(slots_for(&cache.store, h, "K"), 1);
    match cache.get("K").unwrap() {
        Lookup::Hit(d) => assert_eq!(d, "D2"),
        Lookup::Miss => panic!("expected a hit"),
    }
}

#[test]
fn collision_independence() {
    // force both keys into the same bucket, as a test hash function would
    let mut store = BucketStore::new();
    store.put_in_bucket(7, "k1", "d1".to_string()).unwrap();
    store.put_in_bucket(7, "k2", "d2".to_string()).unwrap();
    assert_eq!(store.find_in_bucket(7, "k1").unwrap(), Some("d1".to_string()));
    assert_eq!(store.find_in_bucket(7, "k2").unwrap(), Some("d2".to_string()));
    assert_eq!(slots_for(&store, 7, "k1"), 1);
    assert_eq!(slots_for(&store, 7, "k2"), 1);
}

#[test]
fn miss_then_fetch_once() {
    let mut cache = empty_cache();
    let mut fetches = 0;
    let first = match cache.get("new-key").unwrap() {
        Lookup::Hit(d) => d,
        Lookup::Miss => {
            fetches += 1;
            cache
                .fetched("new-key", Ok("payload".to_string()))
                .unwrap()
        }
    };
    assert_eq!(first, "payload");
    assert_eq!(fetches, 1);
    match cache.get("new-key").unwrap() {
        Lookup::Hit(d) => assert_eq!(d, "payload"),
        Lookup::Miss => {
            fetches += 1;
        }
    }
    assert_eq!(fetches, 1, "the fetch collaborator must be invoked exactly once");
}

#[test]
fn corrupt_slot_is_skipped() {
    let mut store = BucketStore::new();
    // slot 0 has no readable key record; slot 1 is a valid entry
    assert!(store.load_slot(5, 0, None, "junk".to_string()));
    assert!(store.load_slot(5, 1, Some("good".to_string()), "data".to_string()));
    assert_eq!(store.find_in_bucket(5, "good").unwrap(), Some("data".to_string()));
    assert_eq!(store.find_in_bucket(5, "other").unwrap(), None);
}

#[test]
fn repeated_puts_leave_one_slot() {
    // serialized writers for the same new key: never two slots
    let mut store = BucketStore::new();
    store.put_in_bucket(9, "k", "a".to_string()).unwrap();
    store.put_in_bucket(9, "k", "b".to_string()).unwrap();
    store.put_in_bucket(9, "k", "c".to_string()).unwrap();
    assert_eq!(slots_for(&store, 9, "k"), 1);
    assert_eq!(store.find_in_bucket(9, "k").unwrap(), Some("c".to_string()));
}

#[test]
fn duplicate_slots_reported_as_violation() {
    let mut store = BucketStore::new();
    assert!(store.load_slot(3, 0, Some("k".to_string()), "a".to_string()));
    assert!(store.load_slot(3, 1, Some("k".to_string()), "b".to_string()));
    match store.find_in_bucket(3, "k") {
        Err(CacheError::InvariantViolation(b)) => assert_eq!(b, 3),
        other => panic!("expected an invariant violation, got {:?}", other.is_ok()),
    }
    match store.put_in_bucket(3, "k", "c".to_string()) {
        Err(CacheError::InvariantViolation(b)) => assert_eq!(b, 3),
        _ => panic!("expected an invariant violation"),
    }
}

#[test]
fn transport_failure_passes_through() {
    let mut cache = empty_cache();
    match cache.fetched("k", Err("connection refused".to_string())) {
        Err(CacheError::Transport(m)) => {
            assert_eq!(m, "connection refused");
        }
        _ => panic!("expected the transport error unchanged"),
    }
    // nothing was stored
    match cache.get("k").unwrap() {
        Lookup::Miss => {}
        Lookup::Hit(_) => panic!("a failed fetch must not populate the cache"),
    }
    let e = CacheError::Transport("x".to_string());
    assert!(!e.is_local());
    assert!(CacheError::InvariantViolation(1).is_local());
}

#[test]
fn load_slot_rejects_duplicate_numbers() {
    let mut store = BucketStore::new();
    assert!(store.load_slot(4, 0, Some("a".to_string()), "1".to_string()));
    assert!(!store.load_slot(4, 0, Some("b".to_string()), "2".to_string()));
    assert!(store.load_slot(4, 2, Some("b".to_string()), "2".to_string()));
    assert_eq!(store.find_in_bucket(4, "b").unwrap(), Some("2".to_string()));
}

#[test]
fn hash_is_deterministic() {
    let cache = empty_cache();
    let a = cache.get_hash("https://example.test/x");
    let b = cache.get_hash("https://example.test/x");
    assert_eq!(a, b);
    assert_ne!(cache.get_hash("a"), cache.get_hash("b"));
}

#[test]
fn slot_numbers_grow_past_the_largest() {
    let mut store = BucketStore::new();
    assert!(store.load_slot(2, 5, Some("a".to_string()), "1".to_string()));
    store.put_in_bucket(2, "b", "2".to_string()).unwrap();
    // the fresh slot is numbered 6, after the largest in use
    let bucket = store.buckets.iter().find(|b| b.id == 2).unwrap();
    let mut nums: Vec<u64> = bucket.slots.iter().map(|s| s.num).collect();
    nums.sort();
    assert_eq!(nums, vec![5, 6]);
}

#[test]
fn cache_test() {
    let mut cache = empty_cache();
    // a fresh cache holds nothing for the request, so `get` reports a miss
    // and leaves the fetch to the caller
    match cache.get("https://en.wikipedia.org/api/rest_v1/page/title/Earth").unwrap() {
        Lookup::Miss => {}
        Lookup::Hit(_) => panic!("an empty cache cannot hit"),
    }
}
