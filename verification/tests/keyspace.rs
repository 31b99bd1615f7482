//! Keyspace tests: the typed operations, expiry behaviour, counters,
//! lists, and the expiration sampler.

use redust::data_store::{DataStore, DataType};

fn k(s: &str) -> Vec<u8> {
    s.as_bytes().to_vec()
}

fn sval(s: &str) -> DataType {
    DataType::String(s.as_bytes().to_vec())
}

#[test]
fn test_set_then_get_returns_value() {
    let mut store = DataStore::new();
    let prior = store.set_at(k("a"), sval("hello"), None, false, false, 0).unwrap();
    assert_eq!(prior, None);
    assert_eq!(store.get_at(k("a"), 0), Some(sval("hello")));
    // the value survives any later instant: a plain set installs no expiry
    assert_eq!(store.get_at(k("a"), i64::MAX), Some(sval("hello")));
}

#[test]
fn test_set_returns_prior_value() {
    let mut store = DataStore::new();
    store.set_at(k("a"), sval("one"), None, false, false, 0).unwrap();
    let prior = store.set_at(k("a"), sval("two"), None, false, false, 0).unwrap();
    assert_eq!(prior, Some(sval("one")));
    assert_eq!(store.get_at(k("a"), 0), Some(sval("two")));
}

#[test]
fn test_expired_key_reads_as_absent() {
    let mut store = DataStore::new();
    store.set_at(k("a"), sval("v"), Some(-5), false, false, 1000).unwrap();
    assert_eq!(store.get_at(k("a"), 1000), None);
    // with a large duration and time not advanced past it, the value stays
    store.set_at(k("b"), sval("v"), Some(60_000), false, false, 1000).unwrap();
    assert_eq!(store.get_at(k("b"), 2000), Some(sval("v")));
    assert_eq!(store.get_at(k("b"), 60_999), Some(sval("v")));
    assert_eq!(store.get_at(k("b"), 61_000), None);
}

#[test]
fn test_overwrite_clears_expiry() {
    let mut store = DataStore::new();
    store.set_at(k("a"), sval("v"), Some(50), false, false, 0).unwrap();
    store.set_at(k("a"), sval("w"), None, false, false, 10).unwrap();
    // the old deadline has passed, but the overwrite dropped it
    assert_eq!(store.get_at(k("a"), 1000), Some(sval("w")));
}

#[test]
fn test_del_counts_and_removes() {
    let mut store = DataStore::new();
    store.set_at(k("a"), sval("v"), None, false, false, 0).unwrap();
    assert_eq!(store.del(vec![k("a")]), 1);
    assert_eq!(store.get_at(k("a"), 0), None);
    assert_eq!(store.del(vec![k("a")]), 0);
}

#[test]
fn test_del_many_counts_present_only() {
    let mut store = DataStore::new();
    store.set_at(k("a"), sval("1"), None, false, false, 0).unwrap();
    store.set_at(k("b"), sval("2"), None, false, false, 0).unwrap();
    assert_eq!(store.del(vec![k("a"), k("x"), k("b"), k("a")]), 2);
}

#[test]
fn test_exists_counts_duplicates() {
    let mut store = DataStore::new();
    store.set_at(k("a"), sval("1"), None, false, false, 0).unwrap();
    assert_eq!(store.exists_count(vec![k("a"), k("a"), k("x")]), 2);
    assert_eq!(store.exists_count(vec![k("x")]), 0);
}

#[test]
fn test_counter_balance() {
    let mut store = DataStore::new();
    assert_eq!(store.incr(k("c")).unwrap(), 1);
    assert_eq!(store.incr(k("c")).unwrap(), 2);
    assert_eq!(store.decr(k("c")).unwrap(), 1);
    assert_eq!(store.incr(k("c")).unwrap(), 2);
    assert_eq!(store.decr(k("c")).unwrap(), 1);
    assert_eq!(store.decr(k("c")).unwrap(), 0);
    assert_eq!(store.decr(k("c")).unwrap(), -1);
    // three increments, four decrements in all
    assert_eq!(store.get_at(k("c"), 0), Some(sval("-1")));
}

#[test]
fn test_decr_creates_at_minus_one() {
    let mut store = DataStore::new();
    assert_eq!(store.decr(k("c")).unwrap(), -1);
}

#[test]
fn test_incr_overflow_is_an_error() {
    let mut store = DataStore::new();
    store.set_at(k("c"), sval("9223372036854775807"), None, false, false, 0).unwrap();
    assert!(store.incr(k("c")).is_err());
    // the stored value is untouched
    assert_eq!(store.get_at(k("c"), 0), Some(sval("9223372036854775807")));
}

#[test]
fn test_incr_keeps_expiry() {
    let mut store = DataStore::new();
    store.set_at(k("c"), sval("1"), Some(100), false, false, 0).unwrap();
    assert_eq!(store.incr(k("c")).unwrap(), 2);
    // still expires at the first deadline
    assert_eq!(store.get_at(k("c"), 99), Some(sval("2")));
    assert_eq!(store.get_at(k("c"), 100), None);
}

#[test]
fn test_lpush_reverses_rpush_appends() {
    let mut store = DataStore::new();
    let elems = vec![k("a"), k("b"), k("c")];
    assert_eq!(store.lpush(k("L"), elems.clone()).unwrap(), 3);
    assert_eq!(
        store.lrange(k("L"), 0, -1).unwrap(),
        vec![k("c"), k("b"), k("a")]
    );
    assert_eq!(store.rpush(k("R"), elems).unwrap(), 3);
    assert_eq!(
        store.lrange(k("R"), 0, -1).unwrap(),
        vec![k("a"), k("b"), k("c")]
    );
}

#[test]
fn test_push_onto_existing_list() {
    let mut store = DataStore::new();
    store.rpush(k("L"), vec![k("b"), k("c")]).unwrap();
    assert_eq!(store.lpush(k("L"), vec![k("a")]).unwrap(), 3);
    assert_eq!(store.rpush(k("L"), vec![k("d")]).unwrap(), 4);
    assert_eq!(
        store.lrange(k("L"), 0, -1).unwrap(),
        vec![k("a"), k("b"), k("c"), k("d")]
    );
}

#[test]
fn test_lrange_index_handling() {
    let mut store = DataStore::new();
    store.rpush(k("L"), vec![k("a"), k("b"), k("c"), k("d")]).unwrap();
    assert_eq!(store.lrange(k("L"), 1, 2).unwrap(), vec![k("b"), k("c")]);
    assert_eq!(store.lrange(k("L"), -2, -1).unwrap(), vec![k("c"), k("d")]);
    assert_eq!(store.lrange(k("L"), 0, 100).unwrap(), vec![k("a"), k("b"), k("c"), k("d")]);
    assert_eq!(store.lrange(k("L"), 2, 1).unwrap(), Vec::<Vec<u8>>::new());
    assert_eq!(store.lrange(k("L"), -100, -101).unwrap(), Vec::<Vec<u8>>::new());
    assert_eq!(store.lrange(k("L"), 4, 5).unwrap(), Vec::<Vec<u8>>::new());
    assert_eq!(store.lrange(k("absent"), 0, -1).unwrap(), Vec::<Vec<u8>>::new());
}

#[test]
fn test_sampler_reaps_expired_keys() {
    let mut store = DataStore::new();
    // already expired: a negative duration lies in the past at any clock
    for i in 0..10 {
        let key = format!("gone{}", i).into_bytes();
        store.set(key, sval("v"), Some(-1000), false, false).unwrap();
    }
    // far in the future: these must survive
    for i in 0..5 {
        let key = format!("kept{}", i).into_bytes();
        store.set(key, sval("v"), Some(3_600_000), false, false).unwrap();
    }
    store.set(k("plain"), sval("v"), None, false, false).unwrap();
    store.purge_expired();
    let mut gone_keys: Vec<Vec<u8>> = Vec::new();
    for i in 0..10 {
        gone_keys.push(format!("gone{}", i).into_bytes());
    }
    assert_eq!(store.exists_count(gone_keys), 0);
    let mut kept_keys: Vec<Vec<u8>> = Vec::new();
    for i in 0..5 {
        kept_keys.push(format!("kept{}", i).into_bytes());
    }
    assert_eq!(store.exists_count(kept_keys), 5);
    assert_eq!(store.exists_count(vec![k("plain")]), 1);
}

#[test]
fn test_wall_clock_set_and_get() {
    let mut store = DataStore::new();
    store.set(k("a"), sval("v"), None, false, false).unwrap();
    assert_eq!(store.get(k("a")), Some(sval("v")));
    store.set(k("b"), sval("v"), Some(-5), false, false).unwrap();
    assert_eq!(store.get(k("b")), None);
}

#[test]
fn test_nx_xx_conditions() {
    let mut store = DataStore::new();
    assert!(store.set_at(k("a"), sval("1"), None, false, true, 0).is_err());
    assert!(store.set_at(k("a"), sval("1"), None, true, false, 0).is_ok());
    assert!(store.set_at(k("a"), sval("2"), None, true, false, 0).is_err());
    assert!(store.set_at(k("a"), sval("2"), None, false, true, 0).is_ok());
    assert_eq!(store.get_at(k("a"), 0), Some(sval("2")));
    assert!(store.set_at(k("a"), sval("3"), None, true, true, 0).is_err());
}
