//! Deterministic scenarios against the sequential store, driving the clock
//! by hand: every reading is an explicit nanosecond argument.
use mini_map::store::Store;
use mini_map::MapError;

const MILLISECOND: u64 = 1_000_000;

#[test]
fn round_trip_without_ttl() {
    let mut store: Store<String> = Store::new(4);
    store.insert_at("k", "v".to_string(), None, 100);

    assert_eq!(Some(("v".to_string(), None)), store.get_at("k", 100));
    // no deadline: still visible arbitrarily far in the future
    assert_eq!(Some(("v".to_string(), None)), store.get_at("k", u64::MAX));
}

#[test]
fn update_keeps_original_ttl_clock() {
    let mut store: Store<String> = Store::new(4);
    store.insert_at("k", "v1".to_string(), Some(MILLISECOND), 100);
    store.insert_at("k", "v2".to_string(), None, 200);

    // the value is replaced ...
    let (value, remaining) = store.get_at("k", 200).unwrap();
    assert_eq!("v2", value);
    // ... but the countdown started by the first insert still governs
    assert_eq!(Some(MILLISECOND - 100), remaining);
    assert_eq!(None, store.get_at("k", 100 + MILLISECOND + 1));
    assert_eq!(1, store.len());
}

#[test]
fn collisions_keep_every_key() {
    let mut store: Store<String> = Store::new(2);
    store.insert_at("foo", "1".to_string(), None, 0);
    store.insert_at("bar", "2".to_string(), None, 0);
    store.insert_at("baz", "3".to_string(), None, 0);

    assert_eq!(3, store.len());
    assert_eq!("1", store.get_at("foo", 0).unwrap().0);
    assert_eq!("2", store.get_at("bar", 0).unwrap().0);
    assert_eq!("3", store.get_at("baz", 0).unwrap().0);
}

#[test]
fn soft_then_hard_expiration() {
    let mut store: Store<String> = Store::new(128);
    store.insert_at("foo", "bar".to_string(), Some(MILLISECOND), 0);

    // immediately: visible, with the whole time-to-live left
    assert_eq!(Some(("bar".to_string(), Some(MILLISECOND))), store.get_at("foo", 0));
    assert_eq!(1, store.len());

    // after two milliseconds: soft-expired, invisible but still resident
    assert_eq!(None, store.get_at("foo", 2 * MILLISECOND));
    assert_eq!(1, store.len());

    // a sweep hard-expires it
    assert_eq!(1, store.expire_at(2 * MILLISECOND));
    assert_eq!(0, store.len());
}

#[test]
fn remove_ignores_expiration() {
    let mut store: Store<String> = Store::new(4);
    store.insert_at("k", "v".to_string(), Some(1), 0);

    // expired at this reading, yet remove still yields the value
    assert_eq!(None, store.get_at("k", 10));
    assert_eq!(Some("v".to_string()), store.remove("k"));
    // and removing an absent key reports nothing, without error
    assert_eq!(None, store.remove("k"));
}

#[test]
fn sweep_removes_only_expired_entries() {
    let mut store: Store<String> = Store::new(4);
    store.insert_at("stale", "a".to_string(), Some(MILLISECOND), 0);
    store.insert_at("fresh", "b".to_string(), Some(10 * MILLISECOND), 0);
    store.insert_at("forever", "c".to_string(), None, 0);

    assert_eq!(1, store.expire_at(2 * MILLISECOND));
    assert_eq!(2, store.len());
    assert_eq!(None, store.get_at("stale", 2 * MILLISECOND));
    assert_eq!("b", store.get_at("fresh", 2 * MILLISECOND).unwrap().0);
    assert_eq!("c", store.get_at("forever", 2 * MILLISECOND).unwrap().0);
}

#[test]
fn zero_ttl_expires_strictly_after_creation() {
    let mut store: Store<String> = Store::new(4);
    store.insert_at("k", "v".to_string(), Some(0), 5);

    // elapsed must strictly exceed the time-to-live
    assert_eq!(Some(("v".to_string(), Some(0))), store.get_at("k", 5));
    assert_eq!(None, store.get_at("k", 6));
}

#[test]
fn reading_before_creation_leaves_full_ttl() {
    let mut store: Store<String> = Store::new(4);
    store.insert_at("k", "v".to_string(), Some(MILLISECOND), 50);

    // a clock reading before the creation cannot expire the entry
    let (_, remaining) = store.get_at("k", 10).unwrap();
    assert_eq!(Some(MILLISECOND), remaining);
}

#[test]
fn batch_insert_at_is_all_or_nothing() {
    let mut store: Store<String> = Store::new(4);

    let bad = store.insert_many_at(&["a", "b"], &["1".to_string()], None, 0);
    assert_eq!(Err(MapError::LengthMismatch), bad);
    assert_eq!(0, store.len());

    let ok = store.insert_many_at(&["a", "b"], &["1".to_string(), "2".to_string()], None, 0);
    assert_eq!(Ok(()), ok);
    assert_eq!(2, store.len());
    assert_eq!("1", store.get_at("a", 0).unwrap().0);
    assert_eq!("2", store.get_at("b", 0).unwrap().0);
}

#[test]
fn expire_on_empty_store_removes_nothing() {
    let mut store: Store<String> = Store::new(1);
    assert_eq!(0, store.expire_at(123));
    assert_eq!(0, store.len());
}
