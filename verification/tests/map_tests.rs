use mini_map::{MapError, MiniMap};

#[test]
fn can_insert_new() {
    let mut map: MiniMap<128, String> = MiniMap::new();
    map.insert("foo", "bar".to_string(), None);

    assert_eq!("bar", map.get("foo").unwrap().0);
}

#[test]
fn can_insert_with_collision() {
    // very small hash size to maximize possibility of collision
    let mut map: MiniMap<2, String> = MiniMap::new();
    map.insert("foo", "1".to_string(), None);
    map.insert("bar", "2".to_string(), None);
    map.insert("baz", "3".to_string(), None);

    // three keys over two buckets: at least two share a bucket, and all three are kept
    assert_eq!(3, map.len());
}

#[test]
fn can_get() {
    let mut map: MiniMap<128, String> = MiniMap::new();
    map.insert("foo", "bar".to_string(), None);
    map.insert("baz", "bat".to_string(), None);

    assert_eq!("bat", map.get("baz").unwrap().0);
}

#[test]
fn can_remove() {
    let mut map: MiniMap<128, String> = MiniMap::new();
    map.insert("foo", "bar".to_string(), None);
    map.insert("baz", "bat".to_string(), None);

    assert_eq!(Some("bat".to_string()), map.remove("baz"));
    assert_eq!(None, map.remove("xyz"));
    assert_eq!(None, map.get("baz"));
}

#[test]
fn cloned_handles_share_storage() {
    let map: MiniMap<128, String> = MiniMap::new();

    let mut map1 = map.clone();
    let mut map2 = map.clone();
    map1.insert("a", "t1".to_string(), None);
    map2.insert("b", "t2".to_string(), None);

    assert_eq!(2, map.len());
    assert_eq!("t1", map.get("a").unwrap().0);
    assert_eq!("t2", map.get("b").unwrap().0);
}

#[test]
fn insert_replaces_value() {
    let mut map: MiniMap<16, String> = MiniMap::new();
    map.insert("k", "first".to_string(), None);
    map.insert("k", "second".to_string(), None);

    assert_eq!("second", map.get("k").unwrap().0);
    assert_eq!(1, map.len());
}

#[test]
fn insert_many_inserts_all() {
    let mut map: MiniMap<8, String> = MiniMap::new();
    let r = map.insert_many(&["a", "b", "c"], &["1".to_string(), "2".to_string(), "3".to_string()], None);

    assert_eq!(Ok(()), r);
    assert_eq!(3, map.len());
    assert_eq!("1", map.get("a").unwrap().0);
    assert_eq!("2", map.get("b").unwrap().0);
    assert_eq!("3", map.get("c").unwrap().0);
}

#[test]
fn insert_many_length_mismatch_changes_nothing() {
    let mut map: MiniMap<8, String> = MiniMap::new();
    map.insert("kept", "v".to_string(), None);
    let before = map.len();

    let r = map.insert_many(&["a", "b"], &["1".to_string()], None);

    assert_eq!(Err(MapError::LengthMismatch), r);
    assert_eq!(before, map.len());
    assert_eq!(None, map.get("a"));
}

#[test]
fn get_without_ttl_reports_no_deadline() {
    let mut map: MiniMap<8, String> = MiniMap::new();
    map.insert("k", "v".to_string(), None);

    let (value, remaining) = map.get("k").unwrap();
    assert_eq!("v", value);
    assert_eq!(None, remaining);
}

#[test]
fn get_with_long_ttl_reports_remaining_span() {
    let hour: u64 = 3_600_000_000_000;
    let mut map: MiniMap<8, String> = MiniMap::new();
    map.insert("k", "v".to_string(), Some(hour));

    let (value, remaining) = map.get("k").unwrap();
    assert_eq!("v", value);
    let left = remaining.expect("a time-to-live was set");
    assert!(left <= hour);
    assert!(left > 0);
}

#[test]
fn expire_without_expired_entries_removes_nothing() {
    let mut map: MiniMap<8, String> = MiniMap::new();
    map.insert("k", "v".to_string(), None);

    assert_eq!(0, map.expire());
    assert_eq!(1, map.len());
}

#[test]
fn empty_map_is_empty() {
    let mut map: MiniMap<8, String> = MiniMap::new();

    assert_eq!(0, map.len());
    assert_eq!(None, map.get("missing"));
    assert_eq!(None, map.remove("missing"));
    assert_eq!(0, map.expire());
}
