use bytes::Bytes;
use redis_starter_rust::db::Db;

#[test]
fn ttl_expires_after_it_elapses() {
    let mut db = Db::new();
    assert_eq!(db.set("k".to_string(), Bytes::from_static(b"v"), Some(50), 1000), None);
    assert_eq!(db.get("k", 1000), Some(Bytes::from_static(b"v")));
    assert_eq!(db.get("k", 1049), Some(Bytes::from_static(b"v")));
    assert_eq!(db.get("k", 1050), Some(Bytes::from_static(b"v")));
    assert_eq!(db.get("k", 1051), None);
    assert_eq!(db.get("k", 1052), None);
    assert_eq!(db.get("k", 1000), None);
}

#[test]
fn overwrite_reports_previous_value() {
    let mut db = Db::new();
    assert_eq!(db.set("k".to_string(), Bytes::from_static(b"v1"), None, 0), None);
    assert_eq!(db.set("k".to_string(), Bytes::from_static(b"v2"), None, 1), Some(Bytes::from_static(b"v1")));
    assert_eq!(db.get("k", 2), Some(Bytes::from_static(b"v2")));
}

#[test]
fn overwrite_of_expired_entry_still_reports_it() {
    let mut db = Db::new();
    db.set("k".to_string(), Bytes::from_static(b"old"), Some(1), 0);
    assert_eq!(db.set("k".to_string(), Bytes::from_static(b"new"), None, 100), Some(Bytes::from_static(b"old")));
    assert_eq!(db.get("k", 200), Some(Bytes::from_static(b"new")));
}

#[test]
fn set_refreshes_insertion_time() {
    let mut db = Db::new();
    db.set("k".to_string(), Bytes::from_static(b"a"), Some(10), 0);
    db.set("k".to_string(), Bytes::from_static(b"b"), Some(10), 100);
    assert_eq!(db.get("k", 105), Some(Bytes::from_static(b"b")));
}

#[test]
fn missing_key_reads_absent() {
    let mut db = Db::new();
    assert_eq!(db.get("nope", 0), None);
    db.set("a".to_string(), Bytes::from_static(b"1"), None, 0);
    db.set("b".to_string(), Bytes::from_static(b"2"), None, 0);
    assert_eq!(db.get("b", 0), Some(Bytes::from_static(b"2")));
    assert_eq!(db.get("a", 0), Some(Bytes::from_static(b"1")));
    assert_eq!(db.get("c", 0), None);
}
