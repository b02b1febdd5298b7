use redisrs::db::rocksdb::RocksDB;

#[test]
fn put_get_delete() {
    let mut db = RocksDB::new().unwrap();
    db.put("b", "2").unwrap();
    db.put("a", "1").unwrap();
    db.put("a", "3").unwrap();
    assert_eq!(db.get("a").unwrap(), Some("3".to_string()));
    assert_eq!(db.get("b").unwrap(), Some("2".to_string()));
    db.delete("a").unwrap();
    db.delete("zz").unwrap();
    assert_eq!(db.get("a").unwrap(), None);
}

#[test]
fn prefix_scan_is_sorted() {
    let mut db = RocksDB::new().unwrap();
    for k in ["p:c", "p:a", "q:z", "p:b", "o", "p"] {
        db.put(k, "x").unwrap();
    }
    assert_eq!(db.keys_with_prefix("p:").unwrap(), vec!["p:a", "p:b", "p:c"]);
    assert_eq!(db.keys_with_prefix("").unwrap(), vec!["o", "p", "p:a", "p:b", "p:c", "q:z"]);
}

#[test]
fn changes_are_handed_out_in_order() {
    let mut db = RocksDB::new().unwrap();
    db.put("a", "1").unwrap();
    db.delete("a").unwrap();
    db.put("b", "2").unwrap();
    let changes = db.take_changes();
    assert_eq!(
        changes,
        vec![
            ("a".to_string(), Some("1".to_string())),
            ("a".to_string(), None),
            ("b".to_string(), Some("2".to_string())),
        ]
    );
    assert!(db.take_changes().is_empty());
    assert_eq!(db.get("b").unwrap(), Some("2".to_string()));
}
