use docdb::db::Db;
use docdb::log::{Log, LogError, LogRecord};
use std::collections::{BTreeSet, HashMap};

#[test]
fn test_put_and_get() {
    let mut db = Db::open(Vec::new()).unwrap();

    db.put("key1", b"value1").unwrap();

    assert_eq!(db.get("key1"), Some(b"value1".as_slice()));
    assert_eq!(db.get("nonexistent"), None);
}

#[test]
fn test_delete() {
    let mut db = Db::open(Vec::new()).unwrap();

    db.put("key1", b"value1").unwrap();
    assert_eq!(db.get("key1"), Some(b"value1".as_slice()));

    db.delete("key1").unwrap();
    assert_eq!(db.get("key1"), None);
}

#[test]
fn test_put_overwrite() {
    let mut db = Db::open(Vec::new()).unwrap();

    db.put("key1", b"value1").unwrap();
    db.put("key1", b"value2").unwrap();

    assert_eq!(db.get("key1"), Some(b"value2".as_slice()));
}

#[test]
fn test_multiple_keys() {
    let mut db = Db::open(Vec::new()).unwrap();

    db.put("key1", b"value1").unwrap();
    db.put("key2", b"value2").unwrap();
    db.put("key3", b"value3").unwrap();

    assert_eq!(db.get("key1"), Some(b"value1".as_slice()));
    assert_eq!(db.get("key2"), Some(b"value2".as_slice()));
    assert_eq!(db.get("key3"), Some(b"value3".as_slice()));
}

#[test]
fn test_recovery_after_put() {
    // Create database, put a value, and close
    let image = {
        let mut db = Db::open(Vec::new()).unwrap();
        db.put("key1", b"value1").unwrap();
        db.close()
    };

    // Reopen and verify the value is still there
    let db = Db::open(image).unwrap();
    assert_eq!(db.get("key1"), Some(b"value1".as_slice()));
}

#[test]
fn test_recovery_after_delete() {
    // Create database, put and delete, then close
    let image = {
        let mut db = Db::open(Vec::new()).unwrap();
        db.put("key1", b"value1").unwrap();
        db.delete("key1").unwrap();
        db.close()
    };

    // Reopen and verify the key is gone
    let db = Db::open(image).unwrap();
    assert_eq!(db.get("key1"), None);
}

#[test]
fn test_recovery_after_sequence() {
    // Create database, perform sequence of operations, then close
    let image = {
        let mut db = Db::open(Vec::new()).unwrap();
        db.put("key1", b"value1").unwrap();
        db.put("key2", b"value2").unwrap();
        db.put("key1", b"value1_updated").unwrap();
        db.delete("key2").unwrap();
        db.put("key3", b"value3").unwrap();
        db.close()
    };

    // Reopen and verify final state
    let db = Db::open(image).unwrap();
    assert_eq!(db.get("key1"), Some(b"value1_updated".as_slice()));
    assert_eq!(db.get("key2"), None);
    assert_eq!(db.get("key3"), Some(b"value3".as_slice()));
}

#[test]
fn test_empty_database() {
    let db = Db::open(Vec::new()).unwrap();

    assert_eq!(db.get("anykey"), None);
}

#[test]
fn test_property_style_recovery() {
    // After any sequence of operations and restart,
    // get returns the last written value or None if deleted.
    let test_cases: Vec<(Vec<(&str, &str, Option<&str>)>, Vec<(&str, Option<&str>)>)> = vec![
        (
            vec![("put", "key1", Some("value1"))],
            vec![("key1", Some("value1"))],
        ),
        (
            vec![("put", "key1", Some("value1")), ("delete", "key1", None)],
            vec![("key1", None)],
        ),
        (
            vec![
                ("put", "key1", Some("value1")),
                ("put", "key1", Some("value2")),
            ],
            vec![("key1", Some("value2"))],
        ),
        (
            vec![
                ("put", "key1", Some("value1")),
                ("put", "key2", Some("value2")),
                ("delete", "key1", None),
                ("put", "key1", Some("value3")),
            ],
            vec![("key1", Some("value3")), ("key2", Some("value2"))],
        ),
    ];

    for (seq_num, (operations, expected_final_state)) in test_cases.iter().enumerate() {
        // Apply sequence of operations to a database that starts empty
        let image = {
            let mut db = Db::open(Vec::new()).unwrap();
            for (op, key, value) in operations {
                match *op {
                    "put" => {
                        db.put(key, value.unwrap().as_bytes()).unwrap();
                    }
                    "delete" => {
                        db.delete(key).unwrap();
                    }
                    _ => panic!("Unknown operation: {}", op),
                }
            }
            db.close()
        };

        // Reopen and verify final state matches expectations
        let db = Db::open(image).unwrap();
        for (key, expected_value) in expected_final_state {
            let actual = db.get(key);
            let expected = expected_value.map(|v| v.as_bytes());
            assert_eq!(
                actual, expected,
                "Sequence {}: key '{}' should be {:?} after restart",
                seq_num, key, expected_value
            );
        }
    }
}

fn key_set(db: &Db) -> BTreeSet<String> {
    let keys = db.keys();
    let set: BTreeSet<String> = keys.iter().cloned().collect();
    assert_eq!(set.len(), keys.len());
    set
}

fn names(keys: &[&str]) -> BTreeSet<String> {
    keys.iter().map(|k| k.to_string()).collect()
}

#[test]
fn overwrite_before_and_after_reopen() {
    let mut db = Db::open(Vec::new()).unwrap();
    db.put("key1", b"value1").unwrap();
    db.put("key1", b"value2").unwrap();
    assert_eq!(db.get("key1"), Some(b"value2".as_slice()));
    let db = Db::open(db.close()).unwrap();
    assert_eq!(db.get("key1"), Some(b"value2".as_slice()));
}

#[test]
fn delete_then_miss_before_and_after_reopen() {
    let mut db = Db::open(Vec::new()).unwrap();
    db.put("key1", b"value1").unwrap();
    db.delete("key1").unwrap();
    assert_eq!(db.get("key1"), None);
    let db = Db::open(db.close()).unwrap();
    assert_eq!(db.get("key1"), None);
}

#[test]
fn resurrection_after_reopen() {
    let mut db = Db::open(Vec::new()).unwrap();
    db.put("key1", b"value1").unwrap();
    db.delete("key1").unwrap();
    db.put("key1", b"value3").unwrap();
    assert_eq!(db.get("key1"), Some(b"value3".as_slice()));
    let db = Db::open(db.close()).unwrap();
    assert_eq!(db.get("key1"), Some(b"value3".as_slice()));
}

#[test]
fn empty_store_has_no_keys() {
    let db = Db::open(Vec::new()).unwrap();
    assert!(db.keys().is_empty());
    assert_eq!(db.get(""), None);
    assert_eq!(db.get("anykey"), None);
    assert!(db.log().as_bytes().is_empty());
    assert!(db.close().is_empty());
}

#[test]
fn operations_on_one_key_leave_the_others() {
    let mut db = Db::open(Vec::new()).unwrap();
    db.put("key1", b"value1").unwrap();
    db.put("key2", b"value2").unwrap();
    assert_eq!(db.get("key1"), Some(b"value1".as_slice()));
    db.put("key2", b"other").unwrap();
    assert_eq!(db.get("key1"), Some(b"value1".as_slice()));
    db.delete("key2").unwrap();
    assert_eq!(db.get("key1"), Some(b"value1".as_slice()));
    assert_eq!(db.get("key2"), None);
    db.delete("key3").unwrap();
    assert_eq!(db.get("key1"), Some(b"value1".as_slice()));
}

#[test]
fn keys_are_the_current_key_set() {
    let mut db = Db::open(Vec::new()).unwrap();
    assert_eq!(key_set(&db), names(&[]));
    db.put("b", b"1").unwrap();
    db.put("a", b"2").unwrap();
    db.put("c", b"3").unwrap();
    db.put("a", b"4").unwrap();
    assert_eq!(key_set(&db), names(&["a", "b", "c"]));
    db.delete("b").unwrap();
    assert_eq!(key_set(&db), names(&["a", "c"]));
    db.delete("nope").unwrap();
    assert_eq!(key_set(&db), names(&["a", "c"]));
    db.put("d", b"5").unwrap();
    db.delete("a").unwrap();
    assert_eq!(key_set(&db), names(&["c", "d"]));
    assert_eq!(db.get("c"), Some(b"3".as_slice()));
    assert_eq!(db.get("d"), Some(b"5".as_slice()));
    let db = Db::open(db.close()).unwrap();
    assert_eq!(key_set(&db), names(&["c", "d"]));
}

#[test]
fn many_keys_with_removals_in_the_middle() {
    let mut db = Db::open(Vec::new()).unwrap();
    for i in 0..200 {
        db.put(&format!("key{}", i), format!("value{}", i).as_bytes())
            .unwrap();
    }
    for i in (0..200).step_by(3) {
        db.delete(&format!("key{}", i)).unwrap();
    }
    let mut expected = BTreeSet::new();
    for i in 0..200 {
        let key = format!("key{}", i);
        if i % 3 == 0 {
            assert_eq!(db.get(&key), None);
        } else {
            assert_eq!(db.get(&key), Some(format!("value{}", i).as_bytes()));
            expected.insert(key);
        }
    }
    assert_eq!(key_set(&db), expected);
    let reopened = Db::open(db.close()).unwrap();
    assert_eq!(key_set(&reopened), expected);
    for key in &expected {
        assert!(reopened.get(key).is_some());
    }
}

#[test]
fn store_log_holds_one_record_per_call() {
    let mut db = Db::open(Vec::new()).unwrap();
    db.put("k\u{e9}", b"v").unwrap();
    db.delete("gone").unwrap();
    let records = Log::read_all(db.log().as_bytes()).unwrap();
    assert_eq!(
        records,
        vec![
            LogRecord::Put {
                key: "k\u{e9}".as_bytes().to_vec(),
                value: b"v".to_vec()
            },
            LogRecord::Delete {
                key: b"gone".to_vec()
            },
        ]
    );
    assert_eq!(
        db.log().as_bytes(),
        &[0, 3, 0, 0, 0, b'k', 0xc3, 0xa9, 1, 0, 0, 0, b'v', 1, 4, 0, 0, 0, b'g', b'o', b'n', b'e']
    );
}

#[test]
fn open_keeps_the_image_it_was_given() {
    let mut log = Log::open(Vec::new());
    log.put(b"a", b"1").unwrap();
    let image = log.into_bytes();
    let mut db = Db::open(image.clone()).unwrap();
    assert_eq!(db.log().as_bytes(), image.as_slice());
    db.put("b", b"2").unwrap();
    let after = db.close();
    assert_eq!(&after[..image.len()], image.as_slice());
    assert_eq!(Log::read_all(&after).unwrap().len(), 2);
}

#[test]
fn replay_skips_keys_that_are_not_text() {
    let mut log = Log::open(Vec::new());
    log.put(b"good", b"1").unwrap();
    log.put(&[0xff, 0xfe], b"2").unwrap();
    log.delete(&[0x80]).unwrap();
    log.put(b"also", b"3").unwrap();
    let db = Db::open(log.into_bytes()).unwrap();
    assert_eq!(key_set(&db), names(&["also", "good"]));
    assert_eq!(db.get("good"), Some(b"1".as_slice()));
    assert_eq!(db.get("also"), Some(b"3".as_slice()));
}

#[test]
fn replay_log_rebuilds_the_index() {
    let mut log = Log::open(Vec::new());
    log.put(b"a", b"1").unwrap();
    log.put(b"b", b"2").unwrap();
    log.delete(b"a").unwrap();
    let index = Db::replay_log(log.as_bytes()).unwrap();
    assert_eq!(index.get("a"), None);
    assert_eq!(index.get("b"), Some(b"2".as_slice()));
    assert_eq!(index.keys(), vec!["b".to_string()]);
}

#[test]
fn open_fails_on_a_truncated_image() {
    let mut log = Log::open(Vec::new());
    log.put(b"key1", b"value1").unwrap();
    let mut image = log.into_bytes();
    image.pop();
    assert!(matches!(Db::open(image.clone()), Err(LogError::UnexpectedEof)));
    assert!(matches!(
        Db::replay_log(&image),
        Err(LogError::UnexpectedEof)
    ));
}

#[test]
fn open_fails_on_an_unknown_tag() {
    let mut log = Log::open(Vec::new());
    log.put(b"key1", b"value1").unwrap();
    let mut image = log.into_bytes();
    image.extend([9, 0, 0, 0, 0]);
    assert!(matches!(
        Db::open(image),
        Err(LogError::UnknownRecordType(9))
    ));
}

#[test]
fn empty_key_and_empty_value_are_kept() {
    let mut db = Db::open(Vec::new()).unwrap();
    db.put("", b"").unwrap();
    assert_eq!(db.get(""), Some(b"".as_slice()));
    assert_eq!(key_set(&db), names(&[""]));
    let db = Db::open(db.close()).unwrap();
    assert_eq!(db.get(""), Some(b"".as_slice()));
}

#[test]
fn replay_gives_what_the_calls_made_in_memory() {
    let keys = ["", "a", "b", "key1", "key2", "gr\u{fc}n", "\u{1f600}"];
    let mut model: HashMap<String, Vec<u8>> = HashMap::new();
    let mut db = Db::open(Vec::new()).unwrap();
    let mut seed: u32 = 12345;
    for step in 0..500u32 {
        seed = seed.wrapping_mul(1664525).wrapping_add(1013904223);
        let key = keys[(seed >> 8) as usize % keys.len()];
        if (seed >> 20) % 3 == 0 {
            db.delete(key).unwrap();
            model.remove(key);
        } else {
            let value = format!("value{}", step).into_bytes();
            db.put(key, &value).unwrap();
            model.insert(key.to_string(), value);
        }
        for key in keys {
            assert_eq!(db.get(key), model.get(key).map(|v| v.as_slice()));
        }
    }
    let expected: BTreeSet<String> = model.keys().cloned().collect();
    assert_eq!(key_set(&db), expected);

    let image = db.close();
    assert_eq!(Log::read_all(&image).unwrap().len(), 500);
    let reopened = Db::open(image).unwrap();
    assert_eq!(key_set(&reopened), expected);
    for key in keys {
        assert_eq!(reopened.get(key), model.get(key).map(|v| v.as_slice()));
    }
}

#[test]
fn torn_append_fails_the_next_open() {
    let mut db = Db::open(Vec::new()).unwrap();
    db.put("key1", b"value1").unwrap();
    let whole = db.close();
    let record = LogRecord::Put {
        key: b"key2".to_vec(),
        value: b"value2".to_vec(),
    }
    .encode()
    .unwrap();
    for cut in 1..record.len() {
        let mut image = whole.clone();
        image.extend(&record[..cut]);
        assert!(matches!(Db::open(image), Err(LogError::UnexpectedEof)));
    }
    let mut image = whole.clone();
    image.extend(&record);
    let db = Db::open(image).unwrap();
    assert_eq!(db.get("key2"), Some(b"value2".as_slice()));
}
