use seekv::{LogKv, LogKvError};

#[test]
fn reopen_returns_same_values() {
    let mut db = LogKv::create(Vec::new()).unwrap();
    db.put(b"alpha".to_vec(), b"one".to_vec()).unwrap();
    db.put(b"beta".to_vec(), b"two".to_vec()).unwrap();
    db.put(b"alpha".to_vec(), b"three".to_vec()).unwrap();
    let stored = db.bytes().clone();

    let reopened = LogKv::create(stored).unwrap();
    assert_eq!(reopened.get(&b"alpha".to_vec()).unwrap(), Some(b"three".to_vec()));
    assert_eq!(reopened.get(&b"beta".to_vec()).unwrap(), Some(b"two".to_vec()));
    assert_eq!(reopened.get(&b"gamma".to_vec()).unwrap(), None);
}

#[test]
fn reopened_store_accepts_further_writes() {
    let mut db = LogKv::create(Vec::new()).unwrap();
    db.put(b"key".to_vec(), b"old".to_vec()).unwrap();

    let mut reopened = LogKv::create(db.bytes().clone()).unwrap();
    reopened.put(b"key".to_vec(), b"new".to_vec()).unwrap();
    assert_eq!(reopened.get(&b"key".to_vec()).unwrap(), Some(b"new".to_vec()));

    let third = LogKv::create(reopened.bytes().clone()).unwrap();
    assert_eq!(third.get(&b"key".to_vec()).unwrap(), Some(b"new".to_vec()));
}

#[test]
fn reopen_of_empty_storage_succeeds() {
    let db = LogKv::create(Vec::new()).unwrap();
    let reopened = LogKv::create(db.bytes().clone()).unwrap();
    assert_eq!(reopened.get(&b"any".to_vec()).unwrap(), None);
}

#[test]
fn log_format_matches_codec() {
    let key = b"the-key".to_vec();
    let value = b"the-value".to_vec();
    let mut db = LogKv::create(Vec::new()).unwrap();
    db.put(key.clone(), value.clone()).unwrap();

    let mut expected = bincode::serialize(&key).unwrap();
    expected.extend(bincode::serialize(&value).unwrap());
    assert_eq!(db.bytes().clone(), expected);
}

#[test]
fn storage_written_by_codec_is_readable() {
    let key = b"written-elsewhere".to_vec();
    let value = b"and read here".to_vec();
    let mut storage = bincode::serialize(&key).unwrap();
    storage.extend(bincode::serialize(&value).unwrap());

    let db = LogKv::create(storage).unwrap();
    assert_eq!(db.get(&key).unwrap(), Some(value));
}

#[test]
fn dangling_key_fails_to_open() {
    let key = b"dangling".to_vec();
    let value = b"lost value".to_vec();
    let mut db = LogKv::create(Vec::new()).unwrap();
    db.put(key.clone(), value.clone()).unwrap();

    let full = db.bytes().clone();
    let value_bytes = bincode::serialize(&value).unwrap().len();
    let truncated = full[..full.len() - value_bytes].to_vec();

    let result = LogKv::create(truncated);
    assert!(matches!(result, Err(LogKvError::Truncation(_))));
}

#[test]
fn partially_written_value_fails_to_open() {
    let key = b"partial".to_vec();
    let value = b"half flushed".to_vec();
    let mut db = LogKv::create(Vec::new()).unwrap();
    db.put(key.clone(), value.clone()).unwrap();

    let full = db.bytes().clone();
    let truncated = full[..full.len() - 3].to_vec();

    let result = LogKv::create(truncated);
    assert!(matches!(result, Err(LogKvError::Truncation(_))));
}

#[test]
fn garbage_storage_fails_to_open() {
    let result = LogKv::create(vec![1u8, 2u8, 3u8]);
    match result {
        Err(e) => {
            assert!(matches!(e, LogKvError::Truncation(_)));
            assert!(!e.message().is_empty());
        },
        Ok(_) => panic!("a three-byte storage must not open"),
    }
}
