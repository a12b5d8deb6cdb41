use seekv::LogKv;

fn uuid_key() -> Vec<u8> {
    uuid::Uuid::new_v4().as_bytes().to_vec()
}

#[test]
fn put_twice_then_get_returns_expected() {
    let mut db = LogKv::create(Vec::new()).unwrap();
    let key = uuid_key();
    let value = "this is a test transmission";
    db.put(uuid_key(), b"valueA".to_vec()).unwrap();
    db.put(key.clone(), value.as_bytes().to_vec()).unwrap();
    let retrieved = db.get(&key).unwrap().expect("No value retrieved");
    assert_eq!(retrieved, value.as_bytes().to_vec());
}

#[test]
fn get_returns_not_found() {
    let mut db = LogKv::create(Vec::new()).unwrap();
    let key = uuid_key();
    let value = "this is a test transmission";
    db.put(uuid_key(), b"valueA".to_vec()).unwrap();
    db.put(key, value.as_bytes().to_vec()).unwrap();
    let retrieved = db.get(&uuid_key()).unwrap();
    assert_eq!(retrieved.is_some(), false);
}

#[test]
fn empty_store_has_no_retrievable_keys() {
    let db = LogKv::create(Vec::new()).unwrap();
    assert_eq!(db.get(&b"anything".to_vec()).unwrap(), None);
    assert_eq!(db.get(&Vec::new()).unwrap(), None);
    assert_eq!(db.bytes().len(), 0);
}

#[test]
fn open_put_get_scenario() {
    let mut db = LogKv::create(Vec::new()).unwrap();
    let k1 = b"K1".to_vec();
    let k2 = b"K2".to_vec();
    let k3 = b"K3".to_vec();
    let value = b"this is a test transmission".to_vec();

    db.put(k1.clone(), value.clone()).unwrap();
    assert_eq!(db.get(&k1).unwrap(), Some(value.clone()));

    db.put(k2.clone(), b"valueA".to_vec()).unwrap();
    db.put(k1.clone(), value.clone()).unwrap();
    assert_eq!(db.get(&k1).unwrap(), Some(value.clone()));
    assert_eq!(db.get(&k2).unwrap(), Some(b"valueA".to_vec()));

    assert_eq!(db.get(&k3).unwrap(), None);
}

#[test]
fn last_write_wins() {
    let mut db = LogKv::create(Vec::new()).unwrap();
    let key = b"counter".to_vec();
    db.put(key.clone(), b"first".to_vec()).unwrap();
    db.put(key.clone(), b"second".to_vec()).unwrap();
    assert_eq!(db.get(&key).unwrap(), Some(b"second".to_vec()));
}

#[test]
fn interleaved_puts_stay_independent() {
    let mut db = LogKv::create(Vec::new()).unwrap();
    db.put(b"A".to_vec(), b"x".to_vec()).unwrap();
    db.put(b"B".to_vec(), b"y".to_vec()).unwrap();
    assert_eq!(db.get(&b"A".to_vec()).unwrap(), Some(b"x".to_vec()));
    assert_eq!(db.get(&b"B".to_vec()).unwrap(), Some(b"y".to_vec()));

    let mut other = LogKv::create(Vec::new()).unwrap();
    other.put(b"B".to_vec(), b"y".to_vec()).unwrap();
    other.put(b"A".to_vec(), b"x".to_vec()).unwrap();
    assert_eq!(other.get(&b"A".to_vec()).unwrap(), Some(b"x".to_vec()));
    assert_eq!(other.get(&b"B".to_vec()).unwrap(), Some(b"y".to_vec()));
}

#[test]
fn empty_key_and_empty_value_round_trip() {
    let mut db = LogKv::create(Vec::new()).unwrap();
    db.put(Vec::new(), Vec::new()).unwrap();
    assert_eq!(db.get(&Vec::new()).unwrap(), Some(Vec::new()));
}
