use respkv::store::Store;

#[test]
fn get_after_set_returns_the_value() {
    let mut s = Store::new();
    s.set(b"k".to_vec(), b"v".to_vec(), None);
    assert_eq!(s.get(b"k", 0), Some(b"v".to_vec()));
    assert_eq!(s.get(b"k", u64::MAX), Some(b"v".to_vec()));
}

#[test]
fn missing_key_reads_nothing() {
    let s = Store::new();
    assert_eq!(s.get(b"absent", 0), None);
}

#[test]
fn deadline_is_honoured() {
    let mut s = Store::new();
    s.set(b"k".to_vec(), b"v".to_vec(), Some(100));
    assert_eq!(s.get(b"k", 99), Some(b"v".to_vec()));
    // the boundary instant still serves the value
    assert_eq!(s.get(b"k", 100), Some(b"v".to_vec()));
    assert_eq!(s.get(b"k", 101), None);
}

#[test]
fn overwrite_replaces_value_and_deadline() {
    let mut s = Store::new();
    s.set(b"k".to_vec(), b"v1".to_vec(), Some(10));
    s.set(b"k".to_vec(), b"v2".to_vec(), None);
    assert_eq!(s.get(b"k", 1_000_000), Some(b"v2".to_vec()));
    s.set(b"k".to_vec(), b"v3".to_vec(), Some(5));
    assert_eq!(s.get(b"k", 6), None);
    assert_eq!(s.get(b"k", 5), Some(b"v3".to_vec()));
}

#[test]
fn keys_compare_bytewise() {
    let mut s = Store::new();
    s.set(b"Key".to_vec(), b"upper".to_vec(), None);
    s.set(b"key".to_vec(), b"lower".to_vec(), None);
    assert_eq!(s.get(b"Key", 0), Some(b"upper".to_vec()));
    assert_eq!(s.get(b"key", 0), Some(b"lower".to_vec()));
    assert_eq!(s.get(b"KEY", 0), None);
}

#[test]
fn binary_keys_and_values_survive() {
    let mut s = Store::new();
    let key = vec![0u8, 13, 10, 255];
    let val = vec![1u8, 13, 10, 0, 254];
    s.set(key.clone(), val.clone(), None);
    assert_eq!(s.get(&key, 0), Some(val));
}
