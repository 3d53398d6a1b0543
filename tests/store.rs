use moonis::storage::Storage;
use moonis::types::{BulkString, RespValue};

fn b(s: &[u8]) -> BulkString {
    BulkString(s.to_vec())
}

#[test]
fn set_get_and_overwrite() {
    let mut store = Storage::new();
    assert_eq!(store.get(b(b"k")), None);
    assert!(!store.set(b(b"k"), b(b"v1")));
    assert!(store.set(b(b"k"), b(b"v2")));
    assert_eq!(store.get(b(b"k")), Some(b(b"v2")));
}

#[test]
fn appends_are_not_lost() {
    let mut store = Storage::new();
    store.set(b(b"k"), b(b"abc"));
    assert_eq!(store.append(b(b"k"), b(b"de")), 5);
    assert_eq!(store.append(b(b"k"), b(b"fgh")), 8);
    assert_eq!(store.get(b(b"k")), Some(b(b"abcdefgh")));
    assert_eq!(store.append(b(b"new"), b(b"xy")), 2);
    assert_eq!(store.get(b(b"new")), Some(b(b"xy")));
}

#[test]
fn delete_counts_present_keys() {
    let mut store = Storage::new();
    store.set(b(b"a"), b(b"1"));
    store.set(b(b"b"), b(b"2"));
    store.set(b(b"c"), b(b"3"));
    assert_eq!(store.del(vec![b(b"a"), b(b"x"), b(b"c"), b(b"y")]), 2);
    assert_eq!(store.get(b(b"a")), None);
    assert_eq!(store.get(b(b"c")), None);
    assert_eq!(store.get(b(b"b")), Some(b(b"2")));
    assert_eq!(store.del(vec![b(b"b"), b(b"b")]), 1);
    assert_eq!(store.del(vec![]), 0);
}

#[test]
fn keys_exists_and_clear() {
    let mut store = Storage::new();
    store.set(b(b"a"), b(b"1"));
    store.set(b(b"b"), b(b"2"));
    store.set(b(b"a"), b(b"3"));
    let mut keys: Vec<Vec<u8>> = store.keys(b(b"ignored")).into_iter().map(|k| k.0).collect();
    keys.sort();
    assert_eq!(keys, vec![b"a".to_vec(), b"b".to_vec()]);
    assert_eq!(store.key_exists(b(b"a")), 1);
    assert_eq!(store.key_exists(b(b"z")), 0);
    assert_eq!(store.value_len(&b(b"a")), 1);
    store.clear();
    assert_eq!(store.key_exists(b(b"a")), 0);
    assert_eq!(store.keys(b(b"*")).len(), 0);
}

#[test]
fn bulk_string_append_moves_bytes() {
    let mut x = b(b"ab");
    let mut y = b(b"cd");
    x.append(&mut y);
    assert_eq!(x.0, b"abcd".to_vec());
    assert!(y.0.is_empty());
}

#[test]
fn text_of_values() {
    let s = RespValue::SimpleString("OK".to_string());
    assert_eq!(s.as_str(), Some("OK"));
    assert_eq!(s.to_string(), Some("OK".to_string()));
    let good = RespValue::BulkString(b("héllo".as_bytes()));
    assert_eq!(good.as_str(), Some("héllo"));
    let bad = RespValue::BulkString(b(&[0xff, 0xfe]));
    assert_eq!(bad.as_str(), None);
    assert_eq!(bad.to_string(), None);
    assert_eq!(RespValue::Integer(1).to_string(), None);
}
