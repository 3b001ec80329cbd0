use logkv::memtable::copy_bytes;
use logkv::{MemTable, MemValue};

fn value_of(v: Option<MemValue>) -> Option<Option<Vec<u8>>> {
    match v {
        Some(MemValue::Value(b)) => Some(Some(b)),
        Some(MemValue::Delete) => Some(None),
        None => None,
    }
}

#[test]
fn memtable_put_get_delete() {
    let mut t = MemTable::new();
    assert!(t.is_empty());
    t.put(b"hello", b"world");
    assert!(!t.is_empty());
    assert_eq!(value_of(t.get(b"hello")), Some(Some(b"world".to_vec())));
    assert_eq!(value_of(t.get(b"paris")), None);
    t.delete(b"hello");
    assert_eq!(value_of(t.get(b"hello")), Some(None));
}

#[test]
fn memtable_size_counts_keys_and_values() {
    let mut t = MemTable::new();
    assert_eq!(t.size(), 0);
    t.put(b"ab", b"cde");
    assert_eq!(t.size(), 5);
    // an overwrite is counted again
    t.put(b"ab", b"x");
    assert_eq!(t.size(), 8);
    // a tombstone adds the key's length only
    t.delete(b"abc");
    assert_eq!(t.size(), 11);
}

#[test]
fn memtable_clear_hands_out_contents() {
    let mut t = MemTable::new();
    t.put(b"k", b"v");
    t.delete(b"gone");
    let old = t.clear();
    assert!(t.is_empty());
    assert_eq!(t.size(), 0);
    assert!(t.get(b"k").is_none());
    assert_eq!(old.size(), 6);
    assert_eq!(value_of(old.get(b"k")), Some(Some(b"v".to_vec())));
    assert_eq!(value_of(old.get(b"gone")), Some(None));
}

#[test]
fn memtable_entries_list_each_key_once() {
    let mut t = MemTable::new();
    t.put(b"a", b"1");
    t.put(b"b", b"2");
    t.put(b"a", b"3");
    t.delete(b"c");
    let mut e: Vec<(Vec<u8>, Option<Vec<u8>>)> = t
        .entries()
        .into_iter()
        .map(|(k, v)| (k, value_of(Some(v)).unwrap()))
        .collect();
    e.sort();
    assert_eq!(
        e,
        vec![
            (b"a".to_vec(), Some(b"3".to_vec())),
            (b"b".to_vec(), Some(b"2".to_vec())),
            (b"c".to_vec(), None),
        ]
    );
}

#[test]
fn memvalue_tags() {
    assert_eq!(MemValue::Value(vec![1, 2]).encode(), 0);
    assert_eq!(MemValue::Delete.encode(), 1);
    match MemValue::Value(vec![7]).duplicate() {
        MemValue::Value(v) => assert_eq!(v, vec![7]),
        MemValue::Delete => panic!("duplicate changed the variant"),
    }
}

#[test]
fn copy_bytes_copies() {
    assert_eq!(copy_bytes(b"abc"), b"abc".to_vec());
    assert_eq!(copy_bytes(b""), Vec::<u8>::new());
}
