use logkv::table::{bytes_equal, decode_metadata, encode_u64};
use logkv::{Error, IndexValue, MemValue, Table, TableBuilder};

#[test]
fn encode_u64_is_big_endian() {
    assert_eq!(encode_u64(0x0102030405060708), vec![1, 2, 3, 4, 5, 6, 7, 8]);
    assert_eq!(encode_u64(0), vec![0; 8]);
}

#[test]
fn metadata_decodes_eight_bytes() {
    assert_eq!(decode_metadata(&[0, 0, 0, 0, 0, 0, 1, 2]).unwrap(), 258);
    assert!(matches!(decode_metadata(&[0, 0, 1]), Err(Error::IOError(_))));
    // only the first eight bytes count
    assert_eq!(decode_metadata(&[0, 0, 0, 0, 0, 0, 0, 3, 9]).unwrap(), 3);
}

#[test]
fn builder_writes_the_file_format() {
    let mut b = TableBuilder::new("dir", 3);
    b.add(b"k", &MemValue::Value(b"vv".to_vec()));
    b.add(b"d", &MemValue::Delete);
    b.add(b"x", &MemValue::Value(b"y".to_vec()));
    assert_eq!(b.file_no(), 3);
    let t = b.flush();
    assert_eq!(t.file_no, 3);
    let mut index = vec![];
    index.extend_from_slice(&[0, 0, 0, 0, 0, 0, 0, 1, b'k', 0]);
    index.extend_from_slice(&[0, 0, 0, 0, 0, 0, 0, 0]);
    index.extend_from_slice(&[0, 0, 0, 0, 0, 0, 0, 1, b'd', 1]);
    index.extend_from_slice(&[0, 0, 0, 0, 0, 0, 0, 1, b'x', 0]);
    index.extend_from_slice(&[0, 0, 0, 0, 0, 0, 0, 10]);
    assert_eq!(t.index, index);
    let mut data = vec![];
    data.extend_from_slice(&[0, 0, 0, 0, 0, 0, 0, 2, b'v', b'v']);
    data.extend_from_slice(&[0, 0, 0, 0, 0, 0, 0, 1, b'y']);
    assert_eq!(t.data, data);
    // the builder is ready for the next generation
    assert_eq!(b.file_no(), 4);
    let next = b.flush();
    assert_eq!(next.file_no, 4);
    assert!(next.index.is_empty());
    assert!(next.data.is_empty());
}

#[test]
fn generation_round_trip() {
    let mut b = TableBuilder::new("dir", 0);
    let entries: Vec<(Vec<u8>, Option<Vec<u8>>)> = vec![
        (b"hello".to_vec(), Some(b"world".to_vec())),
        (b"gone".to_vec(), None),
        (b"".to_vec(), Some(b"".to_vec())),
        (b"lorem".to_vec(), Some(b"ipsum".to_vec())),
    ];
    for (k, v) in &entries {
        let mv = match v {
            Some(v) => MemValue::Value(v.clone()),
            None => MemValue::Delete,
        };
        b.add(k, &mv);
    }
    let f = b.flush();
    let t = Table::open("dir", f.file_no, &f.index).unwrap();
    assert_eq!(t.file_no(), 0);
    assert_eq!(t.db_name(), "dir");
    for (k, v) in &entries {
        let got = match t.read(k, &f.data).unwrap() {
            Some(MemValue::Value(b)) => Some(Some(b)),
            Some(MemValue::Delete) => Some(None),
            None => None,
        };
        assert_eq!(got, Some(v.clone()));
    }
    assert!(t.read(b"paris", &f.data).unwrap().is_none());
    assert_eq!(t.get(b"gone"), Some(IndexValue::Delete));
    assert_eq!(t.get(b"hello"), Some(IndexValue::Offset(0)));
    assert_eq!(t.get(b"lorem"), Some(IndexValue::Offset(21)));
}

#[test]
fn later_index_entry_of_a_key_wins() {
    let mut b = TableBuilder::new("dir", 0);
    b.add(b"k", &MemValue::Value(b"1".to_vec()));
    b.add(b"k", &MemValue::Delete);
    let f = b.flush();
    let t = Table::open("dir", 0, &f.index).unwrap();
    assert_eq!(t.get(b"k"), Some(IndexValue::Delete));
}

#[test]
fn unknown_tag_is_corruption() {
    let index = vec![0, 0, 0, 0, 0, 0, 0, 1, b'k', 2];
    assert!(matches!(Table::open("dir", 0, &index), Err(Error::DBCorruptionError)));
}

#[test]
fn truncated_index_is_corruption() {
    // key length runs past the end
    let index = vec![0, 0, 0, 0, 0, 0, 0, 9, b'k', 0];
    assert!(matches!(Table::open("dir", 0, &index), Err(Error::DBCorruptionError)));
    // fewer than eight bytes of key length
    assert!(matches!(Table::open("dir", 0, &[0, 0, 0]), Err(Error::DBCorruptionError)));
    // a present value without its offset
    let index = vec![0, 0, 0, 0, 0, 0, 0, 1, b'k', 0, 0, 0];
    assert!(matches!(Table::open("dir", 0, &index), Err(Error::DBCorruptionError)));
    // a key without its tag
    let index = vec![0, 0, 0, 0, 0, 0, 0, 1, b'k'];
    assert!(matches!(Table::open("dir", 0, &index), Err(Error::DBCorruptionError)));
}

#[test]
fn empty_index_is_an_empty_generation() {
    let t = Table::open("dir", 5, &[]).unwrap();
    assert_eq!(t.get(b"anything"), None);
}

#[test]
fn decode_reads_record_at_offset() {
    let data = vec![0, 0, 0, 0, 0, 0, 0, 1, b'a', 0, 0, 0, 0, 0, 0, 0, 2, b'b', b'c'];
    assert_eq!(Table::decode(&data, 0).unwrap(), b"a".to_vec());
    assert_eq!(Table::decode(&data, 9).unwrap(), b"bc".to_vec());
    assert!(matches!(Table::decode(&data, 12), Err(Error::IOError(_))));
    assert!(matches!(Table::decode(&data, 100), Err(Error::IOError(_))));
    let short = vec![0, 0, 0, 0, 0, 0, 0, 5, b'a'];
    assert!(matches!(Table::decode(&short, 0), Err(Error::IOError(_))));
}

#[test]
fn read_past_end_of_data_is_io_error() {
    let mut b = TableBuilder::new("dir", 0);
    b.add(b"k", &MemValue::Value(b"value".to_vec()));
    let f = b.flush();
    let t = Table::open("dir", 0, &f.index).unwrap();
    assert!(matches!(t.read(b"k", &f.data[..4]), Err(Error::IOError(_))));
}

#[test]
fn bytes_equal_compares_contents() {
    assert!(bytes_equal(b"abc", b"abc"));
    assert!(!bytes_equal(b"abc", b"abd"));
    assert!(!bytes_equal(b"ab", b"abc"));
    assert!(bytes_equal(b"", b""));
}
