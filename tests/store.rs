use std::io::{BufReader, Read};

use qsdb::codec::{
    Block, DictionaryBlock, DictionaryHeader, Header, StoreError, BYTES_HEADER, DEFAULT_EXP,
    QSDB_REVERSION,
};
use qsdb::forest::locate;
use qsdb::store::DBFile;

fn unpack(stored: &[u8]) -> Vec<u8> {
    let mut runs = Vec::new();
    compress::entropy::ari::ByteDecoder::new(BufReader::new(stored))
        .read_to_end(&mut runs)
        .unwrap();
    let mut out = Vec::new();
    compress::rle::Decoder::new(&runs[..])
        .read_to_end(&mut out)
        .unwrap();
    out
}

fn texts() -> [&'static str; 4] {
    [
        "An efficient database for storing code(s)",
        "Enumerative combinatorics",
        "Algebra",
        "Discrete mathematics",
    ]
}

#[test]
fn it_works() {
    let created = DBFile::new("./test".to_string(), None);
    let mut f = DBFile::open(
        "./test".to_string(),
        created.master.clone(),
        created.dicts.clone(),
    )
    .unwrap();
    assert_eq!(f.header(), Header::default_header());
    for t in texts().iter() {
        f.push(t.as_bytes(), true).unwrap();
    }
    assert_eq!(
        std::str::from_utf8(&unpack(&f.get(1).unwrap())).unwrap(),
        "An efficient database for storing code(s)"
    );
    let reread = Header::decode(&f.master).unwrap();
    assert_ne!(reread, Header::default_header());
    assert_eq!(f.path(), "./test");
}

#[test]
fn scenario_four_compressed_pushes() {
    let mut db = DBFile::create("db".to_string(), Some(4), true).unwrap();
    let mut seqs = Vec::new();
    for t in texts().iter() {
        seqs.push(db.push(t.as_bytes(), true).unwrap());
    }
    assert_eq!(seqs, vec![1, 2, 3, 4]);
    assert_eq!(unpack(&db.get(1).unwrap()), texts()[0].as_bytes());
    for (i, t) in texts().iter().enumerate() {
        assert_eq!(unpack(&db.get(i as u64 + 1).unwrap()), t.as_bytes());
    }
}

#[test]
fn compressed_payload_is_not_the_source() {
    let mut db = DBFile::new("db".to_string(), None);
    let src = b"aaaaaaaaaaaaaaaaaaaaaaaaaaaaaaaaaaaaaaaaaaaaaaaaaaaaaaaaaaaaaaaaaaaaaaaaaaa";
    db.push(src, true).unwrap();
    let stored = db.get(1).unwrap();
    assert_ne!(stored, src.to_vec());
    assert_eq!(unpack(&stored), src.to_vec());
}

#[test]
fn round_trip_many_pushes_each_exponent() {
    for exp in [0u8, 1, 2, 3, 4, 6] {
        let mut db = DBFile::new("db".to_string(), Some(exp));
        let n: u64 = 300;
        for i in 1..=n {
            let payload = format!("record {} of exponent {}", i, exp).into_bytes();
            let compress = i % 3 == 0;
            assert_eq!(db.push(&payload, compress).unwrap(), i);
            assert!(db.get(i).is_ok());
        }
        assert_eq!(db.header().len, n);
        for i in 1..=n {
            let payload = format!("record {} of exponent {}", i, exp).into_bytes();
            let stored = db.get(i).unwrap();
            if i % 3 == 0 {
                assert_eq!(unpack(&stored), payload);
            } else {
                assert_eq!(stored, payload);
            }
        }
    }
}

#[test]
fn entry_count_after_pushes() {
    let mut db = DBFile::new("db".to_string(), None);
    for i in 0..17u64 {
        assert_eq!(db.header().len, i);
        db.push(b"x", false).unwrap();
    }
    assert_eq!(db.header().len, 17);
    assert_eq!(db.dicts.len(), 18);
}

#[test]
fn lookup_depth_bounded_by_exponent() {
    for exp in [0u8, 2, 4] {
        let mut db = DBFile::new("db".to_string(), Some(exp));
        for i in 1..=200u64 {
            db.push(b"payload", false).unwrap();
            let r = locate(&db.dicts, exp, i).unwrap();
            assert!(r.reads <= exp as u64);
        }
    }
}

#[test]
fn get_zero_or_past_end_is_not_found() {
    let mut db = DBFile::new("db".to_string(), None);
    assert_eq!(db.get(1), Err(StoreError::NotFound));
    db.push(b"one", false).unwrap();
    db.push(b"two", false).unwrap();
    assert_eq!(db.get(0), Err(StoreError::NotFound));
    assert_eq!(db.get(3), Err(StoreError::NotFound));
    assert_eq!(db.get(u64::MAX), Err(StoreError::NotFound));
    assert_eq!(db.get(2), Ok(b"two".to_vec()));
}

#[test]
fn empty_payload_round_trips() {
    let mut db = DBFile::new("db".to_string(), None);
    db.push(b"", false).unwrap();
    assert_eq!(db.get(1), Ok(Vec::new()));
}

#[test]
fn open_truncated_header_is_corrupt() {
    let db = DBFile::new("db".to_string(), None);
    let mut master = db.master.clone();
    master.truncate(BYTES_HEADER - 1);
    let r = DBFile::open("db".to_string(), master, db.dicts.clone());
    assert!(matches!(r, Err(StoreError::CorruptRecord)));
}

#[test]
fn open_with_missing_index_file_is_corrupt() {
    let mut db = DBFile::new("db".to_string(), None);
    db.push(b"abc", false).unwrap();
    let mut dicts = db.dicts.clone();
    dicts.pop();
    let r = DBFile::open("db".to_string(), db.master.clone(), dicts);
    assert!(matches!(r, Err(StoreError::CorruptRecord)));
}

#[test]
fn open_with_bad_key_is_corrupt() {
    let mut db = DBFile::new("db".to_string(), None);
    db.push(b"abc", false).unwrap();
    let mut dicts = db.dicts.clone();
    dicts[0].extend_from_slice(&DictionaryBlock { nth: 9, offset: 11 }.encode());
    let r = DBFile::open("db".to_string(), db.master.clone(), dicts);
    assert!(matches!(r, Err(StoreError::CorruptRecord)));
}

#[test]
fn reopen_keeps_records() {
    let mut db = DBFile::new("db".to_string(), Some(2));
    for t in texts().iter() {
        db.push(t.as_bytes(), false).unwrap();
    }
    let again = DBFile::open("db".to_string(), db.master.clone(), db.dicts.clone()).unwrap();
    assert_eq!(again.header(), db.header());
    for (i, t) in texts().iter().enumerate() {
        assert_eq!(again.get(i as u64 + 1).unwrap(), t.as_bytes());
    }
}

#[test]
fn create_on_existing_location_fails() {
    let r = DBFile::create("db".to_string(), None, false);
    assert!(matches!(r, Err(StoreError::AlreadyExists)));
    assert!(DBFile::create("db".to_string(), None, true).is_ok());
}

#[test]
fn truncated_record_is_corrupt() {
    let mut db = DBFile::new("db".to_string(), None);
    db.push(b"hello world", false).unwrap();
    db.master.truncate(db.master.len() - 3);
    assert_eq!(db.get(1), Err(StoreError::CorruptRecord));
}

#[test]
fn header_layout_exact() {
    let h = Header::default_header();
    assert_eq!(h.reversion, QSDB_REVERSION);
    assert_eq!(h.divisor_exp, DEFAULT_EXP);
    assert_eq!(h.encode(), vec![1, 0, 4, 0, 0, 0, 0, 0, 0, 0, 0]);
    let h2 = Header { reversion: 0x0102, divisor_exp: 7, len: 0x0807060504030201 };
    let bytes = h2.encode();
    assert_eq!(bytes, vec![2, 1, 7, 1, 2, 3, 4, 5, 6, 7, 8]);
    assert_eq!(Header::decode(&bytes), Ok(h2));
    assert_eq!(Header::decode(&bytes[..10]), Err(StoreError::CorruptRecord));
}

#[test]
fn record_layouts_exact() {
    let b = Block { nth: 3, len: 258 };
    let bytes = b.encode();
    assert_eq!(bytes, vec![3, 0, 0, 0, 0, 0, 0, 0, 2, 1, 0, 0, 0, 0, 0, 0]);
    assert_eq!(Block::decode(&bytes, 0), Ok(b));
    assert_eq!(Block::decode(&bytes, 1), Err(StoreError::CorruptRecord));
    let d = DictionaryBlock { nth: 5, offset: 27 };
    let mut framed = vec![9u8];
    framed.extend_from_slice(&d.encode());
    assert_eq!(DictionaryBlock::decode(&framed, 1), Ok(d));
    assert_eq!(DictionaryBlock::decode(&framed, 2), Err(StoreError::CorruptRecord));
    let dh = DictionaryHeader { len: 2 };
    assert_eq!(dh.encode(), vec![2, 0, 0, 0, 0, 0, 0, 0]);
    assert_eq!(DictionaryHeader::decode(&dh.encode()), Ok(dh));
    assert_eq!(DictionaryHeader::decode(&[1, 2]), Err(StoreError::CorruptRecord));
}

#[test]
fn push_layout_exact() {
    let mut db = DBFile::new("db".to_string(), Some(4));
    assert_eq!(db.push(b"ab", false), Ok(1));
    let mut expected = Header { reversion: 1, divisor_exp: 4, len: 1 }.encode();
    expected.extend_from_slice(&Block { nth: 1, len: 2 }.encode());
    expected.extend_from_slice(b"ab");
    assert_eq!(db.master, expected);
    let mut root = DictionaryHeader { len: 1 }.encode();
    root.extend_from_slice(&DictionaryBlock { nth: 1, offset: 11 }.encode());
    assert_eq!(db.dicts, vec![root, DictionaryHeader { len: 0 }.encode()]);
}

#[test]
fn index_readers_report_entries() {
    let mut db = DBFile::new("db".to_string(), Some(2));
    for _ in 0..5 {
        db.push(b"z", false).unwrap();
    }
    // With exponent 2 the root holds 1, 2 and 4; 3 goes under 2, 5 under 4.
    assert_eq!(db.inner_read_dict_header(0), Ok(DictionaryHeader { len: 3 }));
    assert_eq!(db.dict_get(0, 0).unwrap().nth, 1);
    assert_eq!(db.dict_get(0, 1).unwrap().nth, 2);
    assert_eq!(db.dict_get(0, 2).unwrap().nth, 4);
    assert_eq!(db.dict_get(0, 3), Err(StoreError::NotFound));
    assert_eq!(db.dict_get(2, 0).unwrap().nth, 3);
    assert_eq!(db.dict_get(4, 0).unwrap().nth, 5);
    assert_eq!(db.inner_read_dict_header(5), Ok(DictionaryHeader { len: 0 }));
    assert_eq!(db.inner_read_dict_header(6), Err(StoreError::NotFound));
    assert_eq!(db.dict_get(9, 0), Err(StoreError::NotFound));
    let first = db.dict_get(0, 0).unwrap();
    assert_eq!(first.offset, BYTES_HEADER as u64);
    assert_eq!(
        DBFile::inner_read_header(&db.master).unwrap().len,
        5
    );
    assert_eq!(
        DBFile::inner_read_header(&db.master[..4]),
        Err(StoreError::CorruptRecord)
    );
}

#[test]
fn push_payload_stores_bytes_as_given() {
    let mut db = DBFile::new("db".to_string(), Some(3));
    assert_eq!(db.push_payload(&[0xff, 0x00, 0x10]), Ok(1));
    assert_eq!(db.push_payload(&[]), Ok(2));
    assert_eq!(db.get(1), Ok(vec![0xff, 0x00, 0x10]));
    assert_eq!(db.get(2), Ok(Vec::new()));
    let mut other = DBFile::new("db".to_string(), Some(3));
    other.push(&[0xff, 0x00, 0x10], false).unwrap();
    other.push(&[], false).unwrap();
    assert_eq!(other.master, db.master);
    assert_eq!(other.dicts, db.dicts);
}
