use key_value_db::{load, Command, CommandPos, KeyIndex, KvStore, KvsError};

#[test]
fn encode_set_record() {
    let c = Command::set("key1".to_owned(), "value1".to_owned());
    assert_eq!(c.encode().unwrap(), br#"{"Set":{"key":"key1","value":"value1"}}"#.to_vec());
}

#[test]
fn encode_remove_record() {
    let c = Command::remove("key1".to_owned());
    assert_eq!(c.encode().unwrap(), br#"{"Remove":{"key":"key1"}}"#.to_vec());
}

#[test]
fn encode_escapes_strings() {
    let c = Command::set("a\"b".to_owned(), "line\nnext".to_owned());
    assert_eq!(
        c.encode().unwrap(),
        br#"{"Set":{"key":"a\"b","value":"line\nnext"}}"#.to_vec()
    );
}

#[test]
fn decode_reads_back_encoded_records() {
    let a = Command::set("k\u{e9}y".to_owned(), "v\"al".to_owned());
    let b = Command::remove("".to_owned());
    let mut bytes = a.encode().unwrap();
    let split = bytes.len();
    bytes.extend(b.encode().unwrap());
    let (first, end) = Command::decode_at(&bytes, 0).unwrap();
    assert_eq!(first, a);
    assert_eq!(end, split);
    let (second, end2) = Command::decode_at(&bytes, split).unwrap();
    assert_eq!(second, b);
    assert_eq!(end2, bytes.len());
}

#[test]
fn decode_rejects_other_bytes() {
    assert_eq!(Command::decode_at(b"", 0), None);
    assert_eq!(Command::decode_at(b"{\"Put\":{\"key\":\"k\"}}", 0), None);
    assert_eq!(Command::decode_at(b"{\"Remove\":{\"key\":\"k\"}", 0), None);
    assert_eq!(Command::decode_at(b"{\"Remove\":{\"key\":k}}", 0), None);
}

#[test]
fn read_value_of_records() {
    let put = Command::set("k".to_owned(), "v".to_owned()).encode().unwrap();
    assert_eq!(KvStore::read_value(&put).unwrap(), "v");
    let rm = Command::remove("k".to_owned()).encode().unwrap();
    assert!(matches!(KvStore::read_value(&rm), Err(KvsError::UnexpectedCommandType)));
    assert!(matches!(KvStore::read_value(&put[..put.len() - 1]), Err(KvsError::Codec)));
    let mut longer = put.clone();
    longer.push(b'x');
    assert!(matches!(KvStore::read_value(&longer), Err(KvsError::Codec)));
}

#[test]
fn load_replays_segment_and_counts_stale_bytes() {
    let s1 = Command::set("a".to_owned(), "1".to_owned()).encode().unwrap();
    let s2 = Command::set("a".to_owned(), "2".to_owned()).encode().unwrap();
    let s3 = Command::set("b".to_owned(), "3".to_owned()).encode().unwrap();
    let r = Command::remove("b".to_owned()).encode().unwrap();
    let mut seg = Vec::new();
    seg.extend(&s1);
    seg.extend(&s2);
    seg.extend(&s3);
    seg.extend(&r);
    let mut index = KeyIndex::new();
    let stale = load(7, &seg, &mut index).unwrap();
    assert_eq!(stale as usize, s1.len() + s3.len() + r.len());
    assert_eq!(index.len(), 1);
    assert_eq!(
        index.get("a"),
        Some(CommandPos { gen: 7, pos: s1.len() as u64, len: s2.len() as u64 })
    );
    assert_eq!(index.get("b"), None);
}

#[test]
fn load_rejects_damaged_segment() {
    let mut seg = Command::set("a".to_owned(), "1".to_owned()).encode().unwrap();
    seg.extend_from_slice(b"{\"Set\":{\"ke");
    let mut index = KeyIndex::new();
    assert!(matches!(load(1, &seg, &mut index), Err(KvsError::Codec)));
    assert!(KvStore::open(vec![(1, seg)]).is_err());
}

#[test]
fn open_replays_segments_in_order() {
    let old = Command::set("k".to_owned(), "old".to_owned()).encode().unwrap();
    let new = Command::set("k".to_owned(), "new".to_owned()).encode().unwrap();
    let store = KvStore::open(vec![(3, old), (8, new.clone())]).unwrap();
    assert_eq!(store.current_gen(), 9);
    assert_eq!(store.get("k"), Some(CommandPos { gen: 8, pos: 0, len: new.len() as u64 }));
}

#[test]
fn key_index_insert_remove() {
    let mut index = KeyIndex::new();
    let p = |g| CommandPos { gen: g, pos: 0, len: 1 };
    assert_eq!(index.insert("a".to_owned(), p(1)), None);
    assert_eq!(index.insert("b".to_owned(), p(2)), None);
    assert_eq!(index.insert("c".to_owned(), p(3)), None);
    assert_eq!(index.insert("a".to_owned(), p(4)), Some(p(1)));
    assert_eq!(index.remove("a"), Some(p(4)));
    assert_eq!(index.remove("a"), None);
    assert_eq!(index.len(), 2);
    assert_eq!(index.get("c"), Some(p(3)));
    assert_eq!(index.key_at(0), "c");
    assert_eq!(index.key_at(1), "b");
}

#[test]
fn open_rejects_repeated_generation() {
    let seg = Command::set("k".to_owned(), "v".to_owned()).encode().unwrap();
    assert!(matches!(
        KvStore::open(vec![(1, seg.clone()), (1, seg.clone())]),
        Err(KvsError::Io(_))
    ));
    let bad = b"junk".to_vec();
    assert!(matches!(KvStore::open(vec![(1, seg), (2, bad)]), Err(KvsError::Codec)));
}

#[test]
fn prepare_changes_nothing_until_commit() {
    let mut store = KvStore::open(Vec::new()).unwrap();
    let bytes = store.prepare_set(&"k".to_owned(), &"v".to_owned()).unwrap();
    assert_eq!(bytes, br#"{"Set":{"key":"k","value":"v"}}"#.to_vec());
    assert_eq!(store.get("k"), None);
    assert!(store.commit_set("k".to_owned(), "v".to_owned(), &bytes).is_none());
    assert_eq!(store.get("k"), Some(CommandPos { gen: 1, pos: 0, len: bytes.len() as u64 }));

    assert!(matches!(store.prepare_remove(&"x".to_owned()), Err(KvsError::KeyNotFound)));
    let rm = store.prepare_remove(&"k".to_owned()).unwrap();
    assert_eq!(rm, br#"{"Remove":{"key":"k"}}"#.to_vec());
    assert!(store.get("k").is_some());
    store.commit_remove("k".to_owned(), &rm);
    assert_eq!(store.get("k"), None);
}
