use table::decode::DecodeError;
use table::encode::Encode;
use table::table::{Table, TableError};

#[test]
fn empty_log_opens_empty() {
    let t = Table::open_rw(Vec::new()).unwrap();
    assert!(t.items().is_empty());
    assert_eq!(t.stats().read(), 0);
    assert_eq!(t.stats().discarded(), 0);
    assert_eq!(t.file(), Some(&Vec::new()));
}

#[test]
fn insert_get_reopen() {
    let mut t = Table::open_rw(Vec::new()).unwrap();
    assert_eq!(t.insert(5, b"Tom".to_vec()), Ok(None));
    assert_eq!(t.insert(17, b"Dick".to_vec()), Ok(None));
    let log = t.file().unwrap().clone();
    assert_eq!(log, vec![0x05, 0x03, 0x54, 0x6F, 0x6D, 0x11, 0x04, 0x44, 0x69, 0x63, 0x6B]);
    assert_eq!(t.get(&5), Some(&b"Tom".to_vec()));
    assert_eq!(t.get(&17), Some(&b"Dick".to_vec()));
    assert_eq!(t.get(&7), None);

    let again = Table::open(&log).unwrap();
    assert_eq!(again.items(), t.items());
    assert_eq!(again.stats().read(), 11);
    assert_eq!(again.stats().discarded(), 0);
}

#[test]
fn overwrite_discards_the_old_record() {
    let mut t = Table::open_rw(Vec::new()).unwrap();
    assert_eq!(t.insert(5, b"Tom".to_vec()), Ok(None));
    assert_eq!(t.insert(5, b"Harry".to_vec()), Ok(Some(b"Tom".to_vec())));
    let again = Table::open_rw(t.file().unwrap().clone()).unwrap();
    assert_eq!(again.get(&5), Some(&b"Harry".to_vec()));
    assert_eq!(again.stats().discarded(), 5);
    assert_eq!(5i64.encode_size() + b"Tom".to_vec().encode_size(), 5);
}

#[test]
fn delete_then_compact() {
    let mut t = Table::open_rw(Vec::new()).unwrap();
    t.insert(5, b"a".to_vec()).unwrap();
    t.insert(6, b"b".to_vec()).unwrap();
    assert_eq!(t.remove(&5), Ok(Some(b"a".to_vec())));
    assert_eq!(t.compact(), Ok(()));
    assert_eq!(t.file(), Some(&vec![0x06u8, 0x01, 0x62]));
    let again = Table::open_rw(t.file().unwrap().clone()).unwrap();
    assert_eq!(again.stats().discarded(), 0);
    assert_eq!(again.items(), vec![(6i64, b"b".to_vec())]);
}

#[test]
fn compact_twice_changes_nothing() {
    let mut t = Table::open_rw(Vec::new()).unwrap();
    for k in [9i64, -3, 400, 9, -70000] {
        t.insert(k, k.to_string().into_bytes()).unwrap();
    }
    t.remove(&400).unwrap();
    t.compact().unwrap();
    let once = t.file().unwrap().clone();
    let items = t.items();
    t.compact().unwrap();
    assert_eq!(t.file(), Some(&once));
    assert_eq!(t.items(), items);
    let keys: Vec<i64> = items.iter().map(|kv| kv.0).collect();
    assert_eq!(keys, vec![-70000, -3, 9]);
}

#[test]
fn tombstone_accounting() {
    let mut t = Table::open_rw(Vec::new()).unwrap();
    let key = 1000i64;
    let value = b"value".to_vec();
    t.insert(key, value.clone()).unwrap();
    t.remove(&key).unwrap();
    let again = Table::open(t.file().unwrap()).unwrap();
    assert!(again.items().is_empty());
    assert_eq!(
        again.stats().discarded(),
        key.encode_size() + value.encode_size() + key.encode_size() + 1
    );
    assert_eq!(again.stats().discarded(), 13);
    assert_eq!(again.stats().read(), 13);
}

#[test]
fn removing_an_absent_key_wastes_the_tombstone() {
    let mut t = Table::open_rw(Vec::new()).unwrap();
    assert_eq!(t.remove(&7), Ok(None));
    assert_eq!(t.file(), Some(&vec![0x07u8, 0xFF]));
    let again = Table::open(t.file().unwrap()).unwrap();
    assert_eq!(again.stats().discarded(), 2);
}

#[test]
fn read_only_tables_refuse_changes() {
    let log = vec![0x05u8, 0x01, 0x61];
    let mut t = Table::open(&log).unwrap();
    assert_eq!(t.file(), None);
    assert_eq!(t.get(&5), Some(&b"a".to_vec()));
    assert_eq!(t.insert(6, b"b".to_vec()), Err(TableError::NotWritable));
    assert_eq!(t.remove(&5), Err(TableError::NotWritable));
    assert_eq!(t.compact(), Err(TableError::NotWritable));
    assert_eq!(t.items(), vec![(5i64, b"a".to_vec())]);
}

#[test]
fn a_trailing_partial_record_fails_the_load() {
    let log = vec![0x05u8, 0x03, 0x54];
    assert_eq!(
        Table::open(&log).err(),
        Some(TableError::DecodeError(DecodeError::PartialRead))
    );
    let log = vec![0x05u8];
    assert_eq!(
        Table::open_rw(log).err(),
        Some(TableError::DecodeError(DecodeError::PartialRead))
    );
}

#[test]
fn replay_equals_the_live_index() {
    let mut t = Table::open_rw(Vec::new()).unwrap();
    for i in 0..200i64 {
        let key = (i * 37) % 41 - 20;
        if i % 3 == 2 {
            t.remove(&key).unwrap();
        } else {
            t.insert(key, vec![i as u8; (i % 7) as usize]).unwrap();
        }
    }
    let again = Table::open(t.file().unwrap()).unwrap();
    assert_eq!(again.items(), t.items());
    assert_eq!(again.stats().read(), t.file().unwrap().len());
}

#[test]
fn max_key_is_the_greatest() {
    let mut t = Table::open_rw(Vec::new()).unwrap();
    assert_eq!(t.max_key(), None);
    for k in [3i64, -8, 12, 5] {
        t.insert(k, vec![]).unwrap();
    }
    assert_eq!(t.max_key(), Some(12));
    t.remove(&12).unwrap();
    assert_eq!(t.max_key(), Some(5));
    let keys: Vec<i64> = t.as_map().keys().copied().collect();
    assert_eq!(keys, vec![-8, 3, 5]);
}
