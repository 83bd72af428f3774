use table::decode::{Cursor, Decode, DecodeError, DecodeStats};
use table::encode::{encode, Encode};
use table::index::DataMap;

fn round_trip<T: Encode + Decode>(val: &T) -> Option<T> {
    let bytes = encode(val);
    let mut s = Cursor::new(&bytes);
    match T::decode(&mut s) {
        Err(_) => None,
        Ok(v) => {
            assert_eq!(s.remaining_len(), 0);
            Some(v)
        }
    }
}

#[test]
fn test_decoders() {
    let bytes = vec![0x2Au8];
    let mut src = Cursor::new(&bytes);
    assert_eq!(u64::decode(&mut src).unwrap(), 42u64);

    assert_eq!(round_trip(&320u64), Some(320u64));
    assert_eq!(round_trip(&123456789u64), Some(123456789u64));

    let mut data: Vec<u8> = Vec::new();
    data.extend(b"Hello");
    assert_eq!(round_trip(&data), Some(data));

    assert_eq!(round_trip(&10i64), Some(10i64));
    assert_eq!(round_trip(&-10i64), Some(-10i64));
    assert_eq!(round_trip(&320i64), Some(320i64));
    assert_eq!(round_trip(&-320i64), Some(-320i64));
    assert_eq!(round_trip(&123456789i64), Some(123456789i64));
    assert_eq!(round_trip(&-123456789i64), Some(-123456789i64));
    assert_eq!(round_trip(&-0x7Fi64), Some(-0x7Fi64));
    assert_eq!(round_trip(&-0x80i64), Some(-0x80i64));
}

#[test]
fn round_trip_at_the_frontiers() {
    for n in [0u64, 0xFC, 0xFD, 0xFE, 0xFF, 0x100, 0xFFFF, 0x10000, u64::MAX] {
        assert_eq!(round_trip(&n), Some(n));
    }
    for n in [
        0i64,
        0x7F,
        0x80,
        -0x7E,
        -0x7F,
        -0x80,
        0x7FFF,
        0x8000,
        -0x8000,
        -0x8001,
        i64::MIN,
        i64::MAX,
    ] {
        assert_eq!(round_trip(&n), Some(n));
    }
    assert_eq!(round_trip(&Some(7u64)), Some(Some(7u64)));
    assert_eq!(round_trip(&None::<u64>), Some(None));
    let empty: Vec<u8> = Vec::new();
    assert_eq!(encode(&empty), vec![0u8]);
    assert_eq!(round_trip(&empty), Some(empty));
    let long: Vec<u8> = (0..70000u32).map(|i| (i % 251) as u8).collect();
    assert_eq!(round_trip(&long), Some(long));
}

#[test]
fn two_values_in_a_row_decode_apart() {
    let mut bytes = encode(&-320i64);
    let tail: &[u8] = b"Hello";
    tail.encode(&mut bytes);
    let mut src = Cursor::new(&bytes);
    assert_eq!(i64::decode(&mut src), Ok(-320));
    assert_eq!(src.position(), 3);
    assert_eq!(Vec::<u8>::decode(&mut src), Ok(b"Hello".to_vec()));
    assert_eq!(src.remaining_len(), 0);
    assert_eq!(i64::decode(&mut src), Err(DecodeError::EOF));
}

#[test]
fn reserved_tag_is_null() {
    let bytes = vec![0xFFu8, 1];
    let mut stats = DecodeStats::new();
    let mut src = Cursor::new(&bytes);
    assert_eq!(u64::decode_stats(&mut src, &mut stats), Err(DecodeError::Null));
    assert_eq!((stats.read(), stats.discarded()), (1, 0));
    let mut src = Cursor::new(&bytes);
    assert_eq!(Option::<u64>::decode(&mut src), Ok(None));
    let mut src = Cursor::new(&bytes);
    assert_eq!(Vec::<u8>::decode(&mut src), Err(DecodeError::Null));
}

#[test]
fn cut_short_values_are_partial_reads() {
    let bytes = vec![0x81u8, 0];
    let mut stats = DecodeStats::new();
    let mut src = Cursor::new(&bytes);
    assert_eq!(i64::decode_stats(&mut src, &mut stats), Err(DecodeError::PartialRead));
    assert_eq!((stats.read(), stats.discarded()), (2, 1));

    let bytes = vec![0x80u8, 0, 0, 0];
    let mut stats = DecodeStats::new();
    let mut src = Cursor::new(&bytes);
    assert_eq!(i64::decode_stats(&mut src, &mut stats), Err(DecodeError::PartialRead));
    assert_eq!((stats.read(), stats.discarded()), (4, 3));

    let bytes = vec![0xFEu8, 1, 2];
    let mut stats = DecodeStats::new();
    let mut src = Cursor::new(&bytes);
    assert_eq!(u64::decode_stats(&mut src, &mut stats), Err(DecodeError::PartialRead));
    assert_eq!((stats.read(), stats.discarded()), (3, 2));

    let bytes = vec![5u8, b'H', b'e'];
    let mut stats = DecodeStats::new();
    let mut src = Cursor::new(&bytes);
    assert_eq!(Vec::<u8>::decode_stats(&mut src, &mut stats), Err(DecodeError::PartialRead));
    assert_eq!((stats.read(), stats.discarded()), (3, 3));

    let empty: Vec<u8> = Vec::new();
    let mut src = Cursor::new(&empty);
    assert_eq!(Vec::<u8>::decode(&mut src), Err(DecodeError::EOF));
}

#[test]
fn non_canonical_encodings_decode() {
    let bytes = vec![0xFDu8, 0, 5];
    let mut src = Cursor::new(&bytes);
    assert_eq!(u64::decode(&mut src), Ok(5));
    let bytes = vec![0x81u8, 0xFF, 0xFF];
    let mut src = Cursor::new(&bytes);
    assert_eq!(i64::decode(&mut src), Ok(-1));
    let bytes = vec![0x80u8, 0xFF, 0xFF, 0xFF, 0xFF, 0xFF, 0xFF, 0xFF, 0xFE];
    let mut src = Cursor::new(&bytes);
    assert_eq!(i64::decode(&mut src), Ok(-2));
}

#[test]
fn map_stream_replays_last_writer_wins() {
    let mut data = DataMap::new();
    data.insert(5i64, b"Tom".to_vec());
    data.insert(17i64, b"Dick".to_vec());
    let mut bytes = encode(&data);
    assert_eq!(bytes, vec![0x05, 0x03, 0x54, 0x6F, 0x6D, 0x11, 0x04, 0x44, 0x69, 0x63, 0x6B]);
    assert_eq!(data.encode_size(), 11);
    assert_eq!(round_trip(&data), Some(data.clone()));

    17i64.encode(&mut bytes);
    None::<u64>.encode(&mut bytes);
    let mut stats = DecodeStats::default();
    let mut src = Cursor::new(&bytes);
    let replayed = DataMap::decode_stats(&mut src, &mut stats).unwrap();
    assert_eq!(replayed.len(), 1);
    assert_eq!(replayed.get(&5), Some(&b"Tom".to_vec()));
    assert_eq!(stats.read(), 13);
    // the tombstone (2) and the record it removes (1 + 5)
    assert_eq!(stats.discarded(), 8);
}

#[test]
fn map_stream_cut_after_a_key_is_a_partial_read() {
    let bytes = vec![0x05u8];
    let mut stats = DecodeStats::new();
    let mut src = Cursor::new(&bytes);
    assert_eq!(
        DataMap::decode_stats(&mut src, &mut stats).err(),
        Some(DecodeError::PartialRead)
    );
    assert_eq!((stats.read(), stats.discarded()), (1, 0));

    let bytes = vec![0x05u8, 0x03, 0x54];
    let mut src = Cursor::new(&bytes);
    assert_eq!(DataMap::decode(&mut src).err(), Some(DecodeError::PartialRead));
}
