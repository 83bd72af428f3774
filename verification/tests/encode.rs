use table::encode::{encode, encode_to_hex, Encode};

#[test]
fn test_encode() {
    assert_eq!(encode_to_hex(&42u64), "2A");
    assert_eq!(encode_to_hex(&320u64), "FD0140");
    assert_eq!(encode_to_hex(&123456789u64), "FE00000000075BCD15");
    assert_eq!(encode_to_hex(&None), "FF");
    let data: &[u8] = b"Hello";
    assert_eq!(encode_to_hex(&data), "0548656C6C6F");

    assert_eq!(encode_to_hex(&10i64), "0A");
    assert_eq!(encode_to_hex(&-10i64), "F6");
    assert_eq!(encode_to_hex(&320i64), "810140");
    assert_eq!(encode_to_hex(&-320i64), "81FEC0");
    assert_eq!(encode_to_hex(&123456789i64), "8000000000075BCD15");
    assert_eq!(encode_to_hex(&-123456789i64), "80FFFFFFFFF8A432EB");

    assert_eq!(encode_to_hex(&-0x7Fi64), "81FF81");
    assert_eq!(encode_to_hex(&-0x80i64), "81FF80");
}

#[test]
fn encode_size_agrees_with_encode() {
    let unsigned: [u64; 8] = [0, 0xFC, 0xFD, 0xFF, 0x100, 0xFFFF, 0x10000, u64::MAX];
    for n in unsigned {
        assert_eq!(encode(&n).len(), n.encode_size());
    }
    let signed: [i64; 10] =
        [0, 0x7F, 0x80, -0x7E, -0x7F, -0x80, 0x7FFF, 0x8000, i64::MIN, i64::MAX];
    for n in signed {
        assert_eq!(encode(&n).len(), n.encode_size());
    }
    let bytes: Vec<u8> = vec![7u8; 300];
    assert_eq!(encode(&bytes).len(), bytes.encode_size());
    assert_eq!(bytes.encode_size(), 303);
}
