use table::util::repr;

#[test]
fn repr_quotes_and_escapes() {
    assert_eq!(repr(b""), "\"\"");
    assert_eq!(repr(b"Hello"), "\"Hello\"");
    assert_eq!(repr(&[0x00, 0x1F, 0x20, 0x7E, 0x7F, 0xFF]), "\"\\00\\1F ~\\7F\\FF\"");
    assert_eq!(repr(b"a\"b\\c"), "\"a\"b\\c\"");
    assert_eq!(repr(&vec![0xABu8, 0xCD]), "\"\\AB\\CD\"");
}

#[test]
fn hexadecimal_round_trip() {
    let bytes: Vec<u8> = (0..=255u8).collect();
    let text = table::encode::encode_to_hex(&bytes);
    let encoded = table::encode::encode(&bytes);
    assert_eq!(table::util::from_hex(&text), Ok(encoded));
    assert_eq!(table::util::from_hex(&text.to_lowercase()).unwrap().len(), 259);
}
