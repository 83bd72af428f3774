use table::decode::DecodeError;
use table::framing::{write_frame, FrameReader, ReaderState};

#[test]
fn framing_delivers_each_message() {
    let mut wire = Vec::new();
    write_frame(b"hi", &mut wire);
    write_frame(b"world!", &mut wire);
    assert_eq!(wire, b"\x02hi\x06world!".to_vec());

    let mut reader = FrameReader::new();
    let mut out = Vec::new();
    assert_eq!(reader.feed(&wire, &mut out), Ok(()));
    assert_eq!(out, vec![b"hi".to_vec(), b"world!".to_vec()]);
    assert_eq!(reader.state(), ReaderState::Begin);
    assert_eq!(reader.buffered_len(), 0);
}

#[test]
fn framing_consumes_no_extra_bytes() {
    let mut wire = Vec::new();
    write_frame(b"hi", &mut wire);
    wire.extend_from_slice(&[0x06, b'w', b'o']);
    let mut reader = FrameReader::new();
    let mut out = Vec::new();
    assert_eq!(reader.feed(&wire, &mut out), Ok(()));
    assert_eq!(out, vec![b"hi".to_vec()]);
    assert_eq!(reader.state(), ReaderState::ReadSize(6));
    assert_eq!(reader.buffered_len(), 2);
    assert_eq!(reader.feed(b"rld!", &mut out), Ok(()));
    assert_eq!(out, vec![b"hi".to_vec(), b"world!".to_vec()]);
    assert_eq!(reader.state(), ReaderState::Begin);
    assert_eq!(reader.buffered_len(), 0);
}

#[test]
fn framing_byte_by_byte() {
    let long = vec![7u8; 300];
    let messages: Vec<&[u8]> = vec![b"", b"a", &long, b"", b"tail"];
    let mut wire = Vec::new();
    for m in &messages {
        write_frame(m, &mut wire);
    }
    let mut reader = FrameReader::new();
    let mut out = Vec::new();
    for b in &wire {
        assert_eq!(reader.feed(&[*b], &mut out), Ok(()));
    }
    let expected: Vec<Vec<u8>> = messages.iter().map(|m| m.to_vec()).collect();
    assert_eq!(out, expected);
    assert_eq!(reader.buffered_len(), 0);
}

#[test]
fn framing_waits_for_a_whole_length() {
    let mut reader = FrameReader::new();
    let mut out = Vec::new();
    assert_eq!(reader.feed(&[0xFD, 0x01], &mut out), Ok(()));
    assert_eq!(reader.state(), ReaderState::Begin);
    assert_eq!(reader.buffered_len(), 2);
    assert_eq!(reader.feed(&[0x00], &mut out), Ok(()));
    assert_eq!(reader.state(), ReaderState::ReadSize(256));
    assert_eq!(reader.buffered_len(), 0);
    assert!(out.is_empty());
}

#[test]
fn framing_gives_up_on_the_reserved_tag() {
    let mut reader = FrameReader::new();
    let mut out = Vec::new();
    assert_eq!(reader.feed(&[0x01, b'x', 0xFF, 0x01], &mut out), Err(DecodeError::Null));
    assert_eq!(out, vec![b"x".to_vec()]);
    assert_eq!(reader.buffered_len(), 2);
}

#[test]
fn framing_any_split_delivers_the_same() {
    let messages: Vec<Vec<u8>> = vec![b"alpha".to_vec(), vec![], vec![9u8; 400], b"z".to_vec()];
    let mut wire = Vec::new();
    for m in &messages {
        write_frame(m, &mut wire);
    }
    for cut in 0..=wire.len() {
        let mut reader = FrameReader::new();
        let mut out = Vec::new();
        assert_eq!(reader.feed(&wire[..cut], &mut out), Ok(()));
        assert_eq!(reader.feed(&wire[cut..], &mut out), Ok(()));
        assert_eq!(out, messages);
        assert_eq!(reader.state(), ReaderState::Begin);
        assert_eq!(reader.buffered_len(), 0);
    }
}
