use tick_encoding::decode_iter;
use tick_encoding::DecodeError;
use tick_encoding::EscapedHex;

fn collect_decoded(input: &[u8]) -> Result<Vec<u8>, DecodeError> {
    let mut iter = decode_iter(input.to_vec());
    let mut decoded = Vec::new();
    while let Some(result) = iter.next() {
        decoded.push(result?);
    }
    Ok(decoded)
}

#[test]
fn decode_iter_test_decode() {
    let decoded = collect_decoded(b"").unwrap();
    assert_eq!(decoded, b"".as_slice());

    let decoded = collect_decoded(b"hello").unwrap();
    assert_eq!(decoded, b"hello".as_slice());

    let decoded = collect_decoded(b"`FF").unwrap();
    assert_eq!(decoded, [0xFF].as_slice());

    let decoded = collect_decoded(b"hello world!\r\n\thi there").unwrap();
    assert_eq!(decoded, b"hello world!\r\n\thi there".as_slice());

    let decoded = collect_decoded(b"foo bar `F0`9F`99`82").unwrap();
    assert_eq!(decoded, "foo bar \u{1F642}".as_bytes());

    let decoded = collect_decoded(b"``").unwrap();
    assert_eq!(decoded, [0x60].as_slice());
}

#[test]
fn decode_iter_test_decode_invalid_byte_error() {
    let mut iter = decode_iter(vec![b'a', 0xFF, b'b']);
    assert_eq!(iter.next(), Some(Ok(b'a')));
    assert_eq!(iter.next(), Some(Err(DecodeError::InvalidByte(0xFF))));
    // The terminal state is absorbing: nothing more is yielded, even
    // though the source still holds more data.
    assert_eq!(iter.next(), None);
    assert_eq!(iter.next(), None);

    let mut iter = decode_iter(vec![0x00]);
    assert_eq!(iter.next(), Some(Err(DecodeError::InvalidByte(0x00))));
    assert_eq!(iter.next(), None);
    assert_eq!(iter.next(), None);
}

#[test]
fn decode_iter_test_decode_unexpected_end_error() {
    let mut iter = decode_iter(b"x`F".to_vec());
    assert_eq!(iter.next(), Some(Ok(b'x')));
    assert_eq!(iter.next(), Some(Err(DecodeError::UnexpectedEnd)));
    assert_eq!(iter.next(), None);

    let mut iter = decode_iter(b"`".to_vec());
    assert_eq!(iter.next(), Some(Err(DecodeError::UnexpectedEnd)));
    assert_eq!(iter.next(), None);
    assert_eq!(iter.next(), None);
}

#[test]
fn decode_iter_test_decode_lowercase_hex_error() {
    let error = collect_decoded(b"`fe").unwrap_err();
    assert_eq!(error, DecodeError::LowercaseHex(EscapedHex(b'f', b'e')));

    let error = collect_decoded(b"`0e").unwrap_err();
    assert_eq!(error, DecodeError::LowercaseHex(EscapedHex(b'0', b'e')));

    let error = collect_decoded(b"`f0").unwrap_err();
    assert_eq!(error, DecodeError::LowercaseHex(EscapedHex(b'f', b'0')));
}

#[test]
fn decode_iter_test_decode_invalid_hex_error() {
    let error = collect_decoded(b"`GE").unwrap_err();
    assert_eq!(error, DecodeError::InvalidHex(EscapedHex(b'G', b'E')));

    let error = collect_decoded(b"`0G").unwrap_err();
    assert_eq!(error, DecodeError::InvalidHex(EscapedHex(b'0', b'G')));

    let error = collect_decoded(b"`G0").unwrap_err();
    assert_eq!(error, DecodeError::InvalidHex(EscapedHex(b'G', b'0')));

    let error = collect_decoded(b"`fG").unwrap_err();
    assert_eq!(error, DecodeError::InvalidHex(EscapedHex(b'f', b'G')));

    let error = collect_decoded(b"`gF").unwrap_err();
    assert_eq!(error, DecodeError::InvalidHex(EscapedHex(b'g', b'F')));
}

#[test]
fn decode_iter_test_decode_unexpected_escape_error() {
    let error = collect_decoded(b"`65").unwrap_err();
    assert_eq!(
        error,
        DecodeError::UnexpectedEscape(EscapedHex(b'6', b'5'), 'e')
    );
}
