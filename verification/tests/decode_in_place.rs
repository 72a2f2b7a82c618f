use tick_encoding::decode_in_place;
use tick_encoding::DecodeError;
use tick_encoding::EscapedHex;

fn decode_copy(input: &[u8]) -> Result<Vec<u8>, DecodeError> {
    let mut buffer = input.to_vec();
    let count = decode_in_place(&mut buffer)?;
    buffer.truncate(count);
    Ok(buffer)
}

#[test]
fn test_decode_in_place() {
    let decoded = decode_copy(b"").unwrap();
    assert_eq!(decoded, b"".as_slice());

    let decoded = decode_copy(b"hello").unwrap();
    assert_eq!(decoded, b"hello".as_slice());

    let decoded = decode_copy(b"`FF").unwrap();
    assert_eq!(decoded, [0xFF].as_slice());

    let decoded = decode_copy(b"hello world!\r\n\thi there").unwrap();
    assert_eq!(decoded, b"hello world!\r\n\thi there".as_slice());

    let decoded = decode_copy(b"foo bar `F0`9F`99`82").unwrap();
    assert_eq!(decoded, "foo bar \u{1F642}".as_bytes());

    let decoded = decode_copy(b"``").unwrap();
    assert_eq!(decoded, [0x60].as_slice());
}

#[test]
fn test_decode_in_place_invalid_byte_error() {
    let error = decode_copy(&[0xFF]).unwrap_err();
    assert_eq!(error, DecodeError::InvalidByte(0xFF));

    let error = decode_copy(&[0x00]).unwrap_err();
    assert_eq!(error, DecodeError::InvalidByte(0x00));
}

#[test]
fn test_decode_in_place_unexpected_end_error() {
    let error = decode_copy(b"`").unwrap_err();
    assert_eq!(error, DecodeError::UnexpectedEnd);

    let error = decode_copy(b"`F").unwrap_err();
    assert_eq!(error, DecodeError::UnexpectedEnd);

    let error = decode_copy(b"`F0`").unwrap_err();
    assert_eq!(error, DecodeError::UnexpectedEnd);

    let error = decode_copy(b"`F0`9").unwrap_err();
    assert_eq!(error, DecodeError::UnexpectedEnd);
}

#[test]
fn test_decode_in_place_lowercase_hex_error() {
    let error = decode_copy(b"`fe").unwrap_err();
    assert_eq!(error, DecodeError::LowercaseHex(EscapedHex(b'f', b'e')));

    let error = decode_copy(b"`0e").unwrap_err();
    assert_eq!(error, DecodeError::LowercaseHex(EscapedHex(b'0', b'e')));

    let error = decode_copy(b"`f0").unwrap_err();
    assert_eq!(error, DecodeError::LowercaseHex(EscapedHex(b'f', b'0')));
}

#[test]
fn test_decode_in_place_invalid_hex_error() {
    let error = decode_copy(b"`GE").unwrap_err();
    assert_eq!(error, DecodeError::InvalidHex(EscapedHex(b'G', b'E')));

    let error = decode_copy(b"`0G").unwrap_err();
    assert_eq!(error, DecodeError::InvalidHex(EscapedHex(b'0', b'G')));

    let error = decode_copy(b"`G0").unwrap_err();
    assert_eq!(error, DecodeError::InvalidHex(EscapedHex(b'G', b'0')));

    let error = decode_copy(b"`fG").unwrap_err();
    assert_eq!(error, DecodeError::InvalidHex(EscapedHex(b'f', b'G')));

    let error = decode_copy(b"`gF").unwrap_err();
    assert_eq!(error, DecodeError::InvalidHex(EscapedHex(b'g', b'F')));
}

#[test]
fn test_decode_in_place_unexpected_escape_error() {
    let error = decode_copy(b"`65").unwrap_err();
    assert_eq!(
        error,
        DecodeError::UnexpectedEscape(EscapedHex(b'6', b'5'), 'e')
    );
}
