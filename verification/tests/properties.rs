use std::borrow::Cow;

use tick_encoding::decode;
use tick_encoding::decode_in_place;
use tick_encoding::decode_iter;
use tick_encoding::decode_to_vec;
use tick_encoding::decoder::DecodeStatus;
use tick_encoding::decoder::Decoder;
use tick_encoding::encode;
use tick_encoding::encode_iter;
use tick_encoding::encode_to_string;
use tick_encoding::encode_to_vec;
use tick_encoding::encoder::Encoder;
use tick_encoding::requires_escape;
use tick_encoding::DecodeError;

fn collect_encoded(input: &[u8]) -> String {
    let mut iter = encode_iter(input.to_vec());
    let mut out = String::new();
    while let Some(c) = iter.next() {
        out.push(c);
    }
    out
}

fn collect_decoded(input: &[u8]) -> Result<Vec<u8>, DecodeError> {
    let mut iter = decode_iter(input.to_vec());
    let mut out = Vec::new();
    while let Some(result) = iter.next() {
        out.push(result?);
    }
    Ok(out)
}

#[test]
fn round_trip_all_bytes() {
    let mut bytes: Vec<u8> = Vec::new();
    for b in 0..=255u8 {
        bytes.push(b);
    }
    let encoded = encode(&bytes);
    let decoded = decode(encoded.as_bytes()).unwrap();
    assert_eq!(decoded.as_ref(), bytes.as_slice());
    assert!(encoded.len() >= bytes.len());
    assert!(decoded.len() <= encoded.len());
}

#[test]
fn re_encode_canonical_input() {
    let canonical = b"`00hello``\r\n\tworld `FF`7F!";
    let decoded = decode(canonical).unwrap();
    let encoded = encode(decoded.as_ref());
    assert_eq!(encoded.as_bytes(), canonical.as_slice());
}

#[test]
fn borrows_only_when_nothing_is_escaped() {
    assert!(matches!(encode(b"plain text, no marker"), Cow::Borrowed(_)));
    assert!(matches!(encode(b"tick: `"), Cow::Owned(_)));
    assert!(matches!(encode(&[0x00]), Cow::Owned(_)));
    assert!(matches!(
        decode(b"plain text, no marker").unwrap(),
        Cow::Borrowed(_)
    ));
    assert!(matches!(decode(b"``").unwrap(), Cow::Owned(_)));
}

#[test]
fn streaming_encode_equals_bulk() {
    let inputs: [&[u8]; 4] = [b"", b"hello", &[0x60, 0x00, 0xFF], b"mixed ` \x01 data"];
    for input in inputs {
        assert_eq!(collect_encoded(input), encode(input).as_ref());
    }
}

#[test]
fn streaming_decode_equals_bulk() {
    let inputs: [&[u8]; 6] = [b"", b"hello", b"``", b"`FF", b"`F0`9", &[0xFF]];
    for input in inputs {
        match decode(input) {
            Ok(decoded) => {
                assert_eq!(collect_decoded(input).unwrap(), decoded.as_ref());
            }
            Err(error) => {
                assert_eq!(collect_decoded(input).unwrap_err(), error);
            }
        }
    }
}

#[test]
fn in_place_decode_equals_bulk() {
    let inputs: [&[u8]; 7] = [b"", b"hello", b"``x", b"`FF", b"`F0`9", b"`fe", &[0xFF]];
    for input in inputs {
        let mut buffer = input.to_vec();
        match decode(input) {
            Ok(decoded) => {
                let count = decode_in_place(&mut buffer).unwrap();
                assert_eq!(&buffer[..count], decoded.as_ref());
            }
            Err(error) => {
                assert_eq!(decode_in_place(&mut buffer).unwrap_err(), error);
            }
        }
    }
}

#[test]
fn append_variants_report_counts() {
    let mut output = String::new();
    let count = encode_to_string("hello, world! \u{1F642}".as_bytes(), &mut output);
    assert_eq!(output, "hello, world! `F0`9F`99`82");
    assert_eq!(count, 26);

    let mut output = Vec::new();
    let count = encode_to_vec("hello, world! \u{1F642}".as_bytes(), &mut output);
    assert_eq!(output, b"hello, world! `F0`9F`99`82");
    assert_eq!(count, 26);

    let mut output = Vec::new();
    let count = decode_to_vec(b"hello, world! `F0`9F`99`82", &mut output).unwrap();
    assert_eq!(output, "hello, world! \u{1F642}".as_bytes());
    assert_eq!(count, 18);

    let mut output = b"kept: ".to_vec();
    let count = decode_to_vec(b"``", &mut output).unwrap();
    assert_eq!(output, b"kept: `");
    assert_eq!(count, 1);
}

#[test]
fn escape_classifier_edges() {
    assert!(!requires_escape(b'\t'));
    assert!(!requires_escape(b'\n'));
    assert!(!requires_escape(b'\r'));
    assert!(!requires_escape(b' '));
    assert!(!requires_escape(b'~'));
    assert!(!requires_escape(b'a'));
    assert!(requires_escape(b'`'));
    assert!(requires_escape(0x00));
    assert!(requires_escape(0x08));
    assert!(requires_escape(0x0B));
    assert!(requires_escape(0x0C));
    assert!(requires_escape(0x1F));
    assert!(requires_escape(0x7F));
    assert!(requires_escape(0xFF));
}

#[test]
fn encoder_state_machine_steps() {
    let mut encoder = Encoder::default();
    assert_eq!(encoder.next(), None);

    assert_eq!(encoder.push(b'h'), 'h');
    assert_eq!(encoder.next(), None);

    assert_eq!(encoder.push(b'`'), '`');
    assert_eq!(encoder.next(), Some('`'));
    assert_eq!(encoder.next(), None);

    assert_eq!(encoder.push(0xFF), '`');
    assert_eq!(encoder.next(), Some('F'));
    assert_eq!(encoder.next(), Some('F'));
    assert_eq!(encoder.next(), None);
}

#[test]
fn decoder_state_machine_steps() {
    let mut decoder = Decoder::default();
    assert!(matches!(
        decoder.push(Some(b'h')),
        DecodeStatus::Emit(Some(Ok(b'h')))
    ));
    assert!(matches!(decoder.push(Some(b'`')), DecodeStatus::NeedMore));
    assert!(matches!(
        decoder.push(Some(b'`')),
        DecodeStatus::Emit(Some(Ok(0x60)))
    ));
    assert!(matches!(decoder.push(Some(b'`')), DecodeStatus::NeedMore));
    assert!(matches!(decoder.push(Some(b'0')), DecodeStatus::NeedMore));
    assert!(matches!(
        decoder.push(Some(b'0')),
        DecodeStatus::Emit(Some(Ok(0x00)))
    ));
    assert!(matches!(decoder.push(None), DecodeStatus::Emit(None)));
    // Finished is absorbing.
    assert!(matches!(
        decoder.push(Some(b'h')),
        DecodeStatus::Emit(None)
    ));
}

#[test]
fn iterator_sources_can_be_taken_back() {
    let mut iter = encode_iter(b"ab".to_vec());
    assert_eq!(iter.inner().as_slice(), b"ab".as_slice());
    assert_eq!(iter.next(), Some('a'));
    iter.inner_mut().push(b'c');
    assert_eq!(iter.next(), Some('b'));
    assert_eq!(iter.next(), Some('c'));
    assert_eq!(iter.next(), None);
    assert_eq!(iter.into_inner(), b"abc".to_vec());

    let iter = decode_iter(b"xy".to_vec());
    assert_eq!(iter.inner().as_slice(), b"xy".as_slice());
    assert_eq!(iter.into_inner(), b"xy".to_vec());
}
