//! The mathematical definition of the tick-encoding format.
//!
//! A byte stream is rendered as printable ASCII by leaving safe bytes
//! (tab, line feed, carriage return, and the printable range except the
//! backtick marker) literal, doubling the marker, and spelling every other
//! byte as the marker followed by two uppercase hex digits.  The spec
//! functions here are the single source of truth: every executable entry
//! point is proved against `encode_seq` and `decode_seq`.

use vstd::prelude::*;

use crate::DecodeError;
use crate::EscapedHex;

verus! {

/// The escape marker byte: a backtick.
pub const MARKER: u8 = 0x60;

/// True when `byte` cannot stand literally in encoded text.
///
/// Safe bytes are tab (0x09), line feed (0x0A), carriage return (0x0D)
/// and the printable range 0x20..=0x7E, except the marker itself.
pub open spec fn spec_requires_escape(byte: u8) -> bool {
    !(byte == 0x09 || byte == 0x0A || byte == 0x0D || (0x20 <= byte && byte <= 0x7E
        && byte != MARKER))
}

/// The uppercase hex digit for a nibble value.
pub open spec fn hex_digit(nibble: u8) -> u8
    recommends
        nibble < 16,
{
    if nibble < 10 {
        (0x30 + nibble) as u8
    } else {
        (0x37 + nibble) as u8
    }
}

/// True for the digits `0`..=`9` and `A`..=`F`.
pub open spec fn is_upper_hex(byte: u8) -> bool {
    (0x30 <= byte && byte <= 0x39) || (0x41 <= byte && byte <= 0x46)
}

/// True for the digits `a`..=`f`.
pub open spec fn is_lower_hex(byte: u8) -> bool {
    0x61 <= byte && byte <= 0x66
}

/// The nibble value of an uppercase hex digit.
pub open spec fn hex_value(byte: u8) -> u8
    recommends
        is_upper_hex(byte),
{
    if byte <= 0x39 {
        (byte - 0x30) as u8
    } else {
        (byte - 0x37) as u8
    }
}

/// The encoded form of one byte: one, two, or three output bytes.
pub open spec fn encode_byte(byte: u8) -> Seq<u8> {
    if byte == MARKER {
        seq![MARKER, MARKER]
    } else if spec_requires_escape(byte) {
        seq![MARKER, hex_digit(byte / 16), hex_digit(byte % 16)]
    } else {
        seq![byte]
    }
}

/// The canonical encoding of a byte stream.
pub open spec fn encode_seq(s: Seq<u8>) -> Seq<u8>
    decreases s.len(),
{
    if s.len() == 0 {
        Seq::empty()
    } else {
        encode_byte(s[0]) + encode_seq(s.drop_first())
    }
}

/// What a hex escape pair decodes to, enforcing canonical form: both
/// digits must be uppercase hex, and the decoded byte must itself require
/// escaping and must not be the marker (the marker uses doubling).
pub open spec fn spec_hex_pair(high: u8, low: u8) -> Result<u8, DecodeError> {
    if !(is_upper_hex(high) || is_lower_hex(high)) || !(is_upper_hex(low) || is_lower_hex(low)) {
        Err(DecodeError::InvalidHex(EscapedHex(high, low)))
    } else if is_lower_hex(high) || is_lower_hex(low) {
        Err(DecodeError::LowercaseHex(EscapedHex(high, low)))
    } else {
        let byte = (hex_value(high) * 16 + hex_value(low)) as u8;
        if byte == MARKER || !spec_requires_escape(byte) {
            Err(DecodeError::UnexpectedEscape(EscapedHex(high, low), byte as char))
        } else {
            Ok(byte)
        }
    }
}

/// The canonical decoding of an encoded byte stream: the decoded bytes,
/// or the error raised by the first malformed symbol.
pub open spec fn decode_seq(s: Seq<u8>) -> Result<Seq<u8>, DecodeError>
    decreases s.len(),
{
    if s.len() == 0 {
        Ok(Seq::empty())
    } else if s[0] == MARKER {
        if s.len() == 1 {
            Err(DecodeError::UnexpectedEnd)
        } else if s[1] == MARKER {
            match decode_seq(s.skip(2)) {
                Ok(rest) => Ok(seq![MARKER] + rest),
                Err(e) => Err(e),
            }
        } else if s.len() == 2 {
            Err(DecodeError::UnexpectedEnd)
        } else {
            match spec_hex_pair(s[1], s[2]) {
                Ok(byte) => match decode_seq(s.skip(3)) {
                    Ok(rest) => Ok(seq![byte] + rest),
                    Err(e) => Err(e),
                },
                Err(e) => Err(e),
            }
        }
    } else if spec_requires_escape(s[0]) {
        Err(DecodeError::InvalidByte(s[0]))
    } else {
        match decode_seq(s.skip(1)) {
            Ok(rest) => Ok(seq![s[0]] + rest),
            Err(e) => Err(e),
        }
    }
}

/// The encoded form of a byte stream, viewed as text.
pub open spec fn ascii_chars(s: Seq<u8>) -> Seq<char> {
    s.map(|_i: int, b: u8| b as char)
}

/// The uppercase hex digit of a nibble is a canonical digit: uppercase
/// hex, not lowercase, not the marker, and it reads back as the nibble.
pub proof fn lemma_hex_digit(nibble: u8)
    requires
        nibble < 16,
    ensures
        is_upper_hex(hex_digit(nibble)),
        !is_lower_hex(hex_digit(nibble)),
        hex_digit(nibble) != MARKER,
        hex_value(hex_digit(nibble)) == nibble,
{
}

/// Decoding the canonical hex pair of a byte that needs the hex form
/// gives that byte back.
pub proof fn lemma_hex_pair_of_byte(byte: u8)
    requires
        spec_requires_escape(byte),
        byte != MARKER,
    ensures
        spec_hex_pair(hex_digit(byte / 16), hex_digit(byte % 16)) == Ok::<u8, DecodeError>(byte),
{
    lemma_hex_digit(byte / 16);
    lemma_hex_digit(byte % 16);
    assert(byte / 16 * 16 + byte % 16 == byte) by (nonlinear_arith);
}

/// A hex pair decodes successfully only to a byte that needs the hex
/// form, and only from that byte's canonical digits.
pub proof fn lemma_hex_pair_canonical(high: u8, low: u8, byte: u8)
    requires
        spec_hex_pair(high, low) == Ok::<u8, DecodeError>(byte),
    ensures
        spec_requires_escape(byte),
        byte != MARKER,
        high == hex_digit(byte / 16),
        low == hex_digit(byte % 16),
{
    assert(hex_value(high) * 16 + hex_value(low) == byte);
    assert(byte / 16 == hex_value(high) && byte % 16 == hex_value(low)) by (nonlinear_arith)
        requires
            hex_value(high) < 16,
            hex_value(low) < 16,
            hex_value(high) * 16 + hex_value(low) == byte,
    ;
}

/// Encoding one byte yields at least one and at most three bytes, and
/// every one of them is ASCII.
pub proof fn lemma_encode_byte(byte: u8)
    ensures
        1 <= encode_byte(byte).len() <= 3,
        forall|i: int| 0 <= i < encode_byte(byte).len() ==> encode_byte(byte)[i] < 0x80,
{
    if byte != MARKER && spec_requires_escape(byte) {
        lemma_hex_digit(byte / 16);
        lemma_hex_digit(byte % 16);
    }
}

/// Encoding distributes over concatenation.
pub proof fn lemma_encode_append(s: Seq<u8>, t: Seq<u8>)
    ensures
        encode_seq(s + t) == encode_seq(s) + encode_seq(t),
    decreases s.len(),
{
    if s.len() == 0 {
        assert(s + t =~= t);
        assert(encode_seq(s) + encode_seq(t) =~= encode_seq(t));
    } else {
        assert((s + t).drop_first() =~= s.drop_first() + t);
        lemma_encode_append(s.drop_first(), t);
        assert(encode_byte(s[0]) + (encode_seq(s.drop_first()) + encode_seq(t)) =~= (encode_byte(
            s[0],
        ) + encode_seq(s.drop_first())) + encode_seq(t));
    }
}

/// Encoding a stream extended by one byte appends that byte's encoding.
pub proof fn lemma_encode_push(s: Seq<u8>, byte: u8)
    ensures
        encode_seq(s.push(byte)) == encode_seq(s) + encode_byte(byte),
{
    assert(s.push(byte) =~= s + seq![byte]);
    lemma_encode_append(s, seq![byte]);
    assert(seq![byte].drop_first() =~= Seq::empty());
    assert(encode_seq(Seq::<u8>::empty()) =~= Seq::empty());
    assert(encode_seq(seq![byte]) =~= encode_byte(byte));
}

/// Every byte of an encoded stream is ASCII.
pub proof fn lemma_encode_ascii(s: Seq<u8>)
    ensures
        forall|i: int| 0 <= i < encode_seq(s).len() ==> encode_seq(s)[i] < 0x80,
    decreases s.len(),
{
    if s.len() > 0 {
        lemma_encode_byte(s[0]);
        lemma_encode_ascii(s.drop_first());
        let head = encode_byte(s[0]);
        let tail = encode_seq(s.drop_first());
        assert forall|i: int| 0 <= i < encode_seq(s).len() implies encode_seq(s)[i] < 0x80 by {
            assert(encode_seq(s) == head + tail);
            if i < head.len() {
                assert(encode_seq(s)[i] == head[i]);
            } else {
                assert(encode_seq(s)[i] == tail[i - head.len()]);
            }
        }
    }
}

/// A stream of safe bytes encodes to itself.
pub proof fn lemma_encode_all_safe(s: Seq<u8>)
    requires
        forall|i: int| 0 <= i < s.len() ==> !spec_requires_escape(s[i]),
    ensures
        encode_seq(s) == s,
    decreases s.len(),
{
    if s.len() == 0 {
        assert(encode_seq(s) =~= s);
    } else {
        assert(!spec_requires_escape(s[0]));
        lemma_encode_all_safe(s.drop_first());
        assert(encode_seq(s) =~= s);
    }
}

/// Encoding never shrinks: the encoded stream is at least as long as the
/// input, and at most three times as long.
pub proof fn lemma_encode_len(s: Seq<u8>)
    ensures
        s.len() <= encode_seq(s).len() <= 3 * s.len(),
    decreases s.len(),
{
    if s.len() > 0 {
        lemma_encode_byte(s[0]);
        lemma_encode_len(s.drop_first());
    }
}

/// Decoding inverts encoding: every byte stream is recovered exactly
/// from its canonical encoding.
pub proof fn lemma_decode_encode(s: Seq<u8>)
    ensures
        decode_seq(encode_seq(s)) == Ok::<Seq<u8>, DecodeError>(s),
    decreases s.len(),
{
    if s.len() == 0 {
        assert(encode_seq(s).len() == 0);
        assert(s =~= Seq::empty());
    } else {
        let b = s[0];
        let e = encode_seq(s);
        let rest = encode_seq(s.drop_first());
        lemma_decode_encode(s.drop_first());
        if b == MARKER {
            assert(e =~= seq![MARKER, MARKER] + rest);
            assert(e.skip(2) =~= rest);
            assert(seq![MARKER] + s.drop_first() =~= s);
        } else if spec_requires_escape(b) {
            lemma_hex_digit(b / 16);
            lemma_hex_digit(b % 16);
            lemma_hex_pair_of_byte(b);
            assert(e =~= seq![MARKER, hex_digit(b / 16), hex_digit(b % 16)] + rest);
            assert(e.skip(3) =~= rest);
            assert(seq![b] + s.drop_first() =~= s);
        } else {
            assert(e =~= seq![b] + rest);
            assert(e.skip(1) =~= rest);
            assert(seq![b] + s.drop_first() =~= s);
        }
    }
}

/// Encoding inverts decoding: a stream that decodes successfully is the
/// canonical encoding of its decoding, so the format has exactly one
/// valid encoding per byte stream.
pub proof fn lemma_encode_decode(s: Seq<u8>)
    ensures
        decode_seq(s) matches Ok(d) ==> encode_seq(d) == s,
    decreases s.len(),
{
    if s.len() == 0 {
        match decode_seq(s) {
            Ok(d) => {
                assert(encode_seq(d) =~= s);
            },
            Err(_) => {},
        }
    } else if s[0] == MARKER {
        if s.len() == 1 {
        } else if s[1] == MARKER {
            lemma_encode_decode(s.skip(2));
            match decode_seq(s) {
                Ok(d) => {
                    let rest = decode_seq(s.skip(2))->Ok_0;
                    assert(d == seq![MARKER] + rest);
                    assert(d.drop_first() =~= rest);
                    assert(encode_seq(d) =~= seq![MARKER, MARKER] + encode_seq(rest));
                    assert(encode_seq(d) =~= s);
                },
                Err(_) => {},
            }
        } else if s.len() == 2 {
        } else {
            match decode_seq(s) {
                Ok(d) => {
                    let b = spec_hex_pair(s[1], s[2])->Ok_0;
                    let rest = decode_seq(s.skip(3))->Ok_0;
                    lemma_hex_pair_canonical(s[1], s[2], b);
                    lemma_encode_decode(s.skip(3));
                    assert(d == seq![b] + rest);
                    assert(d.drop_first() =~= rest);
                    assert(encode_seq(d) =~= encode_byte(b) + encode_seq(rest));
                    assert(encode_seq(d) =~= s);
                },
                Err(_) => {},
            }
        }
    } else if spec_requires_escape(s[0]) {
    } else {
        lemma_encode_decode(s.skip(1));
        match decode_seq(s) {
            Ok(d) => {
                let rest = decode_seq(s.skip(1))->Ok_0;
                assert(d == seq![s[0]] + rest);
                assert(d.drop_first() =~= rest);
                assert(encode_seq(d) =~= encode_byte(s[0]) + encode_seq(rest));
                assert(encode_seq(d) =~= s);
            },
            Err(_) => {},
        }
    }
}

/// Decoding never grows: a successfully decoded stream is no longer than
/// its encoded form.
pub proof fn lemma_decode_len(s: Seq<u8>)
    ensures
        decode_seq(s) matches Ok(d) ==> d.len() <= s.len(),
    decreases s.len(),
{
    if s.len() == 0 {
    } else if s[0] == MARKER {
        if s.len() >= 2 && s[1] == MARKER {
            lemma_decode_len(s.skip(2));
        } else if s.len() >= 3 {
            lemma_decode_len(s.skip(3));
        }
    } else if !spec_requires_escape(s[0]) {
        lemma_decode_len(s.skip(1));
    }
}

/// Splitting off a prefix of safe bytes: the stream decodes to that
/// prefix followed by the decoding of the remainder, and fails exactly
/// when the remainder fails.
pub proof fn lemma_decode_safe_prefix(s: Seq<u8>, i: int)
    requires
        0 <= i <= s.len(),
        forall|j: int| 0 <= j < i ==> !spec_requires_escape(s[j]),
    ensures
        decode_seq(s) == match decode_seq(s.skip(i)) {
            Ok(rest) => Ok::<Seq<u8>, DecodeError>(s.take(i) + rest),
            Err(e) => Err::<Seq<u8>, DecodeError>(e),
        },
    decreases i,
{
    if i == 0 {
        assert(s.skip(0) =~= s);
        match decode_seq(s) {
            Ok(d) => {
                assert(s.take(0) + d =~= d);
            },
            Err(_) => {},
        }
    } else {
        assert(!spec_requires_escape(s[0]));
        assert(s.len() > 0);
        lemma_decode_safe_prefix(s.skip(1), i - 1);
        assert(s.skip(1).skip(i - 1) =~= s.skip(i));
        match decode_seq(s.skip(i)) {
            Ok(rest) => {
                assert(decode_seq(s.skip(1)) == Ok::<Seq<u8>, DecodeError>(
                    s.skip(1).take(i - 1) + rest,
                ));
                assert(seq![s[0]] + (s.skip(1).take(i - 1) + rest) =~= s.take(i) + rest);
            },
            Err(e) => {},
        }
    }
}

/// A stream with no marker and no byte that needs escaping decodes to
/// itself.
pub proof fn lemma_decode_all_safe(s: Seq<u8>)
    requires
        forall|i: int| 0 <= i < s.len() ==> !spec_requires_escape(s[i]),
    ensures
        decode_seq(s) == Ok::<Seq<u8>, DecodeError>(s),
{
    lemma_decode_safe_prefix(s, s.len() as int);
    assert(s.skip(s.len() as int) =~= Seq::empty());
    assert(s.take(s.len() as int) + Seq::<u8>::empty() =~= s);
}

} // verus!
