//! Tick-encoding: a reversible byte-to-ASCII text encoding.
//!
//! Arbitrary binary data is rendered as a printable ASCII string.  Safe
//! bytes (tab, line feed, carriage return, and printable ASCII except the
//! backtick marker) stand literally; the marker is doubled; every other
//! byte becomes the marker followed by two uppercase hex digits.  Decoding
//! accepts exactly the canonical form and reports the first malformed
//! symbol as a [`DecodeError`].

use std::borrow::Cow;
use vstd::prelude::*;

pub mod decoder;
pub mod encoder;
pub mod format;
pub mod iter;

use crate::format::ascii_chars;
use crate::format::decode_seq;
use crate::format::encode_seq;
use crate::format::hex_digit;
use crate::format::spec_hex_pair;
use crate::format::spec_requires_escape;
use crate::format::MARKER;

verus! {

/// An error trying to decode a tick-encoded string.
#[derive(Debug, Clone, Copy, PartialEq, Eq, Structural)]
pub enum DecodeError {
    /// Encountered an invalid byte in the string: either a non-ASCII byte
    /// or an ASCII byte that requires escaping (see [`requires_escape`]).
    InvalidByte(u8),
    /// Reached the end of the string right after a marker, or after a
    /// marker and one hex digit.
    UnexpectedEnd,
    /// A two-digit hex escape decoded to a byte that does not require
    /// escaping, or to the marker itself, neither of which may use the
    /// hex form.
    UnexpectedEscape(EscapedHex, char),
    /// A two-digit hex escape used lowercase digits `a`..=`f`; canonical
    /// escapes use `A`..=`F`.
    LowercaseHex(EscapedHex),
    /// A two-digit hex escape held a byte outside `0`..=`9`, `A`..=`F`,
    /// `a`..=`f`.
    InvalidHex(EscapedHex),
}

/// A two-digit escaped hex sequence, prefixed with a marker.
#[derive(Debug, Clone, Copy, PartialEq, Eq, Structural)]
pub struct EscapedHex(pub u8, pub u8);

/// Returns true if the given byte must be escaped behind a marker.
///
/// The bytes that do **not** require escaping, and stand literally in a
/// tick-encoded string, are tab (0x09), line feed (0x0A), carriage return
/// (0x0D), and the printable range 0x20..=0x7E except the backtick marker.
pub fn requires_escape(byte: u8) -> (r: bool)
    ensures
        r == spec_requires_escape(byte),
{
    if byte == 0x09 || byte == 0x0A || byte == 0x0D {
        false
    } else {
        !(0x20 <= byte && byte <= 0x7E && byte != MARKER)
    }
}

/// The two uppercase hex digits of a byte, high nibble first.
fn byte_to_hex_bytes(byte: u8) -> (r: [u8; 2])
    ensures
        r@ == seq![hex_digit(byte / 16), hex_digit(byte % 16)],
{
    let high = byte / 16;
    let low = byte % 16;
    let high_byte = if high < 10 {
        0x30 + high
    } else {
        0x37 + high
    };
    let low_byte = if low < 10 {
        0x30 + low
    } else {
        0x37 + low
    };
    let r = [high_byte, low_byte];
    proof {
        assert(r@ =~= seq![hex_digit(byte / 16), hex_digit(byte % 16)]);
    }
    r
}

/// Decode a two-digit hex escape, enforcing canonical form.
fn hex_bytes_to_byte(pair: [u8; 2]) -> (r: Result<u8, DecodeError>)
    ensures
        r == spec_hex_pair(pair@[0], pair@[1]),
{
    let high = pair[0];
    let low = pair[1];
    let high_ok = (0x30 <= high && high <= 0x39) || (0x41 <= high && high <= 0x46);
    let low_ok = (0x30 <= low && low <= 0x39) || (0x41 <= low && low <= 0x46);
    let high_lower = 0x61 <= high && high <= 0x66;
    let low_lower = 0x61 <= low && low <= 0x66;
    if (!high_ok && !high_lower) || (!low_ok && !low_lower) {
        Err(DecodeError::InvalidHex(EscapedHex(high, low)))
    } else if high_lower || low_lower {
        Err(DecodeError::LowercaseHex(EscapedHex(high, low)))
    } else {
        let high_value = if high <= 0x39 {
            high - 0x30
        } else {
            high - 0x37
        };
        let low_value = if low <= 0x39 {
            low - 0x30
        } else {
            low - 0x37
        };
        let byte = high_value * 16 + low_value;
        if byte == MARKER || !requires_escape(byte) {
            Err(DecodeError::UnexpectedEscape(EscapedHex(high, low), byte as char))
        } else {
            Ok(byte)
        }
    }
}

/// Encode the given input, and append the result to `output`. Returns
/// the number of bytes appended.
pub fn encode_to_vec(input: &[u8], output: &mut Vec<u8>) -> (written: usize)
    ensures
        final(output)@ == old(output)@ + encode_seq(input@),
        written == encode_seq(input@).len(),
{
    let start = output.len();
    let n = input.len();
    let mut i: usize = 0;
    while i < n
        invariant
            0 <= i <= n,
            n == input@.len(),
            start == old(output)@.len(),
            output@ == old(output)@ + encode_seq(input@.take(i as int)),
        decreases n - i,
    {
        let byte = input[i];
        if byte == MARKER {
            output.push(MARKER);
            output.push(MARKER);
        } else if requires_escape(byte) {
            let pair = byte_to_hex_bytes(byte);
            output.push(MARKER);
            output.push(pair[0]);
            output.push(pair[1]);
        } else {
            output.push(byte);
        }
        proof {
            crate::format::lemma_encode_push(input@.take(i as int), byte);
            assert(input@.take(i + 1) =~= input@.take(i as int).push(byte));
            assert(output@ =~= old(output)@ + encode_seq(input@.take(i + 1)));
        }
        i = i + 1;
    }
    proof {
        assert(input@.take(n as int) =~= input@);
    }
    output.len() - start
}

/// Relies on core::str::from_utf8: an all-ASCII byte slice is valid UTF-8
/// and reads back as the same sequence of one-byte characters.
#[verifier::external_body]
fn ascii_str_from(bytes: &[u8]) -> (r: &str)
    requires
        forall|i: int| 0 <= i < bytes@.len() ==> bytes@[i] < 0x80,
    ensures
        r@ == ascii_chars(bytes@),
{
    core::str::from_utf8(bytes).unwrap()
}

/// Encode the given input, and append the result to `output`. Returns
/// the number of characters appended (all of them ASCII).
pub fn encode_to_string(input: &[u8], output: &mut String) -> (written: usize)
    ensures
        final(output)@ == old(output)@ + ascii_chars(encode_seq(input@)),
        written == encode_seq(input@).len(),
{
    let mut buf: Vec<u8> = Vec::new();
    let written = encode_to_vec(input, &mut buf);
    proof {
        crate::format::lemma_encode_ascii(input@);
        assert(buf@ =~= encode_seq(input@));
    }
    let encoded = ascii_str_from(buf.as_slice());
    output.append(encoded);
    written
}

/// Encode the given input as a string, escaping any bytes that require
/// it. If no bytes require escaping, the result is borrowed from the
/// input.
pub fn encode<'a>(input: &'a [u8]) -> (r: Cow<'a, str>)
    ensures
        r@ == ascii_chars(encode_seq(input@)),
        (forall|i: int| 0 <= i < input@.len() ==> !spec_requires_escape(input@[i]))
            <==> (r matches Cow::Borrowed(_)),
{
    let n = input.len();
    let mut i: usize = 0;
    while i < n && !requires_escape(input[i])
        invariant
            0 <= i <= n,
            n == input@.len(),
            forall|j: int| 0 <= j < i ==> !spec_requires_escape(input@[j]),
        decreases n - i,
    {
        i = i + 1;
    }
    if i == n {
        proof {
            crate::format::lemma_encode_all_safe(input@);
        }
        Cow::Borrowed(ascii_str_from(input))
    } else {
        let mut out = String::new();
        let safe_prefix = ascii_str_from(&input[0..i]);
        out.append(safe_prefix);
        encode_to_string(&input[i..n], &mut out);
        proof {
            let s = input@;
            let head = s.take(i as int);
            let tail = s.skip(i as int);
            crate::format::lemma_encode_append(head, tail);
            assert(head + tail =~= s);
            crate::format::lemma_encode_all_safe(head);
            assert(ascii_chars(head) + ascii_chars(encode_seq(tail)) =~= ascii_chars(
                encode_seq(s),
            ));
        }
        Cow::Owned(out)
    }
}

/// Return an iterator that encodes the bytes of the given source: each
/// call to its `next` yields one character of the encoding of the source.
pub fn encode_iter(input: Vec<u8>) -> (r: iter::EncodeIter)
    ensures
        r.source() == input@,
        r.remaining() == encode_seq(input@),
{
    iter::EncodeIter::new(input)
}

/// Return an iterator that decodes the tick-encoded bytes of the given
/// source: its `next` yields `Some(Ok(_))` for each decoded byte, yields
/// `Some(Err(_))` once if the source is malformed, and yields `None` from
/// then on.
pub fn decode_iter(input: Vec<u8>) -> (r: iter::DecodeIter)
    ensures
        r.source() == input@,
        r.remaining() == crate::decoder::outputs(crate::decoder::Decoder::Ready, input@),
{
    iter::DecodeIter::new(input)
}

/// Decode the given tick-encoded ASCII input, and append the result to
/// `output`. Returns the number of bytes appended, or the error raised
/// by the first malformed symbol (in which case the symbols before it
/// may already have been appended).
pub fn decode_to_vec(input: &[u8], output: &mut Vec<u8>) -> (r: Result<usize, DecodeError>)
    ensures
        old(output)@.is_prefix_of(final(output)@),
        decode_seq(input@) matches Ok(d) ==> r matches Ok(written) && written == d.len()
            && final(output)@ == old(output)@ + d,
        decode_seq(input@) matches Err(e) ==> r matches Err(err) && err == e,
{
    let ghost s = input@;
    let start = output.len();
    let n = input.len();
    let mut i: usize = 0;
    let ghost mut done: Seq<u8> = Seq::empty();
    proof {
        assert(s.skip(0) =~= s);
        match decode_seq(s) {
            Ok(rest) => {
                assert(done + rest =~= rest);
            },
            Err(_) => {},
        }
        assert(output@ =~= old(output)@ + done);
    }
    while i < n
        invariant
            0 <= i <= n,
            n == s.len(),
            s == input@,
            start == old(output)@.len(),
            output@ == old(output)@ + done,
            decode_seq(s) == match decode_seq(s.skip(i as int)) {
                Ok(rest) => Ok::<Seq<u8>, DecodeError>(done + rest),
                Err(e) => Err::<Seq<u8>, DecodeError>(e),
            },
        decreases n - i,
    {
        let ghost tail = s.skip(i as int);
        let byte = input[i];
        proof {
            assert(tail[0] == s[i as int]);
        }
        if byte == MARKER {
            if i + 1 >= n {
                proof {
                    assert(tail.len() == 1);
                }
                return Err(DecodeError::UnexpectedEnd);
            }
            let second = input[i + 1];
            proof {
                assert(tail[1] == s[i + 1]);
            }
            if second == MARKER {
                output.push(MARKER);
                proof {
                    assert(tail.skip(2) =~= s.skip(i + 2));
                    let ghost prev = done;
                    done = done + seq![MARKER];
                    match decode_seq(s.skip(i + 2)) {
                        Ok(rest) => {
                            assert(decode_seq(tail) == Ok::<Seq<u8>, DecodeError>(
                                seq![MARKER] + rest,
                            ));
                            assert((prev + (seq![MARKER] + rest)) =~= (done + rest));
                        },
                        Err(e) => {},
                    }
                    assert(output@ =~= old(output)@ + done);
                }
                i = i + 2;
            } else {
                if i + 2 >= n {
                    proof {
                        assert(tail.len() == 2);
                    }
                    return Err(DecodeError::UnexpectedEnd);
                }
                let low = input[i + 2];
                proof {
                    assert(tail[2] == s[i + 2]);
                }
                match hex_bytes_to_byte([second, low]) {
                    Ok(byte) => {
                        output.push(byte);
                        proof {
                            assert(tail.skip(3) =~= s.skip(i + 3));
                            let ghost prev = done;
                            done = done + seq![byte];
                            match decode_seq(s.skip(i + 3)) {
                                Ok(rest) => {
                                    assert(decode_seq(tail) == Ok::<Seq<u8>, DecodeError>(
                                        seq![byte] + rest,
                                    ));
                                    assert((prev + (seq![byte] + rest)) =~= (done + rest));
                                },
                                Err(e) => {},
                            }
                            assert(output@ =~= old(output)@ + done);
                        }
                        i = i + 3;
                    },
                    Err(e) => {
                        return Err(e);
                    },
                }
            }
        } else if requires_escape(byte) {
            return Err(DecodeError::InvalidByte(byte));
        } else {
            output.push(byte);
            proof {
                assert(tail.skip(1) =~= s.skip(i + 1));
                let ghost prev = done;
                done = done + seq![byte];
                match decode_seq(s.skip(i + 1)) {
                    Ok(rest) => {
                        assert(decode_seq(tail) == Ok::<Seq<u8>, DecodeError>(seq![byte] + rest));
                        assert((prev + (seq![byte] + rest)) =~= (done + rest));
                    },
                    Err(e) => {},
                }
                assert(output@ =~= old(output)@ + done);
            }
            i = i + 1;
        }
    }
    proof {
        assert(s.skip(n as int) =~= Seq::empty());
        assert(decode_seq(Seq::<u8>::empty()) == Ok::<Seq<u8>, DecodeError>(Seq::empty()));
        assert(done + Seq::<u8>::empty() =~= done);
    }
    Ok(output.len() - start)
}

/// Decode the given encoded input into a byte array. If no bytes need to
/// be un-escaped, the result is borrowed from the input.
///
/// Returns an error if the input is not a valid canonical tick-encoding.
pub fn decode<'a>(input: &'a [u8]) -> (r: Result<Cow<'a, [u8]>, DecodeError>)
    ensures
        decode_seq(input@) matches Ok(d) ==> r matches Ok(c) && c@ == d,
        decode_seq(input@) matches Err(e) ==> r matches Err(err) && err == e,
        (forall|i: int| 0 <= i < input@.len() ==> !spec_requires_escape(input@[i])) <==> (
        r matches Ok(c) && c matches Cow::Borrowed(_)),
{
    let n = input.len();
    let mut i: usize = 0;
    while i < n && !requires_escape(input[i])
        invariant
            0 <= i <= n,
            n == input@.len(),
            forall|j: int| 0 <= j < i ==> !spec_requires_escape(input@[j]),
        decreases n - i,
    {
        i = i + 1;
    }
    if i == n {
        proof {
            crate::format::lemma_decode_all_safe(input@);
        }
        Ok(Cow::Borrowed(input))
    } else {
        let mut out: Vec<u8> = Vec::new();
        out.extend_from_slice(&input[0..i]);
        proof {
            crate::format::lemma_decode_safe_prefix(input@, i as int);
        }
        match decode_to_vec(&input[i..n], &mut out) {
            Ok(_) => {
                proof {
                    match decode_seq(input@.skip(i as int)) {
                        Ok(rest) => {
                            assert(out@ =~= input@.take(i as int) + rest);
                        },
                        Err(_) => {},
                    }
                }
                Ok(Cow::Owned(out))
            },
            Err(e) => Err(e),
        }
    }
}

/// Take a byte slice containing a tick-encoded ASCII string, and decode
/// it in place, writing back into the same byte slice. Returns the count
/// of decoded bytes, which form a prefix of the buffer; the bytes past
/// that prefix are stale and must be ignored. On error, the contents
/// before the point of failure may already have been compacted.
pub fn decode_in_place(input: &mut [u8]) -> (r: Result<usize, DecodeError>)
    ensures
        final(input)@.len() == old(input)@.len(),
        decode_seq(old(input)@) matches Ok(d) ==> r matches Ok(count) && count == d.len()
            && final(input)@.take(count as int) == d,
        decode_seq(old(input)@) matches Err(e) ==> r matches Err(err) && err == e,
        (forall|i: int| 0 <= i < old(input)@.len() ==> !spec_requires_escape(old(input)@[i]))
            ==> final(input)@ == old(input)@,
{
    let ghost s = old(input)@;
    let n = input.len();
    let mut i: usize = 0;
    while i < n && !requires_escape(input[i])
        invariant
            0 <= i <= n,
            n == s.len(),
            s == old(input)@,
            input@ == s,
            forall|j: int| 0 <= j < i ==> !spec_requires_escape(s[j]),
        decreases n - i,
    {
        i = i + 1;
    }
    if i == n {
        proof {
            crate::format::lemma_decode_all_safe(s);
            assert(input@.take(n as int) =~= s);
        }
        return Ok(n);
    }
    proof {
        crate::format::lemma_decode_safe_prefix(s, i as int);
    }
    let mut head = i;
    let mut tail = i;
    let ghost mut done: Seq<u8> = s.take(i as int);
    while tail < n
        invariant
            0 <= i <= head <= tail <= n,
            n == s.len(),
            s == old(input)@,
            input@.len() == s.len(),
            head == done.len(),
            input@.take(head as int) == done,
            input@.skip(tail as int) == s.skip(tail as int),
            decode_seq(s) == match decode_seq(s.skip(tail as int)) {
                Ok(rest) => Ok::<Seq<u8>, DecodeError>(done + rest),
                Err(e) => Err::<Seq<u8>, DecodeError>(e),
            },
        decreases n - tail,
    {
        let ghost rest_in = s.skip(tail as int);
        let byte = input[tail];
        proof {
            assert(input@[tail as int] == input@.skip(tail as int)[0]);
            assert(rest_in[0] == s[tail as int]);
        }
        if byte == MARKER {
            if tail + 1 >= n {
                proof {
                    assert(rest_in.len() == 1);
                }
                return Err(DecodeError::UnexpectedEnd);
            }
            let second = input[tail + 1];
            proof {
                assert(input@[tail + 1] == input@.skip(tail as int)[1]);
                assert(rest_in[1] == s[tail + 1]);
            }
            if second == MARKER {
                input[head] = MARKER;
                proof {
                    let ghost prev = done;
                    done = done + seq![MARKER];
                    assert(rest_in.skip(2) =~= s.skip(tail + 2));
                    assert(input@.skip(tail + 2) =~= s.skip(tail + 2));
                    assert(input@.take(head + 1) =~= done);
                    match decode_seq(s.skip(tail + 2)) {
                        Ok(rest) => {
                            assert(decode_seq(rest_in) == Ok::<Seq<u8>, DecodeError>(
                                seq![MARKER] + rest,
                            ));
                            assert((prev + (seq![MARKER] + rest)) =~= (done + rest));
                        },
                        Err(_) => {},
                    }
                }
                head = head + 1;
                tail = tail + 2;
            } else {
                if tail + 2 >= n {
                    proof {
                        assert(rest_in.len() == 2);
                    }
                    return Err(DecodeError::UnexpectedEnd);
                }
                let low = input[tail + 2];
                proof {
                    assert(input@[tail + 2] == input@.skip(tail as int)[2]);
                    assert(rest_in[2] == s[tail + 2]);
                }
                match hex_bytes_to_byte([second, low]) {
                    Ok(byte) => {
                        input[head] = byte;
                        proof {
                            let ghost prev = done;
                            done = done + seq![byte];
                            assert(rest_in.skip(3) =~= s.skip(tail + 3));
                            assert(input@.skip(tail + 3) =~= s.skip(tail + 3));
                            assert(input@.take(head + 1) =~= done);
                            match decode_seq(s.skip(tail + 3)) {
                                Ok(rest) => {
                                    assert(decode_seq(rest_in) == Ok::<Seq<u8>, DecodeError>(
                                        seq![byte] + rest,
                                    ));
                                    assert((prev + (seq![byte] + rest)) =~= (done + rest));
                                },
                                Err(_) => {},
                            }
                        }
                        head = head + 1;
                        tail = tail + 3;
                    },
                    Err(e) => {
                        return Err(e);
                    },
                }
            }
        } else if requires_escape(byte) {
            return Err(DecodeError::InvalidByte(byte));
        } else {
            input[head] = byte;
            proof {
                let ghost prev = done;
                done = done + seq![byte];
                assert(rest_in.skip(1) =~= s.skip(tail + 1));
                assert(input@.skip(tail + 1) =~= s.skip(tail + 1));
                assert(input@.take(head + 1) =~= done);
                match decode_seq(s.skip(tail + 1)) {
                    Ok(rest) => {
                        assert(decode_seq(rest_in) == Ok::<Seq<u8>, DecodeError>(seq![byte] + rest));
                        assert((prev + (seq![byte] + rest)) =~= (done + rest));
                    },
                    Err(_) => {},
                }
            }
            head = head + 1;
            tail = tail + 1;
        }
    }
    proof {
        assert(s.skip(n as int) =~= Seq::empty());
        assert(decode_seq(Seq::<u8>::empty()) == Ok::<Seq<u8>, DecodeError>(Seq::empty()));
        assert(done + Seq::<u8>::empty() =~= done);
    }
    Ok(head)
}

} // verus!
