//! The decoder state machine: consumes encoded bytes one at a time (or an
//! end-of-input marker), and emits zero or one decoded byte, or an error.

use vstd::prelude::*;

use crate::format::decode_seq;
use crate::format::spec_hex_pair;
use crate::format::spec_requires_escape;
use crate::format::MARKER;
use crate::hex_bytes_to_byte;
use crate::requires_escape;
use crate::DecodeError;

verus! {

/// Decoder state machine. `Finished` is absorbing: at most one error is
/// ever produced per decode, and nothing is emitted after the end.
#[derive(Debug, Clone, Copy)]
pub enum Decoder {
    /// Between symbols.
    Ready,
    /// Terminal: the input ended or an error was emitted.
    Finished,
    /// A marker was seen.
    Tick,
    /// A marker and one hex digit were seen.
    TickHalfHex(u8),
}

/// What one step of the decoder hands back.
#[derive(Debug, Clone, Copy)]
pub enum DecodeStatus {
    /// The byte was consumed; no output yet.
    NeedMore,
    /// One decoded byte, an error, or `None` for a completed stream.
    Emit(Option<Result<u8, DecodeError>>),
}

/// One transition of the decoder: the next state, and what is emitted.
pub open spec fn spec_step(state: Decoder, input: Option<u8>) -> (Decoder, DecodeStatus) {
    match (state, input) {
        (Decoder::Finished, _) => (Decoder::Finished, DecodeStatus::Emit(None)),
        (Decoder::Ready, Some(byte)) => {
            if byte == MARKER {
                (Decoder::Tick, DecodeStatus::NeedMore)
            } else if spec_requires_escape(byte) {
                (
                    Decoder::Finished,
                    DecodeStatus::Emit(Some(Err(DecodeError::InvalidByte(byte)))),
                )
            } else {
                (Decoder::Ready, DecodeStatus::Emit(Some(Ok(byte))))
            }
        },
        (Decoder::Ready, None) => (Decoder::Finished, DecodeStatus::Emit(None)),
        (Decoder::Tick, Some(byte)) => {
            if byte == MARKER {
                (Decoder::Ready, DecodeStatus::Emit(Some(Ok(MARKER))))
            } else {
                (Decoder::TickHalfHex(byte), DecodeStatus::NeedMore)
            }
        },
        (Decoder::Tick, None) => (
            Decoder::Finished,
            DecodeStatus::Emit(Some(Err(DecodeError::UnexpectedEnd))),
        ),
        (Decoder::TickHalfHex(high), Some(low)) => match spec_hex_pair(high, low) {
            Ok(byte) => (Decoder::Ready, DecodeStatus::Emit(Some(Ok(byte)))),
            Err(e) => (Decoder::Finished, DecodeStatus::Emit(Some(Err(e)))),
        },
        (Decoder::TickHalfHex(_), None) => (
            Decoder::Finished,
            DecodeStatus::Emit(Some(Err(DecodeError::UnexpectedEnd))),
        ),
    }
}

impl Decoder {
    /// Feed the decoder one byte, or `None` at the end of the input.
    pub fn push(&mut self, input: Option<u8>) -> (status: DecodeStatus)
        ensures
            *final(self) == spec_step(*old(self), input).0,
            status == spec_step(*old(self), input).1,
    {
        match (*self, input) {
            (Self::Finished, _) => DecodeStatus::Emit(None),
            (Self::Ready, Some(input)) => {
                if input == MARKER {
                    *self = Self::Tick;
                    DecodeStatus::NeedMore
                } else if requires_escape(input) {
                    *self = Self::Finished;
                    DecodeStatus::Emit(Some(Err(DecodeError::InvalidByte(input))))
                } else {
                    DecodeStatus::Emit(Some(Ok(input)))
                }
            },
            (Self::Ready, None) => {
                *self = Self::Finished;
                DecodeStatus::Emit(None)
            },
            (Self::Tick, Some(input)) => {
                if input == MARKER {
                    *self = Self::Ready;
                    DecodeStatus::Emit(Some(Ok(MARKER)))
                } else {
                    *self = Self::TickHalfHex(input);
                    DecodeStatus::NeedMore
                }
            },
            (Self::Tick, None) => {
                *self = Self::Finished;
                DecodeStatus::Emit(Some(Err(DecodeError::UnexpectedEnd)))
            },
            (Self::TickHalfHex(high), Some(low)) => {
                let byte_result = hex_bytes_to_byte([high, low]);
                match byte_result {
                    Ok(byte) => {
                        *self = Self::Ready;
                        DecodeStatus::Emit(Some(Ok(byte)))
                    },
                    Err(error) => {
                        *self = Self::Finished;
                        DecodeStatus::Emit(Some(Err(error)))
                    },
                }
            },
            (Self::TickHalfHex(_), None) => {
                *self = Self::Finished;
                DecodeStatus::Emit(Some(Err(DecodeError::UnexpectedEnd)))
            },
        }
    }
}

impl Default for Decoder {
    /// A fresh decoder, ready for the first symbol.
    fn default() -> (r: Self)
        ensures
            r == Decoder::Ready,
    {
        Decoder::Ready
    }
}

/// Everything the decoder will emit, started in `state`, when fed the
/// bytes of `s` one at a time and then the end of the input.
pub open spec fn outputs(state: Decoder, s: Seq<u8>) -> Seq<Result<u8, DecodeError>>
    decreases s.len(),
{
    if s.len() == 0 {
        match state {
            Decoder::Tick => seq![Err(DecodeError::UnexpectedEnd)],
            Decoder::TickHalfHex(_) => seq![Err(DecodeError::UnexpectedEnd)],
            _ => Seq::empty(),
        }
    } else {
        let byte = s[0];
        let rest = s.drop_first();
        match state {
            Decoder::Finished => Seq::empty(),
            Decoder::Ready => {
                if byte == MARKER {
                    outputs(Decoder::Tick, rest)
                } else if spec_requires_escape(byte) {
                    seq![Err(DecodeError::InvalidByte(byte))]
                } else {
                    seq![Ok(byte)] + outputs(Decoder::Ready, rest)
                }
            },
            Decoder::Tick => {
                if byte == MARKER {
                    seq![Ok(MARKER)] + outputs(Decoder::Ready, rest)
                } else {
                    outputs(Decoder::TickHalfHex(byte), rest)
                }
            },
            Decoder::TickHalfHex(high) => match spec_hex_pair(high, byte) {
                Ok(value) => seq![Ok(value)] + outputs(Decoder::Ready, rest),
                Err(e) => seq![Err(e)],
            },
        }
    }
}

/// One decoder step agrees with the output stream: what `spec_step` emits
/// on the first byte (or on the end of the input) is the head of
/// `outputs`, and the rest of the stream continues from the new state.
pub proof fn lemma_outputs_step(state: Decoder, s: Seq<u8>)
    ensures
        ({
            let input = if s.len() == 0 {
                None
            } else {
                Some(s[0])
            };
            let rest = if s.len() == 0 {
                s
            } else {
                s.drop_first()
            };
            let (next_state, status) = spec_step(state, input);
            match status {
                DecodeStatus::NeedMore => outputs(state, s) == outputs(next_state, rest),
                DecodeStatus::Emit(opt) => match opt {
                    Some(res) => outputs(state, s) == seq![res] + outputs(next_state, rest),
                    None => outputs(state, s).len() == 0 && outputs(next_state, rest).len() == 0,
                },
            }
        }),
{
    let input = if s.len() == 0 {
        None
    } else {
        Some(s[0])
    };
    let rest = if s.len() == 0 {
        s
    } else {
        s.drop_first()
    };
    let (next_state, status) = spec_step(state, input);
    match status {
        DecodeStatus::NeedMore => {},
        DecodeStatus::Emit(opt) => match opt {
            Some(res) => {
                assert(outputs(state, s) =~= seq![res] + outputs(next_state, rest));
            },
            None => {},
        },
    }
}

/// Streaming matches bulk decoding, error for error: on a stream that
/// decodes successfully the decoder emits exactly the decoded bytes, and
/// on a malformed stream it emits the successfully decoded bytes followed
/// by the same error that bulk decoding reports, then nothing.
pub proof fn lemma_outputs_match_decode(s: Seq<u8>)
    ensures
        decode_seq(s) matches Ok(d) ==> outputs(Decoder::Ready, s) == d.map_values(
            |b: u8| Ok::<u8, DecodeError>(b),
        ),
        decode_seq(s) matches Err(e) ==> ({
            let o = outputs(Decoder::Ready, s);
            o.len() >= 1 && o.last() == Err::<u8, DecodeError>(e) && forall|i: int|
                0 <= i < o.len() - 1 ==> o[i] is Ok
        }),
    decreases s.len(),
{
    let o = outputs(Decoder::Ready, s);
    if s.len() == 0 {
        assert(o =~= Seq::<u8>::empty().map_values(|b: u8| Ok::<u8, DecodeError>(b)));
        match decode_seq(s) {
            Ok(d) => {
                assert(d =~= Seq::<u8>::empty());
            },
            Err(_) => {},
        }
    } else if s[0] == MARKER {
        let rest = s.drop_first();
        if s.len() == 1 {
            assert(rest.len() == 0);
            assert(o == outputs(Decoder::Tick, rest));
            assert(outputs(Decoder::Tick, rest) =~= seq![
                Err::<u8, DecodeError>(DecodeError::UnexpectedEnd),
            ]);
        } else if s[1] == MARKER {
            let after = s.skip(2);
            assert(rest[0] == s[1]);
            assert(rest.drop_first() =~= after);
            lemma_outputs_match_decode(after);
            assert(o == outputs(Decoder::Tick, rest));
            assert(outputs(Decoder::Tick, rest) == seq![Ok::<u8, DecodeError>(MARKER)] + outputs(
                Decoder::Ready,
                after,
            ));
            match decode_seq(after) {
                Ok(d2) => {
                    let d = seq![MARKER] + d2;
                    assert(decode_seq(s) == Ok::<Seq<u8>, DecodeError>(d));
                    assert(o =~= d.map_values(|b: u8| Ok::<u8, DecodeError>(b)));
                },
                Err(e2) => {
                    let o2 = outputs(Decoder::Ready, after);
                    assert(o.last() == o2.last());
                    assert forall|i: int| 0 <= i < o.len() - 1 implies o[i] is Ok by {
                        if i > 0 {
                            assert(o[i] == o2[i - 1]);
                        }
                    }
                },
            }
        } else if s.len() == 2 {
            assert(rest[0] == s[1]);
            assert(rest.drop_first() =~= Seq::<u8>::empty());
            assert(o == outputs(Decoder::Tick, rest));
            assert(outputs(Decoder::Tick, rest) == outputs(
                Decoder::TickHalfHex(s[1]),
                rest.drop_first(),
            ));
            assert(o =~= seq![Err::<u8, DecodeError>(DecodeError::UnexpectedEnd)]);
        } else {
            let after = s.skip(3);
            assert(rest[0] == s[1] && rest.drop_first()[0] == s[2]);
            assert(rest.drop_first().drop_first() =~= after);
            assert(o == outputs(Decoder::Tick, rest));
            assert(outputs(Decoder::Tick, rest) == outputs(
                Decoder::TickHalfHex(s[1]),
                rest.drop_first(),
            ));
            match spec_hex_pair(s[1], s[2]) {
                Ok(value) => {
                    lemma_outputs_match_decode(after);
                    assert(outputs(Decoder::TickHalfHex(s[1]), rest.drop_first())
                        == seq![Ok::<u8, DecodeError>(value)] + outputs(Decoder::Ready, after));
                    match decode_seq(after) {
                        Ok(d2) => {
                            let d = seq![value] + d2;
                            assert(decode_seq(s) == Ok::<Seq<u8>, DecodeError>(d));
                            assert(o =~= d.map_values(|b: u8| Ok::<u8, DecodeError>(b)));
                        },
                        Err(e2) => {
                            let o2 = outputs(Decoder::Ready, after);
                            assert(o.last() == o2.last());
                            assert forall|i: int| 0 <= i < o.len() - 1 implies o[i] is Ok by {
                                if i > 0 {
                                    assert(o[i] == o2[i - 1]);
                                }
                            }
                        },
                    }
                },
                Err(e) => {
                    assert(outputs(Decoder::TickHalfHex(s[1]), rest.drop_first()) == seq![
                        Err::<u8, DecodeError>(e),
                    ]);
                },
            }
        }
    } else if spec_requires_escape(s[0]) {
        assert(o =~= seq![Err::<u8, DecodeError>(DecodeError::InvalidByte(s[0]))]);
    } else {
        let after = s.skip(1);
        assert(s.drop_first() =~= after);
        lemma_outputs_match_decode(after);
        assert(o =~= seq![Ok::<u8, DecodeError>(s[0])] + outputs(Decoder::Ready, after));
        match decode_seq(after) {
            Ok(d2) => {
                let d = seq![s[0]] + d2;
                assert(decode_seq(s) == Ok::<Seq<u8>, DecodeError>(d));
                assert(o =~= d.map_values(|b: u8| Ok::<u8, DecodeError>(b)));
            },
            Err(e2) => {
                let o2 = outputs(Decoder::Ready, after);
                assert(o.last() == o2.last());
                assert forall|i: int| 0 <= i < o.len() - 1 implies o[i] is Ok by {
                    if i > 0 {
                        assert(o[i] == o2[i - 1]);
                    }
                }
            },
        }
    }
}

} // verus!
