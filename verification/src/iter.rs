//! Iterator adapters: lazy wrappers exposing the encoder and decoder
//! state machines over a byte source, one output item per call.

use vstd::prelude::*;

use crate::decoder::outputs;
use crate::decoder::spec_step;
use crate::decoder::DecodeStatus;
use crate::decoder::Decoder;
use crate::encoder::Encoder;
use crate::format::encode_byte;
use crate::format::encode_seq;
use crate::DecodeError;

verus! {

/// The iterator returned by [`crate::encode_iter`]: pulls bytes from its
/// source and yields the encoded characters one at a time, buffering at
/// most one pending escape expansion.
#[derive(Debug)]
pub struct EncodeIter {
    bytes: Vec<u8>,
    pos: usize,
    encoder: Encoder,
}

impl EncodeIter {
    /// The byte source the iterator was built over.
    pub closed spec fn source(self) -> Seq<u8> {
        self.bytes@
    }

    /// How many source bytes have been consumed.
    pub closed spec fn index(self) -> int {
        self.pos as int
    }

    /// The characters still owed for the byte last consumed, as bytes.
    pub closed spec fn pending_out(self) -> Seq<u8> {
        self.encoder.pending_seq()
    }

    /// Everything the iterator will still yield, as bytes: the queued
    /// characters, then the encoding of the unread part of the source.
    pub open spec fn remaining(self) -> Seq<u8> {
        self.pending_out() + encode_seq(
            if 0 <= self.index() <= self.source().len() {
                self.source().skip(self.index())
            } else {
                Seq::empty()
            },
        )
    }

    pub(crate) fn new(bytes: Vec<u8>) -> (r: Self)
        ensures
            r.source() == bytes@,
            r.remaining() == encode_seq(bytes@),
    {
        let r = EncodeIter { bytes, pos: 0, encoder: Encoder::default() };
        proof {
            assert(r.source().skip(0) =~= r.source());
            assert(r.remaining() =~= encode_seq(r.source()));
        }
        r
    }

    /// Get a reference to the inner byte source.
    pub fn inner(&self) -> (r: &Vec<u8>)
        ensures
            r@ == self.source(),
    {
        &self.bytes
    }

    /// Get a mutable reference to the inner byte source.
    pub fn inner_mut(&mut self) -> (r: &mut Vec<u8>)
        ensures
            r@ == old(self).source(),
            final(self).source() == final(r)@,
            final(self).index() == old(self).index(),
            final(self).pending_out() == old(self).pending_out(),
    {
        &mut self.bytes
    }

    /// Take the inner byte source.
    pub fn into_inner(self) -> (r: Vec<u8>)
        ensures
            r@ == self.source(),
    {
        self.bytes
    }

    /// The next encoded character, or `None` once the source is fully
    /// encoded.
    pub fn next(&mut self) -> (r: Option<char>)
        ensures
            final(self).source() == old(self).source(),
            old(self).remaining().len() == 0 ==> r is None && final(self).remaining() == old(
                self).remaining(),
            old(self).remaining().len() > 0 ==> r == Some(old(self).remaining()[0] as char)
                && final(self).remaining() == old(self).remaining().drop_first(),
    {
        let pending = self.encoder.next();
        if let Some(c) = pending {
            proof {
                assert(old(self).pending_out().len() > 0);
                assert(final(self).remaining() =~= old(self).remaining().drop_first());
            }
            return Some(c);
        }
        if self.pos < self.bytes.len() {
            let byte = self.bytes[self.pos];
            proof {
                let rest = old(self).source().skip(old(self).index());
                assert(rest[0] == byte);
                assert(rest.drop_first() =~= old(self).source().skip(old(self).index() + 1));
                crate::format::lemma_encode_push(Seq::empty(), byte);
                assert(Seq::<u8>::empty().push(byte) =~= seq![byte]);
                assert(encode_seq(rest) == encode_byte(byte) + encode_seq(rest.drop_first()));
                assert(old(self).remaining() =~= encode_byte(byte) + encode_seq(
                    rest.drop_first(),
                ));
            }
            self.pos = self.pos + 1;
            let c = self.encoder.push(byte);
            proof {
                crate::format::lemma_encode_byte(byte);
                assert(final(self).remaining() =~= old(self).remaining().drop_first());
            }
            Some(c)
        } else {
            proof {
                if old(self).index() <= old(self).source().len() {
                    assert(old(self).source().skip(old(self).index()) =~= Seq::empty());
                }
                assert(encode_seq(Seq::empty()) =~= Seq::<u8>::empty());
                assert(old(self).remaining().len() == 0);
            }
            None
        }
    }
}

/// The iterator returned by [`crate::decode_iter`]: pulls bytes from its
/// source and yields decode results via the decoder state machine; after
/// the terminal state is reached it yields nothing further.
#[derive(Debug)]
pub struct DecodeIter {
    bytes: Vec<u8>,
    pos: usize,
    decoder: Decoder,
}

impl DecodeIter {
    /// The byte source the iterator was built over.
    pub closed spec fn source(self) -> Seq<u8> {
        self.bytes@
    }

    /// How many source bytes have been consumed.
    pub closed spec fn index(self) -> int {
        self.pos as int
    }

    /// The decoder state reached so far.
    pub closed spec fn state(self) -> Decoder {
        self.decoder
    }

    /// Everything the iterator will still yield: the decoder's output
    /// stream over the unread part of the source.
    pub open spec fn remaining(self) -> Seq<Result<u8, DecodeError>> {
        outputs(
            self.state(),
            if 0 <= self.index() <= self.source().len() {
                self.source().skip(self.index())
            } else {
                Seq::empty()
            },
        )
    }

    pub(crate) fn new(bytes: Vec<u8>) -> (r: Self)
        ensures
            r.source() == bytes@,
            r.remaining() == outputs(Decoder::Ready, bytes@),
    {
        let r = DecodeIter { bytes, pos: 0, decoder: Decoder::default() };
        proof {
            assert(r.source().skip(0) =~= r.source());
        }
        r
    }

    /// Get a reference to the inner byte source.
    pub fn inner(&self) -> (r: &Vec<u8>)
        ensures
            r@ == self.source(),
    {
        &self.bytes
    }

    /// Get a mutable reference to the inner byte source.
    pub fn inner_mut(&mut self) -> (r: &mut Vec<u8>)
        ensures
            r@ == old(self).source(),
            final(self).source() == final(r)@,
            final(self).index() == old(self).index(),
            final(self).state() == old(self).state(),
    {
        &mut self.bytes
    }

    /// Take the inner byte source.
    pub fn into_inner(self) -> (r: Vec<u8>)
        ensures
            r@ == self.source(),
    {
        self.bytes
    }

    /// The next decode result: `Some(Ok(byte))` for each decoded byte,
    /// `Some(Err(_))` once for the first malformed symbol, and `None`
    /// after the stream has ended either way.
    pub fn next(&mut self) -> (r: Option<Result<u8, DecodeError>>)
        ensures
            final(self).source() == old(self).source(),
            old(self).remaining().len() == 0 ==> r is None && final(self).remaining().len() == 0,
            old(self).remaining().len() > 0 ==> r == Some(old(self).remaining()[0])
                && final(self).remaining() == old(self).remaining().drop_first(),
    {
        loop
            invariant
                self.source() == old(self).source(),
                self.remaining() == old(self).remaining(),
            decreases self.source().len() + 1 - self.index(),
        {
            let ghost rest = if 0 <= self.index() <= self.source().len() {
                self.source().skip(self.index())
            } else {
                Seq::<u8>::empty()
            };
            let ghost state = self.state();
            let next_byte: Option<u8> = if self.pos < self.bytes.len() {
                let byte = self.bytes[self.pos];
                proof {
                    assert(rest[0] == byte);
                    assert(rest.drop_first() =~= self.source().skip(self.index() + 1));
                }
                self.pos = self.pos + 1;
                Some(byte)
            } else {
                proof {
                    if self.index() <= self.source().len() {
                        assert(rest =~= Seq::empty());
                    }
                }
                None
            };
            proof {
                crate::decoder::lemma_outputs_step(state, rest);
            }
            match self.decoder.push(next_byte) {
                DecodeStatus::NeedMore => {
                    proof {
                        assert(self.remaining() == outputs(spec_step(state, next_byte).0,
                        rest.drop_first()));
                    }
                },
                DecodeStatus::Emit(result) => {
                    return result;
                },
            }
        }
    }
}

} // verus!
