//! The encoder state machine: one input byte in, one to three output
//! characters out, emitted one at a time.

use vstd::prelude::*;

use crate::byte_to_hex_bytes;
use crate::format::encode_byte;
use crate::format::MARKER;
use crate::requires_escape;

verus! {

/// Encoder state machine.
///
/// A call to [`Encoder::push`] consumes one input byte and returns the
/// first output character; the characters still owed for that byte are
/// queued and handed out by [`Encoder::next`]. Callers must drain
/// [`Encoder::next`] to empty before the next [`Encoder::push`].
#[derive(Debug, Clone, Copy)]
pub struct Encoder {
    /// Precomputed bytes to emit.
    chars: [u8; 2],
    /// Count of remaining bytes to emit: 0, 1, or 2.
    pending: u8,
}

impl Encoder {
    /// The queued output characters, as bytes, in the order
    /// [`Encoder::next`] will emit them.
    pub closed spec fn pending_seq(self) -> Seq<u8> {
        if self.pending == 0 {
            Seq::empty()
        } else if self.pending == 1 {
            seq![self.chars@[1]]
        } else {
            seq![self.chars@[0], self.chars@[1]]
        }
    }

    /// Returns the next queued character, or `None` if nothing is queued.
    pub fn next(&mut self) -> (r: Option<char>)
        ensures
            old(self).pending_seq().len() == 0 ==> r is None && *final(self) == *old(self),
            old(self).pending_seq().len() > 0 ==> r == Some(old(self).pending_seq()[0] as char)
                && final(self).pending_seq() == old(self).pending_seq().drop_first(),
    {
        if self.pending == 0 {
            None
        } else if self.pending == 1 {
            self.pending = 0;
            Some(self.chars[1] as char)
        } else {
            self.pending = 1;
            Some(self.chars[0] as char)
        }
    }

    /// Consume one input byte: the first character of its encoding is
    /// returned at once, and the rest of the encoding is queued.
    pub fn push(&mut self, byte: u8) -> (c: char)
        requires
            old(self).pending_seq().len() == 0,
        ensures
            c == encode_byte(byte)[0] as char,
            final(self).pending_seq() == encode_byte(byte).drop_first(),
    {
        if byte == MARKER {
            self.chars[1] = MARKER;
            self.pending = 1;
            proof {
                assert(final(self).pending_seq() =~= encode_byte(byte).drop_first());
            }
            0x60 as char
        } else if requires_escape(byte) {
            let pair = byte_to_hex_bytes(byte);
            self.chars[0] = pair[0];
            self.chars[1] = pair[1];
            self.pending = 2;
            proof {
                assert(final(self).pending_seq() =~= encode_byte(byte).drop_first());
            }
            0x60 as char
        } else {
            self.pending = 0;
            proof {
                assert(final(self).pending_seq() =~= encode_byte(byte).drop_first());
            }
            byte as char
        }
    }
}

impl Default for Encoder {
    /// A fresh encoder with nothing queued.
    fn default() -> (r: Self)
        ensures
            r.pending_seq() == Seq::<u8>::empty(),
    {
        Encoder { chars: [0, 0], pending: 0 }
    }
}

} // verus!
