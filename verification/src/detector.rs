//! The detector: it feeds a stream to one decoder after another and reports
//! the frames they finish.

use crate::base::DecodedBuffer;
use crate::decoder::SignedBufferDecoder;
use crate::frame::{attempt, lemma_attempt_bounds, region_at, Attempt};
use crate::hasher::FrameHasher;
use crate::sign::{Framing, SignedBuffer};
use vstd::prelude::*;

verus! {

/// Sweeps a stream for frames: every byte goes to a decoder, and a fresh
/// decoder takes over behind each frame and behind each refused byte.
pub struct SignedBufferDetector<'a, H> {
    decoder: SignedBufferDecoder<'a, H>,
    offset: usize,
}

impl<'a, H> SignedBufferDetector<'a, H> where H: FrameHasher {
    /// The configuration whose frames are looked for.
    pub closed spec fn framing(&self) -> Framing {
        self.decoder.framing()
    }

    /// Number of bytes fed so far, which is the offset of the next byte.
    pub closed spec fn position(&self) -> nat {
        self.offset as nat
    }

    /// The bytes of the attempt under way: those fed since the last frame or
    /// refused byte.
    pub closed spec fn pending(&self) -> Seq<u8> {
        self.decoder.consumed()
    }

    /// The decoder is in step with the detector and has not finished.
    pub closed spec fn wf(&self) -> bool {
        &&& self.decoder.wf()
        &&& !self.decoder.finished()
        &&& self.decoder.position() == self.offset
    }

    /// The pending bytes are the beginning of a possible frame, and they lie
    /// in the stream.
    pub proof fn lemma_pending(&self)
        requires
            self.wf(),
        ensures
            self.pending().len() <= self.position(),
            attempt::<H>(self.framing().header, self.framing().trailer, self.pending())
                == Attempt::Short,
    {
        self.decoder.lemma_consumed();
    }

    /// A detector at the start of a stream.
    pub fn new(s: &'a SignedBuffer<'a, H>) -> (d: Self)
        ensures
            d.wf(),
            d.framing() == s@,
            d.position() == 0,
            d.pending() == Seq::<u8>::empty(),
    {
        SignedBufferDetector { decoder: SignedBufferDecoder::new(s, 0), offset: 0 }
    }

    /// Feeds the next byte of the stream. When the byte completes a frame, the
    /// frame's region is returned and the search goes on behind it; when the
    /// byte is refused, the search goes on behind it as well. The number of
    /// bytes fed has to fit in a `usize`.
    pub fn decode_byte(&mut self, byte: u8) -> (r: Option<DecodedBuffer>)
        requires
            old(self).wf(),
            old(self).position() < usize::MAX,
        ensures
            final(self).wf(),
            final(self).framing() == old(self).framing(),
            final(self).position() == old(self).position() + 1,
            match attempt::<H>(
                old(self).framing().header,
                old(self).framing().trailer,
                old(self).pending().push(byte),
            ) {
                Attempt::Frame { len } => {
                    &&& len == old(self).pending().len() + 1
                    &&& r == Some(
                        region_at(
                            old(self).framing().header,
                            old(self).framing().trailer,
                            (old(self).position() + 1 - len) as nat,
                            len,
                        ),
                    )
                    &&& final(self).pending() == Seq::<u8>::empty()
                },
                Attempt::Reject { at, .. } => {
                    &&& at == old(self).pending().len()
                    &&& r is None
                    &&& final(self).pending() == Seq::<u8>::empty()
                },
                Attempt::Short => {
                    &&& r is None
                    &&& final(self).pending() == old(self).pending().push(byte)
                },
            },
    {
        let mut ret = None;
        proof {
            self.decoder.lemma_consumed();
        }

        self.offset += 1;

        match self.decoder.read_byte(byte) {
            Ok(_) => {
                if let Some(payload) = self.decoder.finished_payload() {
                    proof {
                        self.decoder.lemma_consumed();
                        lemma_attempt_bounds::<H>(
                            self.decoder.framing().header,
                            self.decoder.framing().trailer,
                            self.decoder.consumed(),
                        );
                    }
                    let len = self.decoder.config().buffer_len(payload.end - payload.start);
                    ret = Some(
                        DecodedBuffer {
                            payload_position: payload,
                            entire_buffer: (self.offset - len)..self.offset,
                        },
                    );
                }
                if ret.is_some() {
                    self.decoder = SignedBufferDecoder::new(self.decoder.config(), self.offset);
                }
            },
            Err(e) => {
                self.decoder = SignedBufferDecoder::new(self.decoder.config(), self.offset);
            },
        }

        ret
    }
}

} // verus!
