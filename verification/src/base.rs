//! Size policy, error taxonomies, decoded regions and signing results.

use crate::structs::{BufferChecksum, RECORD_BYTES};
use std::ops::Range;
use vstd::prelude::*;
use vstd::slice::slice_subrange;

verus! {

/// How large the payloads of a channel are meant to be. The policy travels with
/// the configuration; signing and decoding do not hold payloads to it.
#[derive(Debug, Clone, Copy, PartialEq)]
pub enum BufferSize {
    /// Every payload has exactly this many bytes.
    Fixed { bytes: usize },
    /// No payload has more than this many bytes.
    Dynamic { max_bytes: usize },
}

/// Why a framing configuration could not be built.
#[derive(Debug, Clone, Copy, PartialEq)]
pub enum SignedBufferError {
    /// The magic bytes cannot mark a frame. No configuration is refused for it
    /// at present.
    InvalidMagic,
}

/// Why a payload could not be signed.
#[derive(Debug, Clone, Copy, PartialEq)]
pub enum SigningError {
    /// The payload length does not fit the 32-bit size field of the record.
    PayloadTooLarge,
    /// The payload has no bytes.
    PayloadEmpty,
    /// The payload length is not the one the size policy asks for. The policy
    /// is not enforced, so signing never gives this error.
    InvalidBufferSize { expected: usize, actual: usize },
}

/// Why a frame was refused.
#[derive(Debug, Clone, Copy, PartialEq)]
pub enum RetrievalError {
    /// The length of the payload read is not the recorded one. The decoder's
    /// own counting rules this out, so it never gives this error.
    InvalidBufferSize,
    /// A byte of the header magic is not the expected one.
    InvalidHeader,
    /// A byte of the trailer magic is not the expected one.
    InvalidTrailer,
    /// The hash over version, size and payload is not the recorded one.
    InvalidHash,
    /// The thirteen bytes of the record are not a record. Every thirteen bytes
    /// are one, so the decoder never gives this error.
    InvalidChecksumStruct,
    /// The bytes ended before the frame did.
    MissingData,
    /// A byte was fed to a decoder that had already finished its frame.
    TooMuchData,
    /// The record carries a version newer than this decoder's.
    UnsupportedVersion { received_version: u8 },
    /// The record announces a payload of zero bytes.
    EmptyPayloadSize,
}

/// Where a decoded frame lies in the buffer it was found in.
#[derive(Debug, PartialEq)]
pub struct DecodedBuffer {
    /// The bytes of the payload.
    pub payload_position: Range<usize>,
    /// The bytes of the whole frame, magic included.
    pub entire_buffer: Range<usize>,
}

impl Clone for DecodedBuffer {
    fn clone(&self) -> (copy: Self)
        ensures
            copy == *self,
    {
        DecodedBuffer {
            payload_position: self.payload_position.start..self.payload_position.end,
            entire_buffer: self.entire_buffer.start..self.entire_buffer.end,
        }
    }
}

impl DecodedBuffer {
    /// The payload lies inside the frame, and neither range runs backwards.
    pub open spec fn nested(&self) -> bool {
        self.entire_buffer.start <= self.payload_position.start <= self.payload_position.end
            <= self.entire_buffer.end
    }

    /// The payload bytes of this region within `buffer`, in which the payload
    /// range has to lie.
    pub fn get_payload_from_buffer<'a>(&self, buffer: &'a [u8]) -> (payload: &'a [u8])
        requires
            self.payload_position.start <= self.payload_position.end <= buffer@.len(),
        ensures
            payload@ == buffer@.subrange(
                self.payload_position.start as int,
                self.payload_position.end as int,
            ),
    {
        slice_subrange(buffer, self.payload_position.start, self.payload_position.end)
    }

    /// The same region in the coordinates of an enclosing buffer, in which the
    /// buffer this region was found in starts at `offset`. The moved bounds
    /// have to fit in a `usize`.
    pub fn offset(&self, offset: usize) -> (moved: DecodedBuffer)
        requires
            self.payload_position.start + offset <= usize::MAX,
            self.payload_position.end + offset <= usize::MAX,
            self.entire_buffer.start + offset <= usize::MAX,
            self.entire_buffer.end + offset <= usize::MAX,
        ensures
            moved.payload_position.start == self.payload_position.start + offset,
            moved.payload_position.end == self.payload_position.end + offset,
            moved.entire_buffer.start == self.entire_buffer.start + offset,
            moved.entire_buffer.end == self.entire_buffer.end + offset,
            self.nested() ==> moved.nested(),
    {
        DecodedBuffer {
            payload_position: self.payload_position.start + offset..self.payload_position.end
                + offset,
            entire_buffer: self.entire_buffer.start + offset..self.entire_buffer.end + offset,
        }
    }
}

/// The four segments of a signed frame. The payload and the magic are borrowed,
/// only `assemble` copies them.
#[derive(Debug)]
pub struct SignedBufferResult<'a> {
    pub checksum: BufferChecksum,
    pub payload: &'a [u8],
    pub header: &'a [u8],
    pub trailer: &'a [u8],
}

impl<'a> SignedBufferResult<'a> {
    /// The frame as it goes on the wire.
    pub open spec fn wire(&self) -> Seq<u8> {
        self.header@ + self.checksum.packed() + self.payload@ + self.trailer@
    }

    /// Concatenates header, packed record, payload and trailer into one frame,
    /// which must not be longer than a vector can be.
    pub fn assemble(&self) -> (frame: Vec<u8>)
        requires
            self.header@.len() + RECORD_BYTES + self.payload@.len() + self.trailer@.len()
                <= isize::MAX,
        ensures
            frame@ == self.wire(),
    {
        let mut v: Vec<u8> = Vec::new();
        v.extend_from_slice(self.header);
        let packed = self.checksum.pack();
        v.extend_from_slice(packed.as_slice());
        v.extend_from_slice(self.payload);
        v.extend_from_slice(self.trailer);
        assert(v@ =~= self.wire());
        v
    }
}

} // verus!
