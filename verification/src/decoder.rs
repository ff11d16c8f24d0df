//! The single-frame decoder: a state machine that takes one byte at a time.
//!
//! A frame begins with the header magic, or with the record where there is no
//! header magic, and is finished at the last trailer byte, or at the last
//! payload byte where there is no trailer magic.

use crate::base::RetrievalError;
use crate::frame::{
    attempt, hash_input, lemma_attempt_body, lemma_attempt_header, lemma_attempt_record,
    lemma_matched_is, Attempt, FORMAT_VERSION,
};
use crate::hasher::FrameHasher;
use crate::laws::{law_step_invalid_header, law_step_invalid_trailer, law_step_version_gate};
use crate::sign::{Framing, SignedBuffer};
use crate::structs::{lemma_unpack_packed, size_bytes, u32_be, BufferChecksum};
use std::ops::Range;
use vstd::prelude::*;

verus! {

/// Where a decoder stands within its frame.
enum State {
    Header { remaining: usize },
    Checksum { bytes: [u8; 13], remaining: usize },
    Payload { checksum: BufferChecksum, start_offset: usize, remaining: usize },
    Trailer { checksum: BufferChecksum, payload_offset: usize, remaining: usize },
    Finished { checksum: BufferChecksum, payload: Range<usize> },
}

/// The record has passed the version and size checks and the hasher holds
/// version, size and `fed` bytes of payload.
spec fn body_wf(checksum: BufferChecksum, absorbed: Seq<u8>, fed: int) -> bool {
    &&& checksum.version <= FORMAT_VERSION
    &&& checksum.size > 0
    &&& absorbed.len() == 5 + fed
    &&& absorbed == hash_input(checksum.version, checksum.size, absorbed.skip(5))
}

/// The bytes a decoder in `state` has accepted, given what its hasher holds.
spec fn state_consumed(f: Framing, state: State, absorbed: Seq<u8>) -> Seq<u8> {
    match state {
        State::Header { remaining } => f.header.take(f.header.len() - remaining),
        State::Checksum { bytes, remaining } => f.header + bytes@.take(13 - remaining),
        State::Payload { checksum, .. } => f.header + checksum.packed() + absorbed.skip(5)
            + Seq::<u8>::empty(),
        State::Trailer { checksum, remaining, .. } => f.header + checksum.packed() + absorbed.skip(
            5,
        ) + f.trailer.take(f.trailer.len() - remaining),
        State::Finished { checksum, .. } => f.header + checksum.packed() + absorbed.skip(5)
            + f.trailer,
    }
}

/// What holds of a decoder between two bytes: counters, offsets and hasher
/// agree with the bytes accepted so far.
spec fn state_wf<H: FrameHasher>(f: Framing, state: State, offset: int, absorbed: Seq<u8>) -> bool {
    let h = f.header.len() as int;
    let t = f.trailer.len() as int;
    match state {
        State::Header { remaining } => {
            &&& 0 < remaining <= h
            &&& absorbed.len() == 0
            &&& offset >= h - remaining
        },
        State::Checksum { bytes, remaining } => {
            &&& 0 < remaining <= 13
            &&& absorbed.len() == 0
            &&& offset >= h + 13 - remaining
        },
        State::Payload { checksum, start_offset, remaining } => {
            &&& 0 < remaining <= checksum.size
            &&& body_wf(checksum, absorbed, checksum.size - remaining)
            &&& start_offset >= h + 13
            &&& offset == start_offset + checksum.size - remaining
        },
        State::Trailer { checksum, payload_offset, remaining } => {
            &&& 0 < remaining <= t
            &&& body_wf(checksum, absorbed, checksum.size as int)
            &&& payload_offset >= h + 13
            &&& offset == payload_offset + checksum.size + t - remaining
        },
        State::Finished { checksum, payload } => {
            &&& body_wf(checksum, absorbed, checksum.size as int)
            &&& H::digest(absorbed) == checksum.checksum
            &&& payload.start >= h + 13
            &&& payload.end == payload.start + checksum.size
            &&& offset == payload.end + t
        },
    }
}

/// A decoder between two bytes has accepted a frame, if it has finished, and
/// the beginning of a possible frame, if it has not.
proof fn lemma_state_attempt<H: FrameHasher>(
    f: Framing,
    state: State,
    offset: int,
    absorbed: Seq<u8>,
)
    requires
        state_wf::<H>(f, state, offset, absorbed),
    ensures
        state_consumed(f, state, absorbed).len() <= offset,
        attempt::<H>(f.header, f.trailer, state_consumed(f, state, absorbed)) == if state
            is Finished {
            Attempt::Frame { len: state_consumed(f, state, absorbed).len() }
        } else {
            Attempt::Short
        },
        state matches State::Finished { checksum, payload } ==> {
            &&& payload.start == offset - state_consumed(f, state, absorbed).len() + f.header.len()
                + 13
            &&& payload.end == offset - f.trailer.len()
        },
{
    let c = state_consumed(f, state, absorbed);
    match state {
        State::Header { remaining } => {
            lemma_matched_is(c, f.header, c.len());
            lemma_attempt_header::<H>(f.header, f.trailer, c);
        },
        State::Checksum { bytes, remaining } => {
            lemma_attempt_record::<H>(f.header, f.trailer, bytes@.take(13 - remaining));
        },
        State::Payload { checksum, start_offset, remaining } => {
            lemma_unpack_packed(checksum);
            lemma_attempt_body::<H>(
                f.header,
                f.trailer,
                checksum,
                absorbed.skip(5),
                Seq::<u8>::empty(),
            );
        },
        State::Trailer { checksum, payload_offset, remaining } => {
            lemma_unpack_packed(checksum);
            let tail = f.trailer.take(f.trailer.len() - remaining);
            lemma_matched_is(tail, f.trailer, tail.len());
            lemma_attempt_body::<H>(f.header, f.trailer, checksum, absorbed.skip(5), tail);
        },
        State::Finished { checksum, payload } => {
            lemma_unpack_packed(checksum);
            lemma_matched_is(f.trailer, f.trailer, f.trailer.len());
            lemma_attempt_body::<H>(f.header, f.trailer, checksum, absorbed.skip(5), f.trailer);
        },
    }
}

/// A byte read while the header is expected: it is the next byte of the magic
/// and the decoder moves on, or the attempt ends in `InvalidHeader`.
proof fn lemma_step_header<H: FrameHasher>(
    f: Framing,
    remaining: usize,
    offset: int,
    absorbed: Seq<u8>,
    byte: u8,
    blank: [u8; 13],
)
    requires
        state_wf::<H>(f, State::Header { remaining }, offset, absorbed),
    ensures
        ({
            let before = state_consumed(f, State::Header { remaining }, absorbed);
            let next = if remaining == 1 {
                State::Checksum { bytes: blank, remaining: 13 }
            } else {
                State::Header { remaining: (remaining - 1) as usize }
            };
            if byte == f.header[f.header.len() - remaining] {
                &&& state_wf::<H>(f, next, offset + 1, absorbed)
                &&& state_consumed(f, next, absorbed) == before.push(byte)
            } else {
                attempt::<H>(f.header, f.trailer, before.push(byte)) == (Attempt::Reject {
                    at: before.len(),
                    error: RetrievalError::InvalidHeader,
                })
            }
        }),
{
    let before = state_consumed(f, State::Header { remaining }, absorbed);
    if byte == f.header[f.header.len() - remaining] {
        assert(before.push(byte) =~= f.header.take(f.header.len() - remaining + 1));
        assert(f.header.take(f.header.len() as int) =~= f.header);
        assert(blank@.take(0) =~= Seq::<u8>::empty());
        assert(f.header + Seq::<u8>::empty() =~= f.header);
    } else {
        lemma_matched_is(before.push(byte), f.header, before.len());
        lemma_attempt_header::<H>(f.header, f.trailer, before.push(byte));
    }
}

/// A byte read into the record: before the thirteenth the decoder moves on;
/// the thirteenth completes a record, which is judged by version and size.
proof fn lemma_step_record<H: FrameHasher>(
    f: Framing,
    old_bytes: [u8; 13],
    bytes: [u8; 13],
    remaining: usize,
    offset: int,
    absorbed: Seq<u8>,
    byte: u8,
)
    requires
        state_wf::<H>(f, State::Checksum { bytes: old_bytes, remaining }, offset, absorbed),
        bytes@ == old_bytes@.update(13 - remaining, byte),
    ensures
        ({
            let before = state_consumed(
                f,
                State::Checksum { bytes: old_bytes, remaining },
                absorbed,
            );
            let record = BufferChecksum::unpacked(bytes@);
            &&& remaining > 1 ==> {
                let next = State::Checksum { bytes, remaining: (remaining - 1) as usize };
                &&& state_wf::<H>(f, next, offset + 1, absorbed)
                &&& state_consumed(f, next, absorbed) == before.push(byte)
            }
            &&& remaining == 1 ==> {
                &&& before.push(byte) == f.header + bytes@
                &&& before.len() == f.header.len() + 12
                &&& record.version > FORMAT_VERSION ==> attempt::<H>(
                    f.header,
                    f.trailer,
                    before.push(byte),
                ) == (Attempt::Reject {
                    at: before.len(),
                    error: RetrievalError::UnsupportedVersion { received_version: record.version },
                })
                &&& record.version <= FORMAT_VERSION && record.size == 0 ==> attempt::<H>(
                    f.header,
                    f.trailer,
                    before.push(byte),
                ) == (Attempt::Reject {
                    at: before.len(),
                    error: RetrievalError::EmptyPayloadSize,
                })
            }
        }),
{
    let before = state_consumed(f, State::Checksum { bytes: old_bytes, remaining }, absorbed);
    let idx = 13 - remaining;
    assert(bytes@.take(idx + 1) =~= old_bytes@.take(idx).push(byte));
    assert(before.push(byte) =~= f.header + bytes@.take(idx + 1));
    if remaining == 1 {
        assert(bytes@.take(13) =~= bytes@);
        lemma_attempt_record::<H>(f.header, f.trailer, bytes@);
    }
}

/// The state a decoder enters once a record has passed its checks and the
/// hasher has taken in the record's version and size.
proof fn lemma_enter_payload<H: FrameHasher>(
    f: Framing,
    bytes: Seq<u8>,
    checksum: BufferChecksum,
    offset: usize,
    absorbed: Seq<u8>,
)
    requires
        offset >= f.header.len() + 12,
        offset < usize::MAX,
        checksum.packed() == bytes,
        checksum.version <= FORMAT_VERSION,
        checksum.size > 0,
        absorbed == seq![checksum.version] + u32_be(checksum.size),
    ensures
        ({
            let next = State::Payload {
                checksum,
                start_offset: (offset + 1) as usize,
                remaining: checksum.size as usize,
            };
            &&& state_wf::<H>(f, next, offset + 1, absorbed)
            &&& state_consumed(f, next, absorbed) == f.header + bytes
        }),
{
    assert(absorbed.skip(5) =~= Seq::<u8>::empty());
    assert(absorbed =~= hash_input(checksum.version, checksum.size, absorbed.skip(5)));
    assert(f.header + bytes + Seq::<u8>::empty() + Seq::<u8>::empty() =~= f.header + bytes);
}

/// A payload byte that is not the last, or the last before a trailer: the
/// hasher takes it in and the decoder moves on.
proof fn lemma_step_payload<H: FrameHasher>(
    f: Framing,
    checksum: BufferChecksum,
    start_offset: usize,
    remaining: usize,
    offset: int,
    absorbed: Seq<u8>,
    byte: u8,
    trailer_len: usize,
)
    requires
        state_wf::<H>(f, State::Payload { checksum, start_offset, remaining }, offset, absorbed),
        trailer_len == f.trailer.len(),
        remaining > 1 || trailer_len > 0,
    ensures
        ({
            let before = state_consumed(
                f,
                State::Payload { checksum, start_offset, remaining },
                absorbed,
            );
            let next = if remaining == 1 {
                State::Trailer {
                    checksum,
                    payload_offset: start_offset,
                    remaining: trailer_len,
                }
            } else {
                State::Payload { checksum, start_offset, remaining: (remaining - 1) as usize }
            };
            &&& state_wf::<H>(f, next, offset + 1, absorbed.push(byte))
            &&& state_consumed(f, next, absorbed.push(byte)) == before.push(byte)
        }),
{
    let fed = absorbed.skip(5);
    let after = absorbed.push(byte);
    assert(after.skip(5) =~= fed.push(byte));
    assert(after =~= hash_input(checksum.version, checksum.size, fed.push(byte)));
    assert(f.trailer.take(0) =~= Seq::<u8>::empty());
    let before = f.header + checksum.packed() + fed + Seq::<u8>::empty();
    assert(f.header + checksum.packed() + after.skip(5) + Seq::<u8>::empty() =~= before.push(byte));
}

/// The last payload byte of a frame without trailer: the hash over the
/// payload with this byte decides between a finished frame and `InvalidHash`.
proof fn lemma_step_last_payload<H: FrameHasher>(
    f: Framing,
    checksum: BufferChecksum,
    start_offset: usize,
    offset: int,
    absorbed: Seq<u8>,
    byte: u8,
)
    requires
        state_wf::<H>(
            f,
            State::Payload { checksum, start_offset, remaining: 1 },
            offset,
            absorbed,
        ),
        f.trailer.len() == 0,
        offset < usize::MAX,
    ensures
        start_offset + checksum.size <= offset + 1,
        absorbed.len() < usize::MAX,
        ({
            let before = state_consumed(
                f,
                State::Payload { checksum, start_offset, remaining: 1 },
                absorbed,
            );
            if H::digest(absorbed.push(byte)) != checksum.checksum {
                attempt::<H>(f.header, f.trailer, before.push(byte)) == (Attempt::Reject {
                    at: before.len(),
                    error: RetrievalError::InvalidHash,
                })
            } else {
                let next = State::Finished {
                    checksum,
                    payload: Range {
                        start: start_offset,
                        end: (start_offset + checksum.size) as usize,
                    },
                };
                &&& state_wf::<H>(f, next, offset + 1, absorbed.push(byte))
                &&& state_consumed(f, next, absorbed.push(byte)) == before.push(byte)
            }
        }),
{
    let fed = absorbed.skip(5);
    let after = absorbed.push(byte);
    let nothing = Seq::<u8>::empty();
    assert(after.skip(5) =~= fed.push(byte));
    assert(after =~= hash_input(checksum.version, checksum.size, fed.push(byte)));
    assert(f.trailer =~= nothing);
    let before = f.header + checksum.packed() + fed + nothing;
    assert(before.push(byte) =~= f.header + checksum.packed() + fed.push(byte) + nothing);
    lemma_matched_is(nothing, f.trailer, 0);
    lemma_attempt_body::<H>(f.header, f.trailer, checksum, fed.push(byte), nothing);
}

/// A byte read while the trailer is expected: it is the next byte of the magic,
/// or the attempt ends in `InvalidTrailer`; on the last byte the hash decides
/// between a finished frame and `InvalidHash`.
proof fn lemma_step_trailer<H: FrameHasher>(
    f: Framing,
    checksum: BufferChecksum,
    payload_offset: usize,
    remaining: usize,
    offset: int,
    absorbed: Seq<u8>,
    byte: u8,
)
    requires
        state_wf::<H>(f, State::Trailer { checksum, payload_offset, remaining }, offset, absorbed),
        offset < usize::MAX,
    ensures
        payload_offset + checksum.size <= offset,
        ({
            let before = state_consumed(
                f,
                State::Trailer { checksum, payload_offset, remaining },
                absorbed,
            );
            let tried = attempt::<H>(f.header, f.trailer, before.push(byte));
            if byte != f.trailer[f.trailer.len() - remaining] {
                tried == (Attempt::Reject {
                    at: before.len(),
                    error: RetrievalError::InvalidTrailer,
                })
            } else if remaining > 1 {
                let next = State::Trailer {
                    checksum,
                    payload_offset,
                    remaining: (remaining - 1) as usize,
                };
                &&& state_wf::<H>(f, next, offset + 1, absorbed)
                &&& state_consumed(f, next, absorbed) == before.push(byte)
            } else if H::digest(absorbed) != checksum.checksum {
                tried == (Attempt::Reject { at: before.len(), error: RetrievalError::InvalidHash })
            } else {
                let next = State::Finished {
                    checksum,
                    payload: Range {
                        start: payload_offset,
                        end: (payload_offset + checksum.size) as usize,
                    },
                };
                &&& state_wf::<H>(f, next, offset + 1, absorbed)
                &&& state_consumed(f, next, absorbed) == before.push(byte)
            }
        }),
{
    let fed = absorbed.skip(5);
    let seen = f.trailer.take(f.trailer.len() - remaining);
    let before = state_consumed(
        f,
        State::Trailer { checksum, payload_offset, remaining },
        absorbed,
    );
    assert(before.push(byte) =~= f.header + checksum.packed() + fed + seen.push(byte));
    lemma_attempt_body::<H>(f.header, f.trailer, checksum, fed, seen.push(byte));
    if byte == f.trailer[f.trailer.len() - remaining] {
        assert(seen.push(byte) =~= f.trailer.take(f.trailer.len() - remaining + 1));
        lemma_matched_is(seen.push(byte), f.trailer, seen.len() + 1);
        if remaining == 1 {
            assert(seen.push(byte) =~= f.trailer);
        }
    } else {
        lemma_matched_is(seen.push(byte), f.trailer, seen.len());
    }
}

/// Decodes one frame, one byte at a time, from the first byte of the frame.
///
/// The decoder keeps the thirteen bytes of the record, a few counters and the
/// running hash, however long the payload is.
pub struct SignedBufferDecoder<'a, H> {
    s: &'a SignedBuffer<'a, H>,
    state: State,
    offset: usize,
    hasher: H,
}

impl<'a, H> SignedBufferDecoder<'a, H> where H: FrameHasher {
    /// The configuration this decoder reads frames of.
    pub closed spec fn framing(&self) -> Framing {
        self.s@
    }

    /// The bytes accepted so far.
    pub closed spec fn consumed(&self) -> Seq<u8> {
        state_consumed(self.s@, self.state, self.hasher.absorbed())
    }

    /// Offset of the next byte in the stream the decoder is fed from.
    pub closed spec fn position(&self) -> nat {
        self.offset as nat
    }

    /// Whether a whole frame has been accepted.
    pub closed spec fn finished(&self) -> bool {
        self.state is Finished
    }

    /// Counters, offsets and hasher agree with the bytes accepted so far.
    pub closed spec fn wf(&self) -> bool {
        state_wf::<H>(self.s@, self.state, self.offset as int, self.hasher.absorbed())
    }

    /// Offset of the first byte of the frame.
    pub open spec fn origin(&self) -> int {
        self.position() - self.consumed().len()
    }

    /// What the accepted bytes amount to: a frame, once finished, and until
    /// then the beginning of a possible frame.
    pub proof fn lemma_consumed(&self)
        requires
            self.wf(),
        ensures
            self.origin() >= 0,
            attempt::<H>(self.framing().header, self.framing().trailer, self.consumed())
                == if self.finished() {
                Attempt::Frame { len: self.consumed().len() }
            } else {
                Attempt::Short
            },
    {
        lemma_state_attempt::<H>(self.s@, self.state, self.offset as int, self.hasher.absorbed());
    }

    /// A decoder for a frame whose first byte is at `offset` of the stream.
    /// Where the configuration has no header magic, the first byte is the
    /// first of the record.
    pub fn new(s: &'a SignedBuffer<'a, H>, offset: usize) -> (d: Self)
        ensures
            d.wf(),
            d.framing() == s@,
            d.consumed() == Seq::<u8>::empty(),
            d.position() == offset,
            !d.finished(),
    {
        let header_len = s.header_magic().len();
        let state = if header_len == 0 {
            State::Checksum { bytes: [0;13], remaining: 13 }
        } else {
            State::Header { remaining: header_len }
        };
        let d = SignedBufferDecoder { s: s, state: state, offset: offset, hasher: H::init() };
        assert(d.consumed() =~= Seq::<u8>::empty());
        d
    }

    /// The state of a decoder that has read the whole frame, or `InvalidHash`
    /// when the digest of what was read is not the recorded one.
    fn finish_frame(checksum: BufferChecksum, payload_offset: usize, digest: u64) -> (r: Result<
        State,
        RetrievalError,
    >)
        requires
            payload_offset + checksum.size <= usize::MAX,
        ensures
            digest != checksum.checksum ==> r == Err::<State, _>(RetrievalError::InvalidHash),
            digest == checksum.checksum ==> r == Ok::<_, RetrievalError>(
                State::Finished {
                    checksum,
                    payload: Range {
                        start: payload_offset,
                        end: (payload_offset + checksum.size) as usize,
                    },
                },
            ),
    {
        let payload = payload_offset..payload_offset + (checksum.size as usize);

        if digest != checksum.checksum {
            return Err(RetrievalError::InvalidHash);
        }
        if payload.end - payload.start != checksum.size as usize {
            return Err(RetrievalError::InvalidBufferSize);
        }
        Ok(State::Finished { checksum: checksum, payload: payload })
    }

    /// The configuration this decoder was made for.
    pub fn config(&self) -> (s: &'a SignedBuffer<'a, H>)
        ensures
            s@ == self.framing(),
    {
        self.s
    }

    /// Where the payload of the finished frame lies in the stream, or `None`
    /// while the frame is not finished.
    pub fn finished_payload(&self) -> (r: Option<Range<usize>>)
        requires
            self.wf(),
        ensures
            r is Some <==> self.finished(),
            r matches Some(payload) ==> {
                &&& payload.start == self.origin() + self.framing().header.len() + 13
                &&& payload.end == self.position() - self.framing().trailer.len()
            },
    {
        proof {
            lemma_state_attempt::<H>(
                self.s@,
                self.state,
                self.offset as int,
                self.hasher.absorbed(),
            );
        }
        match &self.state {
            State::Finished { payload, .. } => Some(payload.start..payload.end),
            _ => None,
        }
    }

    /// Feeds one byte. A byte that cannot continue the frame is refused with
    /// the reason and leaves the decoder as it was; any byte after the last of
    /// a frame is refused with `TooMuchData`. The offset of the byte after
    /// this one has to fit in a `usize`.
    ///
    /// The last three clauses spell out when the magic and the version are
    /// blamed: a header byte that differs from the magic, a trailer byte that
    /// differs from the magic, and the last byte of a record whose version
    /// byte is too new, which the error hands back.
    pub fn read_byte(&mut self, byte: u8) -> (r: Result<(), RetrievalError>)
        requires
            old(self).wf(),
            old(self).position() < usize::MAX,
        ensures
            final(self).wf(),
            final(self).framing() == old(self).framing(),
            old(self).finished() ==> {
                &&& r == Err::<(), _>(RetrievalError::TooMuchData)
                &&& final(self).finished()
                &&& final(self).consumed() == old(self).consumed()
                &&& final(self).position() == old(self).position()
            },
            !old(self).finished() ==> match attempt::<H>(
                old(self).framing().header,
                old(self).framing().trailer,
                old(self).consumed().push(byte),
            ) {
                Attempt::Reject { at, error } => {
                    &&& r == Err::<(), _>(error)
                    &&& at == old(self).consumed().len()
                    &&& !final(self).finished()
                    &&& final(self).consumed() == old(self).consumed()
                    &&& final(self).position() == old(self).position()
                },
                Attempt::Frame { len } => {
                    &&& r == Ok::<_, RetrievalError>(())
                    &&& len == old(self).consumed().len() + 1
                    &&& final(self).finished()
                    &&& final(self).consumed() == old(self).consumed().push(byte)
                    &&& final(self).position() == old(self).position() + 1
                },
                Attempt::Short => {
                    &&& r == Ok::<_, RetrievalError>(())
                    &&& !final(self).finished()
                    &&& final(self).consumed() == old(self).consumed().push(byte)
                    &&& final(self).position() == old(self).position() + 1
                },
            },
            r == Err::<(), _>(RetrievalError::InvalidHeader) <==> {
                let header = old(self).framing().header;
                let n = old(self).consumed().len() as int;
                !old(self).finished() && n < header.len() && byte != header[n]
            },
            r == Err::<(), _>(RetrievalError::InvalidTrailer) <==> {
                let h = old(self).framing().header.len() as int;
                let trailer = old(self).framing().trailer;
                let n = old(self).consumed().len() as int;
                let payload_end = h + 13 + BufferChecksum::unpacked(
                    old(self).consumed().subrange(h, h + 13),
                ).size;
                !old(self).finished() && n >= h + 13 && payload_end <= n < payload_end
                    + trailer.len() && byte != trailer[n - payload_end]
            },
            r is Err && r->Err_0 is UnsupportedVersion <==> {
                let h = old(self).framing().header.len() as int;
                !old(self).finished() && old(self).consumed().len() == h + 12 && old(
                    self,
                ).consumed().push(byte)[h] > FORMAT_VERSION
            },
            r matches Err(RetrievalError::UnsupportedVersion { received_version })
                ==> received_version == old(self).consumed().push(byte)[old(
                self,
            ).framing().header.len() as int],
    {
        proof {
            lemma_state_attempt::<H>(
                self.s@,
                self.state,
                self.offset as int,
                self.hasher.absorbed(),
            );
            if !self.finished() {
                let f = self.s@;
                law_step_invalid_header::<H>(f.header, f.trailer, self.consumed(), byte);
                law_step_invalid_trailer::<H>(f.header, f.trailer, self.consumed(), byte);
                law_step_version_gate::<H>(f.header, f.trailer, self.consumed(), byte);
            }
        }
        match self.process_state(byte) {
            Ok(state) => {
                proof {
                    lemma_state_attempt::<H>(
                        self.s@,
                        state,
                        self.offset + 1,
                        self.hasher.absorbed(),
                    );
                }
                self.state = state;
                self.offset += 1;
                Ok(())
            },
            Err(e) => Err(e),
        }
    }

    /// The state that follows on `byte`, or why `byte` is refused. The hasher
    /// takes in the record's version and size, and every payload byte. The
    /// frame is finished at its last byte: the last of the trailer, or the
    /// last of the payload where the configuration has no trailer magic.
    fn process_state(&mut self, byte: u8) -> (r: Result<State, RetrievalError>)
        requires
            old(self).wf(),
            old(self).offset < usize::MAX,
        ensures
            final(self).s == old(self).s,
            final(self).state == old(self).state,
            final(self).offset == old(self).offset,
            match r {
                Ok(state) => {
                    &&& !(old(self).state is Finished)
                    &&& state_wf::<H>(
                        old(self).s@,
                        state,
                        old(self).offset + 1,
                        final(self).hasher.absorbed(),
                    )
                    &&& state_consumed(old(self).s@, state, final(self).hasher.absorbed()) == old(
                        self,
                    ).consumed().push(byte)
                },
                Err(e) => {
                    &&& final(self).hasher == old(self).hasher
                    &&& if old(self).state is Finished {
                        e == RetrievalError::TooMuchData
                    } else {
                        attempt::<H>(
                            old(self).s@.header,
                            old(self).s@.trailer,
                            old(self).consumed().push(byte),
                        ) == (Attempt::Reject { at: old(self).consumed().len(), error: e })
                    }
                },
            },
    {
        let ghost f = self.s@;
        let ghost offset = self.offset as int;
        let ghost absorbed = self.hasher.absorbed();
        match self.state {
            State::Header { remaining } => {
                let header = self.s.header_magic();
                let blank: [u8; 13] = [0;13];
                proof {
                    lemma_step_header::<H>(f, remaining, offset, absorbed, byte, blank);
                }
                if byte == header[header.len() - remaining] {
                    if remaining == 1 {
                        Ok(State::Checksum { bytes: blank, remaining: 13 })
                    } else {
                        Ok(State::Header { remaining: remaining - 1 })
                    }
                } else {
                    Err(RetrievalError::InvalidHeader)
                }
            },
            State::Checksum { bytes, remaining } => {
                let ghost old_bytes = bytes;
                let mut bytes = bytes;
                let idx = 13 - remaining;
                bytes[idx] = byte;
                proof {
                    lemma_step_record::<H>(f, old_bytes, bytes, remaining, offset, absorbed, byte);
                }

                if remaining == 1 {
                    let checksum = BufferChecksum::unpack(&bytes);
                    if checksum.version > self.s.version() {
                        return Err(
                            RetrievalError::UnsupportedVersion {
                                received_version: checksum.version,
                            },
                        );
                    }
                    if checksum.size == 0 {
                        return Err(RetrievalError::EmptyPayloadSize);
                    }
                    let v = [checksum.version];
                    self.hasher.update(v.as_slice());
                    let sz = size_bytes(checksum.size);
                    self.hasher.update(sz.as_slice());
                    assert(self.hasher.absorbed() =~= seq![checksum.version] + u32_be(
                        checksum.size,
                    ));
                    proof {
                        lemma_enter_payload::<H>(
                            f,
                            bytes@,
                            checksum,
                            self.offset,
                            self.hasher.absorbed(),
                        );
                    }

                    Ok(
                        State::Payload {
                            checksum: checksum,
                            start_offset: self.offset + 1,
                            remaining: checksum.size as usize,
                        },
                    )
                } else {
                    Ok(State::Checksum { bytes: bytes, remaining: remaining - 1 })
                }
            },
            State::Payload { checksum, start_offset, remaining } => {
                let trailer_len = self.s.trailer_magic().len();
                let one = [byte];

                if remaining == 1 && trailer_len == 0 {
                    proof {
                        lemma_step_last_payload::<H>(
                            f,
                            checksum,
                            start_offset,
                            offset,
                            absorbed,
                            byte,
                        );
                    }
                    let mut judged = self.hasher.fork();
                    judged.update(one.as_slice());
                    assert(judged.absorbed() =~= absorbed.push(byte));
                    return match Self::finish_frame(checksum, start_offset, judged.finish()) {
                        Ok(next) => {
                            self.hasher = judged;
                            Ok(next)
                        },
                        Err(e) => Err(e),
                    };
                }
                proof {
                    lemma_step_payload::<H>(
                        f,
                        checksum,
                        start_offset,
                        remaining,
                        offset,
                        absorbed,
                        byte,
                        trailer_len,
                    );
                }
                self.hasher.update(one.as_slice());
                assert(self.hasher.absorbed() =~= absorbed.push(byte));

                if remaining == 1 {
                    Ok(
                        State::Trailer {
                            checksum: checksum,
                            payload_offset: start_offset,
                            remaining: trailer_len,
                        },
                    )
                } else {
                    Ok(
                        State::Payload {
                            checksum: checksum,
                            start_offset: start_offset,
                            remaining: remaining - 1,
                        },
                    )
                }
            },
            State::Trailer { checksum, payload_offset, remaining } => {
                let trailer = self.s.trailer_magic();
                proof {
                    lemma_step_trailer::<H>(
                        f,
                        checksum,
                        payload_offset,
                        remaining,
                        offset,
                        absorbed,
                        byte,
                    );
                }
                if byte == trailer[trailer.len() - remaining] {
                    if remaining == 1 {
                        Self::finish_frame(checksum, payload_offset, self.hasher.finish())
                    } else {
                        Ok(
                            State::Trailer {
                                checksum: checksum,
                                payload_offset: payload_offset,
                                remaining: remaining - 1,
                            },
                        )
                    }
                } else {
                    Err(RetrievalError::InvalidTrailer)
                }
            },
            State::Finished { .. } => Err(RetrievalError::TooMuchData),
        }
    }
}

} // verus!
