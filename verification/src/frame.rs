//! What a frame is: its layout, and what one decoding attempt and one scan of a
//! buffer find, stated over byte sequences.

use crate::base::{DecodedBuffer, RetrievalError};
use crate::hasher::FrameHasher;
use crate::structs::{lemma_unpack_packed, u32_be, BufferChecksum};
use std::ops::Range;
use vstd::prelude::*;

verus! {

/// The format version that the signer writes and the newest the decoder reads.
pub const FORMAT_VERSION: u8 = 1;

/// What the checksum is taken over: version, big-endian size, payload.
pub open spec fn hash_input(version: u8, size: u32, payload: Seq<u8>) -> Seq<u8> {
    seq![version] + u32_be(size) + payload
}

/// The record that signing puts in front of `payload`.
pub open spec fn record_for<H: FrameHasher>(payload: Seq<u8>) -> BufferChecksum {
    BufferChecksum {
        version: FORMAT_VERSION,
        size: payload.len() as u32,
        checksum: H::digest(hash_input(FORMAT_VERSION, payload.len() as u32, payload)),
    }
}

/// The frame that carries `payload`.
pub open spec fn frame_of<H: FrameHasher>(
    header: Seq<u8>,
    trailer: Seq<u8>,
    payload: Seq<u8>,
) -> Seq<u8> {
    header + record_for::<H>(payload).packed() + payload + trailer
}

/// Length of a frame whose payload has `payload_size` bytes.
pub open spec fn frame_len(header: Seq<u8>, trailer: Seq<u8>, payload_size: nat) -> nat {
    header.len() + 13 + payload_size + trailer.len()
}

/// How many leading bytes of `pattern` the start of `input` agrees with.
pub open spec fn matched(input: Seq<u8>, pattern: Seq<u8>) -> nat
    decreases pattern.len(),
{
    if input.len() == 0 || pattern.len() == 0 || input[0] != pattern[0] {
        0
    } else {
        1 + matched(input.drop_first(), pattern.drop_first())
    }
}

/// The outcome of reading one frame from the first byte of an input.
pub enum Attempt {
    /// The first `len` bytes are a valid frame.
    Frame { len: nat },
    /// The byte at index `at` cannot continue any frame; the bytes before it could.
    Reject { at: nat, error: RetrievalError },
    /// Every byte was accepted, and the frame is not complete yet.
    Short,
}

/// Reads one frame from the start of `input`.
///
/// Bytes are judged in order and the first one that cannot belong to a frame
/// decides: a header byte that differs from the magic; the last byte of a record
/// whose version is too new or whose size is zero; a trailer byte that differs
/// from the magic; the last trailer byte, when the hash is not the recorded one.
#[verifier::opaque]
pub open spec fn attempt<H: FrameHasher>(
    header: Seq<u8>,
    trailer: Seq<u8>,
    input: Seq<u8>,
) -> Attempt {
    let h = header.len() as int;
    let t = trailer.len() as int;
    let n = input.len() as int;
    let in_header = matched(input, header) as int;
    if in_header < h {
        if in_header < n {
            Attempt::Reject { at: in_header as nat, error: RetrievalError::InvalidHeader }
        } else {
            Attempt::Short
        }
    } else if n < h + 13 {
        Attempt::Short
    } else {
        let record = BufferChecksum::unpacked(input.subrange(h, h + 13));
        let payload_end = h + 13 + record.size;
        if record.version > FORMAT_VERSION {
            Attempt::Reject {
                at: (h + 12) as nat,
                error: RetrievalError::UnsupportedVersion { received_version: record.version },
            }
        } else if record.size == 0 {
            Attempt::Reject { at: (h + 12) as nat, error: RetrievalError::EmptyPayloadSize }
        } else if n < payload_end {
            Attempt::Short
        } else {
            let in_trailer = matched(input.skip(payload_end), trailer) as int;
            if in_trailer < t {
                if payload_end + in_trailer < n {
                    Attempt::Reject {
                        at: (payload_end + in_trailer) as nat,
                        error: RetrievalError::InvalidTrailer,
                    }
                } else {
                    Attempt::Short
                }
            } else if H::digest(
                hash_input(record.version, record.size, input.subrange(h + 13, payload_end)),
            ) != record.checksum {
                Attempt::Reject {
                    at: (payload_end + t - 1) as nat,
                    error: RetrievalError::InvalidHash,
                }
            } else {
                Attempt::Frame { len: (payload_end + t) as nat }
            }
        }
    }
}

/// The region of a frame of `len` bytes that starts at `base`.
pub open spec fn region_at(
    header: Seq<u8>,
    trailer: Seq<u8>,
    base: nat,
    len: nat,
) -> DecodedBuffer {
    DecodedBuffer {
        payload_position: Range {
            start: (base + header.len() + 13) as usize,
            end: (base + len - trailer.len()) as usize,
        },
        entire_buffer: Range { start: base as usize, end: (base + len) as usize },
    }
}

/// Every frame that a sweep over `input` finds, in order, where `input` starts
/// at offset `base` of the buffer the regions refer to.
///
/// The sweep reads one frame at a time. After a frame it goes on behind the
/// frame; after a rejected byte it goes on behind that byte; when the input
/// ends inside a frame it stops. The bounds tested in the first two branches
/// always hold (`lemma_attempt_bounds`); they show that the sweep ends.
#[verifier::opaque]
pub open spec fn scan<H: FrameHasher>(
    header: Seq<u8>,
    trailer: Seq<u8>,
    input: Seq<u8>,
    base: nat,
) -> Seq<DecodedBuffer>
    decreases input.len(),
{
    match attempt::<H>(header, trailer, input) {
        Attempt::Frame { len } => {
            if 0 < len <= input.len() {
                seq![region_at(header, trailer, base, len)] + scan::<H>(
                    header,
                    trailer,
                    input.skip(len as int),
                    base + len,
                )
            } else {
                Seq::empty()
            }
        },
        Attempt::Reject { at, .. } => {
            if at < input.len() {
                scan::<H>(header, trailer, input.skip(at as int + 1), base + at + 1)
            } else {
                Seq::empty()
            }
        },
        Attempt::Short => Seq::empty(),
    }
}

/// `matched` stops at the first disagreement or at the end of either sequence.
pub proof fn lemma_matched(input: Seq<u8>, pattern: Seq<u8>)
    ensures
        matched(input, pattern) <= input.len(),
        matched(input, pattern) <= pattern.len(),
        forall|i: int| 0 <= i < matched(input, pattern) ==> input[i] == pattern[i],
        matched(input, pattern) < input.len() && matched(input, pattern) < pattern.len()
            ==> input[matched(input, pattern) as int] != pattern[matched(input, pattern) as int],
    decreases pattern.len(),
{
    if input.len() == 0 || pattern.len() == 0 || input[0] != pattern[0] {
    } else {
        let input_rest = input.drop_first();
        let pattern_rest = pattern.drop_first();
        lemma_matched(input_rest, pattern_rest);
        let m = matched(input_rest, pattern_rest);
        assert forall|i: int| 0 <= i < m + 1 implies input[i] == pattern[i] by {
            if i > 0 {
                assert(input[i] == input_rest[i - 1]);
                assert(pattern[i] == pattern_rest[i - 1]);
            }
        }
        if m < input_rest.len() && m < pattern_rest.len() {
            assert(input[m as int + 1] == input_rest[m as int]);
            assert(pattern[m as int + 1] == pattern_rest[m as int]);
        }
    }
}

/// A count that stops at the first disagreement is the value of `matched`.
pub proof fn lemma_matched_is(input: Seq<u8>, pattern: Seq<u8>, m: nat)
    requires
        m <= input.len(),
        m <= pattern.len(),
        forall|i: int| 0 <= i < m ==> input[i] == pattern[i],
        m < input.len() && m < pattern.len() ==> input[m as int] != pattern[m as int],
    ensures
        matched(input, pattern) == m,
    decreases pattern.len(),
{
    if input.len() == 0 || pattern.len() == 0 || input[0] != pattern[0] {
        if m > 0 {
            assert(input[0] == pattern[0]);
        }
    } else {
        let input_rest = input.drop_first();
        let pattern_rest = pattern.drop_first();
        assert(m > 0);
        assert forall|i: int| 0 <= i < m - 1 implies input_rest[i] == pattern_rest[i] by {
            assert(input[i + 1] == input_rest[i]);
            assert(pattern[i + 1] == pattern_rest[i]);
        }
        if m - 1 < input_rest.len() && m - 1 < pattern_rest.len() {
            assert(input[m as int] == input_rest[m - 1]);
            assert(pattern[m as int] == pattern_rest[m - 1]);
        }
        lemma_matched_is(input_rest, pattern_rest, (m - 1) as nat);
    }
}

/// A frame lies within the input and has room for record, payload and magic;
/// a rejected byte is a byte of the input.
pub proof fn lemma_attempt_bounds<H: FrameHasher>(
    header: Seq<u8>,
    trailer: Seq<u8>,
    input: Seq<u8>,
)
    ensures
        match attempt::<H>(header, trailer, input) {
            Attempt::Frame { len } => {
                &&& header.len() + 13 + 1 + trailer.len() <= len <= input.len()
                &&& len == frame_len(
                    header,
                    trailer,
                    BufferChecksum::unpacked(
                        input.subrange(header.len() as int, header.len() as int + 13),
                    ).size as nat,
                )
            },
            Attempt::Reject { at, .. } => at < input.len(),
            Attempt::Short => true,
        },
{
    reveal(attempt);
    lemma_matched(input, header);
    let h = header.len() as int;
    if matched(input, header) >= h && input.len() >= h + 13 {
        let record = BufferChecksum::unpacked(input.subrange(h, h + 13));
        let payload_end = h + 13 + record.size;
        if input.len() >= payload_end {
            lemma_matched(input.skip(payload_end), trailer);
        }
    }
}

/// Once an attempt has come to a verdict, bytes that follow do not change it.
pub proof fn lemma_attempt_stable<H: FrameHasher>(
    header: Seq<u8>,
    trailer: Seq<u8>,
    input: Seq<u8>,
    more: Seq<u8>,
)
    requires
        attempt::<H>(header, trailer, input) != Attempt::Short,
    ensures
        attempt::<H>(header, trailer, input + more) == attempt::<H>(header, trailer, input),
{
    reveal(attempt);
    let h = header.len() as int;
    let t = trailer.len() as int;
    let n = input.len() as int;
    let longer = input + more;
    lemma_matched(input, header);
    let hm = matched(input, header);
    lemma_matched_is(longer, header, hm);
    if hm >= h && n >= h + 13 {
        assert(longer.subrange(h, h + 13) =~= input.subrange(h, h + 13));
        let record = BufferChecksum::unpacked(input.subrange(h, h + 13));
        let payload_end = h + 13 + record.size;
        if record.version <= FORMAT_VERSION && record.size != 0 && n >= payload_end {
            let tail = input.skip(payload_end);
            lemma_matched(tail, trailer);
            let tm = matched(tail, trailer);
            assert(longer.skip(payload_end) =~= tail + more);
            lemma_matched_is(tail + more, trailer, tm);
            assert(longer.subrange(h + 13, payload_end) =~= input.subrange(h + 13, payload_end));
        }
    }
}

/// One step of a sweep: when the first `k` bytes of the input are a frame, or
/// end in a rejected byte, the sweep reports the frame, if there is one, and
/// goes on behind those `k` bytes.
pub proof fn lemma_scan_step<H: FrameHasher>(
    header: Seq<u8>,
    trailer: Seq<u8>,
    input: Seq<u8>,
    base: nat,
    k: nat,
)
    requires
        0 < k <= input.len(),
    ensures
        match attempt::<H>(header, trailer, input.take(k as int)) {
            Attempt::Frame { len } => len == k ==> scan::<H>(header, trailer, input, base)
                == seq![region_at(header, trailer, base, k)] + scan::<H>(
                header,
                trailer,
                input.skip(k as int),
                base + k,
            ),
            Attempt::Reject { at, .. } => at + 1 == k ==> scan::<H>(header, trailer, input, base)
                == scan::<H>(header, trailer, input.skip(k as int), base + k),
            Attempt::Short => true,
        },
{
    reveal(scan);
    let first = input.take(k as int);
    assert(first + input.skip(k as int) =~= input);
    if attempt::<H>(header, trailer, first) != Attempt::Short {
        lemma_attempt_stable::<H>(header, trailer, first, input.skip(k as int));
    }
}

/// A sweep finds nothing in an input that ends inside its first frame.
pub proof fn lemma_scan_short<H: FrameHasher>(
    header: Seq<u8>,
    trailer: Seq<u8>,
    input: Seq<u8>,
    base: nat,
)
    requires
        attempt::<H>(header, trailer, input) == Attempt::Short,
    ensures
        scan::<H>(header, trailer, input, base) == Seq::<DecodedBuffer>::empty(),
{
    reveal(scan);
}

/// The attempt on an input no longer than the header magic: the first byte that
/// differs from the magic is rejected, and without one the input is short.
pub proof fn lemma_attempt_header<H: FrameHasher>(
    header: Seq<u8>,
    trailer: Seq<u8>,
    input: Seq<u8>,
)
    requires
        input.len() <= header.len(),
    ensures
        attempt::<H>(header, trailer, input) == if matched(input, header) < input.len() {
            Attempt::Reject { at: matched(input, header), error: RetrievalError::InvalidHeader }
        } else {
            Attempt::Short
        },
{
    reveal(attempt);
    lemma_matched(input, header);
}

/// The attempt on an input that begins with the header magic and goes on with
/// fewer than thirteen bytes, or with thirteen that make a record.
pub proof fn lemma_attempt_record<H: FrameHasher>(
    header: Seq<u8>,
    trailer: Seq<u8>,
    bytes: Seq<u8>,
)
    requires
        bytes.len() <= 13,
    ensures
        attempt::<H>(header, trailer, header + bytes) == if bytes.len() < 13 {
            Attempt::Short
        } else {
            let record = BufferChecksum::unpacked(bytes);
            if record.version > FORMAT_VERSION {
                Attempt::Reject {
                    at: (header.len() + 12) as nat,
                    error: RetrievalError::UnsupportedVersion { received_version: record.version },
                }
            } else if record.size == 0 {
                Attempt::Reject {
                    at: (header.len() + 12) as nat,
                    error: RetrievalError::EmptyPayloadSize,
                }
            } else {
                Attempt::Short
            }
        },
{
    reveal(attempt);
    let input = header + bytes;
    lemma_matched_is(input, header, header.len());
    if bytes.len() == 13 {
        assert(input.subrange(header.len() as int, header.len() as int + 13) =~= bytes);
    }
}

/// The attempt on an input made of the header magic, a record that passes the
/// version and size checks, payload bytes and, once the payload is complete,
/// the bytes that stand where the trailer belongs.
pub proof fn lemma_attempt_body<H: FrameHasher>(
    header: Seq<u8>,
    trailer: Seq<u8>,
    record: BufferChecksum,
    payload: Seq<u8>,
    tail: Seq<u8>,
)
    requires
        record.version <= FORMAT_VERSION,
        record.size > 0,
        payload.len() <= record.size,
        payload.len() < record.size ==> tail.len() == 0,
    ensures
        attempt::<H>(header, trailer, header + record.packed() + payload + tail) == if payload.len()
            < record.size {
            Attempt::Short
        } else if matched(tail, trailer) < trailer.len() {
            if matched(tail, trailer) < tail.len() {
                Attempt::Reject {
                    at: (header.len() + 13 + record.size + matched(tail, trailer)) as nat,
                    error: RetrievalError::InvalidTrailer,
                }
            } else {
                Attempt::Short
            }
        } else if H::digest(hash_input(record.version, record.size, payload)) != record.checksum {
            Attempt::Reject {
                at: (header.len() + 13 + record.size + trailer.len() - 1) as nat,
                error: RetrievalError::InvalidHash,
            }
        } else {
            Attempt::Frame { len: frame_len(header, trailer, record.size as nat) }
        },
{
    reveal(attempt);
    let input = header + record.packed() + payload + tail;
    let h = header.len() as int;
    lemma_unpack_packed(record);
    lemma_matched_is(input, header, header.len());
    assert(input.subrange(h, h + 13) =~= record.packed());
    if payload.len() == record.size {
        let payload_end = h + 13 + record.size;
        assert(input.skip(payload_end) =~= tail);
        assert(input.subrange(h + 13, payload_end) =~= payload);
    }
}

} // verus!
