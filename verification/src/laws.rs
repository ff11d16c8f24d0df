//! What holds of every frame, every attempt and every sweep.

use crate::base::{DecodedBuffer, RetrievalError};
use crate::frame::{
    attempt, frame_len, frame_of, hash_input, lemma_attempt_body, lemma_attempt_bounds,
    lemma_attempt_record, lemma_attempt_stable, lemma_matched, lemma_matched_is, matched,
    record_for, region_at, scan, Attempt, FORMAT_VERSION,
};
use crate::hasher::FrameHasher;
use crate::structs::{lemma_pack_unpacked, lemma_unpack_packed, BufferChecksum};
use vstd::prelude::*;

verus! {

/// A frame is as long as its parts, and its parts lie where the layout says.
pub proof fn lemma_frame_parts<H: FrameHasher>(
    header: Seq<u8>,
    trailer: Seq<u8>,
    payload: Seq<u8>,
)
    ensures
        ({
            let frame = frame_of::<H>(header, trailer, payload);
            let h = header.len() as int;
            let n = payload.len() as int;
            &&& frame.len() == frame_len(header, trailer, payload.len())
            &&& frame.subrange(0, h) == header
            &&& frame.subrange(h, h + 13) == record_for::<H>(payload).packed()
            &&& frame.subrange(h + 13, h + 13 + n) == payload
            &&& frame.subrange(h + 13 + n, frame.len() as int) == trailer
        }),
{
    let frame = frame_of::<H>(header, trailer, payload);
    let h = header.len() as int;
    let n = payload.len() as int;
    lemma_unpack_packed(record_for::<H>(payload));
    assert(frame.subrange(0, h) =~= header);
    assert(frame.subrange(h, h + 13) =~= record_for::<H>(payload).packed());
    assert(frame.subrange(h + 13, h + 13 + n) =~= payload);
    assert(frame.subrange(h + 13 + n, frame.len() as int) =~= trailer);
}

/// Round trip: under any magic, an empty one included, the frame of a payload
/// that is not empty and whose length fits the size field is read back as
/// exactly that frame, and the payload region of the result holds the payload.
/// Bytes behind the frame change nothing.
pub proof fn law_round_trip<H: FrameHasher>(
    header: Seq<u8>,
    trailer: Seq<u8>,
    payload: Seq<u8>,
    behind: Seq<u8>,
)
    requires
        0 < payload.len() <= u32::MAX,
        frame_len(header, trailer, payload.len()) <= usize::MAX,
    ensures
        ({
            let frame = frame_of::<H>(header, trailer, payload);
            let region = region_at(header, trailer, 0, frame.len());
            &&& frame.len() == frame_len(header, trailer, payload.len())
            &&& attempt::<H>(header, trailer, frame + behind) == (Attempt::Frame {
                len: frame.len(),
            })
            &&& region.nested()
            &&& region.entire_buffer.start == 0
            &&& region.entire_buffer.end == frame.len()
            &&& (frame + behind).subrange(
                region.payload_position.start as int,
                region.payload_position.end as int,
            ) == payload
        }),
{
    let frame = frame_of::<H>(header, trailer, payload);
    let record = record_for::<H>(payload);
    lemma_frame_parts::<H>(header, trailer, payload);
    lemma_matched_is(trailer, trailer, trailer.len());
    lemma_attempt_body::<H>(header, trailer, record, payload, trailer);
    lemma_attempt_stable::<H>(header, trailer, frame, behind);
    let region = region_at(header, trailer, 0, frame.len());
    assert((frame + behind).subrange(
        region.payload_position.start as int,
        region.payload_position.end as int,
    ) =~= payload);
}

/// Tamper detection in the payload: a frame whose payload was changed without
/// changing its length is refused with `InvalidHash` at its last byte, unless
/// the changed payload hashes to the recorded checksum.
pub proof fn law_tampered_payload<H: FrameHasher>(
    header: Seq<u8>,
    trailer: Seq<u8>,
    payload: Seq<u8>,
    forged: Seq<u8>,
)
    requires
        0 < payload.len() <= u32::MAX,
        forged.len() == payload.len(),
        record_for::<H>(forged).checksum != record_for::<H>(payload).checksum,
    ensures
        attempt::<H>(
            header,
            trailer,
            header + record_for::<H>(payload).packed() + forged + trailer,
        ) == (Attempt::Reject {
            at: (frame_len(header, trailer, payload.len()) - 1) as nat,
            error: RetrievalError::InvalidHash,
        }),
{
    lemma_matched_is(trailer, trailer, trailer.len());
    lemma_attempt_body::<H>(header, trailer, record_for::<H>(payload), forged, trailer);
}

/// A single changed payload byte is a changed payload of the same length.
pub proof fn law_flipped_payload_byte<H: FrameHasher>(
    header: Seq<u8>,
    trailer: Seq<u8>,
    payload: Seq<u8>,
    index: int,
    byte: u8,
)
    requires
        0 < payload.len() <= u32::MAX,
        0 <= index < payload.len(),
        record_for::<H>(payload.update(index, byte)).checksum != record_for::<H>(
            payload,
        ).checksum,
    ensures
        attempt::<H>(
            header,
            trailer,
            frame_of::<H>(header, trailer, payload).update(header.len() + 13 + index, byte),
        ) == (Attempt::Reject {
            at: (frame_len(header, trailer, payload.len()) - 1) as nat,
            error: RetrievalError::InvalidHash,
        }),
{
    let forged = payload.update(index, byte);
    lemma_unpack_packed(record_for::<H>(payload));
    law_tampered_payload::<H>(header, trailer, payload, forged);
    assert(frame_of::<H>(header, trailer, payload).update(header.len() + 13 + index, byte)
        =~= header + record_for::<H>(payload).packed() + forged + trailer);
}

/// Tamper detection in the checksum field: a frame in which one of the eight
/// checksum bytes of the record was changed is refused with `InvalidHash`.
pub proof fn law_flipped_checksum_byte<H: FrameHasher>(
    header: Seq<u8>,
    trailer: Seq<u8>,
    payload: Seq<u8>,
    index: int,
    byte: u8,
)
    requires
        0 < payload.len() <= u32::MAX,
        5 <= index < 13,
        byte != record_for::<H>(payload).packed()[index],
    ensures
        attempt::<H>(
            header,
            trailer,
            frame_of::<H>(header, trailer, payload).update(header.len() + index, byte),
        ) == (Attempt::Reject {
            at: (frame_len(header, trailer, payload.len()) - 1) as nat,
            error: RetrievalError::InvalidHash,
        }),
{
    let record = record_for::<H>(payload);
    lemma_unpack_packed(record);
    let bytes = record.packed().update(index, byte);
    let forged = BufferChecksum::unpacked(bytes);
    lemma_pack_unpacked(bytes);
    assert(bytes.subrange(1, 5) =~= record.packed().subrange(1, 5));
    assert(forged.version == record.version);
    assert(forged.size == record.size);
    if forged.checksum == record.checksum {
        assert(forged == record);
        assert(bytes[index] == record.packed()[index]);
    }
    lemma_matched_is(trailer, trailer, trailer.len());
    lemma_attempt_body::<H>(header, trailer, forged, payload, trailer);
    assert(frame_of::<H>(header, trailer, payload).update(header.len() + index, byte) =~= header
        + forged.packed() + payload + trailer);
}

/// A changed version byte: a newer version is refused as unsupported, and an
/// older one with `InvalidHash`, unless the hash taken with the changed
/// version is the recorded one.
pub proof fn law_flipped_version_byte<H: FrameHasher>(
    header: Seq<u8>,
    trailer: Seq<u8>,
    payload: Seq<u8>,
    byte: u8,
)
    requires
        0 < payload.len() <= u32::MAX,
        byte != FORMAT_VERSION,
    ensures
        ({
            let record = record_for::<H>(payload);
            let tried = attempt::<H>(
                header,
                trailer,
                frame_of::<H>(header, trailer, payload).update(header.len() as int, byte),
            );
            &&& byte > FORMAT_VERSION ==> tried == (Attempt::Reject {
                at: (header.len() + 12) as nat,
                error: RetrievalError::UnsupportedVersion { received_version: byte },
            })
            &&& byte < FORMAT_VERSION && H::digest(hash_input(byte, record.size, payload))
                != record.checksum ==> tried == (Attempt::Reject {
                at: (frame_len(header, trailer, payload.len()) - 1) as nat,
                error: RetrievalError::InvalidHash,
            })
        }),
{
    let record = record_for::<H>(payload);
    let forged = BufferChecksum { version: byte, size: record.size, checksum: record.checksum };
    lemma_unpack_packed(record);
    lemma_unpack_packed(forged);
    assert(frame_of::<H>(header, trailer, payload).update(header.len() as int, byte) =~= header
        + forged.packed() + payload + trailer);
    if byte > FORMAT_VERSION {
        law_version_gate::<H>(header, trailer, forged, payload + trailer);
        assert(header + forged.packed() + (payload + trailer) =~= header + forged.packed()
            + payload + trailer);
    } else {
        lemma_matched_is(trailer, trailer, trailer.len());
        lemma_attempt_body::<H>(header, trailer, forged, payload, trailer);
    }
}

/// Header enforcement: a frame in which a byte of the header magic was changed
/// is refused at that byte with `InvalidHeader`.
pub proof fn law_corrupt_header<H: FrameHasher>(
    header: Seq<u8>,
    trailer: Seq<u8>,
    payload: Seq<u8>,
    index: int,
    byte: u8,
)
    requires
        0 <= index < header.len(),
        byte != header[index],
    ensures
        attempt::<H>(
            header,
            trailer,
            frame_of::<H>(header, trailer, payload).update(index, byte),
        ) == (Attempt::Reject { at: index as nat, error: RetrievalError::InvalidHeader }),
{
    reveal(attempt);
    let input = frame_of::<H>(header, trailer, payload).update(index, byte);
    lemma_unpack_packed(record_for::<H>(payload));
    lemma_matched_is(input, header, index as nat);
}

/// Trailer enforcement: a frame in which a byte of the trailer magic was
/// changed is refused at that byte with `InvalidTrailer`.
pub proof fn law_corrupt_trailer<H: FrameHasher>(
    header: Seq<u8>,
    trailer: Seq<u8>,
    payload: Seq<u8>,
    index: int,
    byte: u8,
)
    requires
        0 < payload.len() <= u32::MAX,
        0 <= index < trailer.len(),
        byte != trailer[index],
    ensures
        attempt::<H>(
            header,
            trailer,
            frame_of::<H>(header, trailer, payload).update(
                header.len() + 13 + payload.len() + index,
                byte,
            ),
        ) == (Attempt::Reject {
            at: (header.len() + 13 + payload.len() + index) as nat,
            error: RetrievalError::InvalidTrailer,
        }),
{
    let record = record_for::<H>(payload);
    let tail = trailer.update(index, byte);
    lemma_unpack_packed(record);
    lemma_matched_is(tail, trailer, index as nat);
    lemma_attempt_body::<H>(header, trailer, record, payload, tail);
    assert(frame_of::<H>(header, trailer, payload).update(
        header.len() + 13 + payload.len() + index,
        byte,
    ) =~= header + record.packed() + payload + tail);
}

/// Header enforcement, byte by byte: after bytes that may begin a frame, the
/// next byte is refused with `InvalidHeader` exactly when it stands in the
/// header and differs from the magic there.
pub proof fn law_step_invalid_header<H: FrameHasher>(
    header: Seq<u8>,
    trailer: Seq<u8>,
    seen: Seq<u8>,
    byte: u8,
)
    requires
        attempt::<H>(header, trailer, seen) == Attempt::Short,
    ensures
        ({
            let tried = attempt::<H>(header, trailer, seen.push(byte));
            &&& (tried is Reject && tried->error == RetrievalError::InvalidHeader) <==> (
            seen.len() < header.len() && byte != header[seen.len() as int])
            &&& tried is Reject && tried->error == RetrievalError::InvalidHeader ==> tried->at
                == seen.len()
        }),
{
    reveal(attempt);
    lemma_matched(seen, header);
    let n = seen.len();
    if matched(seen, header) < header.len() {
        if byte == header[n as int] {
            lemma_matched_is(seen.push(byte), header, n + 1);
        } else {
            lemma_matched_is(seen.push(byte), header, n);
        }
    } else {
        lemma_matched_is(seen.push(byte), header, header.len());
    }
}

/// Trailer enforcement, byte by byte: after bytes that may begin a frame, the
/// next byte is refused with `InvalidTrailer` exactly when it stands in the
/// trailer, behind the payload that the record announces, and differs from
/// the magic there.
pub proof fn law_step_invalid_trailer<H: FrameHasher>(
    header: Seq<u8>,
    trailer: Seq<u8>,
    seen: Seq<u8>,
    byte: u8,
)
    requires
        attempt::<H>(header, trailer, seen) == Attempt::Short,
    ensures
        ({
            let h = header.len() as int;
            let n = seen.len() as int;
            let payload_end = h + 13 + BufferChecksum::unpacked(seen.subrange(h, h + 13)).size;
            let tried = attempt::<H>(header, trailer, seen.push(byte));
            &&& (tried is Reject && tried->error == RetrievalError::InvalidTrailer) <==> (n >= h
                + 13 && payload_end <= n < payload_end + trailer.len() && byte != trailer[n
                - payload_end])
            &&& tried is Reject && tried->error == RetrievalError::InvalidTrailer ==> tried->at
                == n
        }),
{
    reveal(attempt);
    let h = header.len() as int;
    let n = seen.len() as int;
    let longer = seen.push(byte);
    lemma_matched(seen, header);
    if matched(seen, header) < header.len() {
        if byte == header[n] {
            lemma_matched_is(longer, header, (n + 1) as nat);
        } else {
            lemma_matched_is(longer, header, n as nat);
        }
    } else {
        lemma_matched_is(longer, header, header.len());
        if n >= h + 13 {
            assert(longer.subrange(h, h + 13) =~= seen.subrange(h, h + 13));
            let record = BufferChecksum::unpacked(seen.subrange(h, h + 13));
            let payload_end = h + 13 + record.size;
            if n >= payload_end {
                let tail = seen.skip(payload_end);
                lemma_matched(tail, trailer);
                assert(longer.skip(payload_end) =~= tail.push(byte));
                if byte == trailer[n - payload_end] {
                    lemma_matched_is(tail.push(byte), trailer, (n - payload_end + 1) as nat);
                } else {
                    lemma_matched_is(tail.push(byte), trailer, (n - payload_end) as nat);
                }
            } else if n + 1 == payload_end {
                assert(longer.skip(payload_end) =~= Seq::<u8>::empty());
                lemma_matched_is(longer.skip(payload_end), trailer, 0);
            }
        } else if n + 1 == h + 13 {
            let record = BufferChecksum::unpacked(longer.subrange(h, h + 13));
            let payload_end = h + 13 + record.size;
            if record.version <= FORMAT_VERSION && record.size != 0 {
                assert(n + 1 < payload_end);
            }
        }
    }
}

/// Version gate, byte by byte: after bytes that may begin a frame, the next
/// byte is refused with `UnsupportedVersion` exactly when it is the last of
/// the record and the record's version byte is newer than this format's; the
/// error carries that byte. No payload byte has been read by then, and no
/// hash compared.
pub proof fn law_step_version_gate<H: FrameHasher>(
    header: Seq<u8>,
    trailer: Seq<u8>,
    seen: Seq<u8>,
    byte: u8,
)
    requires
        attempt::<H>(header, trailer, seen) == Attempt::Short,
    ensures
        ({
            let h = header.len() as int;
            let version = seen.push(byte)[h];
            let tried = attempt::<H>(header, trailer, seen.push(byte));
            &&& (tried is Reject && tried->error is UnsupportedVersion) <==> (seen.len() == h + 12
                && version > FORMAT_VERSION)
            &&& tried is Reject && tried->error is UnsupportedVersion ==> tried->at == seen.len()
                && tried->error == (RetrievalError::UnsupportedVersion {
                received_version: version,
            })
        }),
{
    reveal(attempt);
    let h = header.len() as int;
    let n = seen.len() as int;
    let longer = seen.push(byte);
    lemma_matched(seen, header);
    if matched(seen, header) < header.len() {
        if byte == header[n] {
            lemma_matched_is(longer, header, (n + 1) as nat);
        } else {
            lemma_matched_is(longer, header, n as nat);
        }
    } else {
        lemma_matched_is(longer, header, header.len());
        if n >= h + 13 {
            assert(longer.subrange(h, h + 13) =~= seen.subrange(h, h + 13));
        }
    }
}

/// No false blame on the header: an input that begins with the header magic
/// is never refused with `InvalidHeader`, whatever follows.
pub proof fn law_header_intact<H: FrameHasher>(header: Seq<u8>, trailer: Seq<u8>, rest: Seq<u8>)
    ensures
        attempt::<H>(header, trailer, header + rest) matches Attempt::Reject { error, .. }
            ==> error != RetrievalError::InvalidHeader,
{
    reveal(attempt);
    lemma_matched_is(header + rest, header, header.len());
}

/// No false blame on the magic: a frame in which the version byte, a checksum
/// byte or a payload byte was changed is never refused with `InvalidHeader` or
/// `InvalidTrailer`.
pub proof fn law_corruption_elsewhere<H: FrameHasher>(
    header: Seq<u8>,
    trailer: Seq<u8>,
    payload: Seq<u8>,
    index: int,
    byte: u8,
)
    requires
        0 < payload.len() <= u32::MAX,
        index == 0 || 5 <= index < 13 + payload.len(),
    ensures
        attempt::<H>(
            header,
            trailer,
            frame_of::<H>(header, trailer, payload).update(header.len() + index, byte),
        ) matches Attempt::Reject { error, .. } ==> error != RetrievalError::InvalidHeader && error
            != RetrievalError::InvalidTrailer,
{
    let record = record_for::<H>(payload);
    let frame = frame_of::<H>(header, trailer, payload);
    let changed = frame.update(header.len() + index, byte);
    lemma_unpack_packed(record);
    lemma_matched_is(trailer, trailer, trailer.len());
    if index < 13 {
        let bytes = record.packed().update(index, byte);
        let forged = BufferChecksum::unpacked(bytes);
        lemma_pack_unpacked(bytes);
        assert(bytes.subrange(1, 5) =~= record.packed().subrange(1, 5));
        assert(forged.size == record.size);
        assert(changed =~= header + forged.packed() + payload + trailer);
        if forged.version > FORMAT_VERSION {
            lemma_attempt_record::<H>(header, trailer, bytes);
            assert(changed =~= (header + bytes) + (payload + trailer));
            lemma_attempt_stable::<H>(header, trailer, header + bytes, payload + trailer);
        } else {
            lemma_attempt_body::<H>(header, trailer, forged, payload, trailer);
        }
    } else {
        let forged = payload.update(index - 13, byte);
        assert(changed =~= header + record.packed() + forged + trailer);
        lemma_attempt_body::<H>(header, trailer, record, forged, trailer);
    }
}

/// Empty payload rejection: an input that begins with the header magic and a
/// record of a known version and size zero is refused with `EmptyPayloadSize`
/// at the last byte of the record, whatever follows.
pub proof fn law_zero_size<H: FrameHasher>(
    header: Seq<u8>,
    trailer: Seq<u8>,
    record: BufferChecksum,
    rest: Seq<u8>,
)
    requires
        record.version <= FORMAT_VERSION,
        record.size == 0,
    ensures
        attempt::<H>(header, trailer, header + record.packed() + rest) == (Attempt::Reject {
            at: (header.len() + 12) as nat,
            error: RetrievalError::EmptyPayloadSize,
        }),
{
    lemma_unpack_packed(record);
    lemma_attempt_record::<H>(header, trailer, record.packed());
    lemma_attempt_stable::<H>(header, trailer, header + record.packed(), rest);
}

/// Version gate: an input that begins with the header magic and a record of a
/// version newer than this format's is refused with `UnsupportedVersion`, which
/// carries the version read, at the last byte of the record. Payload, hash and
/// trailer play no part.
pub proof fn law_version_gate<H: FrameHasher>(
    header: Seq<u8>,
    trailer: Seq<u8>,
    record: BufferChecksum,
    rest: Seq<u8>,
)
    requires
        record.version > FORMAT_VERSION,
    ensures
        attempt::<H>(header, trailer, header + record.packed() + rest) == (Attempt::Reject {
            at: (header.len() + 12) as nat,
            error: RetrievalError::UnsupportedVersion { received_version: record.version },
        }),
{
    lemma_unpack_packed(record);
    lemma_attempt_record::<H>(header, trailer, record.packed());
    lemma_attempt_stable::<H>(header, trailer, header + record.packed(), rest);
}

/// The five reasons an attempt can end with: no other error is ever given for a
/// byte, and `UnsupportedVersion` carries a version newer than this format's.
pub proof fn law_attempt_errors<H: FrameHasher>(
    header: Seq<u8>,
    trailer: Seq<u8>,
    input: Seq<u8>,
)
    ensures
        attempt::<H>(header, trailer, input) matches Attempt::Reject { error, .. } ==> {
            ||| error == RetrievalError::InvalidHeader
            ||| error matches RetrievalError::UnsupportedVersion { received_version }
                && received_version > FORMAT_VERSION
            ||| error == RetrievalError::EmptyPayloadSize
            ||| error == RetrievalError::InvalidTrailer
            ||| error == RetrievalError::InvalidHash
        },
{
    reveal(attempt);
}

/// The region of a frame: the frame starts with header and record, ends with
/// the trailer, and the payload between them has the length that the record
/// gives.
pub proof fn law_frame_region<H: FrameHasher>(
    header: Seq<u8>,
    trailer: Seq<u8>,
    input: Seq<u8>,
    base: nat,
)
    requires
        attempt::<H>(header, trailer, input) is Frame,
        base + attempt::<H>(header, trailer, input)->len <= usize::MAX,
    ensures
        ({
            let len = attempt::<H>(header, trailer, input)->len;
            let region = region_at(header, trailer, base, len);
            let record = BufferChecksum::unpacked(
                input.subrange(header.len() as int, header.len() as int + 13),
            );
            &&& len <= input.len()
            &&& region.nested()
            &&& region.entire_buffer.start == base
            &&& region.entire_buffer.end == base + len
            &&& region.payload_position.start == base + header.len() + 13
            &&& region.payload_position.end - region.payload_position.start == record.size
            &&& region.payload_position.end + trailer.len() == base + len
            &&& record.size > 0
        }),
{
    reveal(attempt);
    lemma_attempt_bounds::<H>(header, trailer, input);
}

/// A sweep over `filler` finds no frame and has no attempt under way at its
/// end: each attempt in it is refused at one of its bytes.
pub open spec fn swept_clean<H: FrameHasher>(
    header: Seq<u8>,
    trailer: Seq<u8>,
    filler: Seq<u8>,
) -> bool
    decreases filler.len(),
{
    filler.len() == 0 || match attempt::<H>(header, trailer, filler) {
        Attempt::Reject { at, .. } => at < filler.len() && swept_clean::<H>(
            header,
            trailer,
            filler.skip(at as int + 1),
        ),
        _ => false,
    }
}

/// A sweep over `input` finds no frame; it may end inside an attempt.
pub open spec fn frameless<H: FrameHasher>(
    header: Seq<u8>,
    trailer: Seq<u8>,
    input: Seq<u8>,
) -> bool
    decreases input.len(),
{
    match attempt::<H>(header, trailer, input) {
        Attempt::Frame { .. } => false,
        Attempt::Short => true,
        Attempt::Reject { at, .. } => at < input.len() && frameless::<H>(
            header,
            trailer,
            input.skip(at as int + 1),
        ),
    }
}

/// Plain filler: bytes none of which is the first byte of the header magic are
/// swept clean, each being refused on its own.
pub proof fn law_plain_filler<H: FrameHasher>(
    header: Seq<u8>,
    trailer: Seq<u8>,
    filler: Seq<u8>,
)
    requires
        header.len() > 0,
        forall|i: int| 0 <= i < filler.len() ==> filler[i] != header[0],
    ensures
        swept_clean::<H>(header, trailer, filler),
    decreases filler.len(),
{
    if filler.len() > 0 {
        reveal(attempt);
        lemma_matched_is(filler, header, 0);
        law_plain_filler::<H>(header, trailer, filler.skip(1));
    }
}

/// A sweep passes over clean filler and goes on behind it.
pub proof fn lemma_scan_filler<H: FrameHasher>(
    header: Seq<u8>,
    trailer: Seq<u8>,
    filler: Seq<u8>,
    rest: Seq<u8>,
    base: nat,
)
    requires
        swept_clean::<H>(header, trailer, filler),
    ensures
        scan::<H>(header, trailer, filler + rest, base) == scan::<H>(
            header,
            trailer,
            rest,
            base + filler.len(),
        ),
    decreases filler.len(),
{
    if filler.len() == 0 {
        assert(filler + rest =~= rest);
    } else {
        let at = attempt::<H>(header, trailer, filler)->at as int;
        let input = filler + rest;
        assert(input.take(at + 1) + input.skip(at + 1) =~= input);
        lemma_attempt_stable::<H>(header, trailer, filler, rest);
        reveal(scan);
        assert(input.skip(at + 1) =~= filler.skip(at + 1) + rest);
        lemma_scan_filler::<H>(
            header,
            trailer,
            filler.skip(at + 1),
            rest,
            (base + at + 1) as nat,
        );
    }
}

/// A sweep that begins at a frame reports it and goes on behind it.
pub proof fn lemma_scan_frame<H: FrameHasher>(
    header: Seq<u8>,
    trailer: Seq<u8>,
    payload: Seq<u8>,
    rest: Seq<u8>,
    base: nat,
)
    requires
        0 < payload.len() <= u32::MAX,
    ensures
        scan::<H>(header, trailer, frame_of::<H>(header, trailer, payload) + rest, base) == seq![
            region_at(header, trailer, base, frame_len(header, trailer, payload.len())),
        ] + scan::<H>(
            header,
            trailer,
            rest,
            base + frame_len(header, trailer, payload.len()),
        ),
{
    let frame = frame_of::<H>(header, trailer, payload);
    lemma_frame_parts::<H>(header, trailer, payload);
    lemma_matched_is(trailer, trailer, trailer.len());
    lemma_attempt_body::<H>(header, trailer, record_for::<H>(payload), payload, trailer);
    lemma_attempt_stable::<H>(header, trailer, frame, rest);
    reveal(scan);
    assert((frame + rest).skip(frame.len() as int) =~= rest);
}

/// A sweep over frameless bytes reports nothing.
pub proof fn lemma_scan_frameless<H: FrameHasher>(
    header: Seq<u8>,
    trailer: Seq<u8>,
    input: Seq<u8>,
    base: nat,
)
    requires
        frameless::<H>(header, trailer, input),
    ensures
        scan::<H>(header, trailer, input, base) == Seq::<DecodedBuffer>::empty(),
    decreases input.len(),
{
    reveal(scan);
    match attempt::<H>(header, trailer, input) {
        Attempt::Reject { at, .. } => {
            lemma_scan_frameless::<H>(header, trailer, input.skip(at as int + 1), base + at + 1);
        },
        _ => {},
    }
}

/// Multi-frame scanning: in a buffer made of filler, a frame, filler, a second
/// frame and trailing bytes, a sweep reports exactly the two frames, in order
/// and each at its place, provided that the filler in front of each frame is
/// swept clean and that the trailing bytes hold no frame.
///
/// Filler is swept clean when every attempt in it is refused inside it; bytes
/// that begin like the header magic and then differ from it are of that kind.
/// Filler that ends in a beginning of the magic is not: the attempt it opens
/// takes the first bytes of the frame with it.
pub proof fn law_scan_two_frames<H: FrameHasher>(
    header: Seq<u8>,
    trailer: Seq<u8>,
    before: Seq<u8>,
    first: Seq<u8>,
    between: Seq<u8>,
    second: Seq<u8>,
    after: Seq<u8>,
)
    requires
        0 < first.len() <= u32::MAX,
        0 < second.len() <= u32::MAX,
        swept_clean::<H>(header, trailer, before),
        swept_clean::<H>(header, trailer, between),
        frameless::<H>(header, trailer, after),
    ensures
        ({
            let first_at = before.len();
            let first_len = frame_len(header, trailer, first.len());
            let second_at = first_at + first_len + between.len();
            let second_len = frame_len(header, trailer, second.len());
            scan::<H>(
                header,
                trailer,
                before + frame_of::<H>(header, trailer, first) + between + frame_of::<H>(
                    header,
                    trailer,
                    second,
                ) + after,
                0,
            ) == seq![
                region_at(header, trailer, first_at, first_len),
                region_at(header, trailer, second_at, second_len),
            ]
        }),
{
    let f1 = frame_of::<H>(header, trailer, first);
    let f2 = frame_of::<H>(header, trailer, second);
    let first_at = before.len();
    let first_len = frame_len(header, trailer, first.len());
    let second_at = first_at + first_len + between.len();
    let second_len = frame_len(header, trailer, second.len());
    let buffer = before + f1 + between + f2 + after;
    let r4 = f2 + after;
    let r3 = between + r4;
    let r2 = f1 + r3;
    assert(buffer =~= before + r2);
    lemma_scan_filler::<H>(header, trailer, before, r2, 0);
    lemma_scan_frame::<H>(header, trailer, first, r3, first_at);
    lemma_scan_filler::<H>(header, trailer, between, r4, first_at + first_len);
    lemma_scan_frame::<H>(header, trailer, second, after, second_at);
    lemma_scan_frameless::<H>(header, trailer, after, second_at + second_len);
    assert(seq![region_at(header, trailer, first_at, first_len)] + (seq![
        region_at(header, trailer, second_at, second_len),
    ] + Seq::<DecodedBuffer>::empty()) =~= seq![
        region_at(header, trailer, first_at, first_len),
        region_at(header, trailer, second_at, second_len),
    ]);
}

/// Regions of a sweep: every region reported is a frame of the input, its
/// payload lies inside it, and the regions follow one another from left to
/// right without overlap.
pub proof fn law_scan_regions<H: FrameHasher>(
    header: Seq<u8>,
    trailer: Seq<u8>,
    input: Seq<u8>,
    base: nat,
)
    requires
        base + input.len() <= usize::MAX,
    ensures
        ({
            let found = scan::<H>(header, trailer, input, base);
            &&& forall|i: int|
                0 <= i < found.len() ==> {
                    let start = (#[trigger] found[i]).entire_buffer.start;
                    let end = found[i].entire_buffer.end;
                    &&& found[i].nested()
                    &&& base <= start <= end <= base + input.len()
                    &&& found[i] == region_at(header, trailer, start as nat, (end - start) as nat)
                    &&& attempt::<H>(header, trailer, input.subrange(start - base, end - base))
                        == (Attempt::Frame { len: (end - start) as nat })
                }
            &&& forall|i: int, j: int|
                0 <= i < j < found.len() ==> (#[trigger] found[i]).entire_buffer.end <= (
                #[trigger] found[j]).entire_buffer.start
        }),
    decreases input.len(),
{
    reveal(scan);
    let found = scan::<H>(header, trailer, input, base);
    lemma_attempt_bounds::<H>(header, trailer, input);
    match attempt::<H>(header, trailer, input) {
        Attempt::Frame { len } => {
            let rest = input.skip(len as int);
            let more = scan::<H>(header, trailer, rest, base + len);
            law_scan_regions::<H>(header, trailer, rest, base + len);
            let here = region_at(header, trailer, base, len);
            assert(found =~= seq![here] + more);
            assert(input.take(len as int) + rest =~= input);
            assert(input.subrange(0, len as int) =~= input.take(len as int));
            law_frame_prefix::<H>(header, trailer, input, len);
            assert forall|i: int| 0 <= i < found.len() implies {
                let start = (#[trigger] found[i]).entire_buffer.start;
                let end = found[i].entire_buffer.end;
                &&& found[i].nested()
                &&& base <= start <= end <= base + input.len()
                &&& found[i] == region_at(header, trailer, start as nat, (end - start) as nat)
                &&& attempt::<H>(header, trailer, input.subrange(start - base, end - base))
                    == (Attempt::Frame { len: (end - start) as nat })
            } by {
                if i > 0 {
                    let r = more[i - 1];
                    assert(found[i] == r);
                    let start = r.entire_buffer.start;
                    let end = r.entire_buffer.end;
                    assert(rest.subrange(start - (base + len), end - (base + len))
                        =~= input.subrange(start - base, end - base));
                }
            }
            assert forall|i: int, j: int| 0 <= i < j < found.len() implies (
            #[trigger] found[i]).entire_buffer.end <= (#[trigger] found[j]).entire_buffer.start by {
                assert(found[j] == more[j - 1]);
                if i > 0 {
                    assert(found[i] == more[i - 1]);
                }
            }
        },
        Attempt::Reject { at, .. } => {
            let rest = input.skip(at as int + 1);
            law_scan_regions::<H>(header, trailer, rest, base + at + 1);
            assert forall|i: int| 0 <= i < found.len() implies {
                let start = (#[trigger] found[i]).entire_buffer.start;
                let end = found[i].entire_buffer.end;
                attempt::<H>(header, trailer, input.subrange(start - base, end - base))
                    == (Attempt::Frame { len: (end - start) as nat })
            } by {
                let start = found[i].entire_buffer.start;
                let end = found[i].entire_buffer.end;
                assert(rest.subrange(start - (base + at + 1), end - (base + at + 1))
                    =~= input.subrange(start - base, end - base));
            }
        },
        Attempt::Short => {},
    }
}

/// A frame found at the start of an input is found in its own bytes alone.
pub proof fn law_frame_prefix<H: FrameHasher>(
    header: Seq<u8>,
    trailer: Seq<u8>,
    input: Seq<u8>,
    len: nat,
)
    requires
        attempt::<H>(header, trailer, input) == (Attempt::Frame { len }),
    ensures
        len <= input.len(),
        attempt::<H>(header, trailer, input.take(len as int)) == (Attempt::Frame { len }),
{
    reveal(attempt);
    lemma_attempt_bounds::<H>(header, trailer, input);
    let h = header.len() as int;
    let first = input.take(len as int);
    lemma_matched(input, header);
    lemma_matched_is(first, header, header.len());
    assert(first.subrange(h, h + 13) =~= input.subrange(h, h + 13));
    let record = BufferChecksum::unpacked(input.subrange(h, h + 13));
    let payload_end = h + 13 + record.size;
    lemma_matched(input.skip(payload_end), trailer);
    lemma_matched_is(first.skip(payload_end), trailer, trailer.len());
    assert(first.subrange(h + 13, payload_end) =~= input.subrange(h + 13, payload_end));
}

} // verus!
