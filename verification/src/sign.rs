//! The framing configuration: it signs payloads, decodes single frames and
//! finds the frames in a buffer.

use crate::base::{
    BufferSize, DecodedBuffer, RetrievalError, SignedBufferError, SignedBufferResult, SigningError,
};
use crate::decoder::SignedBufferDecoder;
use crate::detector::SignedBufferDetector;
use crate::frame::{
    attempt, frame_len, frame_of, hash_input, lemma_attempt_bounds, lemma_attempt_stable,
    lemma_scan_short, lemma_scan_step, record_for, region_at, scan, Attempt, FORMAT_VERSION,
};
use crate::hasher::{FrameHasher, Sip24};
use crate::laws::law_scan_regions;
use crate::structs::{size_bytes, BufferChecksum};
use std::marker::PhantomData;
use vstd::prelude::*;

verus! {

/// The framing of one channel: its magic bytes, its size policy and, through
/// `H`, its hash. Both ends of a channel use the same configuration.
#[derive(Debug)]
pub struct SignedBuffer<'a, H> {
    size: BufferSize,
    header_magic_bytes: &'a [u8],
    trailer_magic_bytes: &'a [u8],
    _hasher: PhantomData<H>,
}

/// A framing configuration as contracts see it.
pub ghost struct Framing {
    pub size: BufferSize,
    pub header: Seq<u8>,
    pub trailer: Seq<u8>,
}

impl<'a, H> View for SignedBuffer<'a, H> {
    type V = Framing;

    closed spec fn view(&self) -> Framing {
        Framing {
            size: self.size,
            header: self.header_magic_bytes@,
            trailer: self.trailer_magic_bytes@,
        }
    }
}

/// Whether a payload of `n` bytes can be signed: it is not empty, its length
/// fits the 32-bit size field, and the hasher can count it.
pub open spec fn signable(n: nat) -> bool {
    0 < n <= u32::MAX && n + 5 <= usize::MAX
}

impl<'a, H> SignedBuffer<'a, H> where H: FrameHasher {
    /// A configuration with the given size policy and magic bytes. Every
    /// combination is accepted.
    pub fn new(size: BufferSize, header: &'a [u8], trailer: &'a [u8]) -> (r: Result<
        Self,
        SignedBufferError,
    >)
        ensures
            r is Ok,
            r->Ok_0@ == (Framing { size, header: header@, trailer: trailer@ }),
    {
        let s = SignedBuffer {
            size: size,
            header_magic_bytes: header,
            trailer_magic_bytes: trailer,
            _hasher: PhantomData,
        };
        Ok(s)
    }

    /// Signs `payload`: computes its checksum record and hands back the four
    /// segments of the frame, the payload and the magic borrowed.
    ///
    /// The size policy of the configuration is not held against the payload.
    pub fn sign(&'a self, payload: &'a [u8]) -> (r: Result<SignedBufferResult<'a>, SigningError>)
        ensures
            payload@.len() == 0 ==> r == Err::<SignedBufferResult<'a>, _>(
                SigningError::PayloadEmpty,
            ),
            payload@.len() > 0 && !signable(payload@.len()) ==> r == Err::<
                SignedBufferResult<'a>,
                _,
            >(SigningError::PayloadTooLarge),
            signable(payload@.len()) ==> {
                &&& r is Ok
                &&& r->Ok_0.checksum == record_for::<H>(payload@)
                &&& r->Ok_0.payload@ == payload@
                &&& r->Ok_0.header@ == self@.header
                &&& r->Ok_0.trailer@ == self@.trailer
                &&& r->Ok_0.wire() == frame_of::<H>(self@.header, self@.trailer, payload@)
            },
    {
        if payload.len() == 0 {
            return Err(SigningError::PayloadEmpty);
        }
        if payload.len() > 0xffff_ffff || payload.len() > usize::MAX - 5 {
            return Err(SigningError::PayloadTooLarge);
        }
        let version = self.version();
        let size: u32 = payload.len() as u32;

        let mut hasher: H = H::init();
        let v = [version];
        hasher.update(v.as_slice());
        let sz = size_bytes(size);
        hasher.update(sz.as_slice());
        hasher.update(payload);
        let checksum = hasher.finish();
        assert(hasher.absorbed() =~= hash_input(version, size, payload@));

        let b = BufferChecksum { version: version, size: size, checksum: checksum };

        let r = SignedBufferResult {
            checksum: b,
            payload: payload,
            header: self.header_magic_bytes,
            trailer: self.trailer_magic_bytes,
        };
        Ok(r)
    }

    /// A detector that looks for frames of this configuration in a stream.
    pub fn new_decoder(&self) -> (d: SignedBufferDetector<'_, H>)
        ensures
            d.wf(),
            d.framing() == self@,
            d.position() == 0,
            d.pending() == Seq::<u8>::empty(),
    {
        SignedBufferDetector::new(self)
    }

    /// Decodes the frame that starts at the first byte of `buffer`, and returns
    /// the number of bytes it takes up and where it lies. Bytes behind the
    /// frame are not looked at.
    ///
    /// The first byte that cannot belong to a frame ends the call with its
    /// error; a buffer that ends inside the frame gives `MissingData`.
    pub fn decode(&self, buffer: &[u8]) -> (r: Result<(usize, DecodedBuffer), RetrievalError>)
        ensures
            match attempt::<H>(self@.header, self@.trailer, buffer@) {
                Attempt::Frame { len } => r == Ok::<_, RetrievalError>(
                    (len as usize, region_at(self@.header, self@.trailer, 0, len)),
                ),
                Attempt::Reject { error, .. } => r == Err::<(usize, DecodedBuffer), _>(error),
                Attempt::Short => r == Err::<(usize, DecodedBuffer), _>(
                    RetrievalError::MissingData,
                ),
            },
            r matches Ok((consumed, region)) ==> {
                &&& consumed <= buffer@.len()
                &&& region.nested()
                &&& region.entire_buffer.start == 0
                &&& region.entire_buffer.end == consumed
            },
    {
        let mut decoder = SignedBufferDecoder::new(self, 0);

        let mut i: usize = 0;
        while i < buffer.len()
            invariant
                i <= buffer@.len(),
                decoder.wf(),
                decoder.framing() == self@,
                decoder.position() == i,
                decoder.consumed() == buffer@.take(i as int),
                !decoder.finished(),
            decreases buffer@.len() - i,
        {
            let b = buffer[i];
            proof {
                assert(buffer@.take(i as int).push(b) =~= buffer@.take(i + 1));
                assert(buffer@.take(i + 1) + buffer@.skip(i + 1) =~= buffer@);
                if attempt::<H>(self@.header, self@.trailer, buffer@.take(i + 1))
                    != Attempt::Short {
                    lemma_attempt_stable::<H>(
                        self@.header,
                        self@.trailer,
                        buffer@.take(i + 1),
                        buffer@.skip(i + 1),
                    );
                }
            }
            match decoder.read_byte(b) {
                Ok(_) => {},
                Err(e) => {
                    return Err(e);
                },
            }
            i += 1;

            if let Some(payload) = decoder.finished_payload() {
                proof {
                    lemma_attempt_bounds::<H>(self@.header, self@.trailer, buffer@);
                }
                return Ok((i, DecodedBuffer { payload_position: payload, entire_buffer: 0..i }));
            }
        }
        proof {
            assert(buffer@.take(i as int) =~= buffer@);
            decoder.lemma_consumed();
        }

        Err(RetrievalError::MissingData)
    }

    /// Finds every frame in `buffer`, from left to right. After a frame the
    /// search goes on behind it, after a refused byte behind that byte; it
    /// never goes back.
    pub fn decode_all(&self, buffer: &[u8]) -> (found: Vec<DecodedBuffer>)
        ensures
            found@ == scan::<H>(self@.header, self@.trailer, buffer@, 0),
            forall|i: int|
                0 <= i < found@.len() ==> (#[trigger] found@[i]).nested()
                    && found@[i].entire_buffer.end <= buffer@.len(),
            forall|i: int, j: int|
                0 <= i < j < found@.len() ==> (#[trigger] found@[i]).entire_buffer.end <= (
                #[trigger] found@[j]).entire_buffer.start,
    {
        let mut decoder = self.new_decoder();
        let mut ret: Vec<DecodedBuffer> = Vec::new();
        let ghost header = self@.header;
        let ghost trailer = self@.trailer;
        assert(buffer@.skip(0) =~= buffer@);
        assert(ret@ + scan::<H>(header, trailer, buffer@, 0) =~= scan::<H>(
            header,
            trailer,
            buffer@,
            0,
        ));

        let mut i: usize = 0;
        while i < buffer.len()
            invariant
                i <= buffer@.len(),
                header == self@.header,
                trailer == self@.trailer,
                decoder.wf(),
                decoder.framing() == self@,
                decoder.position() == i,
                decoder.pending().len() <= i,
                decoder.pending() == buffer@.subrange(i - decoder.pending().len(), i as int),
                ret@ + scan::<H>(
                    header,
                    trailer,
                    buffer@.skip(i - decoder.pending().len()),
                    (i - decoder.pending().len()) as nat,
                ) == scan::<H>(header, trailer, buffer@, 0),
            decreases buffer@.len() - i,
        {
            let b = buffer[i];
            let ghost start = (i - decoder.pending().len()) as nat;
            let ghost rest = buffer@.skip(start as int);
            let ghost found = ret@;
            proof {
                decoder.lemma_pending();
                assert(rest.take(i + 1 - start) =~= decoder.pending().push(b));
                assert(rest.skip(i + 1 - start) =~= buffer@.skip(i + 1));
                assert(buffer@.subrange(i + 1, i + 1) =~= Seq::<u8>::empty());
                assert(buffer@.subrange(start as int, i + 1) =~= decoder.pending().push(b));
                lemma_scan_step::<H>(header, trailer, rest, start, (i + 1 - start) as nat);
            }
            if let Some(d) = decoder.decode_byte(b) {
                ret.push(d);
                assert(ret@ + scan::<H>(header, trailer, buffer@.skip(i + 1), (i + 1) as nat)
                    =~= found + scan::<H>(header, trailer, rest, start));
            }
            i += 1;
        }
        proof {
            decoder.lemma_pending();
            let start = (i - decoder.pending().len()) as nat;
            assert(buffer@.subrange(start as int, i as int) =~= buffer@.skip(start as int));
            lemma_scan_short::<H>(header, trailer, buffer@.skip(start as int), start);
            assert(ret@ + Seq::<DecodedBuffer>::empty() =~= ret@);
            law_scan_regions::<H>(header, trailer, buffer@, 0);
        }

        ret
    }

    /// The size policy this configuration was made with.
    pub fn size_policy(&self) -> (size: BufferSize)
        ensures
            size == self@.size,
    {
        self.size
    }

    /// The header magic.
    pub fn header_magic(&self) -> (bytes: &'a [u8])
        ensures
            bytes@ == self@.header,
    {
        self.header_magic_bytes
    }

    /// The trailer magic.
    pub fn trailer_magic(&self) -> (bytes: &'a [u8])
        ensures
            bytes@ == self@.trailer,
    {
        self.trailer_magic_bytes
    }

    /// The format version this library writes, and the newest it reads.
    pub fn version(&self) -> (v: u8)
        ensures
            v == FORMAT_VERSION,
    {
        1
    }

    /// Length of a frame whose payload has `payload_size` bytes. The length
    /// has to fit in a `usize`.
    pub fn buffer_len(&self, payload_size: usize) -> (len: usize)
        requires
            frame_len(self@.header, self@.trailer, payload_size as nat) <= usize::MAX,
        ensures
            len == frame_len(self@.header, self@.trailer, payload_size as nat),
    {
        self.header_magic_bytes.len() + self.trailer_magic_bytes.len()
            + BufferChecksum::packed_bytes() + payload_size
    }
}

impl<'a> SignedBuffer<'a, Sip24> {
    /// A configuration that hashes with SipHash-2-4 under the all-zero key.
    pub fn new_sip24(size: BufferSize, header: &'a [u8], trailer: &'a [u8]) -> (r: Result<
        Self,
        SignedBufferError,
    >)
        ensures
            r is Ok,
            r->Ok_0@ == (Framing { size, header: header@, trailer: trailer@ }),
    {
        Self::new(size, header, trailer)
    }
}

} // verus!
