//! The checksum record and its 13-byte big-endian wire layout.

use vstd::prelude::*;

verus! {

/// Width of a packed checksum record in bytes.
pub const RECORD_BYTES: usize = 13;

/// The fixed-size record that precedes the payload of every frame.
#[derive(Copy, Clone, Debug, PartialEq)]
pub struct BufferChecksum {
    /// Format version of the frame.
    pub version: u8,
    /// Payload length in bytes; zero is never valid.
    pub size: u32,
    /// Hash over version, size and payload.
    pub checksum: u64,
}

/// The four bytes of `v`, most significant first.
pub open spec fn u32_be(v: u32) -> Seq<u8> {
    seq![
        (v / 0x100_0000) as u8,
        (v / 0x1_0000 % 0x100) as u8,
        (v / 0x100 % 0x100) as u8,
        (v % 0x100) as u8,
    ]
}

/// The eight bytes of `v`, most significant first.
pub open spec fn u64_be(v: u64) -> Seq<u8> {
    seq![
        (v / 0x100_0000_0000_0000) as u8,
        (v / 0x1_0000_0000_0000 % 0x100) as u8,
        (v / 0x100_0000_0000 % 0x100) as u8,
        (v / 0x1_0000_0000 % 0x100) as u8,
        (v / 0x100_0000 % 0x100) as u8,
        (v / 0x1_0000 % 0x100) as u8,
        (v / 0x100 % 0x100) as u8,
        (v % 0x100) as u8,
    ]
}

/// The number whose big-endian digits are the four bytes of `b`.
pub open spec fn u32_from_be(b: Seq<u8>) -> u32 {
    (b[0] as int * 0x100_0000 + b[1] as int * 0x1_0000 + b[2] as int * 0x100 + b[3] as int) as u32
}

/// The number whose big-endian digits are the eight bytes of `b`.
pub open spec fn u64_from_be(b: Seq<u8>) -> u64 {
    (b[0] as int * 0x100_0000_0000_0000 + b[1] as int * 0x1_0000_0000_0000 + b[2] as int
        * 0x100_0000_0000 + b[3] as int * 0x1_0000_0000 + b[4] as int * 0x100_0000 + b[5] as int
        * 0x1_0000 + b[6] as int * 0x100 + b[7] as int) as u64
}

/// The big-endian bytes of a payload size.
pub fn size_bytes(size: u32) -> (out: [u8; 4])
    ensures
        out@ == u32_be(size),
{
    let out: [u8; 4] = [
        (size / 0x100_0000) as u8,
        (size / 0x1_0000 % 0x100) as u8,
        (size / 0x100 % 0x100) as u8,
        (size % 0x100) as u8,
    ];
    assert(out@ =~= u32_be(size));
    out
}

impl BufferChecksum {
    /// The wire form of a record: version, then size, then checksum, each big-endian.
    pub open spec fn packed(self) -> Seq<u8> {
        seq![self.version] + u32_be(self.size) + u64_be(self.checksum)
    }

    /// The record that thirteen bytes stand for.
    pub open spec fn unpacked(bytes: Seq<u8>) -> BufferChecksum {
        BufferChecksum {
            version: bytes[0],
            size: u32_from_be(bytes.subrange(1, 5)),
            checksum: u64_from_be(bytes.subrange(5, 13)),
        }
    }

    /// Packs the record into its wire form.
    pub fn pack(&self) -> (out: [u8; 13])
        ensures
            out@ == self.packed(),
    {
        let s: u32 = self.size;
        let c: u64 = self.checksum;
        let out: [u8; 13] = [
            self.version,
            (s / 0x100_0000) as u8,
            (s / 0x1_0000 % 0x100) as u8,
            (s / 0x100 % 0x100) as u8,
            (s % 0x100) as u8,
            (c / 0x100_0000_0000_0000) as u8,
            (c / 0x1_0000_0000_0000 % 0x100) as u8,
            (c / 0x100_0000_0000 % 0x100) as u8,
            (c / 0x1_0000_0000 % 0x100) as u8,
            (c / 0x100_0000 % 0x100) as u8,
            (c / 0x1_0000 % 0x100) as u8,
            (c / 0x100 % 0x100) as u8,
            (c % 0x100) as u8,
        ];
        assert(out@ =~= self.packed());
        out
    }

    /// Reads a record back from its wire form. Every thirteen bytes are a record.
    pub fn unpack(bytes: &[u8; 13]) -> (rec: BufferChecksum)
        ensures
            rec == Self::unpacked(bytes@),
            rec.packed() == bytes@,
    {
        let size: u32 = (bytes[1] as u32) * 0x100_0000 + (bytes[2] as u32) * 0x1_0000 + (
        bytes[3] as u32) * 0x100 + (bytes[4] as u32);
        let checksum: u64 = (bytes[5] as u64) * 0x100_0000_0000_0000 + (bytes[6] as u64)
            * 0x1_0000_0000_0000 + (bytes[7] as u64) * 0x100_0000_0000 + (bytes[8] as u64)
            * 0x1_0000_0000 + (bytes[9] as u64) * 0x100_0000 + (bytes[10] as u64) * 0x1_0000 + (
        bytes[11] as u64) * 0x100 + (bytes[12] as u64);
        let rec = BufferChecksum { version: bytes[0], size, checksum };
        proof {
            lemma_pack_unpacked(bytes@);
        }
        rec
    }

    /// Number of bytes a packed record occupies.
    pub fn packed_bytes() -> (n: usize)
        ensures
            n == RECORD_BYTES,
    {
        RECORD_BYTES
    }
}

/// One big-endian digit: appending a byte to a number multiplies it by 256.
proof fn lemma_digit(hi: int, b: int)
    requires
        0 <= hi,
        0 <= b < 256,
    ensures
        (hi * 256 + b) / 256 == hi,
        (hi * 256 + b) % 256 == b,
{
}

/// Four bytes, read as a big-endian number and written out again, are unchanged.
pub proof fn lemma_u32_be_of_bytes(b: Seq<u8>)
    requires
        b.len() == 4,
    ensures
        u32_be(u32_from_be(b)) == b,
{
    let v1 = b[0] as int;
    let v2 = v1 * 256 + b[1] as int;
    let v3 = v2 * 256 + b[2] as int;
    let v4 = v3 * 256 + b[3] as int;
    lemma_digit(v1, b[1] as int);
    lemma_digit(v2, b[2] as int);
    lemma_digit(v3, b[3] as int);
    assert(v4 == u32_from_be(b));
    assert(v4 / 0x100 == v3);
    assert(v4 / 0x1_0000 == v2);
    assert(v4 / 0x100_0000 == v1);
    assert(u32_be(u32_from_be(b)) =~= b);
}

/// A number survives being written as four big-endian bytes and read back.
pub proof fn lemma_u32_from_be_bytes(v: u32)
    ensures
        u32_be(v).len() == 4,
        u32_from_be(u32_be(v)) == v,
{
    let v = v as int;
    let v3 = v / 256;
    let v2 = v3 / 256;
    let v1 = v2 / 256;
    assert(v / 0x1_0000 == v2);
    assert(v / 0x100_0000 == v1);
    assert(v == ((v1 * 256 + v2 % 256) * 256 + v3 % 256) * 256 + v % 256);
}

/// Eight bytes, read as a big-endian number and written out again, are unchanged.
pub proof fn lemma_u64_be_of_bytes(b: Seq<u8>)
    requires
        b.len() == 8,
    ensures
        u64_be(u64_from_be(b)) == b,
{
    let v1 = b[0] as int;
    let v2 = v1 * 256 + b[1] as int;
    let v3 = v2 * 256 + b[2] as int;
    let v4 = v3 * 256 + b[3] as int;
    let v5 = v4 * 256 + b[4] as int;
    let v6 = v5 * 256 + b[5] as int;
    let v7 = v6 * 256 + b[6] as int;
    let v8 = v7 * 256 + b[7] as int;
    lemma_digit(v1, b[1] as int);
    lemma_digit(v2, b[2] as int);
    lemma_digit(v3, b[3] as int);
    lemma_digit(v4, b[4] as int);
    lemma_digit(v5, b[5] as int);
    lemma_digit(v6, b[6] as int);
    lemma_digit(v7, b[7] as int);
    assert(v8 == u64_from_be(b));
    assert(v8 / 0x100 == v7);
    assert(v8 / 0x1_0000 == v6);
    assert(v8 / 0x100_0000 == v5);
    assert(v8 / 0x1_0000_0000 == v4);
    assert(v8 / 0x100_0000_0000 == v3);
    assert(v8 / 0x1_0000_0000_0000 == v2);
    assert(v8 / 0x100_0000_0000_0000 == v1);
    assert(u64_be(u64_from_be(b)) =~= b);
}

/// A number survives being written as eight big-endian bytes and read back.
pub proof fn lemma_u64_from_be_bytes(v: u64)
    ensures
        u64_be(v).len() == 8,
        u64_from_be(u64_be(v)) == v,
{
    let v = v as int;
    let v7 = v / 256;
    let v6 = v7 / 256;
    let v5 = v6 / 256;
    let v4 = v5 / 256;
    let v3 = v4 / 256;
    let v2 = v3 / 256;
    let v1 = v2 / 256;
    assert(v / 0x1_0000 == v6);
    assert(v / 0x100_0000 == v5);
    assert(v / 0x1_0000_0000 == v4);
    assert(v / 0x100_0000_0000 == v3);
    assert(v / 0x1_0000_0000_0000 == v2);
    assert(v / 0x100_0000_0000_0000 == v1);
    assert(v == ((((((v1 * 256 + v2 % 256) * 256 + v3 % 256) * 256 + v4 % 256) * 256 + v5 % 256)
        * 256 + v6 % 256) * 256 + v7 % 256) * 256 + v % 256);
}

/// Packing is the inverse of unpacking: thirteen bytes, read as a record and
/// packed again, are the same thirteen bytes.
pub proof fn lemma_pack_unpacked(bytes: Seq<u8>)
    requires
        bytes.len() == 13,
    ensures
        BufferChecksum::unpacked(bytes).packed() == bytes,
{
    lemma_u32_be_of_bytes(bytes.subrange(1, 5));
    lemma_u64_be_of_bytes(bytes.subrange(5, 13));
    assert(BufferChecksum::unpacked(bytes).packed() =~= bytes);
}

/// Unpacking is the inverse of packing: a record survives the wire unchanged.
pub proof fn lemma_unpack_packed(rec: BufferChecksum)
    ensures
        rec.packed().len() == 13,
        BufferChecksum::unpacked(rec.packed()) == rec,
{
    let bytes = rec.packed();
    lemma_u32_from_be_bytes(rec.size);
    lemma_u64_from_be_bytes(rec.checksum);
    assert(bytes.subrange(1, 5) =~= u32_be(rec.size));
    assert(bytes.subrange(5, 13) =~= u64_be(rec.checksum));
}

} // verus!
