use signed_buffer::structs::size_bytes;
use signed_buffer::BufferChecksum;

#[test]
fn pack_writes_big_endian_fields() {
    let record = BufferChecksum { version: 1, size: 0x0A0B0C0D, checksum: 0x0102030405060708 };
    assert_eq!(
        record.pack(),
        [1, 0x0A, 0x0B, 0x0C, 0x0D, 0x01, 0x02, 0x03, 0x04, 0x05, 0x06, 0x07, 0x08]
    );
}

#[test]
fn pack_of_extreme_values() {
    let zero = BufferChecksum { version: 0, size: 0, checksum: 0 };
    assert_eq!(zero.pack(), [0u8; 13]);
    let full = BufferChecksum { version: 255, size: u32::MAX, checksum: u64::MAX };
    assert_eq!(full.pack(), [255u8; 13]);
}

#[test]
fn unpack_reads_big_endian_fields() {
    let bytes = [2, 0, 0, 1, 2, 0xFF, 0, 0, 0, 0, 0, 0, 0x10];
    let record = BufferChecksum::unpack(&bytes);
    assert_eq!(record.version, 2);
    assert_eq!(record.size, 258);
    assert_eq!(record.checksum, 0xFF00_0000_0000_0010);
}

#[test]
fn unpack_inverts_pack() {
    let records = [
        BufferChecksum { version: 1, size: 12, checksum: 0x497b810c32c8c6ce },
        BufferChecksum { version: 0, size: 0, checksum: 0 },
        BufferChecksum { version: 255, size: u32::MAX, checksum: u64::MAX },
        BufferChecksum { version: 7, size: 0x8000_0000, checksum: 0x8000_0000_0000_0001 },
    ];
    for record in records.iter() {
        assert_eq!(BufferChecksum::unpack(&record.pack()), *record);
    }
}

#[test]
fn pack_inverts_unpack() {
    let mut bytes = [0u8; 13];
    for seed in 0..50u32 {
        for (i, b) in bytes.iter_mut().enumerate() {
            *b = (seed.wrapping_mul(37).wrapping_add(i as u32 * 101) % 256) as u8;
        }
        assert_eq!(BufferChecksum::unpack(&bytes).pack(), bytes);
    }
}

#[test]
fn record_is_thirteen_bytes() {
    assert_eq!(BufferChecksum::packed_bytes(), 13);
    assert_eq!(signed_buffer::structs::RECORD_BYTES, 13);
}

#[test]
fn size_bytes_are_big_endian() {
    assert_eq!(size_bytes(12), [0, 0, 0, 12]);
    assert_eq!(size_bytes(0x01020304), [1, 2, 3, 4]);
    assert_eq!(size_bytes(u32::MAX), [255, 255, 255, 255]);
    assert_eq!(size_bytes(0), [0, 0, 0, 0]);
}
