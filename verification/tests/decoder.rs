use signed_buffer::{
    BufferChecksum, BufferSize, DecodedBuffer, RetrievalError, SignedBuffer, SignedBufferDecoder,
    SignedBufferResult,
};

const HEADER: [u8; 3] = [31, 63, 127];
const TRAILER: [u8; 3] = [127, 63, 31];

fn hello_frame() -> Vec<u8> {
    vec![
        31, 63, 127, 1, 0, 0, 0, 12, 73, 123, 129, 12, 50, 200, 198, 206, 72, 101, 108, 108, 111,
        32, 119, 111, 114, 108, 100, 33, 127, 63, 31,
    ]
}

fn crafted(version: u8, size: u32, checksum: u64, payload: &[u8]) -> Vec<u8> {
    SignedBufferResult {
        checksum: BufferChecksum { version, size, checksum },
        payload,
        header: &HEADER,
        trailer: &TRAILER,
    }
    .assemble()
}

#[test]
fn decode_known_frame() {
    let s = SignedBuffer::new_sip24(BufferSize::Dynamic { max_bytes: 8192 }, &HEADER, &TRAILER)
        .unwrap();
    let frame = hello_frame();
    let (consumed, region) = s.decode(&frame).unwrap();
    assert_eq!(consumed, 31);
    assert_eq!(region, DecodedBuffer { payload_position: 16..28, entire_buffer: 0..31 });
    assert_eq!(region.get_payload_from_buffer(&frame), b"Hello world!");
}

#[test]
fn round_trip_of_many_payloads() {
    let s = SignedBuffer::new_sip24(BufferSize::Dynamic { max_bytes: 8192 }, &HEADER, &TRAILER)
        .unwrap();
    for len in 1..70usize {
        let payload: Vec<u8> = (0..len).map(|i| (i * 7 + len) as u8).collect();
        let frame = s.sign(&payload).unwrap().assemble();
        assert_eq!(frame.len(), s.buffer_len(len));
        let (consumed, region) = s.decode(&frame).unwrap();
        assert_eq!(consumed, s.buffer_len(len));
        assert_eq!(region.entire_buffer, 0..frame.len());
        assert_eq!(region.payload_position, 16..16 + len);
        assert_eq!(region.get_payload_from_buffer(&frame), &payload[..]);
    }
}

#[test]
fn round_trip_with_other_magic() {
    let header = [0xAA];
    let trailer = [1, 2, 3, 4, 5, 6, 7, 8, 9];
    let s = SignedBuffer::new_sip24(BufferSize::Fixed { bytes: 2 }, &header, &trailer).unwrap();
    let frame = s.sign(&[0xAA, 1]).unwrap().assemble();
    let (consumed, region) = s.decode(&frame).unwrap();
    assert_eq!(consumed, 1 + 13 + 2 + 9);
    assert_eq!(region.payload_position, 14..16);
    assert_eq!(region.get_payload_from_buffer(&frame), &[0xAA, 1]);
}

#[test]
fn decode_ignores_what_follows_the_frame() {
    let s = SignedBuffer::new_sip24(BufferSize::Dynamic { max_bytes: 8192 }, &HEADER, &TRAILER)
        .unwrap();
    let mut buffer = hello_frame();
    buffer.extend_from_slice(&[9, 9, 9, 31, 63]);
    let (consumed, region) = s.decode(&buffer).unwrap();
    assert_eq!(consumed, 31);
    assert_eq!(region.entire_buffer, 0..31);
}

#[test]
fn decode_of_a_short_buffer_misses_data() {
    let s = SignedBuffer::new_sip24(BufferSize::Dynamic { max_bytes: 8192 }, &HEADER, &TRAILER)
        .unwrap();
    let frame = hello_frame();
    for len in 0..frame.len() {
        assert_eq!(s.decode(&frame[..len]), Err(RetrievalError::MissingData));
    }
}

#[test]
fn every_header_byte_is_enforced() {
    let s = SignedBuffer::new_sip24(BufferSize::Dynamic { max_bytes: 8192 }, &HEADER, &TRAILER)
        .unwrap();
    for i in 0..3 {
        let mut frame = hello_frame();
        frame[i] ^= 0x01;
        assert_eq!(s.decode(&frame), Err(RetrievalError::InvalidHeader));
        assert_eq!(s.decode(&frame[..i + 1]), Err(RetrievalError::InvalidHeader));
    }
}

#[test]
fn every_trailer_byte_is_enforced() {
    let s = SignedBuffer::new_sip24(BufferSize::Dynamic { max_bytes: 8192 }, &HEADER, &TRAILER)
        .unwrap();
    for i in 28..31 {
        let mut frame = hello_frame();
        frame[i] ^= 0x80;
        assert_eq!(s.decode(&frame), Err(RetrievalError::InvalidTrailer));
    }
}

#[test]
fn every_payload_byte_is_covered_by_the_hash() {
    let s = SignedBuffer::new_sip24(BufferSize::Dynamic { max_bytes: 8192 }, &HEADER, &TRAILER)
        .unwrap();
    for i in 16..28 {
        for bit in 0..8 {
            let mut frame = hello_frame();
            frame[i] ^= 1 << bit;
            assert_eq!(s.decode(&frame), Err(RetrievalError::InvalidHash));
        }
    }
}

#[test]
fn every_checksum_byte_is_compared() {
    let s = SignedBuffer::new_sip24(BufferSize::Dynamic { max_bytes: 8192 }, &HEADER, &TRAILER)
        .unwrap();
    for i in 8..16 {
        let mut frame = hello_frame();
        frame[i] = frame[i].wrapping_add(1);
        assert_eq!(s.decode(&frame), Err(RetrievalError::InvalidHash));
    }
}

#[test]
fn version_byte_is_covered_by_the_hash() {
    let s = SignedBuffer::new_sip24(BufferSize::Dynamic { max_bytes: 8192 }, &HEADER, &TRAILER)
        .unwrap();
    let mut frame = hello_frame();
    frame[3] = 0;
    assert_eq!(s.decode(&frame), Err(RetrievalError::InvalidHash));
}

#[test]
fn newer_version_is_refused_with_its_number() {
    let s = SignedBuffer::new_sip24(BufferSize::Dynamic { max_bytes: 8192 }, &HEADER, &TRAILER)
        .unwrap();
    let mut frame = hello_frame();
    frame[3] = 2;
    assert_eq!(s.decode(&frame), Err(RetrievalError::UnsupportedVersion { received_version: 2 }));

    let frame = crafted(200, 3, 0, &[1, 2, 3]);
    assert_eq!(
        s.decode(&frame),
        Err(RetrievalError::UnsupportedVersion { received_version: 200 })
    );
    // the record alone decides: nothing behind it is looked at
    assert_eq!(
        s.decode(&frame[..16]),
        Err(RetrievalError::UnsupportedVersion { received_version: 200 })
    );
    // and the version is judged before the size
    let frame = crafted(2, 0, 0, &[]);
    assert_eq!(s.decode(&frame), Err(RetrievalError::UnsupportedVersion { received_version: 2 }));
}

#[test]
fn zero_size_is_refused() {
    let s = SignedBuffer::new_sip24(BufferSize::Dynamic { max_bytes: 8192 }, &HEADER, &TRAILER)
        .unwrap();
    let frame = crafted(1, 0, 0x1e924b9d737700d7, &[]);
    assert_eq!(s.decode(&frame), Err(RetrievalError::EmptyPayloadSize));
    assert_eq!(s.decode(&frame[..16]), Err(RetrievalError::EmptyPayloadSize));
    let frame = crafted(0, 0, 0, &[5, 5]);
    assert_eq!(s.decode(&frame), Err(RetrievalError::EmptyPayloadSize));
}

#[test]
fn version_zero_is_read() {
    // checksum over version 0, size 1, payload "a"
    let s = SignedBuffer::new_sip24(BufferSize::Dynamic { max_bytes: 8192 }, &HEADER, &TRAILER)
        .unwrap();
    let wrong = crafted(0, 1, 0xf979b2a37ce5b5a5, b"a");
    assert_eq!(s.decode(&wrong), Err(RetrievalError::InvalidHash));
}

#[test]
fn smaller_size_moves_the_trailer() {
    let s = SignedBuffer::new_sip24(BufferSize::Dynamic { max_bytes: 8192 }, &HEADER, &TRAILER)
        .unwrap();
    let mut frame = hello_frame();
    frame[7] = 11;
    assert_eq!(s.decode(&frame), Err(RetrievalError::InvalidTrailer));
    let mut frame = hello_frame();
    frame[7] = 13;
    assert_eq!(s.decode(&frame), Err(RetrievalError::InvalidTrailer));
    let mut frame = hello_frame();
    frame[6] = 1;
    assert_eq!(s.decode(&frame), Err(RetrievalError::MissingData));
}

#[test]
fn decoder_reads_byte_by_byte() {
    let s = SignedBuffer::new_sip24(BufferSize::Dynamic { max_bytes: 8192 }, &HEADER, &TRAILER)
        .unwrap();
    let frame = hello_frame();
    let mut decoder = SignedBufferDecoder::new(&s, 100);
    for (i, b) in frame.iter().enumerate() {
        assert_eq!(decoder.finished_payload(), None);
        assert_eq!(decoder.read_byte(*b), Ok(()), "byte {}", i);
    }
    assert_eq!(decoder.finished_payload(), Some(116..128));
}

#[test]
fn finished_decoder_takes_no_more() {
    let s = SignedBuffer::new_sip24(BufferSize::Dynamic { max_bytes: 8192 }, &HEADER, &TRAILER)
        .unwrap();
    let mut decoder = SignedBufferDecoder::new(&s, 0);
    for b in hello_frame() {
        decoder.read_byte(b).unwrap();
    }
    assert_eq!(decoder.read_byte(31), Err(RetrievalError::TooMuchData));
    assert_eq!(decoder.read_byte(0), Err(RetrievalError::TooMuchData));
    assert_eq!(decoder.finished_payload(), Some(16..28));
}

#[test]
fn refused_byte_leaves_the_decoder_as_it_was() {
    let s = SignedBuffer::new_sip24(BufferSize::Dynamic { max_bytes: 8192 }, &HEADER, &TRAILER)
        .unwrap();
    let frame = hello_frame();
    let mut decoder = SignedBufferDecoder::new(&s, 0);
    for (i, b) in frame.iter().enumerate() {
        if i < 3 {
            assert_eq!(decoder.read_byte(b.wrapping_add(1)), Err(RetrievalError::InvalidHeader));
        }
        if i >= 28 {
            assert_eq!(decoder.read_byte(b.wrapping_add(1)), Err(RetrievalError::InvalidTrailer));
        }
        assert_eq!(decoder.read_byte(*b), Ok(()));
    }
    assert_eq!(decoder.finished_payload(), Some(16..28));
}

#[test]
fn wrong_hash_is_found_at_the_last_byte() {
    let s = SignedBuffer::new_sip24(BufferSize::Dynamic { max_bytes: 8192 }, &HEADER, &TRAILER)
        .unwrap();
    let mut frame = hello_frame();
    frame[20] ^= 0xFF;
    let mut decoder = SignedBufferDecoder::new(&s, 0);
    for b in &frame[..30] {
        assert_eq!(decoder.read_byte(*b), Ok(()));
    }
    assert_eq!(decoder.read_byte(frame[30]), Err(RetrievalError::InvalidHash));
    assert_eq!(decoder.read_byte(frame[30]), Err(RetrievalError::InvalidHash));
    assert_eq!(decoder.read_byte(0), Err(RetrievalError::InvalidTrailer));
    assert_eq!(decoder.finished_payload(), None);
}

#[test]
fn round_trip_without_header() {
    let s =
        SignedBuffer::new_sip24(BufferSize::Dynamic { max_bytes: 8192 }, &[], &TRAILER).unwrap();
    let frame = s.sign(b"Hello world!").unwrap().assemble();
    assert_eq!(frame, &hello_frame()[3..]);
    assert_eq!(s.buffer_len(12), 28);
    let (consumed, region) = s.decode(&frame).unwrap();
    assert_eq!(consumed, 28);
    assert_eq!(region, DecodedBuffer { payload_position: 13..25, entire_buffer: 0..28 });
    assert_eq!(region.get_payload_from_buffer(&frame), b"Hello world!");
}

#[test]
fn round_trip_without_trailer() {
    let s = SignedBuffer::new_sip24(BufferSize::Dynamic { max_bytes: 8192 }, &HEADER, &[]).unwrap();
    let frame = s.sign(b"Hello world!").unwrap().assemble();
    assert_eq!(frame, &hello_frame()[..28]);
    assert_eq!(s.buffer_len(12), 28);
    let (consumed, region) = s.decode(&frame).unwrap();
    assert_eq!(consumed, 28);
    assert_eq!(region, DecodedBuffer { payload_position: 16..28, entire_buffer: 0..28 });
    assert_eq!(region.get_payload_from_buffer(&frame), b"Hello world!");
}

#[test]
fn round_trip_without_magic() {
    let s = SignedBuffer::new_sip24(BufferSize::Dynamic { max_bytes: 8192 }, &[], &[]).unwrap();
    let frame = s.sign(b"Hello world!").unwrap().assemble();
    assert_eq!(frame, &hello_frame()[3..28]);
    let (consumed, region) = s.decode(&frame).unwrap();
    assert_eq!(consumed, 25);
    assert_eq!(region, DecodedBuffer { payload_position: 13..25, entire_buffer: 0..25 });
    assert_eq!(region.get_payload_from_buffer(&frame), b"Hello world!");
    // bytes behind the frame are not looked at
    let mut longer = frame.clone();
    longer.extend_from_slice(&[1, 2, 3]);
    assert_eq!(s.decode(&longer), Ok((25, region)));
}

#[test]
fn round_trip_of_many_payloads_under_any_magic() {
    let magics: [(&[u8], &[u8]); 4] =
        [(&[], &[]), (&[], &[9]), (&[9, 9], &[]), (&[1, 2, 3, 4], &[5, 6])];
    for (header, trailer) in magics.iter() {
        let s = SignedBuffer::new_sip24(BufferSize::Fixed { bytes: 1 }, header, trailer).unwrap();
        for len in 1..40usize {
            let payload: Vec<u8> = (0..len).map(|i| (i * 3 + len) as u8).collect();
            let frame = s.sign(&payload).unwrap().assemble();
            let total = header.len() + 13 + len + trailer.len();
            assert_eq!(frame.len(), total);
            let (consumed, region) = s.decode(&frame).unwrap();
            assert_eq!(consumed, total);
            assert_eq!(region.entire_buffer, 0..total);
            assert_eq!(region.payload_position, header.len() + 13..header.len() + 13 + len);
            assert_eq!(region.get_payload_from_buffer(&frame), &payload[..]);
        }
    }
}

#[test]
fn errors_without_trailer() {
    let s = SignedBuffer::new_sip24(BufferSize::Dynamic { max_bytes: 8192 }, &HEADER, &[]).unwrap();
    let frame = hello_frame()[..28].to_vec();
    for len in 0..28 {
        assert_eq!(s.decode(&frame[..len]), Err(RetrievalError::MissingData));
    }
    for i in 8..28 {
        let mut forged = frame.clone();
        forged[i] ^= 0x10;
        assert_eq!(s.decode(&forged), Err(RetrievalError::InvalidHash));
    }
    let mut forged = frame.clone();
    forged[0] = 0;
    assert_eq!(s.decode(&forged), Err(RetrievalError::InvalidHeader));
    let mut forged = frame.clone();
    forged[3] = 9;
    assert_eq!(s.decode(&forged), Err(RetrievalError::UnsupportedVersion { received_version: 9 }));
    let mut forged = frame.clone();
    forged[7] = 0;
    assert_eq!(s.decode(&forged), Err(RetrievalError::EmptyPayloadSize));
}

#[test]
fn errors_without_header() {
    let s =
        SignedBuffer::new_sip24(BufferSize::Dynamic { max_bytes: 8192 }, &[], &TRAILER).unwrap();
    let frame = hello_frame()[3..].to_vec();
    assert_eq!(s.decode(&[]), Err(RetrievalError::MissingData));
    let mut forged = frame.clone();
    forged[0] = 2;
    assert_eq!(
        s.decode(&forged[..13]),
        Err(RetrievalError::UnsupportedVersion { received_version: 2 })
    );
    assert_eq!(s.decode(&forged[..12]), Err(RetrievalError::MissingData));
    let mut forged = frame.clone();
    forged[27] = 0;
    assert_eq!(s.decode(&forged), Err(RetrievalError::InvalidTrailer));
    let mut forged = frame.clone();
    forged[20] ^= 1;
    assert_eq!(s.decode(&forged), Err(RetrievalError::InvalidHash));
}

#[test]
fn last_payload_byte_is_judged_before_it_is_taken() {
    let s = SignedBuffer::new_sip24(BufferSize::Dynamic { max_bytes: 8192 }, &HEADER, &[]).unwrap();
    let frame = hello_frame()[..28].to_vec();
    let mut decoder = SignedBufferDecoder::new(&s, 0);
    for b in &frame[..27] {
        assert_eq!(decoder.read_byte(*b), Ok(()));
    }
    assert_eq!(decoder.finished_payload(), None);
    // a wrong last byte is refused and leaves the decoder where it was
    assert_eq!(decoder.read_byte(b'?'), Err(RetrievalError::InvalidHash));
    assert_eq!(decoder.read_byte(0), Err(RetrievalError::InvalidHash));
    assert_eq!(decoder.finished_payload(), None);
    assert_eq!(decoder.read_byte(frame[27]), Ok(()));
    assert_eq!(decoder.finished_payload(), Some(16..28));
    assert_eq!(decoder.read_byte(frame[27]), Err(RetrievalError::TooMuchData));
}

#[test]
fn decoder_without_header_starts_at_the_record() {
    let s = SignedBuffer::new_sip24(BufferSize::Dynamic { max_bytes: 8192 }, &[], &[]).unwrap();
    let frame = hello_frame()[3..28].to_vec();
    let mut decoder = SignedBufferDecoder::new(&s, 7);
    for b in &frame {
        assert_eq!(decoder.finished_payload(), None);
        assert_eq!(decoder.read_byte(*b), Ok(()));
    }
    assert_eq!(decoder.finished_payload(), Some(20..32));
}
