use signed_buffer::{BufferSize, DecodedBuffer, SignedBuffer};

const HEADER: [u8; 3] = [31, 63, 127];
const TRAILER: [u8; 3] = [127, 63, 31];

fn hello_frame() -> Vec<u8> {
    vec![
        31, 63, 127, 1, 0, 0, 0, 12, 73, 123, 129, 12, 50, 200, 198, 206, 72, 101, 108, 108, 111,
        32, 119, 111, 114, 108, 100, 33, 127, 63, 31,
    ]
}

fn region(start: usize, payload: usize) -> DecodedBuffer {
    DecodedBuffer {
        payload_position: start + 16..start + 16 + payload,
        entire_buffer: start..start + 19 + payload,
    }
}

#[test]
fn sweep_of_nothing_finds_nothing() {
    let s = SignedBuffer::new_sip24(BufferSize::Dynamic { max_bytes: 8192 }, &HEADER, &TRAILER)
        .unwrap();
    assert_eq!(s.decode_all(&[]), vec![]);
    assert_eq!(s.decode_all(&[0; 100]), vec![]);
    assert_eq!(s.decode_all(&[31; 100]), vec![]);
}

#[test]
fn sweep_finds_two_frames_between_zeros() {
    let s = SignedBuffer::new_sip24(BufferSize::Dynamic { max_bytes: 8192 }, &HEADER, &TRAILER)
        .unwrap();
    let frame = hello_frame();
    let mut buffer = [0u8; 128];
    buffer[0..31].copy_from_slice(&frame);
    buffer[64..95].copy_from_slice(&frame);
    assert_eq!(s.decode_all(&buffer), vec![region(0, 12), region(64, 12)]);
}

#[test]
fn sweep_finds_frames_of_different_payloads() {
    let s = SignedBuffer::new_sip24(BufferSize::Dynamic { max_bytes: 8192 }, &HEADER, &TRAILER)
        .unwrap();
    let first = s.sign(b"a").unwrap().assemble();
    let second = s.sign(b"Hello world!").unwrap().assemble();
    let mut buffer = vec![5u8, 6, 7];
    buffer.extend_from_slice(&first);
    buffer.extend_from_slice(&[0, 0, 9, 9, 9]);
    buffer.extend_from_slice(&second);
    buffer.extend_from_slice(&[1, 2]);
    let found = s.decode_all(&buffer);
    assert_eq!(found, vec![region(3, 1), region(3 + 20 + 5, 12)]);
    assert_eq!(found[0].get_payload_from_buffer(&buffer), b"a");
    assert_eq!(found[1].get_payload_from_buffer(&buffer), b"Hello world!");
}

#[test]
fn sweep_passes_over_a_broken_beginning_of_the_magic() {
    let s = SignedBuffer::new_sip24(BufferSize::Dynamic { max_bytes: 8192 }, &HEADER, &TRAILER)
        .unwrap();
    let frame = hello_frame();
    // 31 63 0: a beginning of the header that does not go on
    let mut buffer = vec![31u8, 63, 0];
    buffer.extend_from_slice(&frame);
    buffer.extend_from_slice(&[31, 0, 31, 63, 9]);
    buffer.extend_from_slice(&frame);
    assert_eq!(s.decode_all(&buffer), vec![region(3, 12), region(3 + 31 + 5, 12)]);
}

#[test]
fn sweep_does_not_go_back() {
    let s = SignedBuffer::new_sip24(BufferSize::Dynamic { max_bytes: 8192 }, &HEADER, &TRAILER)
        .unwrap();
    let frame = hello_frame();
    // the filler ends in a beginning of the magic: the attempt it opens is
    // refused at the first byte of the frame, and the frame is passed over
    let mut buffer = vec![31u8];
    buffer.extend_from_slice(&frame);
    assert_eq!(s.decode_all(&buffer), vec![]);

    let mut buffer = vec![0u8, 31, 63];
    buffer.extend_from_slice(&frame);
    buffer.extend_from_slice(&[0]);
    buffer.extend_from_slice(&frame);
    assert_eq!(s.decode_all(&buffer), vec![region(3 + 31 + 1, 12)]);
}

#[test]
fn sweep_finds_adjacent_frames() {
    let s = SignedBuffer::new_sip24(BufferSize::Dynamic { max_bytes: 8192 }, &HEADER, &TRAILER)
        .unwrap();
    let frame = hello_frame();
    let mut buffer = Vec::new();
    for _ in 0..4 {
        buffer.extend_from_slice(&frame);
    }
    assert_eq!(
        s.decode_all(&buffer),
        vec![region(0, 12), region(31, 12), region(62, 12), region(93, 12)]
    );
}

#[test]
fn sweep_leaves_out_a_cut_off_frame() {
    let s = SignedBuffer::new_sip24(BufferSize::Dynamic { max_bytes: 8192 }, &HEADER, &TRAILER)
        .unwrap();
    let frame = hello_frame();
    let mut buffer = frame.clone();
    buffer.extend_from_slice(&frame[..30]);
    assert_eq!(s.decode_all(&buffer), vec![region(0, 12)]);
}

#[test]
fn sweep_goes_on_behind_a_tampered_frame() {
    let s = SignedBuffer::new_sip24(BufferSize::Dynamic { max_bytes: 8192 }, &HEADER, &TRAILER)
        .unwrap();
    let frame = hello_frame();
    let mut buffer = frame.clone();
    buffer[20] ^= 1;
    buffer.extend_from_slice(&frame);
    assert_eq!(s.decode_all(&buffer), vec![region(31, 12)]);
}

#[test]
fn regions_are_nested_and_in_order() {
    let s = SignedBuffer::new_sip24(BufferSize::Dynamic { max_bytes: 8192 }, &HEADER, &TRAILER)
        .unwrap();
    let mut buffer = Vec::new();
    for len in 1..20usize {
        let payload: Vec<u8> = (0..len).map(|i| (i + 1) as u8).collect();
        buffer.extend_from_slice(&s.sign(&payload).unwrap().assemble());
        buffer.extend_from_slice(&vec![0u8; len % 3]);
    }
    let found = s.decode_all(&buffer);
    assert_eq!(found.len(), 19);
    let mut last_end = 0;
    for (i, d) in found.iter().enumerate() {
        assert!(last_end <= d.entire_buffer.start);
        assert!(d.entire_buffer.start <= d.payload_position.start);
        assert!(d.payload_position.start <= d.payload_position.end);
        assert!(d.payload_position.end <= d.entire_buffer.end);
        assert!(d.entire_buffer.end <= buffer.len());
        assert_eq!(d.payload_position.len(), i + 1);
        assert_eq!(d.entire_buffer.len(), s.buffer_len(i + 1));
        last_end = d.entire_buffer.end;
    }
}

#[test]
fn detector_reports_a_frame_at_its_last_byte() {
    let s = SignedBuffer::new_sip24(BufferSize::Dynamic { max_bytes: 8192 }, &HEADER, &TRAILER)
        .unwrap();
    let frame = hello_frame();
    let mut detector = s.new_decoder();
    for b in [0u8, 31, 7] {
        assert_eq!(detector.decode_byte(b), None);
    }
    for b in &frame[..30] {
        assert_eq!(detector.decode_byte(*b), None);
    }
    assert_eq!(detector.decode_byte(frame[30]), Some(region(3, 12)));
    // and starts afresh behind it
    for b in &frame[..30] {
        assert_eq!(detector.decode_byte(*b), None);
    }
    assert_eq!(detector.decode_byte(frame[30]), Some(region(34, 12)));
}

#[test]
fn sweep_of_a_part_can_be_moved_into_the_whole() {
    let s = SignedBuffer::new_sip24(BufferSize::Dynamic { max_bytes: 8192 }, &HEADER, &TRAILER)
        .unwrap();
    let frame = hello_frame();
    let mut buffer = vec![0u8; 200];
    buffer[150..181].copy_from_slice(&frame);
    let part = &buffer[100..];
    let found = s.decode_all(part);
    assert_eq!(found, vec![region(50, 12)]);
    let moved = found[0].offset(100);
    assert_eq!(moved, region(150, 12));
    assert_eq!(moved.get_payload_from_buffer(&buffer), b"Hello world!");
}

#[test]
fn sweep_without_trailer() {
    let s = SignedBuffer::new_sip24(BufferSize::Dynamic { max_bytes: 8192 }, &HEADER, &[]).unwrap();
    let frame = hello_frame()[..28].to_vec();
    let mut buffer = vec![0u8; 5];
    buffer.extend_from_slice(&frame);
    buffer.extend_from_slice(&[0; 7]);
    buffer.extend_from_slice(&frame);
    buffer.extend_from_slice(&frame);
    let found = s.decode_all(&buffer);
    assert_eq!(
        found,
        vec![
            DecodedBuffer { payload_position: 21..33, entire_buffer: 5..33 },
            DecodedBuffer { payload_position: 56..68, entire_buffer: 40..68 },
            DecodedBuffer { payload_position: 84..96, entire_buffer: 68..96 },
        ]
    );
    for d in &found {
        assert_eq!(d.get_payload_from_buffer(&buffer), b"Hello world!");
    }
}

#[test]
fn sweep_without_header() {
    // without header magic every attempt begins with a record, and a record
    // of zeros is refused at its thirteenth byte
    let s =
        SignedBuffer::new_sip24(BufferSize::Dynamic { max_bytes: 8192 }, &[], &TRAILER).unwrap();
    let frame = hello_frame()[3..].to_vec();
    let mut buffer = vec![0u8; 26];
    buffer.extend_from_slice(&frame);
    buffer.extend_from_slice(&[0; 13]);
    buffer.extend_from_slice(&frame);
    let found = s.decode_all(&buffer);
    assert_eq!(
        found,
        vec![
            DecodedBuffer { payload_position: 39..51, entire_buffer: 26..54 },
            DecodedBuffer { payload_position: 80..92, entire_buffer: 67..95 },
        ]
    );
    for d in &found {
        assert_eq!(d.get_payload_from_buffer(&buffer), b"Hello world!");
    }
}

#[test]
fn sweep_without_magic() {
    let s = SignedBuffer::new_sip24(BufferSize::Dynamic { max_bytes: 8192 }, &[], &[]).unwrap();
    let frame = hello_frame()[3..28].to_vec();
    let mut buffer = vec![0u8; 13];
    buffer.extend_from_slice(&frame);
    buffer.extend_from_slice(&frame);
    buffer.extend_from_slice(&[0; 26]);
    buffer.extend_from_slice(&frame);
    buffer.extend_from_slice(&frame[..24]);
    let found = s.decode_all(&buffer);
    assert_eq!(
        found,
        vec![
            DecodedBuffer { payload_position: 26..38, entire_buffer: 13..38 },
            DecodedBuffer { payload_position: 51..63, entire_buffer: 38..63 },
            DecodedBuffer { payload_position: 102..114, entire_buffer: 89..114 },
        ]
    );
    assert_eq!(s.decode_all(&[]), vec![]);
}

#[test]
fn detector_without_magic_reports_at_the_last_payload_byte() {
    let s = SignedBuffer::new_sip24(BufferSize::Dynamic { max_bytes: 8192 }, &[], &[]).unwrap();
    let frame = hello_frame()[3..28].to_vec();
    let mut detector = s.new_decoder();
    for b in &frame[..24] {
        assert_eq!(detector.decode_byte(*b), None);
    }
    assert_eq!(
        detector.decode_byte(frame[24]),
        Some(DecodedBuffer { payload_position: 13..25, entire_buffer: 0..25 })
    );
}
