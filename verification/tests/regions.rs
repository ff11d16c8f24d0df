use signed_buffer::DecodedBuffer;

#[test]
fn payload_is_cut_out_of_the_buffer() {
    let buffer = [10u8, 11, 12, 13, 14, 15];
    let region = DecodedBuffer { payload_position: 2..5, entire_buffer: 1..6 };
    assert_eq!(region.get_payload_from_buffer(&buffer), &[12, 13, 14]);
    let whole = DecodedBuffer { payload_position: 0..6, entire_buffer: 0..6 };
    assert_eq!(whole.get_payload_from_buffer(&buffer), &buffer[..]);
    let empty = DecodedBuffer { payload_position: 6..6, entire_buffer: 0..6 };
    assert_eq!(empty.get_payload_from_buffer(&buffer), &[] as &[u8]);
}

#[test]
fn offset_shifts_both_ranges() {
    let region = DecodedBuffer { payload_position: 16..28, entire_buffer: 0..31 };
    assert_eq!(
        region.offset(64),
        DecodedBuffer { payload_position: 80..92, entire_buffer: 64..95 }
    );
    assert_eq!(region.offset(0), region);
    // the region moved from is left alone
    assert_eq!(region, DecodedBuffer { payload_position: 16..28, entire_buffer: 0..31 });
}

#[test]
fn offset_reaches_the_last_address() {
    let region = DecodedBuffer { payload_position: 1..2, entire_buffer: 0..3 };
    let moved = region.offset(usize::MAX - 3);
    assert_eq!(moved.entire_buffer, usize::MAX - 3..usize::MAX);
    assert_eq!(moved.payload_position, usize::MAX - 2..usize::MAX - 1);
}

#[test]
fn clone_copies_both_ranges() {
    let region = DecodedBuffer { payload_position: 3..4, entire_buffer: 1..9 };
    assert_eq!(region.clone(), region);
}
