use circle_buff::frame::cobs_frame_is_valid;
use circle_buff::frame::deserialize_cobs_frame;
use circle_buff::frame::follow_stuffed_bytes;
use circle_buff::CircleBuffer;

#[test]
fn valid_cobs_frame() {
    let valid_frame = [1, 1, 3, 10, 10, 1, 3, 11, 11, 1, 3, 12, 12, 1, 1, 0];
    assert_eq!(cobs_frame_is_valid(&valid_frame), true);
}

#[test]
fn invalid_cobs_frame_1() {
    let invalid_frame = [173, 66, 4, 128, 81, 195, 0, 185, 66, 4, 128, 69, 195, 1, 1, 0];
    assert_eq!(cobs_frame_is_valid(&invalid_frame), false);
}

#[test]
fn invalid_cobs_frame_2() {
    let invalid_frame = [0, 66, 4, 128, 81, 195, 0, 185, 66, 4, 128, 69, 195, 1, 1, 0];
    assert_eq!(cobs_frame_is_valid(&invalid_frame), false);
}

#[test]
fn invalid_cobs_frame_3() {
    let invalid_frame = [173, 66, 4, 128, 81, 195, 0, 185, 66, 4, 128, 69, 195, 1, 1, 99];
    assert_eq!(cobs_frame_is_valid(&invalid_frame), false);
}

#[test]
fn convert_valid_frame() {
    let valid_frame = [1, 1, 3, 10, 10, 1, 3, 11, 11, 1, 5, 12, 12, 1, 1, 0];
    let data = deserialize_cobs_frame(&valid_frame).expect("failed unwrapping");
    println!("{:?}", data);
    assert_eq!(data, [0, 0, 10, 10, 0, 0, 11, 11, 0, 0, 12, 12, 1, 1]);
}

#[test]
fn chain_walk_from_interior_pointer() {
    let frame = [1, 1, 3, 10, 10, 1, 3, 11, 11, 1, 3, 12, 12, 1, 1, 0];
    assert!(follow_stuffed_bytes(1, &frame));
    // Position 7 holds a payload byte (11), which jumps out of bounds.
    assert!(!follow_stuffed_bytes(7, &frame));
}

#[test]
fn last_byte_nonzero_is_invalid() {
    let frame = [1, 1, 3, 10, 10, 1, 3, 11, 11, 1, 3, 12, 12, 1, 1, 7];
    assert_eq!(cobs_frame_is_valid(&frame), false);
}

#[test]
fn empty_frame_is_invalid() {
    let frame: [u8; 0] = [];
    assert_eq!(cobs_frame_is_valid(&frame), false);
}

#[test]
fn invalid_frame_is_refused_with_its_bytes() {
    // Decoding an invalid frame is refused; the raw bytes come back for
    // diagnostics and no partial payload is produced.
    let invalid_frame = [173, 66, 4, 128, 81, 195, 0, 185, 66, 4, 128, 69, 195, 1, 1, 0];
    let err = deserialize_cobs_frame(&invalid_frame).unwrap_err();
    assert_eq!(err, invalid_frame);
}

#[test]
fn fast_path_boundary_decodes_interior() {
    // A frame whose first byte equals length - 1 takes the fast path; the
    // payload is exactly the interior bytes, as the chain walk would also
    // produce for a payload that holds no zero bytes.
    let fast_frame = [5, 1, 2, 3, 4, 0];
    let payload = deserialize_cobs_frame(&fast_frame).unwrap();
    assert_eq!(payload, [1, 2, 3, 4]);

    let fast_frame_wide = [15, 1, 2, 3, 4, 5, 6, 7, 8, 9, 10, 11, 12, 13, 14, 0];
    let payload_wide = deserialize_cobs_frame(&fast_frame_wide).unwrap();
    assert_eq!(payload_wide, [1, 2, 3, 4, 5, 6, 7, 8, 9, 10, 11, 12, 13, 14]);
}

#[test]
fn general_path_restores_zeros() {
    // Every interior stuffing pointer is replaced by the zero byte it
    // substituted; literal payload bytes pass through unchanged.
    let frame = [1, 1, 3, 10, 10, 1, 3, 11, 11, 1, 3, 12, 12, 1, 1, 0];
    let payload = deserialize_cobs_frame(&frame).unwrap();
    assert_eq!(payload, [0, 0, 10, 10, 0, 0, 11, 11, 0, 0, 12, 12, 0, 0]);
}

#[test]
fn one_frame_then_garbage_end_to_end() {
    // Exactly one well-formed frame followed by garbage yields one decoded
    // record, then a malformed-frame refusal, then no-data, and no panic.
    let mut cb = CircleBuffer::new(10000);
    cb.write(&[1, 1, 3, 10, 10, 1, 3, 11, 11, 1, 5, 12, 12, 1, 1, 0]);
    cb.write(&[200, 9, 9, 9, 9, 9, 9, 9, 9, 9, 9, 9, 9, 9, 9, 0]);
    cb.write(&[42, 42, 42]);

    let first = cb.read_cobs_frame(16).expect("one frame is buffered");
    let record = deserialize_cobs_frame(&first).expect("the first frame is well formed");
    assert_eq!(record, [0, 0, 10, 10, 0, 0, 11, 11, 0, 0, 12, 12, 1, 1]);

    let second = cb.read_cobs_frame(16).expect("the garbage still ends in a delimiter");
    assert!(deserialize_cobs_frame(&second).is_err());

    assert!(cb.read_cobs_frame(16).is_none());
}
