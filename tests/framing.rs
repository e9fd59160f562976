use shared_lib::framing::{encode_frame, frame_header, header_len};

#[test]
fn header_is_little_endian() {
    assert_eq!(frame_header(258), [2, 1, 0, 0]);
    assert_eq!(frame_header(0x01020304), [4, 3, 2, 1]);
    assert_eq!(header_len([4, 3, 2, 1]), 0x01020304);
    assert_eq!(header_len(frame_header(u32::MAX)), u32::MAX);
}

#[test]
fn frame_is_header_then_bytes() {
    assert_eq!(encode_frame(b"abc"), Some(vec![3, 0, 0, 0, b'a', b'b', b'c']));
    assert_eq!(encode_frame(&[]), Some(vec![0, 0, 0, 0]));
}
