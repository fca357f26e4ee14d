use script_follow::pcm::{frame_to_le_bytes, FRAME_SAMPLES};

#[test]
fn samples_become_little_endian_bytes() {
    assert_eq!(frame_to_le_bytes(&[1, -1, 0x1234, i16::MIN]), vec![1, 0, 0xff, 0xff, 0x34, 0x12, 0, 0x80]);
    assert_eq!(frame_to_le_bytes(&[]), Vec::<u8>::new());
    let frame = vec![7i16; FRAME_SAMPLES];
    assert_eq!(frame_to_le_bytes(&frame).len(), 960);
}
