use mini_lsm::wire::read_u16;

#[test]
fn read_u16_takes_the_high_byte_first() {
    assert_eq!(read_u16(0, 0), 0);
    assert_eq!(read_u16(0, 1), 1);
    assert_eq!(read_u16(1, 0), 256);
    assert_eq!(read_u16(0x12, 0x34), 0x1234);
    assert_eq!(read_u16(0xff, 0xff), 65535);
}

#[test]
fn read_u16_agrees_with_from_be_bytes() {
    for hi in [0u8, 1, 2, 127, 128, 255] {
        for lo in [0u8, 1, 9, 200, 255] {
            assert_eq!(read_u16(hi, lo), u16::from_be_bytes([hi, lo]));
        }
    }
}
