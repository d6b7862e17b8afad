use veracrypt::bytes::{read_u16_be, read_u32_be, read_u64_be, wipe};

#[test]
fn big_endian_integers_are_read_at_their_offset() {
    let bytes = [0xFFu8, 0x01, 0x02, 0x03, 0x04, 0x05, 0x06, 0x07, 0x08, 0xEE];
    assert_eq!(read_u16_be(&bytes, 1), 0x0102);
    assert_eq!(read_u32_be(&bytes, 1), 0x0102_0304);
    assert_eq!(read_u64_be(&bytes, 1), 0x0102_0304_0506_0708);
    assert_eq!(read_u16_be(&bytes, 8), 0x08EE);
}

#[test]
fn big_endian_extremes() {
    assert_eq!(read_u16_be(&[0xFF, 0xFF], 0), u16::MAX);
    assert_eq!(read_u32_be(&[0xFF; 4], 0), u32::MAX);
    assert_eq!(read_u64_be(&[0xFF; 8], 0), u64::MAX);
    assert_eq!(read_u64_be(&[0; 8], 0), 0);
    assert_eq!(read_u64_be(&[0x80, 0, 0, 0, 0, 0, 0, 0], 0), 1u64 << 63);
    assert_eq!(read_u32_be(&[0, 0, 0, 1], 0), 1);
}

#[test]
fn big_endian_agrees_with_std() {
    let value: u64 = 0xDEAD_BEEF_0BAD_F00D;
    assert_eq!(read_u64_be(&value.to_be_bytes(), 0), value);
    assert_eq!(read_u32_be(&0x1234_5678u32.to_be_bytes(), 0), 0x1234_5678);
    assert_eq!(read_u16_be(&0xABCDu16.to_be_bytes(), 0), 0xABCD);
}

#[test]
fn wipe_zeroes_every_byte() {
    let mut secret = [0xA5u8; 37];
    wipe(&mut secret);
    assert_eq!(secret, [0u8; 37]);
    let mut nothing: [u8; 0] = [];
    wipe(&mut nothing);
}
