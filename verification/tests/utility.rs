use flac::utility::{
    crc16, crc8, extend_sign, power_of_two, to_u32, to_u32_le, to_u64, zigzag_decode,
    WriteExtension,
};

#[test]
fn test_to_u32() {
    let bytes = [0x01, 0x23, 0x45, 0x67, 0x89, 0xab, 0xcd, 0xef];

    assert_eq!(to_u32(&bytes[0..1]), 0x00000001);
    assert_eq!(to_u32(&bytes[3..5]), 0x00006789);
    assert_eq!(to_u32(&bytes[1..4]), 0x00234567);
    assert_eq!(to_u32(&bytes[4..]), 0x89abcdef);
}

#[test]
fn test_to_u64() {
    let bytes = [0x01, 0x23, 0x45, 0x67, 0x89, 0xab, 0xcd, 0xef];

    assert_eq!(to_u64(&bytes), 0x0123456789abcdef);
    assert_eq!(to_u64(&bytes[0..2]), 0x0123);
}

#[test]
fn test_to_u32_le() {
    let bytes = [0x20, 0x00, 0x00, 0x00];

    assert_eq!(to_u32_le(&bytes), 32);
    assert_eq!(to_u32_le(&[0xcd, 0xab]), 0xabcd);
}

#[test]
fn test_extend_sign() {
    assert_eq!(extend_sign(32, 6), -32);
    assert_eq!(extend_sign(31, 6), 31);
    assert_eq!(extend_sign(128, 8), -128);
    assert_eq!(extend_sign(127, 8), 127);

    assert_eq!(extend_sign(2048, 12), -2048);
    assert_eq!(extend_sign(2047, 12), 2047);
    assert_eq!(extend_sign(32768, 16), -32768);
    assert_eq!(extend_sign(32767, 16), 32767);

    assert_eq!(extend_sign(8388608, 24), -8388608);
    assert_eq!(extend_sign(8388607, 24), 8388607);
    assert_eq!(extend_sign(2147483648, 32), -2147483648);
    assert_eq!(extend_sign(2147483647, 32), 2147483647);
}

#[test]
fn test_power_of_two() {
    assert_eq!(power_of_two(0), 1);
    assert_eq!(power_of_two(1), 2);
    assert_eq!(power_of_two(2), 4);
    assert_eq!(power_of_two(10), 1024);
    assert_eq!(power_of_two(31), 2147483648);
}

#[test]
fn test_zigzag_decode() {
    assert_eq!(zigzag_decode(0), 0);
    assert_eq!(zigzag_decode(1), -1);
    assert_eq!(zigzag_decode(2), 1);
    assert_eq!(zigzag_decode(3), -2);
    assert_eq!(zigzag_decode(4), 2);
    assert_eq!(zigzag_decode(u64::MAX), i64::MIN);
}

#[test]
fn test_crc8_values() {
    assert_eq!(crc8(&[]), 0);
    assert_eq!(crc8(b"\xff\xf8\x53\x1c\xf0\x90\x80\x80"), 0x2e);
}

#[test]
fn test_crc16_detects_flip() {
    let clean = b"a short span of frame bytes";
    let mut flipped = *clean;
    flipped[5] ^= 0x10;

    assert_ne!(crc16(clean), crc16(&flipped));
    assert_ne!(crc8(clean), crc8(&flipped));
}

#[test]
fn test_write_u8() {
    let mut buffer: Vec<u8> = Vec::new();

    buffer.write_u8(0xa0);
    assert_eq!(buffer, [0xa0]);

    buffer.clear();
    buffer.write_u8(0xff);
    assert_eq!(buffer, [0xff]);

    buffer.clear();
    buffer.write_u8(0x10);
    assert_eq!(buffer, [0x10]);
}

#[test]
fn test_write_le_u16() {
    let mut buffer: Vec<u8> = Vec::new();

    buffer.write_le_u16(0xabcd);
    assert_eq!(buffer, [0xcd, 0xab]);

    buffer.clear();
    buffer.write_le_u16(0xff00);
    assert_eq!(buffer, [0x00, 0xff]);

    buffer.clear();
    buffer.write_le_u16(0x5e9a);
    assert_eq!(buffer, [0x9a, 0x5e]);
}

#[test]
fn test_write_be_u16() {
    let mut buffer: Vec<u8> = Vec::new();

    buffer.write_be_u16(0xabcd);
    assert_eq!(buffer, [0xab, 0xcd]);

    buffer.clear();
    buffer.write_be_u16(0xff00);
    assert_eq!(buffer, [0xff, 0x00]);

    buffer.clear();
    buffer.write_be_u16(0x5e9a);
    assert_eq!(buffer, [0x5e, 0x9a]);
}

#[test]
fn test_write_le_u24() {
    let mut buffer: Vec<u8> = Vec::new();

    buffer.write_le_u24(0xabcdef);
    assert_eq!(buffer, [0xef, 0xcd, 0xab]);

    buffer.clear();
    buffer.write_le_u24(0x54a21d);
    assert_eq!(buffer, [0x1d, 0xa2, 0x54]);

    buffer.clear();
    buffer.write_le_u24(0xffeedd);
    assert_eq!(buffer, [0xdd, 0xee, 0xff]);
}

#[test]
fn test_write_be_u24() {
    let mut buffer: Vec<u8> = Vec::new();

    buffer.write_be_u24(0xabcdef);
    assert_eq!(buffer, [0xab, 0xcd, 0xef]);

    buffer.clear();
    buffer.write_be_u24(0x54a21d);
    assert_eq!(buffer, [0x54, 0xa2, 0x1d]);

    buffer.clear();
    buffer.write_be_u24(0xffeedd);
    assert_eq!(buffer, [0xff, 0xee, 0xdd]);
}

#[test]
fn test_write_be_u64() {
    let mut buffer: Vec<u8> = Vec::new();

    buffer.write_be_u64(0x0123456789abcdef);
    assert_eq!(buffer, [0x01, 0x23, 0x45, 0x67, 0x89, 0xab, 0xcd, 0xef]);
}
