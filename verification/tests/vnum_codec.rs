//! Boundary and round-trip behaviour of the variable-length number codec.

use tchread::vnum::{read_vnum, VNum};
use tchread::TchdbError;

fn roundtrip(value: u32, expected_bytes: &[u8]) {
    let encoded = VNum(value).encode();
    assert_eq!(encoded, expected_bytes);
    assert_eq!(VNum(value).size() as usize, expected_bytes.len());
    let (decoded, len) = read_vnum(&encoded, 0).unwrap();
    assert_eq!(decoded, value);
    assert_eq!(len as usize, expected_bytes.len());
}

#[test]
fn vnum_zero() {
    roundtrip(0, &[0x00]);
}

#[test]
fn vnum_127() {
    roundtrip(127, &[0x7f]);
}

#[test]
fn vnum_128() {
    roundtrip(128, &[0xff, 0x01]);
}

#[test]
fn vnum_255() {
    roundtrip(255, &[0x80, 0x01]);
}

#[test]
fn vnum_256() {
    roundtrip(256, &[0xff, 0x02]);
}

#[test]
fn vnum_16383() {
    roundtrip(16383, &[0x80, 0x7f]);
}

#[test]
fn vnum_16384() {
    roundtrip(16384, &[0xff, 0xff, 0x01]);
}

#[test]
fn vnum_u32_max() {
    let encoded = VNum(u32::MAX).encode();
    let (decoded, len) = read_vnum(&encoded, 0).unwrap();
    assert_eq!(decoded, u32::MAX);
    assert_eq!(len as usize, encoded.len());
    assert_eq!(VNum(u32::MAX).size() as usize, encoded.len());
}

#[test]
fn vnum_decode_skips_leading_position() {
    let mut data = vec![0xaa, 0xbb];
    data.extend_from_slice(&VNum(300).encode());
    let (decoded, len) = read_vnum(&data, 2).unwrap();
    assert_eq!(decoded, 300);
    assert_eq!(len, 2);
}

#[test]
fn vnum_truncated_without_terminal_digit() {
    let data = vec![0xff, 0xff, 0xff];
    assert_eq!(read_vnum(&data, 0), Err(TchdbError::Truncated));
}

#[test]
fn vnum_rejects_value_above_u32() {
    // 2^32 = 16 * 128^4: five digits, the last one 16
    let data = vec![0xff, 0xff, 0xff, 0xff, 0x10];
    assert_eq!(read_vnum(&data, 0), Err(TchdbError::VnumOverflow));
}

#[test]
fn vnum_empty_input_is_truncated() {
    let data: Vec<u8> = Vec::new();
    assert_eq!(read_vnum(&data, 0), Err(TchdbError::Truncated));
}
