use candid::error::DecodeError;
use candid::leb128::{read_uleb128, write_uleb128};

#[test]
fn uleb128_known_encodings() {
    let mut out: Vec<u8> = Vec::new();
    write_uleb128(&mut out, 0);
    write_uleb128(&mut out, 127);
    write_uleb128(&mut out, 128);
    write_uleb128(&mut out, 624485);
    assert_eq!(out, vec![0x00, 0x7f, 0x80, 0x01, 0xe5, 0x8e, 0x26]);
}

#[test]
fn uleb128_max_u64_round_trips() {
    let mut out: Vec<u8> = Vec::new();
    write_uleb128(&mut out, u64::MAX);
    assert_eq!(out.len(), 10);
    assert_eq!(read_uleb128(&out, 0), Ok((u64::MAX, 10)));
}

#[test]
fn uleb128_overflow_past_64_bits() {
    let bytes: Vec<u8> = vec![0xff, 0xff, 0xff, 0xff, 0xff, 0xff, 0xff, 0xff, 0xff, 0x02];
    assert_eq!(read_uleb128(&bytes, 0), Err(DecodeError::Overflow));
    let long: Vec<u8> = vec![0x80, 0x80, 0x80, 0x80, 0x80, 0x80, 0x80, 0x80, 0x80, 0x80, 0x01];
    assert_eq!(read_uleb128(&long, 0), Err(DecodeError::Overflow));
}

#[test]
fn uleb128_truncated_is_eof() {
    let bytes: Vec<u8> = vec![0x80, 0x80];
    assert_eq!(read_uleb128(&bytes, 0), Err(DecodeError::UnexpectedEof));
    assert_eq!(read_uleb128(&bytes, 5), Err(DecodeError::UnexpectedEof));
}

#[test]
fn uleb128_padded_zero_groups_are_accepted() {
    let bytes: Vec<u8> = vec![0x81, 0x80, 0x80, 0x80, 0x80, 0x80, 0x80, 0x80, 0x80, 0x80, 0x80, 0x00];
    assert_eq!(read_uleb128(&bytes, 0), Ok((1, 12)));
}
