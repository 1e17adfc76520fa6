use mrubyedge::error::Error;
use mrubyedge::rite::{
    be16_to_u16, be32_to_u32, decode_packed_int, line_at, peek4, push_line, section_end, section_skip,
    u16_at, u32_at,
};

#[test]
fn big_endian_fields() {
    assert_eq!(be16_to_u16([0x12, 0x34]), 0x1234);
    assert_eq!(be32_to_u32([0x12, 0x34, 0x56, 0x78]), 0x1234_5678);
    assert_eq!(u16_at(&[0, 1, 2], 1).unwrap(), 0x0102);
    assert_eq!(u16_at(&[0, 1, 2], 2), Err(Error::TooShort));
    assert_eq!(u32_at(&[9, 0, 0, 1, 0], 1).unwrap(), 0x0000_0100);
    assert_eq!(u32_at(&[9, 0, 0], 0), Err(Error::TooShort));
    assert_eq!(u32_at(&[1, 2, 3, 4], 5), Err(Error::TooShort));
}

#[test]
fn section_tags() {
    assert_eq!(peek4(b"IREP0000"), Some(['I', 'R', 'E', 'P']));
    assert_eq!(peek4(b"END"), None);
}

#[test]
fn packed_ints_are_little_endian_seven_bit_groups() {
    assert_eq!(decode_packed_int(&[0x05], 0).unwrap(), (5, 1));
    assert_eq!(decode_packed_int(&[0xff, 0x96, 0x01], 1).unwrap(), (150, 2));
    assert_eq!(decode_packed_int(&[0x80], 0), Err(Error::TooShort));
    assert_eq!(decode_packed_int(&[0x80, 0x80, 0x80, 0x80, 0x80, 0x01], 0), Err(Error::InvalidFormat));
    assert_eq!(decode_packed_int(&[0x81, 0x80, 0x80, 0x80, 0x01], 0).unwrap(), (1 | (1 << 28), 5));
}

#[test]
fn line_maps() {
    let mut lines: Vec<(u32, u32)> = Vec::new();
    push_line(&mut lines, 0, 1);
    push_line(&mut lines, 3, 1);
    push_line(&mut lines, 5, 2);
    push_line(&mut lines, 9, 4);
    assert_eq!(lines, vec![(0, 1), (5, 2), (9, 4)]);
    assert_eq!(line_at(&lines, 0), Some(1));
    assert_eq!(line_at(&lines, 4), Some(1));
    assert_eq!(line_at(&lines, 5), Some(2));
    assert_eq!(line_at(&lines, 100), Some(4));
    assert_eq!(line_at(&[(2, 7)], 1), None);
    assert_eq!(line_at(&[], 1), None);
}

#[test]
fn section_sizes() {
    let sec = [b'E', b'N', b'D', b'\0', 0, 0, 0, 8];
    assert_eq!(section_end(&sec).unwrap(), 8);
    assert_eq!(section_skip(&sec).unwrap(), 8);
    assert_eq!(section_end(&sec[..5]), Err(Error::TooShort));
}
