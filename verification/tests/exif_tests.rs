use arachnida::exif::exif_parser::{ErrorKind, ExifParseError};
use arachnida::exif::{
    endian_byte, ByteOrderError, Endianness, ExifData, ExifField, ExifHeader, ExifIFD, BE_VALUE,
    LE_VALUE,
};

fn le16(v: u16) -> [u8; 2] {
    v.to_le_bytes()
}

fn le32(v: u32) -> [u8; 4] {
    v.to_le_bytes()
}

fn le_field(tag: u16, etype: u16, length: u32, value: u32) -> Vec<u8> {
    let mut b = Vec::new();
    b.extend_from_slice(&le16(tag));
    b.extend_from_slice(&le16(etype));
    b.extend_from_slice(&le32(length));
    b.extend_from_slice(&le32(value));
    b
}

/// A little-endian block: header pointing at 8, one IFD with two fields,
/// next offset 0.
fn one_ifd_block() -> Vec<u8> {
    let mut b = vec![0x49, 0x49, 0x2A, 0x00, 0x08, 0x00, 0x00, 0x00];
    b.extend_from_slice(&le16(2));
    b.extend(le_field(0x010F, 2, 6, 0x26));
    b.extend(le_field(0x0112, 3, 1, 1));
    b.extend_from_slice(&le32(0));
    b
}

#[test]
fn endian_byte_reads_both_marks() {
    assert_eq!(endian_byte(LE_VALUE), Ok(Endianness::Little));
    assert_eq!(endian_byte(BE_VALUE), Ok(Endianness::Big));
    assert_eq!(endian_byte(0x4949), Ok(Endianness::Little));
    assert_eq!(endian_byte(0x4D4D), Ok(Endianness::Big));
}

#[test]
fn endian_byte_refuses_other_marks() {
    let e = endian_byte(0x1234).unwrap_err();
    assert_eq!(e, ByteOrderError { value: 0x1234 });
    assert_eq!(e.message(), "Couldn't find byte order");
    assert!(endian_byte(0x4D49).is_err());
}

#[test]
fn header_little_endian() {
    let raw = [0x49, 0x49, 0x2A, 0x00, 0x08, 0x00, 0x00, 0x00, 0xAA];
    let (rest, h) = ExifHeader::parse_header(&raw).unwrap();
    assert_eq!(h, ExifHeader { byte_order: 0x4949, version: 42, ifd_offset: 8 });
    assert_eq!(rest, &[0xAA]);
    assert_eq!(h.endianness(), Endianness::Little);
}

#[test]
fn header_big_endian() {
    let raw = [0x4D, 0x4D, 0x00, 0x2A, 0x00, 0x00, 0x01, 0x02];
    let (rest, h) = ExifHeader::parse_header(&raw).unwrap();
    assert_eq!(h, ExifHeader { byte_order: 0x4D4D, version: 42, ifd_offset: 0x0102 });
    assert!(rest.is_empty());
    assert_eq!(h.endianness(), Endianness::Big);
}

#[test]
fn header_failures() {
    assert_eq!(
        ExifHeader::parse_header(&[]).unwrap_err(),
        ExifParseError { kind: ErrorKind::Eof, offset: 0 }
    );
    assert_eq!(
        ExifHeader::parse_header(&[0x49]).unwrap_err(),
        ExifParseError { kind: ErrorKind::Eof, offset: 0 }
    );
    assert_eq!(
        ExifHeader::parse_header(&[0x12, 0x34, 0, 0, 0, 0, 0, 0]).unwrap_err(),
        ExifParseError { kind: ErrorKind::Verify, offset: 0 }
    );
    assert_eq!(
        ExifHeader::parse_header(&[0x49, 0x49, 0x2A]).unwrap_err(),
        ExifParseError { kind: ErrorKind::Eof, offset: 2 }
    );
    assert_eq!(
        ExifHeader::parse_header(&[0x49, 0x49, 0x2A, 0x00, 0x08]).unwrap_err(),
        ExifParseError { kind: ErrorKind::Eof, offset: 4 }
    );
}

#[test]
fn default_header_is_zero() {
    let h = ExifHeader::default();
    assert_eq!(h, ExifHeader { byte_order: 0, version: 0, ifd_offset: 0 });
}

#[test]
fn field_in_both_orders() {
    let le = le_field(0x8769, 4, 1, 0x1234_5678);
    let f = ExifField::parse_field(&le, 0, &Endianness::Little).unwrap();
    assert_eq!(f, ExifField { tag: 0x8769, etype: 4, length: 1, value: 0x1234_5678 });
    let be = [0x87, 0x69, 0x00, 0x04, 0, 0, 0, 1, 0x12, 0x34, 0x56, 0x78];
    let g = ExifField::parse_field(&be, 0, &Endianness::Big).unwrap();
    assert_eq!(g, f);
    assert_eq!(ExifField::TOTAL_SIZE, 12);
}

#[test]
fn field_failures_name_the_position() {
    let b = le_field(1, 2, 3, 4);
    for (len, at) in [(1usize, 4usize), (3, 6), (5, 8), (9, 12)] {
        let mut raw = vec![0u8; 4];
        raw.extend_from_slice(&b[..len]);
        assert_eq!(
            ExifField::parse_field(&raw, 4, &Endianness::Little).unwrap_err(),
            ExifParseError { kind: ErrorKind::Eof, offset: at }
        );
    }
}

#[test]
fn ifd_with_two_fields() {
    let raw = one_ifd_block();
    let ifd = ExifIFD::parse_ifd(&raw, 8, &Endianness::Little).unwrap();
    assert_eq!(ifd.entry_count, 2);
    assert_eq!(ifd.entries.len(), 2);
    assert_eq!(ifd.entries[0], ExifField { tag: 0x010F, etype: 2, length: 6, value: 0x26 });
    assert_eq!(ifd.entries[1], ExifField { tag: 0x0112, etype: 3, length: 1, value: 1 });
    assert_eq!(ifd.offset, 0);
}

#[test]
fn ifd_cut_in_a_field() {
    let raw = one_ifd_block();
    let cut = &raw[..8 + 2 + 12 + 5];
    assert_eq!(
        ExifIFD::parse_ifd(cut, 8, &Endianness::Little).unwrap_err(),
        ExifParseError { kind: ErrorKind::Eof, offset: 8 + 2 + 12 + 4 }
    );
    let no_next = &raw[..8 + 2 + 24 + 2];
    assert_eq!(
        ExifIFD::parse_ifd(no_next, 8, &Endianness::Little).unwrap_err(),
        ExifParseError { kind: ErrorKind::Eof, offset: 8 + 2 + 24 }
    );
}

#[test]
fn block_with_one_ifd() {
    let raw = one_ifd_block();
    assert!(ExifData::parse_from_raw_returns(&raw));
    let (rest, data) = ExifData::parse_from_raw(&raw).unwrap();
    assert_eq!(rest, &raw[8..]);
    assert_eq!(data.endian, Endianness::Little);
    assert_eq!(data.header.ifd_offset, 8);
    assert_eq!(data.ifds.len(), 1);
    assert_eq!(data.ifds[0].entries.len(), 2);
    assert_eq!(data.size, 10 + 2 * 12 + 6);
}

#[test]
fn block_without_ifd() {
    let raw = [0x4D, 0x4D, 0x00, 0x2A, 0, 0, 0, 0];
    let (rest, data) = ExifData::parse_from_raw(&raw).unwrap();
    assert!(rest.is_empty());
    assert_eq!(data.endian, Endianness::Big);
    assert!(data.ifds.is_empty());
    assert_eq!(data.size, ExifHeader::TOTAL_SIZE);
}

#[test]
fn block_with_two_ifds() {
    let mut raw = one_ifd_block();
    let second = raw.len() as u32;
    let n = raw.len();
    raw[n - 4..].copy_from_slice(&le32(second));
    raw.extend_from_slice(&le16(1));
    raw.extend(le_field(7, 4, 1, 99));
    raw.extend_from_slice(&le32(0));
    let (_, data) = ExifData::parse_from_raw(&raw).unwrap();
    assert_eq!(data.ifds.len(), 2);
    assert_eq!(data.ifds[0].offset, second);
    assert_eq!(data.ifds[1].entries[0].value, 99);
    assert_eq!(data.ifds[1].offset, 0);
    assert_eq!(data.ifds[1].entry_count as usize, data.ifds[1].entries.len());
    assert_eq!(data.size, 10 + (2 * 12 + 6) + (12 + 6));
}

#[test]
fn block_cut_in_second_ifd() {
    let mut raw = one_ifd_block();
    let second = raw.len() as u32;
    let n = raw.len();
    raw[n - 4..].copy_from_slice(&le32(second));
    raw.extend_from_slice(&le16(3));
    assert_eq!(
        ExifData::parse_from_raw(&raw).unwrap_err(),
        ExifParseError { kind: ErrorKind::Eof, offset: second as usize + 2 }
    );
}

#[test]
fn block_with_bad_mark() {
    let raw = [0x00, 0x00, 0x2A, 0x00, 0x08, 0, 0, 0];
    assert!(ExifData::parse_from_raw_returns(&raw));
    assert_eq!(
        ExifData::parse_from_raw(&raw).unwrap_err(),
        ExifParseError { kind: ErrorKind::Verify, offset: 0 }
    );
}

#[test]
fn cyclic_chain_is_detected() {
    let mut raw = one_ifd_block();
    let n = raw.len();
    raw[n - 4..].copy_from_slice(&le32(8));
    assert!(!ExifData::parse_from_raw_returns(&raw));
}

#[test]
fn offset_past_the_end_is_detected() {
    let mut raw = one_ifd_block();
    let n = raw.len();
    raw[n - 4..].copy_from_slice(&le32(10_000));
    assert!(!ExifData::parse_from_raw_returns(&raw));
}

#[test]
fn trailing_bytes_do_not_change_the_result() {
    let raw = one_ifd_block();
    let mut longer = raw.clone();
    longer.extend_from_slice(&[1, 2, 3, 4, 5]);
    let (_, a) = ExifData::parse_from_raw(&raw).unwrap();
    let (_, b) = ExifData::parse_from_raw(&longer).unwrap();
    assert_eq!(format!("{:?}", a), format!("{:?}", b));
}
