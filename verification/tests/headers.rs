//! Page headers in the Thrift compact protocol.

use pagewise::compact::{CompactReader, HeaderError};
use pagewise::page_header::{read_page_header, PageHeaderInfo, PageType};

const TYPE: [u8; 2] = [0x15, 0x00];
const SIZE: [u8; 2] = [0x15, 0x14];
const COMPRESSED: [u8; 2] = [0x15, 0x08];

fn header(parts: &[&[u8]]) -> Vec<u8> {
    parts.concat()
}

fn after(parts: &[&[u8]]) -> Result<PageHeaderInfo, HeaderError> {
    read_page_header(&header(&[&TYPE, &SIZE, &COMPRESSED, &header(parts)]))
}

fn info(header_len: usize) -> PageHeaderInfo {
    PageHeaderInfo {
        header_len,
        page_type: PageType::Data,
        compressed_len: 4,
        uncompressed_len: 10,
    }
}

#[test]
fn plain_header_is_read() {
    assert_eq!(after(&[&[0x00]]), Ok(info(7)));
    for (number, kind) in [
        (0x00, PageType::Data),
        (0x02, PageType::Index),
        (0x04, PageType::Dictionary),
        (0x06, PageType::DataV2),
    ] {
        let read = read_page_header(&header(&[&[0x15, number], &SIZE, &COMPRESSED, &[0x00]]));
        assert_eq!(read.map(|info| info.page_type), Ok(kind));
    }
}

#[test]
fn what_follows_a_header_does_not_matter() {
    assert_eq!(after(&[&[0x2c, 0x15, 0x02, 0x00, 0x00]]), Ok(info(11)));
    assert_eq!(
        after(&[&[0x2c, 0x15, 0x02, 0x00, 0x00, 0xff, 0xff, 0x1e]]),
        Ok(info(11))
    );
}

#[test]
fn every_kind_of_value_is_passed_over() {
    // Two booleans, a byte, integers of 16 and 64 bits, a double, a UUID and a binary.
    assert_eq!(after(&[&[0x11, 0x12, 0x00]]), Ok(info(9)));
    assert_eq!(after(&[&[0x13, 0x7f, 0x00]]), Ok(info(9)));
    assert_eq!(after(&[&[0x14, 0xff, 0x01, 0x16, 0x00, 0x00]]), Ok(info(12)));
    assert_eq!(after(&[&[0x17], &[1; 8], &[0x00]]), Ok(info(16)));
    assert_eq!(after(&[&[0x1d], &[1; 16], &[0x00]]), Ok(info(24)));
    assert_eq!(after(&[&[0x18, 0x03, 1, 2, 3, 0x00]]), Ok(info(12)));
    // A list of two booleans, a long set of bytes, a map, and an empty map.
    assert_eq!(after(&[&[0x19, 0x21, 1, 2, 0x00]]), Ok(info(11)));
    assert_eq!(after(&[&[0x1a, 0xf3, 0x10], &[0; 16], &[0x00]]), Ok(info(26)));
    assert_eq!(after(&[&[0x1b, 0x01, 0x35, 0x07, 0x02, 0x00]]), Ok(info(12)));
    assert_eq!(after(&[&[0x1b, 0x00, 0x00]]), Ok(info(9)));
    // A struct with a struct in it.
    assert_eq!(
        after(&[&[0x2c, 0x15, 0x02, 0x1c, 0x11, 0x00, 0x00, 0x00]]),
        Ok(info(14))
    );
}

#[test]
fn wanted_field_of_another_type_is_passed_over() {
    let long = header(&[&TYPE, &[0x16, 0x14], &COMPRESSED, &[0x00]]);
    assert_eq!(read_page_header(&long), Err(HeaderError::MissingSize));
}

#[test]
fn last_of_repeated_fields_counts() {
    // The id of the second size is given in full.
    assert_eq!(after(&[&[0x05, 0x06, 0x0a, 0x00]]).map(|info| info.compressed_len), Ok(5));
}

#[test]
fn each_error_is_reported() {
    assert_eq!(after(&[]), Err(HeaderError::EndsMidField));
    assert_eq!(after(&[&[0x17, 0x00]]), Err(HeaderError::EndsMidValue));
    assert_eq!(
        after(&[&[0x16], &[0x80; 10]]),
        Err(HeaderError::VarintNotTerminated)
    );
    assert_eq!(
        read_page_header(&[0x15, 0x80, 0x80, 0x80, 0x80, 0x10, 0x00]),
        Err(HeaderError::I32OutOfRange)
    );
    assert_eq!(
        after(&[&[0x05, 0x80, 0x80, 0x04]]),
        Err(HeaderError::FieldIdOutOfRange)
    );
    assert_eq!(
        after(&[&[0x01, 0xfe, 0xff, 0x03, 0x11, 0x00]]),
        Err(HeaderError::FieldIdOverflow)
    );
    assert_eq!(
        after(&[&[0x1c; 40]]),
        Err(HeaderError::StructTooDeep)
    );
    assert_eq!(
        after(&[&[0x1e, 0x00]]),
        Err(HeaderError::UnsupportedType(0x0e))
    );
    assert_eq!(
        read_page_header(&header(&[&[0x15, 0x08], &SIZE, &COMPRESSED, &[0x00]])),
        Err(HeaderError::UnknownPageType(4))
    );
    assert_eq!(read_page_header(&[0x00]), Err(HeaderError::MissingPageType));
    assert_eq!(
        read_page_header(&header(&[&TYPE, &[0x00]])),
        Err(HeaderError::MissingSize)
    );
    assert_eq!(
        read_page_header(&header(&[&TYPE, &SIZE, &[0x00]])),
        Err(HeaderError::MissingCompressedSize)
    );
    assert_eq!(
        read_page_header(&header(&[&TYPE, &SIZE, &[0x15, 0x01, 0x00]])),
        Err(HeaderError::NegativeCompressedSize)
    );
    assert_eq!(
        read_page_header(&header(&[&TYPE, &[0x15, 0x01], &COMPRESSED, &[0x00]])),
        Err(HeaderError::NegativeSize)
    );
}

#[test]
fn structs_may_nest_to_the_limit() {
    let deep = header(&[&[0x1c; 32], &[0x00; 33]]);
    assert_eq!(after(&[&deep]), Ok(info(71)));
    let deeper = header(&[&[0x1c; 33], &[0x00; 34]]);
    assert_eq!(after(&[&deeper]), Err(HeaderError::StructTooDeep));
}

#[test]
fn integers_are_read() {
    let mut reader = CompactReader::new(&[0xac, 0x02, 0x03, 0x04, 0x2a]);
    assert_eq!(reader.read_varint(), Ok(300));
    assert_eq!(reader.read_zigzag(), Ok(-2));
    assert_eq!(reader.read_i32(), Ok(2));
    assert_eq!(reader.read_u8(), Ok(0x2a));
    assert_eq!(reader.read_u8(), Err(HeaderError::EndsMidField));
    let mut reader = CompactReader::new(&[0xff; 9]);
    assert_eq!(reader.read_varint(), Err(HeaderError::EndsMidField));
    let mut largest = [0xff; 10];
    largest[9] = 0x01;
    let mut reader = CompactReader::new(&largest);
    assert_eq!(reader.read_varint(), Ok(u64::MAX));
    let mut reader = CompactReader::new(&largest);
    assert_eq!(reader.read_zigzag(), Ok(i64::MIN));
    let mut reader = CompactReader::new(&[1, 2, 3]);
    assert_eq!(reader.advance(4), Err(HeaderError::EndsMidValue));
    assert_eq!(reader.advance(3), Ok(()));
    assert_eq!(reader.pos, 3);
}

#[test]
fn collections_and_fields_are_read() {
    let mut reader = CompactReader::new(&[0x35, 0xf6, 0x10, 0x19, 0x05, 0x09, 0x00]);
    assert_eq!(reader.read_collection_header(), Ok((3, 5)));
    assert_eq!(reader.read_collection_header(), Ok((16, 6)));
    let mut last = 4i16;
    assert_eq!(reader.read_field_header(&mut last), Ok(Some((5, 9))));
    assert_eq!(reader.read_field_header(&mut last), Ok(Some((-5, 5))));
    assert_eq!(last, -5);
    assert_eq!(reader.read_field_header(&mut last), Ok(None));
}
