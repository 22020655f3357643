use pagedb::byte_encoder::{ByteDecoder, ByteEncoder, CodecError};
use pagedb::column::values_up_to;
use pagedb::paging::{BTreePageType, Page, PageError, PageHeader, HEADER_SIZE, PAGE_SIZE};

#[test]
fn integers_are_written_little_endian() {
    let mut w = ByteEncoder::new(vec![]);
    w.write_u8(0xab);
    w.write_u16(0x1234);
    w.write_u32(0x0102_0304);
    w.write_u64(0x1122_3344_5566_7788);
    assert_eq!(
        w.inner,
        vec![
            0xab, 0x34, 0x12, 0x04, 0x03, 0x02, 0x01, 0x88, 0x77, 0x66, 0x55, 0x44, 0x33, 0x22,
            0x11
        ]
    );
    let mut w = ByteEncoder::new(vec![7]);
    w.write_u128(1);
    let mut expected = vec![7, 1];
    expected.extend([0u8; 15]);
    assert_eq!(w.inner, expected);
}

#[test]
fn integers_read_back() {
    let mut w = ByteEncoder::new(vec![]);
    w.write_u8(200);
    w.write_u16(65535);
    w.write_u32(0xdead_beef);
    w.write_u64(u64::MAX - 1);
    w.write_u128(u128::MAX / 3);
    let mut r = ByteDecoder::new(w.inner);
    assert_eq!(r.read_u8(), Ok(200));
    assert_eq!(r.read_u16(), Ok(65535));
    assert_eq!(r.read_u32(), Ok(0xdead_beef));
    assert_eq!(r.read_u64(), Ok(u64::MAX - 1));
    assert_eq!(r.read_u128(), Ok(u128::MAX / 3));
    assert_eq!(r.read_u8(), Err(CodecError::UnexpectedEof));
}

#[test]
fn short_read_fails_and_consumes_nothing() {
    let mut r = ByteDecoder::new(vec![1, 2, 3]);
    assert_eq!(r.read_u32(), Err(CodecError::UnexpectedEof));
    assert_eq!(r.read_u16(), Ok(0x0201));
    assert_eq!(r.read_u16(), Err(CodecError::UnexpectedEof));
    assert_eq!(r.read_u8(), Ok(3));
    assert_eq!(r.read_u64(), Err(CodecError::UnexpectedEof));
    assert_eq!(r.read_u128(), Err(CodecError::UnexpectedEof));
}

#[test]
fn page_type_codes() {
    assert_eq!(BTreePageType::from_byte(0x02), Ok(BTreePageType::InteriorIndex));
    assert_eq!(BTreePageType::from_byte(0x05), Ok(BTreePageType::InteriorTable));
    assert_eq!(BTreePageType::from_byte(0x0a), Ok(BTreePageType::LeafIndex));
    assert_eq!(BTreePageType::from_byte(0x0d), Ok(BTreePageType::LeafTable));
    assert_eq!(BTreePageType::from_byte(0x00), Err(PageError::UnknownPageType(0x00)));
    assert_eq!(BTreePageType::from_byte(0x0c), Err(PageError::UnknownPageType(0x0c)));
    for t in [
        BTreePageType::InteriorIndex,
        BTreePageType::InteriorTable,
        BTreePageType::LeafIndex,
        BTreePageType::LeafTable,
    ] {
        assert_eq!(BTreePageType::from_byte(t.to_byte()), Ok(t));
    }
}

fn sample_header() -> PageHeader {
    PageHeader {
        page_type: BTreePageType::LeafTable,
        offset: 0x0102,
        n_cells: 3,
        cell_offset: 0x0ff0,
        right_pointer: 0xa0b0_c0d0,
    }
}

#[test]
fn header_bytes_layout() {
    let bytes = sample_header().to_bytes();
    assert_eq!(bytes, vec![0x0d, 0x02, 0x01, 0x03, 0x00, 0xf0, 0x0f, 0xd0, 0xc0, 0xb0, 0xa0]);
    assert_eq!(bytes.len(), HEADER_SIZE);
}

#[test]
fn header_round_trip() {
    let h = sample_header();
    assert_eq!(PageHeader::from_bytes(&h.to_bytes()), Ok(h));
    let h2 = PageHeader {
        page_type: BTreePageType::InteriorIndex,
        offset: u16::MAX,
        n_cells: 0,
        cell_offset: 1,
        right_pointer: u32::MAX,
    };
    assert_eq!(PageHeader::from_bytes(&h2.to_bytes()), Ok(h2));
}

#[test]
fn header_bytes_round_trip() {
    let bytes = [0x05u8, 9, 8, 7, 6, 5, 4, 3, 2, 1, 0, 0xee];
    let h = PageHeader::from_bytes(&bytes).unwrap();
    assert_eq!(h.page_type, BTreePageType::InteriorTable);
    assert_eq!(h.offset, 0x0809);
    assert_eq!(h.right_pointer, 0x0001_0203);
    assert_eq!(h.to_bytes(), bytes[..HEADER_SIZE].to_vec());
}

#[test]
fn header_errors() {
    assert_eq!(PageHeader::from_bytes(&[]), Err(PageError::UnexpectedEof));
    assert_eq!(PageHeader::from_bytes(&[0x0d, 1, 2, 3]), Err(PageError::UnexpectedEof));
    assert_eq!(PageHeader::from_bytes(&[0x07, 0, 0, 0, 0, 0, 0, 0, 0, 0, 0]), Err(PageError::UnknownPageType(7)));
    assert_eq!(PageHeader::from_bytes(&[0x07]), Err(PageError::UnknownPageType(7)));
}

#[test]
fn new_page_holds_its_header_then_zeros() {
    let page = Page::new(sample_header());
    let bytes = page.as_bytes();
    assert_eq!(bytes.len(), PAGE_SIZE);
    assert_eq!(bytes[..HEADER_SIZE].to_vec(), sample_header().to_bytes());
    assert!(bytes[HEADER_SIZE..].iter().all(|&b| b == 0));
    assert_eq!(page.header(), sample_header());
}

#[test]
fn page_file_offsets() {
    assert_eq!(Page::file_offset(0), Some(0));
    assert_eq!(Page::file_offset(3), Some(3 * 4096));
    assert_eq!(Page::file_offset(u64::MAX / 4096), Some((u64::MAX / 4096) * 4096));
    assert_eq!(Page::file_offset(u64::MAX / 4096 + 1), None);
}

#[test]
fn column_values_stop_past_end() {
    let mut bytes = Vec::new();
    for v in [3u64, 8, 20, 5] {
        bytes.extend_from_slice(&v.to_le_bytes());
    }
    assert_eq!(values_up_to(bytes.clone(), 10), vec![3, 8]);
    assert_eq!(values_up_to(bytes.clone(), 100), vec![3, 8, 20, 5]);
    assert_eq!(values_up_to(bytes.clone(), 2), Vec::<u64>::new());
    bytes.extend_from_slice(&[1, 2, 3]);
    assert_eq!(values_up_to(bytes, u64::MAX), vec![3, 8, 20, 5]);
    assert_eq!(values_up_to(vec![], 0), Vec::<u64>::new());
}

#[test]
fn page_type_from_known_codes() {
    assert_eq!(BTreePageType::from(0x02), BTreePageType::InteriorIndex);
    assert_eq!(BTreePageType::from(0x05), BTreePageType::InteriorTable);
    assert_eq!(BTreePageType::from(0x0a), BTreePageType::LeafIndex);
    assert_eq!(BTreePageType::from(0x0d), BTreePageType::LeafTable);
}
