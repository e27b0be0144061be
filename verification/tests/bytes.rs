use lib::btree::BTreePageHeaderFormat;
use lib::cell::{Cell, CellOperation};
use lib::custom_error::CustomError;
use lib::file::enums::TxtEncoding;
use lib::fileformat::get_btree_page_type;
use lib::utils::{
    convert_u8_to_u16_be, convert_u8_to_u16_le, get_enconding_type, is_msb_negative,
    parse_be_byte_to_int, parse_varint_to_int, read_specific_bytes, try_parse_varint,
};

#[test]
fn varints() {
    let mut v = 0u64;
    assert_eq!(parse_varint_to_int(&[0x05, 0xff], &mut v), 1);
    assert_eq!(v, 5);
    assert_eq!(parse_varint_to_int(&[0x81, 0x00], &mut v), 2);
    assert_eq!(v, 128);
    assert_eq!(parse_varint_to_int(&[0x82, 0x2c], &mut v), 2);
    assert_eq!(v, 300);
    assert_eq!(parse_varint_to_int(&[0x80, 0x80, 0x80, 0x80, 0x80, 0x80, 0x80, 0x80, 0x05], &mut v), 9);
    assert_eq!(v, 5);
    // the ninth byte always ends the varint and gives all eight of its bits
    assert_eq!(parse_varint_to_int(&[0xff; 9], &mut v), 9);
    assert_eq!(v, u64::MAX);
    assert_eq!(parse_varint_to_int(&[0x80, 0x80, 0x80, 0x80, 0x80, 0x80, 0x80, 0x81, 0x00], &mut v), 9);
    assert_eq!(v, 256);
    assert_eq!(try_parse_varint(&[0xff; 10]), Some((u64::MAX, 9)));
    assert_eq!(try_parse_varint(&[0xff; 8]), None);
    assert_eq!(try_parse_varint(&[0x80, 0x80]), None);
    assert_eq!(try_parse_varint(&[]), None);
    assert!(is_msb_negative(0x80));
    assert!(!is_msb_negative(0x7f));
}

#[test]
fn big_endian_and_units() {
    assert_eq!(parse_be_byte_to_int(&[1, 2, 3, 4], 1, 2), 0x0203);
    assert_eq!(parse_be_byte_to_int(&[1, 2, 3, 4], 0, 0), 0);
    assert_eq!(parse_be_byte_to_int(&[0xff; 8], 0, 8), u64::MAX);
    assert_eq!(convert_u8_to_u16_le(&[1, 2, 3, 4]), vec![0x0201, 0x0403]);
    assert_eq!(convert_u8_to_u16_be(&[1, 2, 3, 4]), vec![0x0102, 0x0304]);
}

#[test]
fn reads_zero_past_the_end() {
    let db = [1u8, 2, 3];
    assert_eq!(read_specific_bytes(&db, 1, 4), vec![2, 3, 0, 0]);
    assert_eq!(read_specific_bytes(&db, 9, 2), vec![0, 0]);
    assert_eq!(read_specific_bytes(&db, 0, 0), Vec::<u8>::new());
}

#[test]
fn encodings_and_page_types() {
    assert_eq!(get_enconding_type(1), TxtEncoding::UTF8);
    assert_eq!(get_enconding_type(2), TxtEncoding::UTF16LE);
    assert_eq!(get_enconding_type(3), TxtEncoding::UTF16BE);
    assert_eq!(get_btree_page_type(2), Ok(BTreePageHeaderFormat::InteriorIndexBTreePage));
    assert_eq!(get_btree_page_type(5), Ok(BTreePageHeaderFormat::InteriorTableBTreePage));
    assert_eq!(get_btree_page_type(10), Ok(BTreePageHeaderFormat::LeafIndexBTreePage));
    assert_eq!(get_btree_page_type(13), Ok(BTreePageHeaderFormat::LeafTableBTreePage));
    assert_eq!(get_btree_page_type(0), Err(CustomError::InvalidOffsetValueError));
}

#[test]
fn cell_fields_by_page_kind() {
    assert_eq!(
        CellOperation::get_valid_cell_fields(&BTreePageHeaderFormat::LeafTableBTreePage),
        vec![CellOperation::NumOfBytesOfPayload, CellOperation::Rowid, CellOperation::PageNumOfFirstOverflowPage, CellOperation::Payload]
    );
    assert_eq!(
        CellOperation::get_valid_cell_fields(&BTreePageHeaderFormat::InteriorTableBTreePage),
        vec![CellOperation::Rowid, CellOperation::PageNumLeftChild]
    );
    assert_eq!(
        CellOperation::get_valid_cell_fields(&BTreePageHeaderFormat::InteriorIndexBTreePage),
        vec![CellOperation::NumOfBytesOfPayload, CellOperation::PageNumLeftChild, CellOperation::PageNumOfFirstOverflowPage, CellOperation::Payload]
    );
    assert_eq!(
        CellOperation::get_valid_cell_fields(&BTreePageHeaderFormat::LeafIndexBTreePage),
        vec![CellOperation::NumOfBytesOfPayload, CellOperation::PageNumOfFirstOverflowPage, CellOperation::Payload]
    );
}

#[test]
fn overflow_bytes() {
    // page 512, no reserved bytes: a table leaf keeps up to 477 bytes.
    let leaf = BTreePageHeaderFormat::LeafTableBTreePage;
    assert_eq!(CellOperation::get_payload_overflow_bytes(&512, 0, 477, &leaf), 0);
    // p = 600: M = 39, K = 39 + (561 % 508) = 92 <= 477, so 600 - 92 spill.
    assert_eq!(CellOperation::get_payload_overflow_bytes(&512, 0, 600, &leaf), 508);
    let index = BTreePageHeaderFormat::LeafIndexBTreePage;
    assert_eq!(CellOperation::get_payload_overflow_bytes(&512, 0, 102, &index), 0);
    // p = 103: K = 39 + 64 = 103 > 102, so 103 - M = 64 spill.
    assert_eq!(CellOperation::get_payload_overflow_bytes(&512, 0, 103, &index), 64);
}

#[test]
fn cell_pointers() {
    assert_eq!(Cell::get_cellptr_arr(2, &[0x01, 0xf0, 0x01, 0xe0, 0xff]), vec![0x01f0, 0x01e0]);
    let c = Cell::new();
    assert!(c.payload.is_none());
    assert_eq!(c.first_overflow_pgno, 0);
}
