use lib::custom_error::CustomError;
use lib::file::enums::TxtEncoding;
use lib::record_type::RecordDataType;
use lib::recordformat::RecordFormat;

#[test]
fn set_records_reads_every_column() {
    let mut rf = RecordFormat::new();
    assert_eq!(rf.header_size, 0);
    assert_eq!(rf.num_of_cols, 0);
    let payload = [4u8, 17, 1, 0, b'o', b'k', 0xfe];
    let mut idx = 7u32;
    let mut remain = 5u32;
    rf.set_records(&payload, &TxtEncoding::UTF8, &mut idx, &mut remain).unwrap();
    assert_eq!(rf.header_size, 4);
    assert_eq!(rf.num_of_cols, 3);
    assert_eq!(rf.rows.len(), 3);
    assert_eq!(rf.rows[0].header, (17, 2));
    assert!(matches!(&rf.rows[0].content, RecordDataType::STR(s) if s == "ok"));
    assert_eq!(rf.rows[1].header, (1, 1));
    assert!(matches!(rf.rows[1].content, RecordDataType::INT8(-2)));
    assert_eq!(rf.rows[2].header, (0, 0));
    assert!(matches!(rf.rows[2].content, RecordDataType::NULL));
    assert_eq!(idx, 2);
    assert_eq!(remain, 5);
}

#[test]
fn set_records_errors_leave_the_record() {
    let mut rf = RecordFormat::new();
    let mut idx = 0u32;
    let mut remain = 0u32;
    // the text runs past the end of the record
    assert_eq!(
        rf.set_records(&[3u8, 21, 1, b'a'], &TxtEncoding::UTF8, &mut idx, &mut remain).err(),
        Some(CustomError::MalformedPage)
    );
    // a serial type that runs past the header size
    assert_eq!(
        rf.set_records(&[2u8, 0x81, 0x00], &TxtEncoding::UTF8, &mut idx, &mut remain).err(),
        Some(CustomError::MalformedPage)
    );
    assert_eq!(rf.num_of_cols, 0);
    assert!(rf.rows.is_empty());
}

#[test]
fn content_and_its_length() {
    let rf = RecordFormat::new();
    let v = rf.get_content(&[0x01, 0x00], 2, &TxtEncoding::UTF8).unwrap();
    assert!(matches!(v, RecordDataType::INT16(256)));
    assert_eq!(RecordFormat::get_content_len(&RecordDataType::STR("é!".to_string())), 3);
    assert_eq!(RecordFormat::get_content_len(&RecordDataType::BLOB(vec![1, 2, 3, 4])), 4);
    assert_eq!(RecordFormat::get_content_len(&RecordDataType::INT8(1)), 8);
    assert_eq!(RecordFormat::get_content_len(&RecordDataType::FLOAT(0)), 8);
    assert_eq!(RecordFormat::get_content_len(&RecordDataType::NULL), 0);
}
