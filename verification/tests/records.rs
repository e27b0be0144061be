use lib::btree::{Child, Root, SchemaType};
use lib::custom_error::CustomError;
use lib::file::enums::TxtEncoding;
use lib::record_type::{float_eq, float_lt, RecordDataType};
use lib::schema::{parse_non_prim_int, RootSchema, Schema};

fn is_int(v: &RecordDataType, expected: i64) -> bool {
    match v {
        RecordDataType::INT8(i) => *i as i64 == expected,
        RecordDataType::INT16(i) => *i as i64 == expected,
        RecordDataType::INT32(i) => *i as i64 == expected,
        RecordDataType::INT64(i) => *i == expected,
        _ => false,
    }
}

#[test]
fn content_sizes_of_serial_types() {
    let r = Root::default();
    let expected = [(0u64, 0usize), (1, 1), (2, 2), (3, 3), (4, 4), (5, 6), (6, 8), (7, 8), (8, 0), (9, 0), (12, 0), (13, 0), (14, 1), (15, 1), (20, 4), (21, 4)];
    for (stype, size) in expected {
        assert_eq!(r.get_content_size_for_stype(stype), size);
    }
}

#[test]
fn parses_integers_with_sign() {
    let c = Child::default();
    let enc = TxtEncoding::UTF8;
    assert!(is_int(&c.parse_content(&[0xff], 1, &enc).unwrap(), -1));
    assert!(is_int(&c.parse_content(&[0x7f, 0xff], 2, &enc).unwrap(), 32767));
    assert!(is_int(&c.parse_content(&[0x80, 0x00, 0x00], 3, &enc).unwrap(), -8388608));
    assert!(is_int(&c.parse_content(&[0x7f, 0xff, 0xff], 3, &enc).unwrap(), 8388607));
    assert!(is_int(&c.parse_content(&[0x80, 0, 0, 0], 4, &enc).unwrap(), -2147483648));
    assert!(is_int(&c.parse_content(&[0x80, 0, 0, 0, 0, 0], 5, &enc).unwrap(), -140737488355328));
    assert!(is_int(&c.parse_content(&[0x7f, 0xff, 0xff, 0xff, 0xff, 0xff], 5, &enc).unwrap(), 140737488355327));
    assert!(is_int(&c.parse_content(&[0x80, 0, 0, 0, 0, 0, 0, 0], 6, &enc).unwrap(), i64::MIN));
    assert!(is_int(&c.parse_content(&[], 8, &enc).unwrap(), 0));
    assert!(is_int(&c.parse_content(&[], 9, &enc).unwrap(), 1));
    assert!(matches!(c.parse_content(&[], 0, &enc).unwrap(), RecordDataType::NULL));
    assert!(matches!(c.parse_content(&[], 12, &enc).unwrap(), RecordDataType::BLOB(b) if b.is_empty()));
    assert!(matches!(c.parse_content(&[], 13, &enc).unwrap(), RecordDataType::STR(s) if s.is_empty()));
    assert!(is_int(&parse_non_prim_int(&[0xff, 0xff, 0xfe], 24), -2));
    assert!(is_int(&parse_non_prim_int(&[0, 0, 0, 0, 1, 0], 48), 256));
}

#[test]
fn parses_real_text_and_blob() {
    let c = Child::default();
    let enc = TxtEncoding::UTF8;
    let bits = 1.5f64.to_bits().to_be_bytes();
    match c.parse_content(&bits, 7, &enc).unwrap() {
        RecordDataType::FLOAT(b) => assert_eq!(f64::from_bits(b), 1.5),
        _ => panic!("expected a double"),
    }
    assert_eq!(c.parse_content(&[0; 7], 7, &enc).err(), Some(CustomError::MalformedPage));
    assert_eq!(c.parse_content(&[0; 9], 7, &enc).err(), Some(CustomError::MalformedPage));
    match c.parse_content(b"hi", 17, &enc).unwrap() {
        RecordDataType::STR(s) => assert_eq!(s, "hi"),
        _ => panic!("expected text"),
    }
    match c.parse_content(&[0xde, 0xad], 16, &enc).unwrap() {
        RecordDataType::BLOB(b) => assert_eq!(b, vec![0xde, 0xad]),
        _ => panic!("expected a blob"),
    }
    assert_eq!(c.parse_content(&[0xff, 0xfe], 17, &enc).err(), Some(CustomError::InvalidText));
    match c.parse_string_payload(&[0, 0x68, 0, 0x69], &TxtEncoding::UTF16BE).unwrap() {
        s => assert_eq!(s, "hi"),
    }
    match c.parse_string_payload(&[0x68, 0, 0x69, 0], &TxtEncoding::UTF16LE).unwrap() {
        s => assert_eq!(s, "hi"),
    }
    assert_eq!(c.parse_string_payload(&[0x68, 0, 0x69], &TxtEncoding::UTF16LE).err(), Some(CustomError::MalformedPage));
    assert_eq!(c.parse_string_payload(&[0x00, 0xd8], &TxtEncoding::UTF16LE).err(), Some(CustomError::InvalidText));
}

#[test]
fn reads_a_record() {
    let c = Child::default();
    // header: size 4, types text(2 chars) = 17, int8 = 1, null = 0
    let payload = [4u8, 17, 1, 0, b'o', b'k', 0xfe];
    let vals = c.read_content(1, &payload).unwrap();
    assert_eq!(vals.len(), 3);
    assert!(matches!(&vals[0], RecordDataType::STR(s) if s == "ok"));
    assert!(is_int(&vals[1], -2));
    assert!(matches!(vals[2], RecordDataType::NULL));
    // the body ends before the text does
    assert_eq!(c.read_content(1, &[3u8, 21, 1, b'a']).err(), Some(CustomError::MalformedPage));
    // a header size past the payload
    assert_eq!(c.read_content(1, &[9u8, 1]).err(), Some(CustomError::MalformedPage));
}

#[test]
fn extracts_a_schema_record() {
    let r = Root::default();
    let mut payload = vec![6u8, 23, 21, 21, 1, 53];
    payload.extend_from_slice(b"table");
    payload.extend_from_slice(b"abcd");
    payload.extend_from_slice(b"abcd");
    payload.push(7);
    payload.extend_from_slice(b"CREATE TABLE abcd(x)");
    let s = r.extract_schema(1, &payload).unwrap();
    assert_eq!(s.schema_type, SchemaType::TABLE);
    assert_eq!(s.name, "abcd");
    assert_eq!(s.tbl_name, "abcd");
    assert_eq!(s.rootpg, 7);
    assert_eq!(s.sql, "CREATE TABLE abcd(x)");
    payload[6] = b'X';
    assert_eq!(r.extract_schema(1, &payload).err(), Some(CustomError::InvalidSchemaType));
}

#[test]
fn record_value_conversions() {
    let v = RecordDataType::INT16(-5);
    assert!(RecordDataType::is_record_int(&v));
    assert!(!RecordDataType::is_record_string(&v));
    // integers pass through `i32`: negative ones wrap, larger ones give 0
    assert_eq!(v.into_u64(), (-5i32) as u64);
    assert_eq!(v.into_i64(), -5);
    assert_eq!(RecordDataType::INT64(1 << 40).into_u64(), 0);
    assert_eq!(RecordDataType::INT64(1 << 40).into_i64(), 0);
    assert_eq!(RecordDataType::INT64(-7).into_i64(), -7);
    assert_eq!(v.into_u32(), (-5i16) as u32);
    assert_eq!(RecordDataType::INT64(7).into_u64(), 7);
    assert_eq!(RecordDataType::INT64(7).into_u32(), 0);
    assert_eq!(RecordDataType::STR("x".to_string()).into_string(), "x");
    assert_eq!(RecordDataType::NULL.into_string(), "");
    assert_eq!(RecordDataType::FLOAT(2.5f64.to_bits()).into_float_bits(), 2.5f64.to_bits());
    assert_eq!(RecordDataType::INT8(1).into_float_bits(), 0);
    assert_eq!(RecordDataType::STR("INDEX".to_string()).into_schema_type(), Ok(SchemaType::INDEX));
    assert_eq!(RecordDataType::INT8(1).into_schema_type(), Ok(SchemaType::TABLE));
    assert!(RecordDataType::is_record_blob(&RecordDataType::BLOB(vec![1])));
    assert!(RecordDataType::is_record_float(&RecordDataType::FLOAT(0)));
    assert!(matches!(RecordDataType::default(), RecordDataType::STR(s) if s.is_empty()));
    // integers of any width are of one kind; text and a double are not
    assert!(RecordDataType::cmp(&RecordDataType::INT8(1), &RecordDataType::INT64(2)));
    assert!(!RecordDataType::cmp(&RecordDataType::STR("a".to_string()), &RecordDataType::FLOAT(1.0f64.to_bits())));
    assert!(RecordDataType::cmp(&RecordDataType::STR("a".to_string()), &RecordDataType::STR(String::new())));
    assert!(!RecordDataType::cmp(&RecordDataType::INT8(1), &RecordDataType::NULL));
    assert!(RecordDataType::cmp(&RecordDataType::BLOB(vec![]), &RecordDataType::BLOB(vec![2])));
    assert!(RecordDataType::cmp(&RecordDataType::NULL, &RecordDataType::NULL));
}

#[test]
fn double_comparisons_follow_ieee() {
    let vals = [0.0f64, -0.0, 1.5, -1.5, 3.0e300, -2.0e-300, f64::INFINITY, f64::NEG_INFINITY, f64::NAN, 1.0, 2.0];
    for a in vals {
        for b in vals {
            assert_eq!(float_lt(a.to_bits(), b.to_bits()), a < b, "{} < {}", a, b);
            assert_eq!(float_eq(a.to_bits(), b.to_bits()), a == b, "{} == {}", a, b);
        }
    }
}

use lib::btree::{SchemaMap, SqlSchema};

fn schema(t: SchemaType, name: &str, tbl: &str, rootpg: u32) -> SqlSchema {
    SqlSchema { schema_type: t, name: name.to_string(), tbl_name: tbl.to_string(), rootpg, sql: String::new() }
}

#[test]
fn schema_map_keeps_one_entry_per_table() {
    let mut m = SchemaMap::new();
    assert_eq!(m.len(), 0);
    m.insert_schema(schema(SchemaType::TABLE, "a", "a", 2));
    m.insert_schema(schema(SchemaType::TABLE, "b", "b", 3));
    m.insert_schema(schema(SchemaType::INDEX, "a_idx", "a", 4));
    assert_eq!(m.len(), 2);
    let a = m.get(&"a".to_string()).unwrap();
    assert_eq!(a.len(), 2);
    assert_eq!(a[0].name, "a");
    assert_eq!(a[1].name, "a_idx");
    assert_eq!(m.get(&"b".to_string()).unwrap()[0].rootpg, 3);
    assert!(m.get(&"c".to_string()).is_none());
    assert_eq!(m.find(&"b".to_string()), Some(1));
    assert_eq!(m.entry(0).tbl_name, "a");
}
