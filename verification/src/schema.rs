use vstd::prelude::*;

use crate::btree::{spec_schema_type, Root, SchemaType, SchemaView, SqlSchema};
use crate::cell::varint_at_ok;
use crate::custom_error::CustomError;
use crate::file::enums::TxtEncoding;
use crate::page::prepend;
use crate::record_type::{
    spec_into_string, spec_into_u32, RecordDataType, RecordValue,
};
use crate::utils::{
    be_at, be_unit, convert_u8_to_u16_be, convert_u8_to_u16_le, decode_utf16, decode_utf8,
    get_enconding_type, le_unit, lemma_be_value_bound, parse_be_byte_to_int, pow256,
    spec_encoding, try_parse_varint, utf16_decode, varint_size, varint_terminates, varint_value,
    lemma_varint_read_back, varint_encoding,
};

verus! {

/// The number of content bytes of a column of serial type `stype`.
pub open spec fn spec_content_size(stype: u64) -> usize {
    if stype == 5 {
        6
    } else if stype == 6 || stype == 7 {
        8
    } else if stype == 8 || stype == 9 || stype == 12 || stype == 13 {
        0
    } else if stype < 5 {
        stype as usize
    } else if stype > 12 && stype % 2 == 0 {
        ((stype - 12) / 2) as usize
    } else if stype > 13 && stype % 2 == 1 {
        ((stype - 13) / 2) as usize
    } else {
        0
    }
}

/// The text that the bytes `buf` encode in `enc`.
pub open spec fn spec_decode_text(buf: Seq<u8>, enc: TxtEncoding) -> Result<Seq<char>, CustomError> {
    match enc {
        TxtEncoding::UTF8 => if vstd::utf8::valid_utf8(buf) {
            Ok(vstd::utf8::decode_utf8(buf))
        } else {
            Err(CustomError::InvalidText)
        },
        TxtEncoding::UTF16BE => if buf.len() % 2 != 0 {
            Err(CustomError::MalformedPage)
        } else {
            match utf16_decode(Seq::new(buf.len() / 2, |i: int| be_unit(buf, i))) {
                Some(s) => Ok(s),
                None => Err(CustomError::InvalidText),
            }
        },
        TxtEncoding::UTF16LE => if buf.len() % 2 != 0 {
            Err(CustomError::MalformedPage)
        } else {
            match utf16_decode(Seq::new(buf.len() / 2, |i: int| le_unit(buf, i))) {
                Some(s) => Ok(s),
                None => Err(CustomError::InvalidText),
            }
        },
    }
}

/// A 24-bit two's complement integer, sign-extended to 32 bits.
pub open spec fn sext24(buf: Seq<u8>) -> i32 {
    ((if buf[0] >= 0x80 { 0xFF00_0000int } else { 0int }) + be_at(buf, 0, 3)) as u32 as i32
}

/// A 48-bit two's complement integer, sign-extended to 64 bits.
pub open spec fn sext48(buf: Seq<u8>) -> i64 {
    ((if buf[0] >= 0x80 { 0xFFFF_0000_0000_0000int } else { 0int }) + be_at(buf, 0, 6)) as u64 as i64
}

/// The value of a column of serial type `stype` whose content bytes are
/// `buf`.
pub open spec fn spec_parse_content(buf: Seq<u8>, stype: u64, enc: TxtEncoding) -> Result<RecordValue, CustomError> {
    if stype == 0 {
        Ok(RecordValue::Null)
    } else if stype == 1 {
        Ok(RecordValue::Int8(be_at(buf, 0, 1) as u8 as i8))
    } else if stype == 2 {
        Ok(RecordValue::Int16(be_at(buf, 0, 2) as u16 as i16))
    } else if stype == 3 {
        Ok(RecordValue::Int32(sext24(buf)))
    } else if stype == 4 {
        Ok(RecordValue::Int32(be_at(buf, 0, 4) as u32 as i32))
    } else if stype == 5 {
        Ok(RecordValue::Int64(sext48(buf)))
    } else if stype == 6 {
        Ok(RecordValue::Int64(be_at(buf, 0, 8) as u64 as i64))
    } else if stype == 7 {
        if buf.len() == 8 {
            Ok(RecordValue::Float(be_at(buf, 0, 8) as u64))
        } else {
            Err(CustomError::MalformedPage)
        }
    } else if stype == 10 || stype == 11 {
        Ok(RecordValue::Null)
    } else if stype == 9 {
        Ok(RecordValue::Int8(1))
    } else if stype == 8 {
        Ok(RecordValue::Int8(0))
    } else if stype % 2 == 0 {
        Ok(RecordValue::Blob(buf))
    } else {
        match spec_decode_text(buf, enc) {
            Ok(s) => Ok(RecordValue::Str(s)),
            Err(e) => Err(e),
        }
    }
}

/// The serial types of a record header, read from `off` on while `remaining`
/// header bytes are left; with the offset just past the header.
pub open spec fn spec_stypes(payload: Seq<u8>, off: int, remaining: int) -> Result<(Seq<u64>, int), CustomError>
    decreases payload.len() - off
    via spec_stypes_decreases
{
    if remaining <= 0 {
        Ok((Seq::empty(), off))
    } else if !varint_at_ok(payload, off) {
        Err(CustomError::MalformedPage)
    } else {
        let s = payload.subrange(off, payload.len() as int);
        prepend_stypes(seq![varint_value(s)], spec_stypes(payload, off + varint_size(s), remaining - varint_size(s)))
    }
}

#[via_fn]
proof fn spec_stypes_decreases(payload: Seq<u8>, off: int, remaining: int) {
    if remaining > 0 && varint_at_ok(payload, off) {
        crate::utils::lemma_varint_size_pos(payload.subrange(off, payload.len() as int));
    }
}

/// The column values of a record body that starts at `off`, one for each
/// serial type of `stypes`.
pub open spec fn spec_values(payload: Seq<u8>, off: int, stypes: Seq<u64>, enc: TxtEncoding) -> Result<Seq<RecordValue>, CustomError>
    decreases stypes.len(),
{
    if stypes.len() == 0 {
        Ok(Seq::empty())
    } else {
        let size = spec_content_size(stypes[0]) as int;
        if off + size > payload.len() {
            Err(CustomError::MalformedPage)
        } else {
            match spec_parse_content(payload.subrange(off, off + size), stypes[0], enc) {
                Err(e) => Err(e),
                Ok(v) => prepend(seq![v], spec_values(payload, off + size, stypes.drop_first(), enc)),
            }
        }
    }
}

/// The column values of the record `payload`: a varint header size, the
/// serial types, then the column contents.
pub open spec fn spec_read_content(enc_val: u32, payload: Seq<u8>) -> Result<Seq<RecordValue>, CustomError> {
    if !varint_terminates(payload) {
        Err(CustomError::MalformedPage)
    } else if varint_value(payload) < varint_size(payload) {
        Err(CustomError::MalformedPage)
    } else {
        match spec_stypes(payload, varint_size(payload), varint_value(payload) - varint_size(payload)) {
            Err(e) => Err(e),
            Ok((ts, off)) => spec_values(payload, off, ts, spec_encoding(enc_val)),
        }
    }
}

pub open spec fn records_view(v: Seq<RecordDataType>) -> Seq<RecordValue> {
    v.map_values(|r: RecordDataType| r@)
}

/// The text of the `i`-th column, empty when it is missing or not text.
pub open spec fn str_at(vals: Seq<RecordValue>, i: int) -> Seq<char> {
    if i < vals.len() {
        spec_into_string(vals[i])
    } else {
        Seq::empty()
    }
}

/// The `i`-th column as `u32`, 0 when it is missing.
pub open spec fn u32_at(vals: Seq<RecordValue>, i: int) -> u32 {
    if i < vals.len() {
        spec_into_u32(vals[i])
    } else {
        0
    }
}

/// The schema that an `sqlite_schema` record holds: type, name, table name,
/// root page and SQL text.
pub open spec fn spec_schema_of(vals: Seq<RecordValue>) -> Result<SchemaView, CustomError> {
    let st = if vals.len() > 0 {
        match vals[0] {
            RecordValue::Str(s) => spec_schema_type(s),
            _ => Ok(SchemaType::TABLE),
        }
    } else {
        Ok(SchemaType::TABLE)
    };
    match st {
        Err(e) => Err(e),
        Ok(t) => Ok(
            SchemaView {
                schema_type: t,
                name: str_at(vals, 1),
                tbl_name: str_at(vals, 2),
                rootpg: u32_at(vals, 3),
                sql: str_at(vals, 4),
            },
        ),
    }
}

/// The schema held in the `sqlite_schema` record `payload`.
pub open spec fn spec_extract_schema(enc_val: u32, payload: Seq<u8>) -> Result<SchemaView, CustomError> {
    match spec_read_content(enc_val, payload) {
        Err(e) => Err(e),
        Ok(vals) => spec_schema_of(vals),
    }
}

pub trait Schema {
    fn get_content_size_for_stype(&self, stype: u64) -> (r: usize)
        ensures
            r == spec_content_size(stype),
    {
        if stype == 5 {
            6
        } else if stype == 6 || stype == 7 {
            8
        } else if stype == 8 || stype == 9 || stype == 12 || stype == 13 {
            0
        } else if stype < 5 {
            stype as usize
        } else if stype > 12 && stype % 2 == 0 {
            ((stype - 12) / 2) as usize
        } else if stype > 13 && stype % 2 == 1 {
            ((stype - 13) / 2) as usize
        } else {
            0
        }
    }

    /// The text that the bytes `buf` encode in `encoding_type`.
    fn parse_string_payload(&self, buf: &[u8], encoding_type: &TxtEncoding) -> (r: Result<String, CustomError>)
        ensures
            match spec_decode_text(buf@, *encoding_type) {
                Ok(s) => r matches Ok(t) && t@ == s,
                Err(e) => r matches Err(e2) && e2 == e,
            },
    {
        match encoding_type {
            TxtEncoding::UTF16BE => {
                if buf.len() % 2 != 0 {
                    return Err(CustomError::MalformedPage);
                }
                let buf_16 = convert_u8_to_u16_be(buf);
                assert(buf_16@ =~= Seq::new(buf@.len() / 2, |i: int| be_unit(buf@, i)));
                match decode_utf16(buf_16.as_slice()) {
                    Some(s) => Ok(s),
                    None => Err(CustomError::InvalidText),
                }
            },
            TxtEncoding::UTF16LE => {
                if buf.len() % 2 != 0 {
                    return Err(CustomError::MalformedPage);
                }
                let buf_16 = convert_u8_to_u16_le(buf);
                assert(buf_16@ =~= Seq::new(buf@.len() / 2, |i: int| le_unit(buf@, i)));
                match decode_utf16(buf_16.as_slice()) {
                    Some(s) => Ok(s),
                    None => Err(CustomError::InvalidText),
                }
            },
            _ => {
                match decode_utf8(buf) {
                    Some(s) => Ok(s),
                    None => Err(CustomError::InvalidText),
                }
            },
        }
    }

    /// The value of a column of serial type `stype` whose content bytes are
    /// `buf`.
    fn parse_content(&self, buf: &[u8], stype: u64, encoding_type: &TxtEncoding) -> (r: Result<RecordDataType, CustomError>)
        requires
            1 <= stype <= 6 ==> buf@.len() >= spec_content_size(stype),
        ensures
            match spec_parse_content(buf@, stype, *encoding_type) {
                Ok(v) => r matches Ok(x) && x@ == v,
                Err(e) => r matches Err(e2) && e2 == e,
            },
    {
        if stype == 0 {
            Ok(RecordDataType::NULL)
        } else if 1 <= stype && stype <= 6 {
            if stype == 1 {
                // 8bit 2's complement
                proof {
                    lemma_be_value_bound(buf@.subrange(0, 1));
                    reveal_with_fuel(pow256, 2);
                }
                Ok(RecordDataType::INT8(parse_be_byte_to_int(buf, 0, 1) as u8 as i8))
            } else if stype == 2 {
                // 16 bit 2's complement
                proof {
                    lemma_be_value_bound(buf@.subrange(0, 2));
                    reveal_with_fuel(pow256, 3);
                }
                Ok(RecordDataType::INT16(parse_be_byte_to_int(buf, 0, 2) as u16 as i16))
            } else if stype == 3 {
                // 24 bit 2's complement
                Ok(parse_non_prim_int(buf, 24))
            } else if stype == 4 {
                // 32 bit 2's complement
                proof {
                    lemma_be_value_bound(buf@.subrange(0, 4));
                    reveal_with_fuel(pow256, 5);
                }
                Ok(RecordDataType::INT32(parse_be_byte_to_int(buf, 0, 4) as u32 as i32))
            } else if stype == 5 {
                // 48 bit 2's complement
                Ok(parse_non_prim_int(buf, 48))
            } else {
                // 64 bit 2's complement
                Ok(RecordDataType::INT64(parse_be_byte_to_int(buf, 0, 8) as i64))
            }
        } else if stype == 7 {
            if buf.len() != 8 {
                return Err(CustomError::MalformedPage);
            }
            Ok(RecordDataType::FLOAT(parse_be_byte_to_int(buf, 0, 8)))
        } else if stype == 10 || stype == 11 {
            Ok(RecordDataType::NULL)
        } else if stype == 9 {
            // The integer 1 (schema format 4).
            Ok(RecordDataType::INT8(1))
        } else if stype == 8 {
            Ok(RecordDataType::INT8(0))
        } else if stype % 2 == 0 {
            Ok(RecordDataType::BLOB(vstd::slice::slice_to_vec(buf)))
        } else {
            let utf_content = self.parse_string_payload(buf, encoding_type)?;
            Ok(RecordDataType::STR(utf_content))
        }
    }

    /// The column values of the record `payload`, text decoded in the
    /// encoding that `enc_val` names.
    fn read_content(&self, enc_val: u32, payload: &[u8]) -> (r: Result<Vec<RecordDataType>, CustomError>)
        ensures
            match spec_read_content(enc_val, payload@) {
                Ok(vals) => r matches Ok(v) && records_view(v@) == vals,
                Err(e) => r matches Err(e2) && e2 == e,
            },
    {
        let (header, header_varint_size) = match try_parse_varint(payload) {
            Some(p) => p,
            None => {
                return Err(CustomError::MalformedPage);
            },
        };
        if header < header_varint_size as u64 {
            return Err(CustomError::MalformedPage);
        }
        let mut cur_payload_offset = header_varint_size;
        let mut stypes: Vec<u64> = Vec::new();
        let total_cols = header - header_varint_size as u64;
        let mut cur_col: u64 = 0;
        let ghost full = spec_stypes(payload@, header_varint_size as int, total_cols as int);
        assert(spec_read_content(enc_val, payload@) == match full {
            Err(e) => Err(e),
            Ok((ts, off)) => spec_values(payload@, off, ts, spec_encoding(enc_val)),
        });
        proof {
            lemma_prepend_stypes_empty(full);
        }
        while cur_col < total_cols
            invariant
                full == spec_stypes(payload@, header_varint_size as int, total_cols as int),
                spec_read_content(enc_val, payload@) == match full {
                    Err(e) => Err(e),
                    Ok((ts, off)) => spec_values(payload@, off, ts, spec_encoding(enc_val)),
                },
                cur_payload_offset == header_varint_size + cur_col,
                cur_payload_offset <= payload@.len(),
                full == prepend_stypes(stypes@, spec_stypes(payload@, cur_payload_offset as int, total_cols - cur_col)),
            decreases payload@.len() - cur_payload_offset,
        {
            let ghost rem = total_cols - cur_col;
            let rest = vstd::slice::slice_subrange(payload, cur_payload_offset, payload.len());
            let (stype, stype_varint_size) = match try_parse_varint(rest) {
                Some(p) => p,
                None => {
                    assert(spec_stypes(payload@, cur_payload_offset as int, rem) == Err::<(Seq<u64>, int), CustomError>(CustomError::MalformedPage));
                    return Err(CustomError::MalformedPage);
                },
            };
            proof {
                crate::utils::lemma_varint_scan_bounds(rest@, 0, 0);
                lemma_prepend_stypes_assoc(stypes@, stype, spec_stypes(payload@, cur_payload_offset + stype_varint_size, rem - stype_varint_size));
            }
            stypes.push(stype);
            cur_payload_offset += stype_varint_size;
            cur_col += stype_varint_size as u64;
        }
        let ghost body_start = cur_payload_offset;
        assert(full == Ok::<(Seq<u64>, int), CustomError>((stypes@, body_start as int))) by {
            assert(stypes@ + Seq::<u64>::empty() =~= stypes@);
        }
        let encoding = get_enconding_type(enc_val);
        assert(spec_read_content(enc_val, payload@) == spec_values(payload@, body_start as int, stypes@, encoding));
        let ghost full_vals = spec_values(payload@, body_start as int, stypes@, encoding);
        let mut schema_content: Vec<RecordDataType> = Vec::new();
        let mut i: usize = 0;
        proof {
            assert(stypes@.skip(0) =~= stypes@);
            assert(records_view(schema_content@) =~= Seq::<RecordValue>::empty());
            crate::page::lemma_prepend_assoc(Seq::<RecordValue>::empty(), Seq::<RecordValue>::empty(), full_vals);
        }
        while i < stypes.len()
            invariant
                i <= stypes@.len(),
                cur_payload_offset <= payload@.len(),
                full_vals == spec_values(payload@, body_start as int, stypes@, encoding),
                spec_read_content(enc_val, payload@) == full_vals,
                full_vals == prepend(records_view(schema_content@), spec_values(payload@, cur_payload_offset as int, stypes@.skip(i as int), encoding)),
            decreases stypes@.len() - i,
        {
            let ghost rest = stypes@.skip(i as int);
            assert(rest.drop_first() =~= stypes@.skip(i + 1));
            assert(rest[0] == stypes@[i as int]);
            let stype = stypes[i];
            let content_size = self.get_content_size_for_stype(stype);
            if content_size > payload.len() - cur_payload_offset {
                assert(spec_values(payload@, cur_payload_offset as int, rest, encoding) == Err::<Seq<RecordValue>, CustomError>(CustomError::MalformedPage));
                return Err(CustomError::MalformedPage);
            }
            let content_bytes = vstd::slice::slice_subrange(payload, cur_payload_offset, cur_payload_offset + content_size);
            let content = match self.parse_content(content_bytes, stype, &encoding) {
                Ok(c) => c,
                Err(e) => {
                    assert(spec_values(payload@, cur_payload_offset as int, rest, encoding) == Err::<Seq<RecordValue>, CustomError>(e));
                    return Err(e);
                },
            };
            let ghost before = records_view(schema_content@);
            schema_content.push(content);
            proof {
                assert(records_view(schema_content@) =~= before + seq![schema_content@.last()@]);
                crate::page::lemma_prepend_assoc(before, seq![schema_content@.last()@], spec_values(payload@, cur_payload_offset + content_size, stypes@.skip(i + 1), encoding));
            }
            cur_payload_offset += content_size;
            i = i + 1;
        }
        proof {
            assert(stypes@.skip(i as int) =~= Seq::<u64>::empty());
            assert(records_view(schema_content@) + Seq::<RecordValue>::empty() =~= records_view(schema_content@));
        }
        Ok(schema_content)
    }
}

/// `pre` put in front of the serial types of a successful header read.
pub open spec fn prepend_stypes(pre: Seq<u64>, r: Result<(Seq<u64>, int), CustomError>) -> Result<(Seq<u64>, int), CustomError> {
    match r {
        Ok((ts, o)) => Ok((pre + ts, o)),
        Err(e) => Err(e),
    }
}

pub proof fn lemma_prepend_stypes_empty(r: Result<(Seq<u64>, int), CustomError>)
    ensures
        prepend_stypes(Seq::empty(), r) == r,
{
    match r {
        Ok((ts, o)) => {
            assert(Seq::<u64>::empty() + ts =~= ts);
        },
        Err(_) => {},
    }
}

pub proof fn lemma_prepend_stypes_assoc(pre: Seq<u64>, t: u64, r: Result<(Seq<u64>, int), CustomError>)
    ensures
        prepend_stypes(pre, prepend_stypes(seq![t], r)) == prepend_stypes(pre.push(t), r),
{
    match r {
        Ok((ts, o)) => {
            assert(pre + (seq![t] + ts) =~= pre.push(t) + ts);
        },
        Err(_) => {},
    }
}

pub trait RootSchema: Schema {
    /// The schema held in an `sqlite_schema` record.
    fn extract_schema(&self, enc_val: u32, payload: &[u8]) -> (r: Result<SqlSchema, CustomError>)
        ensures
            match spec_extract_schema(enc_val, payload@) {
                Ok(v) => r matches Ok(sch) && sch@ == v,
                Err(e) => r matches Err(e2) && e2 == e,
            },
    ;

    /// The text of a schema column, empty when it is missing or not text.
    fn get_sqlite_schema_str(&self, content: Option<&RecordDataType>) -> (r: String)
        ensures
            r@ == match content {
                Some(c) => spec_into_string(c@),
                None => Seq::empty(),
            },
    ;

    /// A schema column as `u32`, 0 when it is missing.
    fn get_sqlite_schema_int(&self, content: Option<&RecordDataType>) -> (r: u32)
        ensures
            r == match content {
                Some(c) => spec_into_u32(c@),
                None => 0,
            },
    ;
}

impl Schema for Root {

}

/// The `i`-th value of `v`, if there is one.
fn value_at(v: &Vec<RecordDataType>, i: usize) -> (r: Option<&RecordDataType>)
    ensures
        i < v@.len() ==> r == Some(&v@[i as int]),
        i >= v@.len() ==> r is None,
{
    if i < v.len() {
        Some(&v[i])
    } else {
        None
    }
}

impl RootSchema for Root {
    fn get_sqlite_schema_str(&self, content: Option<&RecordDataType>) -> (r: String) {
        match content {
            Some(res) => res.into_string(),
            None => String::new(),
        }
    }

    fn get_sqlite_schema_int(&self, content: Option<&RecordDataType>) -> (r: u32) {
        match content {
            Some(res) => res.into_u32(),
            None => 0,
        }
    }

    fn extract_schema(&self, enc_val: u32, payload: &[u8]) -> (r: Result<SqlSchema, CustomError>) {
        let schema_content = Schema::read_content(self, enc_val, payload)?;
        let ghost vals = records_view(schema_content@);
        let schema_type: SchemaType = match value_at(&schema_content, 0) {
            Some(res) => res.into_schema_type()?,
            None => SchemaType::TABLE,
        };
        let name: String = self.get_sqlite_schema_str(value_at(&schema_content, 1));
        let tbl_name: String = self.get_sqlite_schema_str(value_at(&schema_content, 2));
        let rootpg: u32 = self.get_sqlite_schema_int(value_at(&schema_content, 3));
        let sql: String = self.get_sqlite_schema_str(value_at(&schema_content, 4));
        let r = SqlSchema { schema_type, name, tbl_name, rootpg, sql };
        assert(r@ == spec_schema_of(vals).unwrap());
        Ok(r)
    }
}

/// Sign-extends a 24-bit (`size` 24) or 48-bit (otherwise) two's complement
/// integer stored big-endian at the start of `buf`.
pub fn parse_non_prim_int(buf: &[u8], size: u8) -> (r: RecordDataType)
    requires
        buf@.len() >= (if size == 24 { 3int } else { 6int }),
    ensures
        size == 24 ==> r@ == RecordValue::Int32(sext24(buf@)),
        size != 24 ==> r@ == RecordValue::Int64(sext48(buf@)),
{
    let negative = crate::utils::is_msb_negative(buf[0]);
    if size == 24 {
        proof {
            lemma_be_value_bound(buf@.subrange(0, 3));
            reveal_with_fuel(pow256, 4);
        }
        let low = parse_be_byte_to_int(buf, 0, 3) as u32;
        let v: u32 = if negative { 0xFF00_0000u32 + low } else { low };
        RecordDataType::INT32(v as i32)
    } else {
        proof {
            lemma_be_value_bound(buf@.subrange(0, 6));
            reveal_with_fuel(pow256, 7);
        }
        let low = parse_be_byte_to_int(buf, 0, 6);
        let v: u64 = if negative { 0xFFFF_0000_0000_0000u64 + low } else { low };
        RecordDataType::INT64(v as i64)
    }
}

/// The serial types `ts` written one after the other as varints, as a
/// record header holds them.
pub open spec fn header_encoding(ts: Seq<u64>) -> Seq<u8>
    decreases ts.len(),
{
    if ts.len() == 0 {
        Seq::empty()
    } else {
        varint_encoding(ts[0]) + header_encoding(ts.drop_first())
    }
}

/// Serial types written as varints of at most eight bytes each, from `off`
/// on, read back: the header bytes they fill give exactly `ts`, and what
/// follows them starts right after those bytes, whatever it holds. So a
/// serial type written in two bytes counts as two header bytes: the header
/// `[0x81, 0x05]` holds the one serial type 133.
pub proof fn lemma_stypes_read_back(payload: Seq<u8>, off: int, ts: Seq<u64>)
    requires
        0 <= off,
        off + header_encoding(ts).len() <= payload.len(),
        payload.subrange(off, off + header_encoding(ts).len()) == header_encoding(ts),
        forall|i: int| 0 <= i < ts.len() ==> (#[trigger] varint_encoding(ts[i])).len() <= 8,
    ensures
        spec_stypes(payload, off, header_encoding(ts).len() as int) == Ok::<(Seq<u64>, int), CustomError>(
            (ts, off + header_encoding(ts).len()),
        ),
    decreases ts.len(),
{
    let n = header_encoding(ts).len() as int;
    if ts.len() > 0 {
        let t = ts[0];
        let k = varint_encoding(t).len() as int;
        let rest = ts.drop_first();
        let m = header_encoding(rest).len() as int;
        assert(varint_encoding(ts[0]).len() <= 8);
        let s = payload.subrange(off, payload.len() as int);
        assert(s.take(k) =~= payload.subrange(off, off + n).take(k));
        assert(header_encoding(ts).take(k) =~= varint_encoding(t));
        lemma_varint_read_back(s, t);
        assert(payload.subrange(off + k, off + k + m) =~= payload.subrange(off, off + n).skip(k));
        assert(header_encoding(ts).skip(k) =~= header_encoding(rest));
        assert forall|i: int| 0 <= i < rest.len() implies (#[trigger] varint_encoding(rest[i])).len() <= 8 by {
            assert(rest[i] == ts[i + 1]);
        }
        lemma_stypes_read_back(payload, off + k, rest);
        assert(seq![t] + rest =~= ts);
        assert(n == k + m);
        assert(varint_at_ok(payload, off));
        assert(spec_stypes(payload, off, n) == prepend_stypes(seq![t], spec_stypes(payload, off + k, m)));
    } else {
        assert(ts =~= Seq::<u64>::empty());
    }
}

/// A record whose header is a one-byte header size followed by the serial
/// types `ts`, each a varint of at most eight bytes, has exactly the
/// columns `ts`, read from the body that starts right after the header.
pub proof fn lemma_record_header_read_back(enc_val: u32, payload: Seq<u8>, ts: Seq<u64>)
    requires
        1 + header_encoding(ts).len() < 128,
        payload.len() > header_encoding(ts).len(),
        payload[0] == (1 + header_encoding(ts).len()) as u8,
        payload.subrange(1, 1 + header_encoding(ts).len() as int) == header_encoding(ts),
        forall|i: int| 0 <= i < ts.len() ==> (#[trigger] varint_encoding(ts[i])).len() <= 8,
    ensures
        spec_read_content(enc_val, payload) == spec_values(payload, 1 + header_encoding(ts).len() as int, ts, spec_encoding(enc_val)),
{
    let n = header_encoding(ts).len();
    let h = (1 + n) as u64;
    assert(varint_encoding(h) =~= seq![h as u8]);
    assert(payload.take(1) =~= varint_encoding(h));
    lemma_varint_read_back(payload, h);
    lemma_stypes_read_back(payload, 1, ts);
}

} // verus!
