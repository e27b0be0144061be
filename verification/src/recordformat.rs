use vstd::prelude::*;

use crate::custom_error::CustomError;
use crate::file::enums::TxtEncoding;
use crate::page::prepend;
use crate::record_type::{RecordDataType, RecordValue};
use crate::schema::{
    lemma_prepend_stypes_assoc, lemma_prepend_stypes_empty, prepend_stypes, records_view,
    spec_content_size, spec_stypes, spec_values, Schema,
};
use crate::utils::{try_parse_varint, varint_size, varint_terminates, varint_value};

verus! {

/// A record read column by column: the header size, the number of columns
/// and, for each column, its serial type, content size and value.
#[derive(Debug)]
pub struct RecordFormat {
    pub header_size: u64,
    pub num_of_cols: u16,
    pub rows: Vec<Row>,
}

/// A column of a record: its serial type and content size, and its value.
#[derive(Debug)]
pub struct Row {
    // This will have serial type, content size
    pub header: (u64, usize),
    pub content: RecordDataType,
}

pub open spec fn columns_view(v: Seq<Row>) -> Seq<((u64, usize), RecordValue)> {
    v.map_values(|r: Row| (r.header, r.content@))
}

/// The headers of the columns of serial types `ts`: each type with its
/// content size.
pub open spec fn headers_of(ts: Seq<u64>) -> Seq<(u64, usize)> {
    Seq::new(ts.len(), |i: int| (ts[i], spec_content_size(ts[i])))
}

/// The header of the record `buf`: its size, the serial types of its
/// columns and where its body starts.
pub open spec fn spec_record_header(buf: Seq<u8>) -> Result<(u64, Seq<u64>, int), CustomError> {
    if !varint_terminates(buf) {
        Err(CustomError::MalformedPage)
    } else if varint_value(buf) < varint_size(buf) {
        Err(CustomError::MalformedPage)
    } else {
        match spec_stypes(buf, varint_size(buf), varint_value(buf) - varint_size(buf)) {
            Err(e) => Err(e),
            Ok((ts, off)) => Ok((varint_value(buf), ts, off)),
        }
    }
}

/// The columns of the record `buf`, text decoded in `enc`: each with its
/// serial type, content size and value. More columns than a `u16` counts are
/// refused.
pub open spec fn spec_record_columns(buf: Seq<u8>, enc: TxtEncoding) -> Result<(u64, Seq<((u64, usize), RecordValue)>), CustomError> {
    match spec_record_header(buf) {
        Err(e) => Err(e),
        Ok((h, ts, off)) => if ts.len() > u16::MAX || off != h {
            Err(CustomError::MalformedPage)
        } else {
            match spec_values(buf, off, ts, enc) {
                Err(e) => Err(e),
                Ok(vals) => Ok((h, Seq::new(ts.len(), |i: int| (headers_of(ts)[i], vals[i])))),
            }
        },
    }
}

/// A body read gives one value for each serial type.
proof fn lemma_values_len(buf: Seq<u8>, off: int, ts: Seq<u64>, enc: TxtEncoding)
    ensures
        spec_values(buf, off, ts, enc) matches Ok(vals) ==> vals.len() == ts.len(),
    decreases ts.len(),
{
    if ts.len() > 0 {
        let size = spec_content_size(ts[0]) as int;
        lemma_values_len(buf, off + size, ts.drop_first(), enc);
    }
}

impl Schema for RecordFormat {

}

// Record contains header and body in this order -> [header, body]
impl RecordFormat {
    pub fn new() -> (r: Self)
        ensures
            r.header_size == 0,
            r.num_of_cols == 0,
            r.rows@ == Seq::<Row>::empty(),
    {
        RecordFormat { header_size: 0, num_of_cols: 0, rows: Vec::new() }
    }

    /// The header of the record `buf` (see [`spec_record_header`]).
    fn read_header(&self, buf: &[u8]) -> (r: Result<(u64, Vec<u64>, usize), CustomError>)
        ensures
            match spec_record_header(buf@) {
                Ok((h, ts, off)) => r matches Ok((h2, ts2, off2)) && h2 == h && ts2@ == ts && off2 == off && off <= buf@.len(),
                Err(e) => r matches Err(e2) && e2 == e,
            },
    {
        // 1st byte of header is the size of the header itself.
        let (header_size, header_varint_size) = match try_parse_varint(buf) {
            Some(p) => p,
            None => {
                return Err(CustomError::MalformedPage);
            },
        };
        if header_size < header_varint_size as u64 {
            return Err(CustomError::MalformedPage);
        }
        let mut stype_idx = header_varint_size;
        let mut stypes: Vec<u64> = Vec::new();
        let total = header_size - header_varint_size as u64;
        let mut done: u64 = 0;
        let ghost full = spec_stypes(buf@, header_varint_size as int, total as int);
        proof {
            crate::utils::lemma_varint_size_pos(buf@);
            lemma_prepend_stypes_empty(full);
        }
        assert(spec_record_header(buf@) == match full {
            Err(e) => Err(e),
            Ok((ts, off)) => Ok((header_size, ts, off)),
        });
        while done < total
            invariant
                spec_record_header(buf@) == match full {
                    Err(e) => Err(e),
                    Ok((ts, off)) => Ok((header_size, ts, off)),
                },
                full == spec_stypes(buf@, header_varint_size as int, total as int),
                stype_idx == header_varint_size + done,
                stype_idx <= buf@.len(),
                full == prepend_stypes(stypes@, spec_stypes(buf@, stype_idx as int, total - done)),
            decreases buf@.len() - stype_idx,
        {
            let ghost rem = total - done;
            let rest = vstd::slice::slice_subrange(buf, stype_idx, buf.len());
            // stype = serial type.
            let (stype, stype_varint_size) = match try_parse_varint(rest) {
                Some(p) => p,
                None => {
                    assert(spec_stypes(buf@, stype_idx as int, rem) == Err::<(Seq<u64>, int), CustomError>(CustomError::MalformedPage));
                    return Err(CustomError::MalformedPage);
                },
            };
            proof {
                crate::utils::lemma_varint_scan_bounds(rest@, 0, 0);
                lemma_prepend_stypes_assoc(stypes@, stype, spec_stypes(buf@, stype_idx + stype_varint_size, rem - stype_varint_size));
            }
            stypes.push(stype);
            stype_idx += stype_varint_size;
            done += stype_varint_size as u64;
        }
        assert(full == Ok::<(Seq<u64>, int), CustomError>((stypes@, stype_idx as int))) by {
            assert(stypes@ + Seq::<u64>::empty() =~= stypes@);
        }
        Ok((header_size, stypes, stype_idx))
    }

    /// Reads the values of the columns with the headers `payload_header`
    /// from the body of the record `buf` (which starts at `header_size`),
    /// adding them to `content_rows`; `cont_payload_idx` is left at the index
    /// of the last column read.
    pub fn set_content(
        &mut self,
        buf: &[u8],
        encoding_type: &TxtEncoding,
        cont_payload_idx: &mut u32,
        payload_header: Vec<(u64, usize)>,
        content_rows: &mut Vec<RecordDataType>,
        cont_remain_bytes: &mut u32,
    ) -> (r: Result<(), CustomError>)
        requires
            payload_header@.len() <= u32::MAX,
            old(self).header_size <= buf@.len(),
            forall|i: int| 0 <= i < payload_header@.len() ==> (#[trigger] payload_header@[i]).1 == spec_content_size(payload_header@[i].0),
        ensures
            *final(self) == *old(self),
            *final(cont_remain_bytes) == *old(cont_remain_bytes),
            match spec_values(buf@, old(self).header_size as int, payload_header@.map_values(|h: (u64, usize)| h.0), *encoding_type) {
                Ok(vals) => r is Ok && records_view(final(content_rows)@) == records_view(old(content_rows)@) + vals
                    && *final(cont_payload_idx) == (if payload_header@.len() > 0 { (payload_header@.len() - 1) as u32 } else { *old(cont_payload_idx) }),
                Err(e) => r == Err::<(), CustomError>(e),
            },
    {
        let ghost ts = payload_header@.map_values(|h: (u64, usize)| h.0);
        let ghost full = spec_values(buf@, self.header_size as int, ts, *encoding_type);
        let ghost base = records_view(content_rows@);
        let blen = buf.len();
        assert(self.header_size <= blen);
        let mut content_start_idx = self.header_size as usize;
        let mut idx: usize = 0;
        proof {
            assert(ts.skip(0) =~= ts);
            assert(base + Seq::<RecordValue>::empty() =~= base);
            crate::page::lemma_prepend_assoc(Seq::<RecordValue>::empty(), Seq::<RecordValue>::empty(), full);
        }
        let ghost mut got: Seq<RecordValue> = Seq::empty();
        while idx < payload_header.len()
            invariant
                ts == payload_header@.map_values(|h: (u64, usize)| h.0),
                forall|i: int| 0 <= i < payload_header@.len() ==> (#[trigger] payload_header@[i]).1 == spec_content_size(payload_header@[i].0),
                payload_header@.len() <= u32::MAX,
                idx <= payload_header@.len(),
                content_start_idx <= buf@.len(),
                full == spec_values(buf@, self.header_size as int, ts, *encoding_type),
                full == prepend(got, spec_values(buf@, content_start_idx as int, ts.skip(idx as int), *encoding_type)),
                records_view(content_rows@) == base + got,
                *self == *old(self),
                *cont_remain_bytes == *old(cont_remain_bytes),
                idx > 0 ==> *cont_payload_idx == (idx - 1) as u32,
                idx == 0 ==> *cont_payload_idx == *old(cont_payload_idx),
            decreases payload_header@.len() - idx,
        {
            let ghost rest = ts.skip(idx as int);
            assert(rest.drop_first() =~= ts.skip(idx + 1));
            assert(rest[0] == payload_header@[idx as int].0);
            let header = payload_header[idx];
            let content_size = header.1;
            let stype = header.0;
            if content_size > buf.len() - content_start_idx {
                assert(spec_values(buf@, content_start_idx as int, rest, *encoding_type) == Err::<Seq<RecordValue>, CustomError>(CustomError::MalformedPage));
                return Err(CustomError::MalformedPage);
            }
            let buf_slice = vstd::slice::slice_subrange(buf, content_start_idx, content_start_idx + content_size);
            let content = match self.get_content(buf_slice, stype, encoding_type) {
                Ok(c) => c,
                Err(e) => {
                    assert(spec_values(buf@, content_start_idx as int, rest, *encoding_type) == Err::<Seq<RecordValue>, CustomError>(e));
                    return Err(e);
                },
            };
            let ghost v = content@;
            let ghost before = content_rows@;
            content_rows.push(content);
            proof {
                assert(records_view(content_rows@) =~= records_view(before).push(v));
                assert(records_view(content_rows@) =~= base + got.push(v));
                crate::page::lemma_prepend_assoc(got, seq![v], spec_values(buf@, content_start_idx + content_size, ts.skip(idx + 1), *encoding_type));
                assert(got + seq![v] =~= got.push(v));
                got = got.push(v);
            }
            content_start_idx = content_start_idx + content_size;
            *cont_payload_idx = idx as u32;
            idx = idx + 1;
        }
        proof {
            assert(ts.skip(idx as int) =~= Seq::<u64>::empty());
            assert(got + Seq::<RecordValue>::empty() =~= got);
        }
        Ok(())
    }

    /// Reads the record `buf`, text decoded in `encoding_type` (see
    /// [`spec_record_columns`]): its header size, number of columns and
    /// columns; `cont_payload_idx` is left at the index of the last column.
    /// On an error the record is left as it was.
    pub fn set_records(
        &mut self,
        buf: &[u8],
        encoding_type: &TxtEncoding,
        cont_payload_idx: &mut u32,
        cont_remain_bytes: &mut u32,
    ) -> (r: Result<(), CustomError>)
        ensures
            *final(cont_remain_bytes) == *old(cont_remain_bytes),
            match spec_record_columns(buf@, *encoding_type) {
                Ok((h, cols)) => r is Ok && final(self).header_size == h && final(self).num_of_cols == cols.len()
                    && columns_view(final(self).rows@) == cols
                    && *final(cont_payload_idx) == (if cols.len() > 0 { (cols.len() - 1) as u32 } else { *old(cont_payload_idx) }),
                Err(e) => r == Err::<(), CustomError>(e) && *final(self) == *old(self),
            },
    {
        let (header_size, stypes, body_start) = self.read_header(buf)?;
        if stypes.len() > 65535 || body_start as u64 != header_size {
            return Err(CustomError::MalformedPage);
        }
        let ghost ts = stypes@;
        // (serial type,   content size)
        let mut payload_header: Vec<(u64, usize)> = Vec::new();
        let mut i: usize = 0;
        while i < stypes.len()
            invariant
                ts == stypes@,
                i <= ts.len(),
                payload_header@ =~= headers_of(ts).take(i as int),
            decreases ts.len() - i,
        {
            let size = self.get_content_size_for_stype(stypes[i]);
            payload_header.push((stypes[i], size));
            i = i + 1;
        }
        assert(headers_of(ts).take(i as int) =~= headers_of(ts));
        assert(payload_header@.map_values(|h: (u64, usize)| h.0) =~= ts);
        let mut reader = RecordFormat { header_size, num_of_cols: stypes.len() as u16, rows: Vec::new() };
        let mut content_rows: Vec<RecordDataType> = Vec::new();
        let mut idx = *cont_payload_idx;
        let ghost hdrs = payload_header@;
        reader.set_content(buf, encoding_type, &mut idx, payload_header, &mut content_rows, cont_remain_bytes)?;
        let ghost vals = records_view(content_rows@);
        proof {
            lemma_values_len(buf@, body_start as int, ts, *encoding_type);
        }
        assert(vals =~= records_view(Seq::<RecordDataType>::empty()) + vals);
        assert(Seq::<RecordValue>::empty() + vals =~= vals);
        let mut rows: Vec<Row> = Vec::new();
        let mut k: usize = 0;
        let n = content_rows.len();
        while content_rows.len() > 0
            invariant
                hdrs == headers_of(ts),
                ts == stypes@,
                vals.len() == ts.len(),
                n == vals.len(),
                k + content_rows@.len() == n,
                records_view(content_rows@) == vals.skip(k as int),
                columns_view(rows@) =~= Seq::new(k as nat, |j: int| (hdrs[j], vals[j])),
            decreases content_rows@.len(),
        {
            let ghost before = content_rows@;
            let content = content_rows.remove(0);
            assert(records_view(before)[0] == vals.skip(k as int)[0]);
            assert(records_view(content_rows@) =~= records_view(before).drop_first());
            assert(vals.skip(k as int).drop_first() =~= vals.skip(k + 1));
            let size = self.get_content_size_for_stype(stypes[k]);
            let ghost prev = rows@;
            let ghost cv = content@;
            rows.push(Row { header: (stypes[k], size), content });
            proof {
                assert(hdrs[k as int] == (stypes@[k as int], size));
                assert(cv == vals[k as int]);
                assert(columns_view(rows@) =~= columns_view(prev).push((hdrs[k as int], vals[k as int])));
            }
            k = k + 1;
        }
        self.header_size = reader.header_size;
        self.num_of_cols = reader.num_of_cols;
        self.rows = rows;
        *cont_payload_idx = idx;
        Ok(())
    }

    /// The value of a column of serial type `stype` whose content bytes are
    /// `buf` (see [`Schema::parse_content`]).
    pub fn get_content(&self, buf: &[u8], stype: u64, encoding_type: &TxtEncoding) -> (r: Result<RecordDataType, CustomError>)
        requires
            1 <= stype <= 6 ==> buf@.len() >= spec_content_size(stype),
        ensures
            match crate::schema::spec_parse_content(buf@, stype, *encoding_type) {
                Ok(v) => r matches Ok(x) && x@ == v,
                Err(e) => r matches Err(e2) && e2 == e,
            },
    {
        self.parse_content(buf, stype, encoding_type)
    }

    /// The number of bytes a value takes: the UTF-8 bytes of text, the bytes
    /// of a blob, 8 for a number, 0 for NULL.
    pub fn get_content_len(content: &RecordDataType) -> (r: usize)
        ensures
            r == (match content@ {
                RecordValue::Str(s) => vstd::utf8::encode_utf8(s).len() as usize,
                RecordValue::Blob(b) => b.len() as usize,
                RecordValue::Null => 0usize,
                _ => 8usize,
            }),
    {
        match content {
            RecordDataType::STR(data) => data.as_str().len(),
            // BLOB is already in bytes.
            RecordDataType::BLOB(data) => data.len(),
            RecordDataType::NULL => 0,
            _ => 8,
        }
    }
}

} // verus!
