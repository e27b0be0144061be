use vstd::prelude::*;

use crate::btree::SchemaType;
use crate::custom_error::CustomError;

verus! {

/*
*  Record format
*  format:     [header size,  serial type,  value of each col]
*  datatype:   [varint     ,  varint     ,  this could be N bytes]
*
*  for value of the columns for serial type 0, 8, 9, 12 and 13 the value is
*  zero bytes in length. If the value is greater than 12 and is even then it's
*  a BLOB; for value >= 13 and odd it is a string.
*
*  A REAL column value is kept as the 64 bits of its IEEE 754 encoding.
*/
#[derive(Debug, Clone)]
pub enum RecordDataType {
    STR(String),
    INT8(i8),
    INT16(i16),
    INT32(i32),
    INT64(i64),
    /// The bits of an IEEE 754 double.
    FLOAT(u64),
    BLOB(Vec<u8>),
    NULL,
}

/// The value of a [`RecordDataType`].
pub enum RecordValue {
    Str(Seq<char>),
    Int8(i8),
    Int16(i16),
    Int32(i32),
    Int64(i64),
    Float(u64),
    Blob(Seq<u8>),
    Null,
}

impl View for RecordDataType {
    type V = RecordValue;

    open spec fn view(&self) -> RecordValue {
        match self {
            RecordDataType::STR(s) => RecordValue::Str(s@),
            RecordDataType::INT8(v) => RecordValue::Int8(*v),
            RecordDataType::INT16(v) => RecordValue::Int16(*v),
            RecordDataType::INT32(v) => RecordValue::Int32(*v),
            RecordDataType::INT64(v) => RecordValue::Int64(*v),
            RecordDataType::FLOAT(v) => RecordValue::Float(*v),
            RecordDataType::BLOB(b) => RecordValue::Blob(b@),
            RecordDataType::NULL => RecordValue::Null,
        }
    }
}

impl Default for RecordDataType {
    fn default() -> (r: Self)
        ensures
            r@ == RecordValue::Str(Seq::empty()),
    {
        RecordDataType::STR(String::new())
    }
}

/// Whether two values are of the same kind.
pub open spec fn spec_same_kind(a: RecordValue, b: RecordValue) -> bool {
    ||| spec_is_int(a) && spec_is_int(b)
    ||| a is Str && b is Str
    ||| a is Float && b is Float
    ||| a is Blob && b is Blob
    ||| a is Null && b is Null
}

pub open spec fn spec_is_int(v: RecordValue) -> bool {
    v is Int8 || v is Int16 || v is Int32 || v is Int64
}

/// The text of a value: its characters for text, empty otherwise.
pub open spec fn spec_into_string(v: RecordValue) -> Seq<char> {
    match v {
        RecordValue::Str(s) => s,
        _ => Seq::empty(),
    }
}

/// Whether `x` fits in an `i32`.
pub open spec fn fits_i32(x: i64) -> bool {
    i32::MIN <= x <= i32::MAX
}

/// A value as `u64`: an integer is first taken as an `i32` (0 when it does
/// not fit) and then converted with `as` (negative values wrap); anything
/// else is 0.
pub open spec fn spec_into_u64(v: RecordValue) -> u64 {
    match v {
        RecordValue::Int8(x) => x as i32 as u64,
        RecordValue::Int16(x) => x as i32 as u64,
        RecordValue::Int32(x) => x as u64,
        RecordValue::Int64(x) => if fits_i32(x) { x as i32 as u64 } else { 0 },
        _ => 0,
    }
}

/// A value as `i64`: an integer that fits in an `i32` as itself, a larger
/// one 0, anything else 0.
pub open spec fn spec_into_i64(v: RecordValue) -> i64 {
    match v {
        RecordValue::Int8(x) => x as i64,
        RecordValue::Int16(x) => x as i64,
        RecordValue::Int32(x) => x as i64,
        RecordValue::Int64(x) => if fits_i32(x) { x } else { 0 },
        _ => 0,
    }
}

/// A value as `u32`: an integer of at most 32 bits converted with `as`
/// (negative values wrap), anything else 0.
pub open spec fn spec_into_u32(v: RecordValue) -> u32 {
    match v {
        RecordValue::Int8(x) => x as u32,
        RecordValue::Int16(x) => x as u32,
        RecordValue::Int32(x) => x as u32,
        _ => 0,
    }
}

/// A value as the bits of a double: a REAL as itself, anything else the bits
/// of 0.0.
pub open spec fn spec_into_float_bits(v: RecordValue) -> u64 {
    match v {
        RecordValue::Float(b) => b,
        _ => 0,
    }
}

// -------------------------------------------------------------------------------
//                          IEEE 754 COMPARISONS
// -------------------------------------------------------------------------------

pub open spec fn f64_is_nan(b: u64) -> bool {
    (b >> 52u64) & 0x7ffu64 == 0x7ffu64 && b & 0xf_ffff_ffff_ffffu64 != 0
}

pub open spec fn f64_is_zero(b: u64) -> bool {
    b & 0x7fff_ffff_ffff_ffffu64 == 0
}

/// An integer that orders the non-NaN doubles as their values are ordered
/// (with -0.0 just below +0.0).
pub open spec fn f64_order_key(b: u64) -> u64 {
    if b >> 63u64 == 1 {
        !b
    } else {
        b | 0x8000_0000_0000_0000u64
    }
}

/// `==` on the doubles with bits `a` and `b`.
pub open spec fn f64_eq(a: u64, b: u64) -> bool {
    !f64_is_nan(a) && !f64_is_nan(b) && (a == b || (f64_is_zero(a) && f64_is_zero(b)))
}

/// `<` on the doubles with bits `a` and `b`.
pub open spec fn f64_lt(a: u64, b: u64) -> bool {
    !f64_is_nan(a) && !f64_is_nan(b) && !(f64_is_zero(a) && f64_is_zero(b)) && f64_order_key(a)
        < f64_order_key(b)
}

pub fn float_is_nan(b: u64) -> (r: bool)
    ensures
        r == f64_is_nan(b),
{
    (b >> 52u64) & 0x7ffu64 == 0x7ffu64 && b & 0xf_ffff_ffff_ffffu64 != 0
}

pub fn float_is_zero(b: u64) -> (r: bool)
    ensures
        r == f64_is_zero(b),
{
    b & 0x7fff_ffff_ffff_ffffu64 == 0
}

pub fn float_order_key(b: u64) -> (r: u64)
    ensures
        r == f64_order_key(b),
{
    if b >> 63u64 == 1 {
        !b
    } else {
        b | 0x8000_0000_0000_0000u64
    }
}

/// `==` on doubles given by their bits.
pub fn float_eq(a: u64, b: u64) -> (r: bool)
    ensures
        r == f64_eq(a, b),
{
    !float_is_nan(a) && !float_is_nan(b) && (a == b || (float_is_zero(a) && float_is_zero(b)))
}

/// `<` on doubles given by their bits.
pub fn float_lt(a: u64, b: u64) -> (r: bool)
    ensures
        r == f64_lt(a, b),
{
    !float_is_nan(a) && !float_is_nan(b) && !(float_is_zero(a) && float_is_zero(b))
        && float_order_key(a) < float_order_key(b)
}

// -------------------------------------------------------------------------------
//                          RECORD VALUES
// -------------------------------------------------------------------------------

impl RecordDataType {
    pub fn is_record_int(record: &RecordDataType) -> (r: bool)
        ensures
            r == spec_is_int(record@),
    {
        match record {
            RecordDataType::INT8(_)
            | RecordDataType::INT16(_)
            | RecordDataType::INT32(_)
            | RecordDataType::INT64(_) => true,
            _ => false,
        }
    }

    pub fn is_record_string(record: &RecordDataType) -> (r: bool)
        ensures
            r == record@ is Str,
    {
        match record {
            RecordDataType::STR(_) => true,
            _ => false,
        }
    }

    pub fn is_record_float(record: &RecordDataType) -> (r: bool)
        ensures
            r == record@ is Float,
    {
        match record {
            RecordDataType::FLOAT(_) => true,
            _ => false,
        }
    }

    pub fn is_record_blob(record: &RecordDataType) -> (r: bool)
        ensures
            r == record@ is Blob,
    {
        match record {
            RecordDataType::BLOB(_) => true,
            _ => false,
        }
    }

    /// Whether two values are of the same kind: both integers (of any
    /// width), both text, both doubles, both blobs or both NULL.
    pub fn cmp(val1: &RecordDataType, val2: &RecordDataType) -> (r: bool)
        ensures
            r == spec_same_kind(val1@, val2@),
    {
        if RecordDataType::is_record_int(val1) {
            RecordDataType::is_record_int(val2)
        } else if RecordDataType::is_record_string(val1) {
            RecordDataType::is_record_string(val2)
        } else if RecordDataType::is_record_float(val1) {
            RecordDataType::is_record_float(val2)
        } else if RecordDataType::is_record_blob(val1) {
            RecordDataType::is_record_blob(val2)
        } else {
            match val2 {
                RecordDataType::NULL => true,
                _ => false,
            }
        }
    }

    /// A copy of the value.
    pub fn duplicate(&self) -> (r: RecordDataType)
        ensures
            r@ == self@,
    {
        match self {
            RecordDataType::STR(s) => RecordDataType::STR(s.clone()),
            RecordDataType::INT8(v) => RecordDataType::INT8(*v),
            RecordDataType::INT16(v) => RecordDataType::INT16(*v),
            RecordDataType::INT32(v) => RecordDataType::INT32(*v),
            RecordDataType::INT64(v) => RecordDataType::INT64(*v),
            RecordDataType::FLOAT(v) => RecordDataType::FLOAT(*v),
            RecordDataType::BLOB(b) => RecordDataType::BLOB(b.clone()),
            RecordDataType::NULL => RecordDataType::NULL,
        }
    }

    /// The text of the value (`Into<String>`): its characters for text,
    /// empty otherwise.
    pub fn into_string(&self) -> (r: String)
        ensures
            r@ == spec_into_string(self@),
    {
        match self {
            RecordDataType::STR(s) => s.clone(),
            _ => String::new(),
        }
    }

    /// The value as `u64` (`Into<u64>`, see [`spec_into_u64`]).
    pub fn into_u64(&self) -> (r: u64)
        ensures
            r == spec_into_u64(self@),
    {
        match self {
            RecordDataType::INT8(v) => *v as i32 as u64,
            RecordDataType::INT16(v) => *v as i32 as u64,
            RecordDataType::INT32(v) => *v as u64,
            RecordDataType::INT64(v) => if i32::MIN as i64 <= *v && *v <= i32::MAX as i64 {
                *v as i32 as u64
            } else {
                0
            },
            _ => 0,
        }
    }

    /// The value as `i64` (`Into<i64>`, see [`spec_into_i64`]).
    pub fn into_i64(&self) -> (r: i64)
        ensures
            r == spec_into_i64(self@),
    {
        match self {
            RecordDataType::INT8(v) => *v as i64,
            RecordDataType::INT16(v) => *v as i64,
            RecordDataType::INT32(v) => *v as i64,
            RecordDataType::INT64(v) => if i32::MIN as i64 <= *v && *v <= i32::MAX as i64 {
                *v
            } else {
                0
            },
            _ => 0,
        }
    }

    /// The value as `u32` (`Into<u32>`): an integer of at most 32 bits
    /// converted with `as`, anything else 0.
    pub fn into_u32(&self) -> (r: u32)
        ensures
            r == spec_into_u32(self@),
    {
        match self {
            RecordDataType::INT8(v) => *v as u32,
            RecordDataType::INT16(v) => *v as u32,
            RecordDataType::INT32(v) => *v as u32,
            _ => 0,
        }
    }

    /// The value as the bits of a double (`Into<f64>`): a REAL as itself,
    /// anything else the bits of 0.0.
    pub fn into_float_bits(&self) -> (r: u64)
        ensures
            r == spec_into_float_bits(self@),
    {
        match self {
            RecordDataType::FLOAT(b) => *b,
            _ => 0,
        }
    }

    /// The schema type that a value names (`Into<Result<SchemaType, _>>`):
    /// text is read as a schema type name, anything else is a table.
    pub fn into_schema_type(&self) -> (r: Result<SchemaType, CustomError>)
        ensures
            r == (match self@ {
                RecordValue::Str(s) => crate::btree::spec_schema_type(s),
                _ => Ok(SchemaType::TABLE),
            }),
    {
        match self {
            RecordDataType::STR(s) => SchemaType::from_name(s.as_str()),
            _ => Ok(SchemaType::TABLE),
        }
    }
}

} // verus!
