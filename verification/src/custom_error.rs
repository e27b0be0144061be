use vstd::prelude::*;

verus! {

/// Why reading the database or running a query failed.
#[derive(Debug, Clone, Copy, PartialEq, Eq, Structural)]
pub enum CustomError {
    /// A b-tree page header names no known page type.
    InvalidOffsetValueError,
    /// A page, cell or record does not fit in the bytes it is read from.
    MalformedPage,
    /// Text that is not valid in the database's encoding.
    InvalidText,
    /// A schema record names an unknown schema type.
    InvalidSchemaType,
    /// A page number that names no page (zero, or out of range).
    InvalidPageNumber,
    /// The page tree is deeper than the file has pages (it has a cycle).
    PageCycle,
    /// The page kind does not fit the requested operation.
    InvalidQueryOperation,
    /// An interior table page gave no child for a row id.
    InvalidDbFile,
    /// Only table and index schemas hold rows.
    UnsupportedSchema,
}

} // verus!
