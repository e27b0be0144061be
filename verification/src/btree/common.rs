use vstd::prelude::*;

pub use crate::file::enums::BTreePageHeaderFormat;

verus! {

/// An entry of an interior page: rows whose key is at most `key` are under
/// `leftptr`, rows above it under `rightptr` (the next entry's left child, or
/// the page's rightmost child for the last entry).
#[derive(Debug, Clone, Copy, PartialEq, Eq, Structural)]
pub struct InteriorTablePayload {
    pub leftptr: u32,
    pub rightptr: u32,
    pub key: u64,
}

} // verus!
