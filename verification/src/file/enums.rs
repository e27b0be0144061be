use vstd::prelude::*;

verus! {

/// Text encoding of the database, from the 4-byte big-endian value at offset
/// 56 of the database header.
#[derive(Debug, Clone, Copy, PartialEq, Eq, Structural)]
pub enum TxtEncoding {
    // Value = 1
    UTF8,
    // LE = little endian, Value = 2
    UTF16LE,
    // BE = big endian, Value = 3
    UTF16BE,
}

/// The encoding that the database header's 4-byte encoding value names.
pub open spec fn spec_encoding(v: u32) -> TxtEncoding {
    if v == 1 {
        TxtEncoding::UTF8
    } else if v == 3 {
        TxtEncoding::UTF16BE
    } else {
        TxtEncoding::UTF16LE
    }
}

impl TxtEncoding {
    /// The encoding that the database header's encoding value names
    /// (`From<u32>`): 1 is UTF-8, 3 is UTF-16BE, anything else UTF-16LE.
    pub fn from_value(value: u32) -> (r: Self)
        ensures
            r == spec_encoding(value),
    {
        match value {
            1 => TxtEncoding::UTF8,
            2 => TxtEncoding::UTF16LE,
            3 => TxtEncoding::UTF16BE,
            _ => TxtEncoding::UTF16LE,
        }
    }
}

/// The kind of a b-tree page, from the first byte of its page header.
#[derive(Debug, Clone, Copy, PartialEq, Eq, Structural)]
pub enum BTreePageHeaderFormat {
    InteriorIndexBTreePage,
    InteriorTableBTreePage,
    LeafIndexBTreePage,
    LeafTableBTreePage,
}

} // verus!
