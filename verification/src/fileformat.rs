use vstd::prelude::*;

use crate::custom_error::CustomError;
use crate::file::enums::BTreePageHeaderFormat;

verus! {

/// The page kind that the first byte of a b-tree page header names.
pub open spec fn spec_btree_page_type(offset_val: u8) -> Result<BTreePageHeaderFormat, CustomError> {
    if offset_val == 2 {
        Ok(BTreePageHeaderFormat::InteriorIndexBTreePage)
    } else if offset_val == 5 {
        Ok(BTreePageHeaderFormat::InteriorTableBTreePage)
    } else if offset_val == 10 {
        Ok(BTreePageHeaderFormat::LeafIndexBTreePage)
    } else if offset_val == 13 {
        Ok(BTreePageHeaderFormat::LeafTableBTreePage)
    } else {
        Err(CustomError::InvalidOffsetValueError)
    }
}

// In the page header format table it's mentioned for which offset
// what is the type of b-tree page we have.
pub fn get_btree_page_type(offset_val: u8) -> (r: Result<BTreePageHeaderFormat, CustomError>)
    ensures
        r == spec_btree_page_type(offset_val),
{
    match offset_val {
        2 => Ok(BTreePageHeaderFormat::InteriorIndexBTreePage),
        5 => Ok(BTreePageHeaderFormat::InteriorTableBTreePage),
        10 => Ok(BTreePageHeaderFormat::LeafIndexBTreePage),
        13 => Ok(BTreePageHeaderFormat::LeafTableBTreePage),
        _ => Err(CustomError::InvalidOffsetValueError),
    }
}

} // verus!
