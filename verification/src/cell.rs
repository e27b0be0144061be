use vstd::prelude::*;

use crate::btree::DBHeader;
use crate::custom_error::CustomError;
use crate::page::PageHeader;
use crate::file::enums::BTreePageHeaderFormat;
use crate::utils::{
    be_at, parse_be_byte_to_int, try_parse_varint, varint_size, varint_terminates, varint_value,
};

verus! {

/// The fields that a b-tree cell may hold; which of them a cell holds depends
/// on the kind of its page.
#[derive(Debug, PartialEq, Eq, Hash, Clone, Copy, Structural)]
pub enum CellOperation {
    PageNumLeftChild,
    NumOfBytesOfPayload,
    Rowid,
    Payload,
    PageNumOfFirstOverflowPage,
}

/// A b-tree cell as read from a page.
#[derive(Debug)]
pub struct Cell {
    pub pgnum_of_left_child: Option<u32>,
    pub payload_size: u64,
    pub rowid: Option<u64>,
    pub payload: Option<Vec<u8>>,
    pub first_overflow_pgno: u32,
}

/// The contents of a [`Cell`].
pub struct CellView {
    pub pgnum_of_left_child: Option<u32>,
    pub payload_size: u64,
    pub rowid: Option<u64>,
    pub payload: Option<Seq<u8>>,
    pub first_overflow_pgno: u32,
}

impl View for Cell {
    type V = CellView;

    open spec fn view(&self) -> CellView {
        CellView {
            pgnum_of_left_child: self.pgnum_of_left_child,
            payload_size: self.payload_size,
            rowid: self.rowid,
            payload: match self.payload {
                Some(p) => Some(p@),
                None => None,
            },
            first_overflow_pgno: self.first_overflow_pgno,
        }
    }
}

/// A cell with no field read yet.
pub open spec fn empty_cell() -> CellView {
    CellView {
        pgnum_of_left_child: None,
        payload_size: 0,
        rowid: None,
        payload: None,
        first_overflow_pgno: 0,
    }
}

/// Whether cells of pages of kind `t` hold the field `op`.
pub open spec fn spec_field_valid(op: CellOperation, t: BTreePageHeaderFormat) -> bool {
    match op {
        CellOperation::PageNumLeftChild => t is InteriorIndexBTreePage || t is InteriorTableBTreePage,
        CellOperation::NumOfBytesOfPayload => t is LeafTableBTreePage || t is LeafIndexBTreePage
            || t is InteriorIndexBTreePage,
        CellOperation::Rowid => t is LeafTableBTreePage || t is InteriorTableBTreePage,
        CellOperation::Payload => t is LeafTableBTreePage || t is LeafIndexBTreePage
            || t is InteriorIndexBTreePage,
        CellOperation::PageNumOfFirstOverflowPage => t is LeafTableBTreePage || t
            is LeafIndexBTreePage || t is InteriorIndexBTreePage,
    }
}

/// `seq![op]` when cells of pages of kind `t` hold `op`, empty otherwise.
pub open spec fn field_if_valid(op: CellOperation, t: BTreePageHeaderFormat) -> Seq<CellOperation> {
    if spec_field_valid(op, t) {
        seq![op]
    } else {
        Seq::empty()
    }
}

/// The fields that cells of pages of kind `t` hold, in the order
/// payload size, rowid, left child, first overflow page, payload.
pub open spec fn spec_cell_fields(t: BTreePageHeaderFormat) -> Seq<CellOperation> {
    field_if_valid(CellOperation::NumOfBytesOfPayload, t) + field_if_valid(CellOperation::Rowid, t)
        + field_if_valid(CellOperation::PageNumLeftChild, t) + field_if_valid(
        CellOperation::PageNumOfFirstOverflowPage,
        t,
    ) + field_if_valid(CellOperation::Payload, t)
}

/// The number of payload bytes that spill onto overflow pages, for a payload
/// of `p` bytes on a page of kind `t` with `page_size` bytes of which `resrv`
/// are reserved.
pub open spec fn spec_overflow_bytes(page_size: int, resrv: int, p: int, t: BTreePageHeaderFormat) -> int {
    let u = page_size - resrv;
    let x = if t is LeafTableBTreePage {
        u - 35
    } else {
        (u - 12) * 64 / 255 - 23
    };
    let m = (u - 12) * 32 / 255 - 23;
    let k = m + (p - m) % (u - 4);
    if p <= x {
        0
    } else if k <= x {
        p - k
    } else {
        p - m
    }
}

/// A page whose usable size admits the overflow computation.
pub open spec fn usable_size_ok(page_size: int, resrv: int) -> bool {
    page_size >= resrv + 196
}

/// The size of the varint at `off` in `buf`, its value, or an error when the
/// bytes end first.
pub open spec fn varint_at_ok(buf: Seq<u8>, off: int) -> bool {
    0 <= off <= buf.len() && varint_terminates(buf.subrange(off, buf.len() as int))
}

/// The left child page number, read when cells of kind `t` have one.
pub open spec fn step_left(c: CellView, t: BTreePageHeaderFormat, buf: Seq<u8>, off: int) -> Result<(CellView, int), CustomError> {
    if spec_field_valid(CellOperation::PageNumLeftChild, t) {
        if off + 4 <= buf.len() {
            Ok((CellView { pgnum_of_left_child: Some(be_at(buf, off, 4) as u32), ..c }, off + 4))
        } else {
            Err(CustomError::MalformedPage)
        }
    } else {
        Ok((c, off))
    }
}

/// The payload size, read when cells of kind `t` have one.
pub open spec fn step_payload_size(c: CellView, t: BTreePageHeaderFormat, buf: Seq<u8>, off: int) -> Result<(CellView, int), CustomError> {
    if spec_field_valid(CellOperation::NumOfBytesOfPayload, t) {
        if varint_at_ok(buf, off) {
            let s = buf.subrange(off, buf.len() as int);
            Ok((CellView { payload_size: varint_value(s), ..c }, off + varint_size(s)))
        } else {
            Err(CustomError::MalformedPage)
        }
    } else {
        Ok((c, off))
    }
}

/// The rowid, read when cells of kind `t` have one.
pub open spec fn step_rowid(c: CellView, t: BTreePageHeaderFormat, buf: Seq<u8>, off: int) -> Result<(CellView, int), CustomError> {
    if spec_field_valid(CellOperation::Rowid, t) {
        if varint_at_ok(buf, off) {
            let s = buf.subrange(off, buf.len() as int);
            Ok((CellView { rowid: Some(varint_value(s)), ..c }, off + varint_size(s)))
        } else {
            Err(CustomError::MalformedPage)
        }
    } else {
        Ok((c, off))
    }
}

/// The number of payload bytes of `c` that spill onto overflow pages.
pub open spec fn cell_overflow_bytes(c: CellView, t: BTreePageHeaderFormat, page_size: u16, resrv: u8) -> int {
    spec_overflow_bytes(page_size as int, resrv as int, (c.payload_size as usize) as int, t)
}

/// The part of the payload stored on the page, read when cells of kind `t`
/// have a payload.
pub open spec fn step_payload(c: CellView, t: BTreePageHeaderFormat, page_size: u16, resrv: u8, buf: Seq<u8>, off: int) -> Result<(CellView, int), CustomError> {
    if spec_field_valid(CellOperation::Payload, t) {
        if !usable_size_ok(page_size as int, resrv as int) {
            Err(CustomError::MalformedPage)
        } else {
            let cc = (c.payload_size as usize) as int - cell_overflow_bytes(c, t, page_size, resrv);
            if off + cc <= buf.len() {
                Ok((CellView { payload: Some(buf.subrange(off, off + cc)), ..c }, off + cc))
            } else {
                Err(CustomError::MalformedPage)
            }
        }
    } else {
        Ok((c, off))
    }
}

/// The first overflow page number, read when cells of kind `t` have one and
/// the payload spills (zero when it does not).
pub open spec fn step_first_overflow(c: CellView, t: BTreePageHeaderFormat, page_size: u16, resrv: u8, buf: Seq<u8>, off: int) -> Result<CellView, CustomError> {
    if spec_field_valid(CellOperation::PageNumOfFirstOverflowPage, t) {
        if cell_overflow_bytes(c, t, page_size, resrv) > 0 {
            if off + 4 <= buf.len() {
                Ok(CellView { first_overflow_pgno: be_at(buf, off, 4) as u32, ..c })
            } else {
                Err(CustomError::MalformedPage)
            }
        } else {
            Ok(CellView { first_overflow_pgno: 0, ..c })
        }
    } else {
        Ok(c)
    }
}

/// The cell `c` after reading, from byte `start` of the page bytes `buf`,
/// the fields that cells of pages of kind `t` hold.
pub open spec fn spec_read_cell(c: CellView, t: BTreePageHeaderFormat, page_size: u16, resrv: u8, start: int, buf: Seq<u8>) -> Result<CellView, CustomError> {
    match step_left(c, t, buf, start) {
        Err(e) => Err(e),
        Ok((c1, o1)) => match step_payload_size(c1, t, buf, o1) {
            Err(e) => Err(e),
            Ok((c2, o2)) => match step_rowid(c2, t, buf, o2) {
                Err(e) => Err(e),
                Ok((c3, o3)) => match step_payload(c3, t, page_size, resrv, buf, o3) {
                    Err(e) => Err(e),
                    Ok((c4, o4)) => step_first_overflow(c4, t, page_size, resrv, buf, o4),
                },
            },
        },
    }
}

/// The cell pointers of a page: `num` big-endian 16-bit offsets.
pub open spec fn spec_cellptrs(num: int, buf: Seq<u8>) -> Seq<u16> {
    Seq::new(num as nat, |i: int| be_at(buf, 2 * i, 2) as u16)
}

impl Cell {
    pub fn new() -> (r: Self)
        ensures
            r@ == empty_cell(),
    {
        Cell {
            pgnum_of_left_child: None,
            payload_size: 0,
            rowid: None,
            payload: None,
            first_overflow_pgno: 0,
        }
    }

    /// Reads the fields that cells of the page's kind hold, from byte
    /// `start_byte` of the page bytes `buf`.
    pub fn read_cell(&mut self, pgheader: &PageHeader, dbheader: &DBHeader, start_byte: usize, buf: &[u8]) -> (r: Result<(), CustomError>)
        ensures
            match spec_read_cell(old(self)@, pgheader.btree_pgtype, dbheader.page_size, dbheader.resrv_bytes_per_pg, start_byte as int, buf@) {
                Ok(c) => r is Ok && final(self)@ == c,
                Err(e) => r == Err::<(), CustomError>(e),
            },
    {
        let btree_pgtype = pgheader.btree_pgtype;
        let page_size = dbheader.page_size;
        let resrv_bytes_per_pg = dbheader.resrv_bytes_per_pg;
        let ghost c0 = self@;
        let mut contentcell_offset = start_byte;
        let cell_field_map = CellOperation::get_valid_cell_fields(&btree_pgtype);

        if CellOperation::has_field(&cell_field_map, CellOperation::PageNumLeftChild) {
            if contentcell_offset > buf.len() || buf.len() - contentcell_offset < 4 {
                return Err(CustomError::MalformedPage);
            }
            self.pgnum_of_left_child = Some(parse_be_byte_to_int(buf, contentcell_offset, 4) as u32);
            contentcell_offset += 4;
        }
        let ghost c1 = self@;
        let ghost o1 = contentcell_offset as int;
        assert(step_left(c0, btree_pgtype, buf@, start_byte as int) == Ok::<(CellView, int), CustomError>((c1, o1)));

        if CellOperation::has_field(&cell_field_map, CellOperation::NumOfBytesOfPayload) {
            if contentcell_offset > buf.len() {
                return Err(CustomError::MalformedPage);
            }
            let rest = vstd::slice::slice_subrange(buf, contentcell_offset, buf.len());
            match try_parse_varint(rest) {
                Some((v, n)) => {
                    self.payload_size = v;
                    contentcell_offset += n;
                },
                None => {
                    return Err(CustomError::MalformedPage);
                },
            }
        }
        let ghost c2 = self@;
        let ghost o2 = contentcell_offset as int;
        assert(step_payload_size(c1, btree_pgtype, buf@, o1) == Ok::<(CellView, int), CustomError>((c2, o2)));

        if CellOperation::has_field(&cell_field_map, CellOperation::Rowid) {
            if contentcell_offset > buf.len() {
                return Err(CustomError::MalformedPage);
            }
            let rest = vstd::slice::slice_subrange(buf, contentcell_offset, buf.len());
            match try_parse_varint(rest) {
                Some((v, n)) => {
                    self.rowid = Some(v);
                    contentcell_offset += n;
                },
                None => {
                    return Err(CustomError::MalformedPage);
                },
            }
        }
        let ghost c3 = self@;
        let ghost o3 = contentcell_offset as int;
        assert(step_rowid(c2, btree_pgtype, buf@, o2) == Ok::<(CellView, int), CustomError>((c3, o3)));

        let mut payload_overflow_bytes: usize = 0;
        let has_payload = CellOperation::has_field(&cell_field_map, CellOperation::Payload);
        if has_payload || CellOperation::has_field(&cell_field_map, CellOperation::PageNumOfFirstOverflowPage) {
            if (page_size as usize) < resrv_bytes_per_pg as usize + 196 {
                return Err(CustomError::MalformedPage);
            }
            let psize: usize = page_size as usize;
            payload_overflow_bytes = CellOperation::get_payload_overflow_bytes(
                &psize,
                resrv_bytes_per_pg,
                self.payload_size as usize,
                &btree_pgtype,
            );
        }
        if has_payload {
            let current_cc_size = self.payload_size as usize - payload_overflow_bytes;
            if contentcell_offset > buf.len() || buf.len() - contentcell_offset < current_cc_size {
                return Err(CustomError::MalformedPage);
            }
            let local = vstd::slice::slice_subrange(buf, contentcell_offset, contentcell_offset + current_cc_size);
            self.payload = Some(vstd::slice::slice_to_vec(local));
            contentcell_offset += current_cc_size;
        }
        let ghost c4 = self@;
        let ghost o4 = contentcell_offset as int;
        assert(step_payload(c3, btree_pgtype, page_size, resrv_bytes_per_pg, buf@, o3) == Ok::<(CellView, int), CustomError>((c4, o4)));

        if CellOperation::has_field(&cell_field_map, CellOperation::PageNumOfFirstOverflowPage) {
            if payload_overflow_bytes > 0 {
                if contentcell_offset > buf.len() || buf.len() - contentcell_offset < 4 {
                    return Err(CustomError::MalformedPage);
                }
                self.first_overflow_pgno = parse_be_byte_to_int(buf, contentcell_offset, 4) as u32;
            } else {
                self.first_overflow_pgno = 0;
            }
        }
        Ok(())
    }

    /// The `num_of_cells` cell pointers at the start of `buf`, each a 2-byte
    /// big-endian offset.
    pub fn get_cellptr_arr(num_of_cells: u16, buf: &[u8]) -> (r: Vec<u16>)
        requires
            2 * num_of_cells <= buf@.len(),
        ensures
            r@ == spec_cellptrs(num_of_cells as int, buf@),
    {
        let mut cellptr_arr: Vec<u16> = Vec::new();
        let mut idx: u16 = 0;
        // Each cell ptr is 2 byte
        while idx < num_of_cells
            invariant
                2 * num_of_cells <= buf@.len(),
                idx <= num_of_cells,
                cellptr_arr@ =~= spec_cellptrs(idx as int, buf@),
            decreases num_of_cells - idx,
        {
            proof {
                crate::utils::lemma_be_value_bound(buf@.subrange(2 * idx as int, 2 * idx + 2));
                reveal_with_fuel(crate::utils::pow256, 3);
            }
            let cellptr = parse_be_byte_to_int(buf, 2 * idx as usize, 2) as u16;
            cellptr_arr.push(cellptr);
            idx = idx + 1;
        }
        cellptr_arr
    }
}

impl CellOperation {
    /// Whether `op` is among `fields`.
    pub fn has_field(fields: &Vec<CellOperation>, op: CellOperation) -> (r: bool)
        ensures
            r == fields@.contains(op),
    {
        let mut i: usize = 0;
        while i < fields.len()
            invariant
                i <= fields@.len(),
                forall|j: int| 0 <= j < i ==> fields@[j] != op,
            decreases fields@.len() - i,
        {
            if fields[i] == op {
                return true;
            }
            i = i + 1;
        }
        false
    }

    /// The fields that cells of pages of kind `btree_type` hold.
    pub fn get_valid_cell_fields(btree_type: &BTreePageHeaderFormat) -> (r: Vec<CellOperation>)
        ensures
            r@ == spec_cell_fields(*btree_type),
            forall|op: CellOperation| r@.contains(op) <==> spec_field_valid(op, *btree_type),
    {
        let t = *btree_type;
        let interior = match t {
            BTreePageHeaderFormat::InteriorIndexBTreePage
            | BTreePageHeaderFormat::InteriorTableBTreePage => true,
            _ => false,
        };
        let has_payload = match t {
            BTreePageHeaderFormat::LeafTableBTreePage
            | BTreePageHeaderFormat::LeafIndexBTreePage
            | BTreePageHeaderFormat::InteriorIndexBTreePage => true,
            _ => false,
        };
        let has_rowid = match t {
            BTreePageHeaderFormat::LeafTableBTreePage
            | BTreePageHeaderFormat::InteriorTableBTreePage => true,
            _ => false,
        };
        let mut cell_field_map: Vec<CellOperation> = Vec::new();
        if has_payload {
            cell_field_map.push(CellOperation::NumOfBytesOfPayload);
        }
        if has_rowid {
            cell_field_map.push(CellOperation::Rowid);
        }
        if interior {
            cell_field_map.push(CellOperation::PageNumLeftChild);
        }
        if has_payload {
            cell_field_map.push(CellOperation::PageNumOfFirstOverflowPage);
        }
        if has_payload {
            cell_field_map.push(CellOperation::Payload);
        }
        assert(cell_field_map@ =~= spec_cell_fields(t));
        assert forall|op: CellOperation| cell_field_map@.contains(op) <==> spec_field_valid(op, t) by {
            if spec_field_valid(op, t) {
                let k = match op {
                    CellOperation::NumOfBytesOfPayload => 0int,
                    CellOperation::Rowid => if has_payload { 1int } else { 0int },
                    CellOperation::PageNumLeftChild => 1int,
                    CellOperation::PageNumOfFirstOverflowPage => if interior || has_rowid { 2int } else { 1int },
                    CellOperation::Payload => if interior || has_rowid { 3int } else { 2int },
                };
                assert(cell_field_map@[k] == op);
            }
        }
        cell_field_map
    }

    /// The number of payload bytes that spill onto overflow pages (U: usable
    /// size, X: most payload kept on the page, M: least payload kept on the
    /// page before spilling is allowed).
    pub fn get_payload_overflow_bytes(
        page_size: &usize,
        resrv_bytes_per_pg: u8,
        payload_size: usize,
        pg_type: &BTreePageHeaderFormat,
    ) -> (r: usize)
        requires
            usable_size_ok(*page_size as int, resrv_bytes_per_pg as int),
            (*page_size - resrv_bytes_per_pg - 12) * 64 <= usize::MAX,
        ensures
            r == spec_overflow_bytes(*page_size as int, resrv_bytes_per_pg as int, payload_size as int, *pg_type),
            r <= payload_size,
    {
        let usable_size = *page_size - resrv_bytes_per_pg as usize;
        let is_btree_leaf_pg = match pg_type {
            BTreePageHeaderFormat::LeafTableBTreePage => true,
            _ => false,
        };
        let x = if is_btree_leaf_pg {
            usable_size - 35
        } else {
            assert((usable_size - 12) * 64 / 255 >= 23) by (nonlinear_arith)
                requires usable_size >= 196;
            ((usable_size - 12) * 64 / 255) - 23
        };
        assert((usable_size - 12) * 32 / 255 >= 23) by (nonlinear_arith)
            requires usable_size >= 196;
        assert((usable_size - 12) * 32 <= (usable_size - 12) * 64) by (nonlinear_arith)
            requires usable_size >= 12;
        let m = (((usable_size - 12) * 32) / 255) - 23;
        assert(m <= x) by (nonlinear_arith)
            requires
                m == (usable_size - 12) * 32 / 255 - 23,
                x == (if is_btree_leaf_pg { usable_size - 35 } else { (usable_size - 12) * 64 / 255 - 23 }),
                usable_size >= 196;
        if payload_size <= x {
            0
        } else {
            let d = payload_size - m;
            let div = usable_size - 4;
            let rem = d % div;
            assert(rem <= d) by (nonlinear_arith)
                requires rem == d % div, div > 0;
            let k = m + rem;
            if k <= x {
                payload_size - k
            } else {
                payload_size - m
            }
        }
    }
}

} // verus!
