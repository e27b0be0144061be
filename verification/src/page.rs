use vstd::prelude::*;
use vstd::pervasive::VecAdditionalExecFns;

use crate::btree::{BTreePageHeaderFormat, DBHeader, InteriorTablePayload};
use crate::cell::{empty_cell, spec_cellptrs, spec_read_cell, Cell, CellView};
use crate::custom_error::CustomError;
use crate::fileformat::{get_btree_page_type, spec_btree_page_type};
use crate::utils::{be_at, parse_be_byte_to_int, read_specific_bytes, spec_read_bytes};

verus! {

#[derive(Debug, Clone, Copy, PartialEq, Eq, Structural)]
pub struct PageHeader {
    // All the page headers are in big endian.
    pub btree_pgtype: BTreePageHeaderFormat,  // 1 byte
    pub first_freeblock_start: u16,
    pub num_of_cells: u16,
    // cc -> cell content
    pub ccarea_start: u16,
    // Number of fragmented free bytes in cell content area
    pub ff_bytes_ccarea: u8,
    pub rightmost_ptr: Option<u32>,  // Only appears for interior b-tree pages
    pub pgheader_size: u8,
}

impl Default for PageHeader {
    fn default() -> (r: Self)
        ensures
            r == (PageHeader {
                btree_pgtype: BTreePageHeaderFormat::LeafTableBTreePage,
                first_freeblock_start: 0,
                num_of_cells: 0,
                ccarea_start: 0,
                ff_bytes_ccarea: 0,
                rightmost_ptr: None,
                pgheader_size: 0,
            }),
    {
        PageHeader {
            btree_pgtype: BTreePageHeaderFormat::LeafTableBTreePage,
            first_freeblock_start: 0,
            num_of_cells: 0,
            ccarea_start: 0,
            ff_bytes_ccarea: 0,
            rightmost_ptr: None,
            pgheader_size: 0,
        }
    }
}

/// Interior pages carry a rightmost child pointer in their header.
pub open spec fn spec_is_interior(t: BTreePageHeaderFormat) -> bool {
    t is InteriorIndexBTreePage || t is InteriorTableBTreePage
}

/// The page header at the start of the page bytes `buf`.
pub open spec fn spec_pgheader(buf: Seq<u8>) -> Result<PageHeader, CustomError> {
    if buf.len() < 1 {
        Err(CustomError::MalformedPage)
    } else {
        match spec_btree_page_type(buf[0]) {
            Err(e) => Err(e),
            Ok(t) => {
                let interior = spec_is_interior(t);
                let size: int = if interior { 12 } else { 8 };
                if buf.len() < size {
                    Err(CustomError::MalformedPage)
                } else {
                    Ok(
                        PageHeader {
                            btree_pgtype: t,
                            first_freeblock_start: be_at(buf, 1, 2) as u16,
                            num_of_cells: be_at(buf, 3, 2) as u16,
                            ccarea_start: be_at(buf, 5, 2) as u16,
                            ff_bytes_ccarea: be_at(buf, 7, 1) as u8,
                            rightmost_ptr: if interior {
                                Some(be_at(buf, 8, 4) as u32)
                            } else {
                                None
                            },
                            pgheader_size: size as u8,
                        },
                    )
                }
            },
        }
    }
}

pub open spec fn cells_view(cs: Seq<Cell>) -> Seq<CellView> {
    cs.map_values(|c: Cell| c@)
}

/// The cell that the cell pointer `ptr` points to; cell pointers count from
/// the start of the page, `buf` starts `start` bytes into it.
pub open spec fn spec_cell_at(ptr: u16, start: u16, hdr: PageHeader, dbh: DBHeader, buf: Seq<u8>) -> Result<CellView, CustomError> {
    if ptr < start {
        Err(CustomError::MalformedPage)
    } else {
        spec_read_cell(
            empty_cell(),
            hdr.btree_pgtype,
            dbh.page_size,
            dbh.resrv_bytes_per_pg,
            (ptr - start) as int,
            buf,
        )
    }
}

/// The cells that `ptrs` point to, in order; the first failure wins.
pub open spec fn spec_cells(ptrs: Seq<u16>, start: u16, hdr: PageHeader, dbh: DBHeader, buf: Seq<u8>) -> Result<Seq<CellView>, CustomError>
    decreases ptrs.len(),
{
    if ptrs.len() == 0 {
        Ok(Seq::empty())
    } else {
        match spec_cell_at(ptrs[0], start, hdr, dbh, buf) {
            Err(e) => Err(e),
            Ok(c) => prepend(seq![c], spec_cells(ptrs.drop_first(), start, hdr, dbh, buf)),
        }
    }
}

/// The cells of a page whose header is `hdr` and whose bytes (from `start`
/// on) are `buf`.
pub open spec fn spec_pgcells(hdr: PageHeader, dbh: DBHeader, buf: Seq<u8>, start: u16) -> Result<Seq<CellView>, CustomError> {
    let hs = hdr.pgheader_size as int;
    if hs > buf.len() || 2 * hdr.num_of_cells > buf.len() - hs {
        Err(CustomError::MalformedPage)
    } else {
        spec_cells(
            spec_cellptrs(hdr.num_of_cells as int, buf.subrange(hs, buf.len() as int)),
            start,
            hdr,
            dbh,
            buf,
        )
    }
}

/// The bytes of the chain of overflow pages that starts at page `pgno`: each
/// page gives all its bytes after the 4-byte number of the next page (0 ends
/// the chain). At most `fuel` pages are followed.
pub open spec fn spec_overflow_chain(db: Seq<u8>, pgno: u32, pgsize: u16, fuel: nat) -> Result<Seq<u8>, CustomError>
    decreases fuel,
{
    if fuel == 0 {
        Err(CustomError::PageCycle)
    } else if (pgno - 1) * pgsize > u32::MAX {
        Err(CustomError::InvalidPageNumber)
    } else if pgsize < 4 {
        Err(CustomError::MalformedPage)
    } else {
        let page = spec_read_bytes(db, (pgno - 1) * pgsize, pgsize as int);
        let nextpg = be_at(page, 0, 4) as u32;
        let data = page.subrange(4, pgsize as int);
        if nextpg > 0 {
            prepend(data, spec_overflow_chain(db, nextpg, pgsize, (fuel - 1) as nat))
        } else {
            Ok(data)
        }
    }
}

/// `got` put in front of the items of a successful read.
pub open spec fn prepend<T>(got: Seq<T>, r: Result<Seq<T>, CustomError>) -> Result<Seq<T>, CustomError> {
    match r {
        Ok(x) => Ok(got + x),
        Err(e) => Err(e),
    }
}

pub proof fn lemma_prepend_assoc<T>(a: Seq<T>, b: Seq<T>, r: Result<Seq<T>, CustomError>)
    ensures
        prepend(a, prepend(b, r)) == prepend(a + b, r),
        prepend(Seq::empty(), r) == r,
{
    match r {
        Ok(x) => {
            assert(a + (b + x) =~= (a + b) + x);
            assert(Seq::<T>::empty() + x =~= x);
        },
        Err(_) => {},
    }
}

/// The cell `c` with the bytes of its overflow chain appended to its payload
/// (when it has a payload and a first overflow page).
pub open spec fn spec_cell_with_overflow(db: Seq<u8>, c: CellView, pgsize: u16, fuel: nat) -> Result<CellView, CustomError> {
    match c.payload {
        Some(p) => if c.first_overflow_pgno > 0 {
            match spec_overflow_chain(db, c.first_overflow_pgno, pgsize, fuel) {
                Err(e) => Err(e),
                Ok(more) => Ok(CellView { payload: Some(p + more), ..c }),
            }
        } else {
            Ok(c)
        },
        None => Ok(c),
    }
}

/// Every cell of `cs` with its overflow chain appended; the first failure
/// wins.
pub open spec fn spec_cells_with_overflow(db: Seq<u8>, cs: Seq<CellView>, pgsize: u16, fuel: nat) -> Result<Seq<CellView>, CustomError>
    decreases cs.len(),
{
    if cs.len() == 0 {
        Ok(Seq::empty())
    } else {
        match spec_cell_with_overflow(db, cs[0], pgsize, fuel) {
            Err(e) => Err(e),
            Ok(c) => prepend(seq![c], spec_cells_with_overflow(db, cs.drop_first(), pgsize, fuel)),
        }
    }
}

/// How many bytes of a page are read: the first page is read from after
/// the database header.
pub open spec fn page_buf_size(start_offset: u16, pgsize: u16) -> int {
    if start_offset > 0 && start_offset < pgsize {
        pgsize - start_offset
    } else {
        pgsize as int
    }
}

/// The header and the cells of the page at `pgoffset` of the database file
/// `db`, the first `start_offset` bytes of the page left out; the cells of
/// pages other than interior table pages carry their whole payload.
pub open spec fn spec_read_page(db: Seq<u8>, dbh: DBHeader, start_offset: u16, pgoffset: u32, fuel: nat) -> Result<(PageHeader, Seq<CellView>), CustomError> {
    let bytes = spec_read_bytes(db, pgoffset as int, page_buf_size(start_offset, dbh.page_size));
    match spec_pgheader(bytes) {
        Err(e) => Err(e),
        Ok(hdr) => match spec_pgcells(hdr, dbh, bytes, start_offset) {
            Err(e) => Err(e),
            Ok(cells) => if hdr.btree_pgtype != BTreePageHeaderFormat::InteriorTableBTreePage {
                match spec_cells_with_overflow(db, cells, dbh.page_size, fuel) {
                    Err(e) => Err(e),
                    Ok(full) => Ok((hdr, full)),
                }
            } else {
                Ok((hdr, cells))
            },
        },
    }
}

/// The entries of an interior page: the i-th cell's left child and key, with
/// the next cell's left child (the page's rightmost child for the last cell)
/// as right child.
pub open spec fn spec_interior_nodes(hdr: PageHeader, cells: Seq<CellView>) -> Seq<InteriorTablePayload> {
    Seq::new(
        cells.len(),
        |i: int|
            InteriorTablePayload {
                leftptr: left_or_zero(cells[i]),
                rightptr: if i + 1 < cells.len() {
                    left_or_zero(cells[i + 1])
                } else {
                    match hdr.rightmost_ptr {
                        Some(p) => p,
                        None => 0,
                    }
                },
                key: match cells[i].rowid {
                    Some(k) => k,
                    None => 0,
                },
            },
    )
}

pub open spec fn left_or_zero(c: CellView) -> u32 {
    match c.pgnum_of_left_child {
        Some(p) => p,
        None => 0,
    }
}

pub trait Page {
    // In the page header format table it's mentioned, for which offset
    // what is the type of b-tree page we have.
    fn get_btree_page_type(&self, offset_val: u8) -> (r: Result<BTreePageHeaderFormat, CustomError>)
        ensures
            r == spec_btree_page_type(offset_val),
    {
        get_btree_page_type(offset_val)
    }

    // if it's an interior page it will have extra four bytes in the page header.
    fn is_interior_page(&self, btree_pgtype: &BTreePageHeaderFormat) -> (r: bool)
        ensures
            r == spec_is_interior(*btree_pgtype),
    {
        match btree_pgtype {
            BTreePageHeaderFormat::InteriorIndexBTreePage
            | BTreePageHeaderFormat::InteriorTableBTreePage => true,
            _ => false,
        }
    }

    fn read_pgheader(&self, buf: &[u8]) -> (r: Result<PageHeader, CustomError>)
        ensures
            r == spec_pgheader(buf@),
    {
        if buf.len() < 1 {
            return Err(CustomError::MalformedPage);
        }
        // This is the first element of the page header size: 1 byte, offset: 0
        let btree_pgtype = self.get_btree_page_type(buf[0])?;
        let interior = self.is_interior_page(&btree_pgtype);
        if buf.len() < 8 || (interior && buf.len() < 12) {
            return Err(CustomError::MalformedPage);
        }
        proof {
            crate::utils::lemma_be_value_bound(buf@.subrange(1, 3));
            crate::utils::lemma_be_value_bound(buf@.subrange(3, 5));
            crate::utils::lemma_be_value_bound(buf@.subrange(5, 7));
            crate::utils::lemma_be_value_bound(buf@.subrange(7, 8));
            reveal_with_fuel(crate::utils::pow256, 5);
        }
        let first_freeblock_start = parse_be_byte_to_int(buf, 1, 2) as u16;
        let num_of_cells = parse_be_byte_to_int(buf, 3, 2) as u16;
        let ccarea_start = parse_be_byte_to_int(buf, 5, 2) as u16;
        // fragmented free bytes in cell content area
        let ff_bytes_ccarea = parse_be_byte_to_int(buf, 7, 1) as u8;
        let mut rightmost_ptr = None;
        let mut pgheader_size: u8 = 8;
        if interior {
            proof {
                crate::utils::lemma_be_value_bound(buf@.subrange(8, 12));
            }
            rightmost_ptr = Some(parse_be_byte_to_int(buf, 8, 4) as u32);
            pgheader_size = 12;
        }
        Ok(
            PageHeader {
                btree_pgtype,
                first_freeblock_start,
                num_of_cells,
                ccarea_start,
                ff_bytes_ccarea,
                rightmost_ptr,
                pgheader_size,
            },
        )
    }

    /// The cells of the page; `buf` holds the page from byte `start_byte` on.
    fn get_pgcells(&self, pgheader: &PageHeader, dbheader: &DBHeader, buf: &[u8], start_byte: u16) -> (r: Result<Vec<Cell>, CustomError>)
        ensures
            match spec_pgcells(*pgheader, *dbheader, buf@, start_byte) {
                Ok(cs) => r matches Ok(v) && cells_view(v@) == cs,
                Err(e) => r == Err::<Vec<Cell>, CustomError>(e),
            },
    {
        let hs = pgheader.pgheader_size as usize;
        if hs > buf.len() || 2 * (pgheader.num_of_cells as usize) > buf.len() - hs {
            return Err(CustomError::MalformedPage);
        }
        let ptr_area = vstd::slice::slice_subrange(buf, hs, buf.len());
        let cellptr_arr = Cell::get_cellptr_arr(pgheader.num_of_cells, ptr_area);
        let ghost ptrs = cellptr_arr@;
        assert(spec_pgcells(*pgheader, *dbheader, buf@, start_byte) == spec_cells(ptrs, start_byte, *pgheader, *dbheader, buf@));
        let mut cells: Vec<Cell> = Vec::new();
        let mut i: usize = 0;
        proof {
            assert(ptrs.skip(0) =~= ptrs);
            assert(cells_view(cells@) =~= Seq::<CellView>::empty());
            lemma_prepend_assoc(Seq::<CellView>::empty(), Seq::<CellView>::empty(), spec_cells(ptrs, start_byte, *pgheader, *dbheader, buf@));
        }
        while i < cellptr_arr.len()
            invariant
                ptrs == cellptr_arr@,
                spec_pgcells(*pgheader, *dbheader, buf@, start_byte) == spec_cells(ptrs, start_byte, *pgheader, *dbheader, buf@),
                i <= ptrs.len(),
                spec_cells(ptrs, start_byte, *pgheader, *dbheader, buf@) == prepend(cells_view(cells@), spec_cells(ptrs.skip(i as int), start_byte, *pgheader, *dbheader, buf@)),
            decreases ptrs.len() - i,
        {
            let ghost rest = ptrs.skip(i as int);
            assert(rest.drop_first() =~= ptrs.skip(i + 1));
            assert(rest[0] == ptrs[i as int]);
            let cellptr = cellptr_arr[i];
            if cellptr < start_byte {
                assert(spec_cells(rest, start_byte, *pgheader, *dbheader, buf@) == Err::<Seq<CellView>, CustomError>(CustomError::MalformedPage));
                return Err(CustomError::MalformedPage);
            }
            let mut cell = Cell::new();
            match cell.read_cell(pgheader, dbheader, (cellptr - start_byte) as usize, buf) {
                Ok(()) => {},
                Err(e) => {
                    assert(spec_cells(rest, start_byte, *pgheader, *dbheader, buf@) == Err::<Seq<CellView>, CustomError>(e));
                    return Err(e);
                },
            }
            let ghost before = cells_view(cells@);
            cells.push(cell);
            proof {
                assert(cells_view(cells@) =~= before + seq![cells@.last()@]);
                lemma_prepend_assoc(before, seq![cells@.last()@], spec_cells(ptrs.skip(i + 1), start_byte, *pgheader, *dbheader, buf@));
            }
            i = i + 1;
        }
        proof {
            assert(ptrs.skip(i as int) =~= Seq::<u16>::empty());
            assert(cells_view(cells@) + Seq::<CellView>::empty() =~= cells_view(cells@));
        }
        Ok(cells)
    }

    /// Appends to `curr_payload` the bytes of the overflow chain that starts
    /// at page `pgno`.
    fn read_overflowpg(&self, db: &[u8], curr_payload: &mut Vec<u8>, pgno: u32, pgsize: u16, fuel: usize) -> (r: Result<(), CustomError>)
        requires
            pgno > 0,
        ensures
            match spec_overflow_chain(db@, pgno, pgsize, fuel as nat) {
                Ok(more) => r is Ok && final(curr_payload)@ == old(curr_payload)@ + more,
                Err(e) => r == Err::<(), CustomError>(e),
            },
    {
        let ghost before = curr_payload@;
        let mut cur = pgno;
        let mut f = fuel;
        loop
            invariant
                cur > 0,
                before == old(curr_payload)@,
                curr_payload@.len() >= before.len(),
                curr_payload@.take(before.len() as int) == before,
                spec_overflow_chain(db@, pgno, pgsize, fuel as nat) == prepend(
                    curr_payload@.skip(before.len() as int),
                    spec_overflow_chain(db@, cur, pgsize, f as nat),
                ),
            decreases f,
        {
            let ghost got = curr_payload@.skip(before.len() as int);
            if f == 0 {
                return Err(CustomError::PageCycle);
            }
            let pgoffset = match (cur - 1).checked_mul(pgsize as u32) {
                Some(o) => o,
                None => {
                    return Err(CustomError::InvalidPageNumber);
                },
            };
            if pgsize < 4 {
                return Err(CustomError::MalformedPage);
            }
            // This is your overflow page with next pg ptr..
            let pg_raw_bytes = read_specific_bytes(db, pgoffset, pgsize);
            // First four bytes make the address of next overflow pg. If 0 then no overflowpg.
            proof {
                crate::utils::lemma_be_value_bound(pg_raw_bytes@.subrange(0, 4));
                reveal_with_fuel(crate::utils::pow256, 5);
            }
            let nextpg = parse_be_byte_to_int(pg_raw_bytes.as_slice(), 0, 4) as u32;
            // Overflow pg excluding the next pg ptr.
            let additional_payload_bytes = vstd::slice::slice_subrange(pg_raw_bytes.as_slice(), 4, pg_raw_bytes.len());
            let ghost mid = curr_payload@;
            let mut k: usize = 0;
            while k < additional_payload_bytes.len()
                invariant
                    k <= additional_payload_bytes@.len(),
                    curr_payload@ == mid + additional_payload_bytes@.take(k as int),
                decreases additional_payload_bytes@.len() - k,
            {
                curr_payload.push(additional_payload_bytes[k]);
                assert(additional_payload_bytes@.take(k + 1) =~= additional_payload_bytes@.take(k as int).push(additional_payload_bytes@[k as int]));
                k = k + 1;
            }
            assert(additional_payload_bytes@.take(k as int) =~= additional_payload_bytes@);
            assert(curr_payload@.take(before.len() as int) =~= before);
            assert(curr_payload@.skip(before.len() as int) =~= got + additional_payload_bytes@);
            assert(mid =~= before + got);
            assert(pg_raw_bytes@ == spec_read_bytes(db@, (cur - 1) * pgsize, pgsize as int));
            proof {
                lemma_prepend_assoc(got, additional_payload_bytes@, spec_overflow_chain(db@, nextpg, pgsize, (f - 1) as nat));
            }
            if nextpg == 0 {
                assert(spec_overflow_chain(db@, cur, pgsize, f as nat) == Ok::<Seq<u8>, CustomError>(additional_payload_bytes@));
                assert(curr_payload@ =~= before + (got + additional_payload_bytes@));
                assert(spec_overflow_chain(db@, pgno, pgsize, fuel as nat) == Ok::<Seq<u8>, CustomError>(got + additional_payload_bytes@));
                return Ok(());
            }
            assert(spec_overflow_chain(db@, cur, pgsize, f as nat) == prepend(additional_payload_bytes@, spec_overflow_chain(db@, nextpg, pgsize, (f - 1) as nat)));
            cur = nextpg;
            f = f - 1;
        }
    }

    /// Appends to every cell's payload the bytes of its overflow chain.
    fn set_payload_overflow_bytes(&self, db: &[u8], cells: &mut Vec<Cell>, pgsize: u16, fuel: usize) -> (r: Result<(), CustomError>)
        ensures
            match spec_cells_with_overflow(db@, cells_view(old(cells)@), pgsize, fuel as nat) {
                Ok(cs) => r is Ok && cells_view(final(cells)@) == cs,
                Err(e) => r == Err::<(), CustomError>(e),
            },
    {
        let ghost orig = cells_view(cells@);
        let n = cells.len();
        let mut i: usize = 0;
        proof {
            assert(orig.skip(0) =~= orig);
            assert(cells_view(cells@).take(0) =~= Seq::<CellView>::empty());
            lemma_prepend_assoc(Seq::<CellView>::empty(), Seq::<CellView>::empty(), spec_cells_with_overflow(db@, orig, pgsize, fuel as nat));
        }
        while i < n
            invariant
                orig == cells_view(old(cells)@),
                n == cells@.len(),
                n == orig.len(),
                i <= n,
                spec_cells_with_overflow(db@, orig, pgsize, fuel as nat) == prepend(cells_view(cells@).take(i as int), spec_cells_with_overflow(db@, orig.skip(i as int), pgsize, fuel as nat)),
                forall|j: int| i <= j < n ==> cells@[j]@ == orig[j],
            decreases n - i,
        {
            let ghost rest = orig.skip(i as int);
            assert(rest.drop_first() =~= orig.skip(i + 1));
            assert(rest[0] == orig[i as int]);
            let ghost done = cells_view(cells@).take(i as int);
            let mut cell = Cell::new();
            cells.set_and_swap(i, &mut cell);
            assert(cell@ == orig[i as int]);
            if cell.first_overflow_pgno > 0 {
                match cell.payload {
                    Some(mut payload) => {
                        let res = self.read_overflowpg(db, &mut payload, cell.first_overflow_pgno, pgsize, fuel);
                        cell.payload = Some(payload);
                        match res {
                            Err(e) => {
                                assert(spec_cell_with_overflow(db@, orig[i as int], pgsize, fuel as nat) == Err::<CellView, CustomError>(e));
                                assert(spec_cells_with_overflow(db@, rest, pgsize, fuel as nat) == Err::<Seq<CellView>, CustomError>(e));
                                return Err(e);
                            },
                            Ok(()) => {},
                        }
                    },
                    None => {},
                }
            }
            cells.set_and_swap(i, &mut cell);
            proof {
                assert(cells_view(cells@).take(i + 1) =~= done + seq![cells@[i as int]@]);
                lemma_prepend_assoc(done, seq![cells@[i as int]@], spec_cells_with_overflow(db@, orig.skip(i + 1), pgsize, fuel as nat));
            }
            i = i + 1;
        }
        proof {
            assert(orig.skip(n as int) =~= Seq::<CellView>::empty());
            assert(cells_view(cells@).take(n as int) + Seq::<CellView>::empty() =~= cells_view(cells@));
        }
        Ok(())
    }

    /// Reads the page at `pgoffset` of the database file `db`: its header and
    /// its cells, with the overflow chains of their payloads followed (except
    /// on interior table pages, whose cells have no payload). `start_offset`
    /// is where the page content starts (100 on the first page, after the
    /// database header; 0 elsewhere).
    fn read_page(&self, db: &[u8], dbheader: &DBHeader, start_offset: u16, pgoffset: u32, fuel: usize) -> (r: Result<(PageHeader, Vec<Cell>), CustomError>)
        ensures
            match spec_read_page(db@, *dbheader, start_offset, pgoffset, fuel as nat) {
                Ok((h, cs)) => r matches Ok((h2, v)) && h2 == h && cells_view(v@) == cs,
                Err(e) => r matches Err(e2) && e2 == e,
            },
    {
        let pgsize = dbheader.page_size;
        let buf_size = if start_offset > 0 && start_offset < pgsize {
            pgsize - start_offset
        } else {
            pgsize
        };
        let page_raw_bytes = read_specific_bytes(db, pgoffset, buf_size);
        let pgheader = self.read_pgheader(page_raw_bytes.as_slice())?;
        let mut cells = self.get_pgcells(&pgheader, dbheader, page_raw_bytes.as_slice(), start_offset)?;
        if pgheader.btree_pgtype != BTreePageHeaderFormat::InteriorTableBTreePage {
            self.set_payload_overflow_bytes(db, &mut cells, pgsize, fuel)?;
        }
        Ok((pgheader, cells))
    }

    /// The entries of an interior page, each with its left and right child.
    fn get_interior_node_ptr(&self, pgheader: &PageHeader, cells: &Vec<Cell>) -> (r: Vec<InteriorTablePayload>)
        ensures
            r@ == spec_interior_nodes(*pgheader, cells_view(cells@)),
    {
        // An interior page contains K keys together with K+1 ptr's
        let mut interior_payload: Vec<InteriorTablePayload> = Vec::new();
        let n = cells.len();
        let mut i: usize = 0;
        while i < n
            invariant
                n == cells@.len(),
                i <= n,
                interior_payload@ =~= spec_interior_nodes(*pgheader, cells_view(cells@)).take(i as int),
            decreases n - i,
        {
            let leftptr = match cells[i].pgnum_of_left_child {
                Some(p) => p,
                None => 0,
            };
            let rightptr = if i + 1 < n {
                match cells[i + 1].pgnum_of_left_child {
                    Some(p) => p,
                    None => 0,
                }
            } else {
                match pgheader.rightmost_ptr {
                    Some(p) => p,
                    None => 0,
                }
            };
            let key = match cells[i].rowid {
                Some(k) => k,
                None => 0,
            };
            interior_payload.push(InteriorTablePayload { leftptr, rightptr, key });
            i = i + 1;
        }
        interior_payload
    }
}

/// An overflow page gives a payload exactly its bytes after its 4-byte
/// next-page number: a chain read from page `pgno` starts with that page's
/// bytes from offset 4 to its end, never with the next-page number, and is
/// as long as a whole number of such page tails.
pub proof fn lemma_overflow_chain_page_tails(db: Seq<u8>, pgno: u32, pgsize: u16, fuel: nat)
    requires
        pgsize > 4,
    ensures
        spec_overflow_chain(db, pgno, pgsize, fuel) matches Ok(out) ==> {
            &&& out.len() >= pgsize - 4
            &&& out.take(pgsize - 4) == spec_read_bytes(db, (pgno - 1) * pgsize + 4, pgsize - 4)
            &&& (out.len() as int) % ((pgsize - 4) as int) == 0
        },
    decreases fuel,
{
    if let Ok(out) = spec_overflow_chain(db, pgno, pgsize, fuel) {
        let start = (pgno - 1) * pgsize;
        let page = spec_read_bytes(db, start, pgsize as int);
        let data = page.subrange(4, pgsize as int);
        let nextpg = be_at(page, 0, 4) as u32;
        let m = (pgsize - 4) as int;
        assert(data =~= spec_read_bytes(db, start + 4, m));
        if nextpg > 0 {
            lemma_overflow_chain_page_tails(db, nextpg, pgsize, (fuel - 1) as nat);
            let rest = spec_overflow_chain(db, nextpg, pgsize, (fuel - 1) as nat).unwrap();
            assert(out == data + rest);
            assert(out.take(m) =~= data);
            vstd::arithmetic::div_mod::lemma_mod_add_multiples_vanish(rest.len() as int, m);
        } else {
            assert(out == data);
            assert(out.take(m) =~= data);
            vstd::arithmetic::div_mod::lemma_mod_self_0(m);
        }
    }
}

} // verus!
