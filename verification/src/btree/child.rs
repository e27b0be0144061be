use vstd::prelude::*;

use crate::btree::{
    first_not_below, interior_binsearch, interior_idx_binsearch_by_val, leaf_binsearch,
    leaf_idx_binsearch_by_val, leaf_keys, pick_child, pick_index_child, rows_keyed, entries_keyed,
    index_keys, keys_view, spec_leaf_search, spec_lower_bound, spec_seek_key, table_keys,
    BTreePageHeaderFormat, DBHeader, IndexKey, IndexKeyView, InteriorTablePayload, SchemaType,
    SqlSchema,
};
use crate::cell::{Cell, CellView};
use crate::custom_error::CustomError;
use crate::page::{cells_view, prepend, spec_interior_nodes, spec_read_page, Page, PageHeader};
use crate::query::{QueryOpView, QueryOperations};
use crate::record_type::{spec_into_i64, RecordDataType, RecordValue};
use crate::schema::{records_view, spec_read_content, Schema};

verus! {

/// An entry of an interior index page: keys up to `data` are under
/// `leftptr`, keys above it under `rightptr`.
#[derive(Debug, Clone)]
pub struct InteriorIndexPayload {
    pub leftptr: u32,
    pub rightptr: u32,
    pub data: Option<Vec<RecordDataType>>,
}

pub struct InteriorIndexView {
    pub leftptr: u32,
    pub rightptr: u32,
    pub data: Option<Seq<RecordValue>>,
}

impl View for InteriorIndexPayload {
    type V = InteriorIndexView;

    open spec fn view(&self) -> InteriorIndexView {
        InteriorIndexView {
            leftptr: self.leftptr,
            rightptr: self.rightptr,
            data: match self.data {
                Some(d) => Some(records_view(d@)),
                None => None,
            },
        }
    }
}

// Btw root also have leaf table, but since the structure is already
// defined i.e., sql schema. So create a more rigid struct there.
// Also since all we need is the list of data for leaf which is common for
// both the leaf index and leaf table.
/// A record of a leaf page: a table row with its rowid, or an index entry
/// (the indexed values, then the rowid).
#[derive(Debug, Clone)]
pub struct LeafPayload {
    pub rowid: Option<u64>,
    pub row: Vec<RecordDataType>,
}

pub struct LeafView {
    pub rowid: Option<u64>,
    pub row: Seq<RecordValue>,
}

impl View for LeafPayload {
    type V = LeafView;

    open spec fn view(&self) -> LeafView {
        LeafView { rowid: self.rowid, row: records_view(self.row@) }
    }
}

impl Default for LeafPayload {
    fn default() -> (r: Self)
        ensures
            r@ == (LeafView { rowid: None, row: Seq::empty() }),
    {
        let r = LeafPayload { rowid: None, row: Vec::new() };
        assert(records_view(r.row@) =~= Seq::<RecordValue>::empty());
        r
    }
}

pub open spec fn leaf_views(v: Seq<LeafPayload>) -> Seq<LeafView> {
    v.map_values(|p: LeafPayload| p@)
}

pub open spec fn index_views(v: Seq<InteriorIndexPayload>) -> Seq<InteriorIndexView> {
    v.map_values(|p: InteriorIndexPayload| p@)
}

/// What a page of a table or index tree holds.
#[derive(Debug)]
pub enum ChildPayload {
    InteriorTablePayload(Vec<InteriorTablePayload>),
    InteriorIndexPayload(Vec<InteriorIndexPayload>),
    LeafTablePayload(Vec<LeafPayload>),
    LeafIndexPayload(Vec<LeafPayload>),
}

pub enum ChildPayloadView {
    InteriorTablePayload(Seq<InteriorTablePayload>),
    InteriorIndexPayload(Seq<InteriorIndexView>),
    LeafTablePayload(Seq<LeafView>),
    LeafIndexPayload(Seq<LeafView>),
}

impl View for ChildPayload {
    type V = ChildPayloadView;

    open spec fn view(&self) -> ChildPayloadView {
        match self {
            ChildPayload::InteriorTablePayload(v) => ChildPayloadView::InteriorTablePayload(v@),
            ChildPayload::InteriorIndexPayload(v) => ChildPayloadView::InteriorIndexPayload(index_views(v@)),
            ChildPayload::LeafTablePayload(v) => ChildPayloadView::LeafTablePayload(leaf_views(v@)),
            ChildPayload::LeafIndexPayload(v) => ChildPayloadView::LeafIndexPayload(leaf_views(v@)),
        }
    }
}

impl Default for ChildPayload {
    fn default() -> (r: Self)
        ensures
            r@ == ChildPayloadView::LeafTablePayload(Seq::empty()),
    {
        let v: Vec<LeafPayload> = Vec::new();
        assert(leaf_views(v@) =~= Seq::<LeafView>::empty());
        ChildPayload::LeafTablePayload(v)
    }
}

/// The rows a table walk found.
#[derive(Debug, Clone)]
pub struct TableRow {
    pub tblname: String,
    // First tuple is the rowid and at second pos it's the row.
    pub rows: Vec<(Option<u64>, Vec<RecordDataType>)>,
    pub total_rows: u64,
}

impl Default for TableRow {
    fn default() -> (r: Self)
        ensures
            r.tblname@ == Seq::<char>::empty(),
            r.rows@ == Seq::<(Option<u64>, Vec<RecordDataType>)>::empty(),
            r.total_rows == 0,
    {
        TableRow { tblname: String::new(), rows: Vec::new(), total_rows: 0 }
    }
}

pub open spec fn row_view(r: (Option<u64>, Vec<RecordDataType>)) -> (Option<u64>, Seq<RecordValue>) {
    (r.0, records_view(r.1@))
}

pub open spec fn rows_view(v: Seq<(Option<u64>, Vec<RecordDataType>)>) -> Seq<(Option<u64>, Seq<RecordValue>)> {
    v.map_values(|r: (Option<u64>, Vec<RecordDataType>)| row_view(r))
}

/// The rowids an index walk found.
#[derive(Debug, Clone)]
pub struct IndexRow {
    pub rows: Vec<u64>,
    pub total_rows: u64,
}

impl Default for IndexRow {
    fn default() -> (r: Self)
        ensures
            r.rows@ == Seq::<u64>::empty(),
            r.total_rows == 0,
    {
        IndexRow { rows: Vec::new(), total_rows: 0 }
    }
}

#[derive(Debug)]
pub enum Row {
    INDEX(IndexRow),
    TABLE(TableRow),
}

/// A reader of the pages of table and index trees.
#[derive(Debug)]
pub struct Child {
    pgno: u32,
    pgheader: PageHeader,
    data: ChildPayload,
}

impl View for Child {
    type V = (u32, PageHeader, ChildPayloadView);

    closed spec fn view(&self) -> (u32, PageHeader, ChildPayloadView) {
        (self.pgno, self.pgheader, self.data@)
    }
}

impl Default for Child {
    fn default() -> (r: Self)
        ensures
            r@ == (
                0u32,
                PageHeader {
                    btree_pgtype: BTreePageHeaderFormat::LeafTableBTreePage,
                    first_freeblock_start: 0,
                    num_of_cells: 0,
                    ccarea_start: 0,
                    ff_bytes_ccarea: 0,
                    rightmost_ptr: None,
                    pgheader_size: 0,
                },
                ChildPayloadView::LeafTablePayload(Seq::empty()),
            ),
    {
        Child { pgno: 0, pgheader: PageHeader::default(), data: ChildPayload::default() }
    }
}

impl Page for Child {

}

impl Schema for Child {

}

/// The records of the cells of a leaf page, each with the cell's rowid; a
/// cell without rowid is left out unless `keep_rowless`. The first cell
/// without payload or whose record does not decode ends it with an error.
pub open spec fn spec_leaf_rows(enc_val: u32, cells: Seq<CellView>, keep_rowless: bool) -> Result<Seq<LeafView>, CustomError>
    decreases cells.len(),
{
    if cells.len() == 0 {
        Ok(Seq::empty())
    } else {
        match cells[0].payload {
            None => Err(CustomError::MalformedPage),
            Some(p) => match spec_read_content(enc_val, p) {
                Err(e) => Err(e),
                Ok(vals) => if keep_rowless || cells[0].rowid is Some {
                    prepend(
                        seq![LeafView { rowid: cells[0].rowid, row: vals }],
                        spec_leaf_rows(enc_val, cells.drop_first(), keep_rowless),
                    )
                } else {
                    spec_leaf_rows(enc_val, cells.drop_first(), keep_rowless)
                },
            },
        }
    }
}

/// The entries of an interior index page: each cell's child pointers from
/// `nodes`, with the record of its payload as key.
pub open spec fn spec_index_entries(enc_val: u32, nodes: Seq<InteriorTablePayload>, cells: Seq<CellView>) -> Result<Seq<InteriorIndexView>, CustomError>
    decreases cells.len(),
{
    if cells.len() == 0 || nodes.len() == 0 {
        Ok(Seq::empty())
    } else {
        match cells[0].payload {
            None => Err(CustomError::MalformedPage),
            Some(p) => match spec_read_content(enc_val, p) {
                Err(e) => Err(e),
                Ok(vals) => prepend(
                    seq![InteriorIndexView { leftptr: nodes[0].leftptr, rightptr: nodes[0].rightptr, data: Some(vals) }],
                    spec_index_entries(enc_val, nodes.drop_first(), cells.drop_first()),
                ),
            },
        }
    }
}

/// What a page of a table or index tree holds, by the kind of the page:
/// child pointers, keyed child pointers, table rows (those with a rowid),
/// or index entries.
pub open spec fn spec_child_pgdata(dbh: DBHeader, hdr: PageHeader, cells: Seq<CellView>) -> Result<ChildPayloadView, CustomError> {
    match hdr.btree_pgtype {
        BTreePageHeaderFormat::InteriorTableBTreePage => Ok(ChildPayloadView::InteriorTablePayload(spec_interior_nodes(hdr, cells))),
        BTreePageHeaderFormat::InteriorIndexBTreePage => match spec_index_entries(dbh.enc_val, spec_interior_nodes(hdr, cells), cells) {
            Err(e) => Err(e),
            Ok(es) => Ok(ChildPayloadView::InteriorIndexPayload(es)),
        },
        BTreePageHeaderFormat::LeafTableBTreePage => match spec_leaf_rows(dbh.enc_val, cells, false) {
            Err(e) => Err(e),
            Ok(rs) => Ok(ChildPayloadView::LeafTablePayload(rs)),
        },
        BTreePageHeaderFormat::LeafIndexBTreePage => match spec_leaf_rows(dbh.enc_val, cells, true) {
            Err(e) => Err(e),
            Ok(rs) => Ok(ChildPayloadView::LeafIndexPayload(rs)),
        },
    }
}

impl Child {
    /// The records of the cells of a leaf page (see [`spec_leaf_rows`]).
    fn read_leaf_rows(&self, enc_val: u32, cells: &Vec<Cell>, keep_rowless: bool) -> (r: Result<Vec<LeafPayload>, CustomError>)
        ensures
            match spec_leaf_rows(enc_val, cells_view(cells@), keep_rowless) {
                Ok(v) => r matches Ok(x) && leaf_views(x@) == v,
                Err(e) => r matches Err(e2) && e2 == e,
            },
    {
        let ghost cv = cells_view(cells@);
        let ghost full = spec_leaf_rows(enc_val, cv, keep_rowless);
        let mut out: Vec<LeafPayload> = Vec::new();
        let mut i: usize = 0;
        proof {
            assert(cv.skip(0) =~= cv);
            assert(leaf_views(out@) =~= Seq::<LeafView>::empty());
            crate::page::lemma_prepend_assoc(Seq::<LeafView>::empty(), Seq::<LeafView>::empty(), full);
        }
        while i < cells.len()
            invariant
                cv == cells_view(cells@),
                full == spec_leaf_rows(enc_val, cv, keep_rowless),
                i <= cv.len(),
                full == prepend(leaf_views(out@), spec_leaf_rows(enc_val, cv.skip(i as int), keep_rowless)),
            decreases cv.len() - i,
        {
            let ghost rest = cv.skip(i as int);
            assert(rest.drop_first() =~= cv.skip(i + 1));
            assert(rest[0] == cells@[i as int]@);
            let data = match &cells[i].payload {
                Some(payload) => match self.read_content(enc_val, payload.as_slice()) {
                    Ok(d) => d,
                    Err(e) => {
                        return Err(e);
                    },
                },
                None => {
                    return Err(CustomError::MalformedPage);
                },
            };
            if keep_rowless || cells[i].rowid.is_some() {
                let ghost before = leaf_views(out@);
                out.push(LeafPayload { rowid: cells[i].rowid, row: data });
                proof {
                    assert(leaf_views(out@) =~= before + seq![out@.last()@]);
                    crate::page::lemma_prepend_assoc(before, seq![out@.last()@], spec_leaf_rows(enc_val, cv.skip(i + 1), keep_rowless));
                }
            }
            i = i + 1;
        }
        proof {
            assert(cv.skip(i as int) =~= Seq::<CellView>::empty());
            assert(leaf_views(out@) + Seq::<LeafView>::empty() =~= leaf_views(out@));
        }
        Ok(out)
    }

    /// The keyed entries of an interior index page (see
    /// [`spec_index_entries`]).
    fn read_index_entries(&self, enc_val: u32, nodes: &Vec<InteriorTablePayload>, cells: &Vec<Cell>) -> (r: Result<Vec<InteriorIndexPayload>, CustomError>)
        ensures
            match spec_index_entries(enc_val, nodes@, cells_view(cells@)) {
                Ok(v) => r matches Ok(x) && index_views(x@) == v,
                Err(e) => r matches Err(e2) && e2 == e,
            },
    {
        let ghost cv = cells_view(cells@);
        let ghost nv = nodes@;
        let ghost full = spec_index_entries(enc_val, nv, cv);
        let mut out: Vec<InteriorIndexPayload> = Vec::new();
        let mut i: usize = 0;
        proof {
            assert(cv.skip(0) =~= cv);
            assert(nv.skip(0) =~= nv);
            assert(index_views(out@) =~= Seq::<InteriorIndexView>::empty());
            crate::page::lemma_prepend_assoc(Seq::<InteriorIndexView>::empty(), Seq::<InteriorIndexView>::empty(), full);
        }
        while i < cells.len() && i < nodes.len()
            invariant
                cv == cells_view(cells@),
                nv == nodes@,
                full == spec_index_entries(enc_val, nv, cv),
                i <= cv.len(),
                i <= nv.len(),
                full == prepend(index_views(out@), spec_index_entries(enc_val, nv.skip(i as int), cv.skip(i as int))),
            decreases cv.len() - i,
        {
            let ghost rest = cv.skip(i as int);
            assert(rest.drop_first() =~= cv.skip(i + 1));
            assert(nv.skip(i as int).drop_first() =~= nv.skip(i + 1));
            assert(rest[0] == cells@[i as int]@);
            let data = match &cells[i].payload {
                Some(payload) => match self.read_content(enc_val, payload.as_slice()) {
                    Ok(d) => d,
                    Err(e) => {
                        return Err(e);
                    },
                },
                None => {
                    return Err(CustomError::MalformedPage);
                },
            };
            let ghost before = index_views(out@);
            out.push(InteriorIndexPayload { leftptr: nodes[i].leftptr, rightptr: nodes[i].rightptr, data: Some(data) });
            proof {
                assert(index_views(out@) =~= before + seq![out@.last()@]);
                crate::page::lemma_prepend_assoc(before, seq![out@.last()@], spec_index_entries(enc_val, nv.skip(i + 1), cv.skip(i + 1)));
            }
            i = i + 1;
        }
        proof {
            if i == cv.len() {
                assert(cv.skip(i as int) =~= Seq::<CellView>::empty());
            } else {
                assert(nv.skip(i as int) =~= Seq::<InteriorTablePayload>::empty());
            }
            assert(index_views(out@) + Seq::<InteriorIndexView>::empty() =~= index_views(out@));
        }
        Ok(out)
    }

    /// What a page of a table or index tree holds (see
    /// [`spec_child_pgdata`]).
    pub fn get_pgdata(&self, dbheader: &DBHeader, pgheader: &PageHeader, cells: &Vec<Cell>) -> (r: Result<ChildPayload, CustomError>)
        ensures
            match spec_child_pgdata(*dbheader, *pgheader, cells_view(cells@)) {
                Ok(v) => r matches Ok(x) && x@ == v,
                Err(e) => r matches Err(e2) && e2 == e,
            },
    {
        match pgheader.btree_pgtype {
            BTreePageHeaderFormat::InteriorTableBTreePage => {
                Ok(ChildPayload::InteriorTablePayload(self.get_interior_node_ptr(pgheader, cells)))
            },
            BTreePageHeaderFormat::InteriorIndexBTreePage => {
                let child_node_ptr = self.get_interior_node_ptr(pgheader, cells);
                let payload = self.read_index_entries(dbheader.enc_val, &child_node_ptr, cells)?;
                Ok(ChildPayload::InteriorIndexPayload(payload))
            },
            BTreePageHeaderFormat::LeafTableBTreePage => {
                let rows = self.read_leaf_rows(dbheader.enc_val, cells, false)?;
                Ok(ChildPayload::LeafTablePayload(rows))
            },
            BTreePageHeaderFormat::LeafIndexBTreePage => {
                let rows = self.read_leaf_rows(dbheader.enc_val, cells, true)?;
                Ok(ChildPayload::LeafIndexPayload(rows))
            },
        }
    }
}

// -------------------------------------------------------------------------------
//                          WALKS OF TABLE AND INDEX TREES
// -------------------------------------------------------------------------------

/// What page `pgno` of the database file `db` holds (pages count from 1).
#[verifier::opaque]
pub open spec fn spec_child_page(db: Seq<u8>, dbh: DBHeader, pgno: u32) -> Result<ChildPayloadView, CustomError> {
    if pgno == 0 || (pgno - 1) * dbh.page_size > u32::MAX {
        Err(CustomError::InvalidPageNumber)
    } else {
        match spec_read_page(db, dbh, 0, ((pgno - 1) * dbh.page_size) as u32, db.len()) {
            Err(e) => Err(e),
            Ok((hdr, cells)) => spec_child_pgdata(dbh, hdr, cells),
        }
    }
}

/// The rowids of the rows of a table leaf page, as search keys.
pub open spec fn rowid_keys(rows: Seq<LeafView>) -> Seq<IndexKeyView> {
    Seq::new(
        rows.len(),
        |i: int|
            IndexKeyView::Int(
                match rows[i].rowid {
                    Some(id) => id,
                    None => 0,
                },
            ),
    )
}

/// The rows of a leaf page as (rowid, values) pairs.
pub open spec fn leaf_row_pairs(rows: Seq<LeafView>) -> Seq<(Option<u64>, Seq<RecordValue>)> {
    rows.map_values(|p: LeafView| (p.rowid, p.row))
}

/// The rows `a` found (and their count) followed by what a later walk
/// `rest` found; `rest`'s failure when it failed.
pub open spec fn followed_by(
    a: (Seq<(Option<u64>, Seq<RecordValue>)>, nat),
    rest: Result<(Seq<(Option<u64>, Seq<RecordValue>)>, nat), CustomError>,
) -> Result<(Seq<(Option<u64>, Seq<RecordValue>)>, nat), CustomError> {
    match rest {
        Ok(b) => Ok((a.0 + b.0, a.1 + b.1)),
        Err(e) => Err(e),
    }
}

/// The rows that a walk of a table tree from page `pgno` finds for `op`, at
/// most `depth` pages deep, and how many rows it counts: `GetAll` takes
/// every row, `SearchByID` follows the search for the rowid down to a leaf
/// and takes the row it finds there; each row taken is counted. A failure
/// of the walk below any page is the failure of the whole walk.
pub open spec fn spec_table_walk(db: Seq<u8>, dbh: DBHeader, pgno: u32, op: QueryOpView, depth: nat) -> Result<(Seq<(Option<u64>, Seq<RecordValue>)>, nat), CustomError>
    decreases depth, 1nat, 0int,
{
    if depth == 0 {
        Err(CustomError::PageCycle)
    } else {
        match spec_child_page(db, dbh, pgno) {
            Err(e) => Err(e),
            Ok(ChildPayloadView::LeafTablePayload(rows)) => match op {
                QueryOpView::SearchByID(id) => match spec_leaf_search(rowid_keys(rows), IndexKeyView::Int(id), 0, rows.len() as int) {
                    Some(i) => Ok((seq![(rows[i].rowid, rows[i].row)], 1)),
                    None => Ok((Seq::empty(), 0)),
                },
                QueryOpView::GetAll => Ok((leaf_row_pairs(rows), rows.len())),
                _ => Err(CustomError::InvalidQueryOperation),
            },
            Ok(ChildPayloadView::InteriorTablePayload(entries)) => match op {
                QueryOpView::SearchByID(id) => {
                    let ptr = pick_child(entries, spec_lower_bound(table_keys(entries), IndexKeyView::Int(id), 0, entries.len() as int));
                    if ptr == 0 {
                        Err(CustomError::InvalidDbFile)
                    } else {
                        spec_table_walk(db, dbh, ptr, op, (depth - 1) as nat)
                    }
                },
                QueryOpView::GetAll => spec_table_children(db, dbh, entries, 0, op, (depth - 1) as nat),
                _ => Err(CustomError::InvalidQueryOperation),
            },
            Ok(_) => Err(CustomError::InvalidQueryOperation),
        }
    }
}

/// What the walks under the entries of an interior table page find, from
/// the `i`-th entry on: each entry's left child, then the last entry's
/// right child. The first of these walks that fails is the failure of the
/// whole.
pub open spec fn spec_table_children(db: Seq<u8>, dbh: DBHeader, entries: Seq<InteriorTablePayload>, i: int, op: QueryOpView, depth: nat) -> Result<(Seq<(Option<u64>, Seq<RecordValue>)>, nat), CustomError>
    decreases depth, 2nat, entries.len() - i,
{
    if i < 0 || i >= entries.len() {
        Ok((Seq::empty(), 0))
    } else {
        match spec_table_walk(db, dbh, entries[i].leftptr, op, depth) {
            Err(e) => Err(e),
            Ok(a) => followed_by(
                a,
                if i == entries.len() - 1 {
                    spec_table_walk(db, dbh, entries[i].rightptr, op, depth)
                } else {
                    spec_table_children(db, dbh, entries, i + 1, op, depth)
                },
            ),
        }
    }
}

/// The rowids that a walk of an index tree from page `pgno` finds for
/// `IdxSearchByVal(v)`, at most `depth` pages deep: the search for `v`
/// followed down to a leaf, and the rowid (the second value) of the entry it
/// finds there. A failure of the walk below any page is the failure of the
/// whole walk.
pub open spec fn spec_index_walk(db: Seq<u8>, dbh: DBHeader, pgno: u32, op: QueryOpView, depth: nat) -> Result<Seq<u64>, CustomError>
    decreases depth,
{
    if depth == 0 {
        Err(CustomError::PageCycle)
    } else {
        match spec_child_page(db, dbh, pgno) {
            Err(e) => Err(e),
            Ok(ChildPayloadView::LeafIndexPayload(rows)) => match op {
                QueryOpView::IdxSearchByVal(v) => if !rows_keyed(rows) {
                    Err(CustomError::MalformedPage)
                } else {
                    match spec_seek_key(v) {
                        None => Ok(Seq::empty()),
                        Some(sk) => match spec_leaf_search(leaf_keys(rows, sk), sk, 0, rows.len() as int) {
                            None => Ok(Seq::empty()),
                            Some(i) => if rows[i].row.len() < 2 {
                                Err(CustomError::MalformedPage)
                            } else {
                                Ok(seq![spec_into_i64(rows[i].row[1]) as u64])
                            },
                        },
                    }
                },
                _ => Err(CustomError::InvalidQueryOperation),
            },
            Ok(ChildPayloadView::InteriorIndexPayload(entries)) => match op {
                QueryOpView::IdxSearchByVal(v) => if !entries_keyed(entries) {
                    Err(CustomError::MalformedPage)
                } else {
                    let ptr = match spec_seek_key(v) {
                        None => 0,
                        Some(sk) => pick_index_child(entries, spec_lower_bound(index_keys(entries, sk), sk, 0, entries.len() as int)),
                    };
                    spec_index_walk(db, dbh, ptr, op, (depth - 1) as nat)
                },
                _ => Err(CustomError::InvalidQueryOperation),
            },
            Ok(_) => Err(CustomError::InvalidQueryOperation),
        }
    }
}

impl Child {
    /// Reads page `pgno` of the database file `db` (see [`spec_child_page`]).
    fn read_child_page(&self, db: &[u8], dbheader: &DBHeader, pgno: u32) -> (r: Result<ChildPayload, CustomError>)
        ensures
            match spec_child_page(db@, *dbheader, pgno) {
                Ok(v) => r matches Ok(x) && x@ == v,
                Err(e) => r matches Err(e2) && e2 == e,
            },
    {
        proof {
            reveal(spec_child_page);
        }
        if pgno == 0 {
            return Err(CustomError::InvalidPageNumber);
        }
        let pgoffset = match (pgno - 1).checked_mul(dbheader.page_size as u32) {
            Some(o) => o,
            None => {
                return Err(CustomError::InvalidPageNumber);
            },
        };
        let (pgheader, cells) = self.read_page(db, dbheader, 0, pgoffset, db.len())?;
        self.get_pgdata(dbheader, &pgheader, &cells)
    }

    /// Walks the table tree from page `pgno` for `queryop` (see
    /// [`spec_table_walk`]), adding the rows found to `tablerow`; when the
    /// walk fails, its error is returned and `tablerow` is not to be used.
    fn get_child_data(
        &self,
        db: &[u8],
        dbheader: &DBHeader,
        pgno: u32,
        tablerow: &mut TableRow,
        queryop: &QueryOperations,
        depth: usize,
    ) -> (r: Result<(), CustomError>)
        requires
            old(tablerow).total_rows <= old(tablerow).rows@.len(),
        ensures
            final(tablerow).tblname == old(tablerow).tblname,
            final(tablerow).total_rows <= final(tablerow).rows@.len(),
            match spec_table_walk(db@, *dbheader, pgno, queryop@, depth as nat) {
                Ok((rows, n)) => r is Ok && rows_view(final(tablerow).rows@) == rows_view(old(tablerow).rows@) + rows
                    && final(tablerow).total_rows == old(tablerow).total_rows + n,
                Err(e) => r == Err::<(), CustomError>(e),
            },
        decreases depth, 1nat,
    {
        if depth == 0 {
            return Err(CustomError::PageCycle);
        }
        let pgdata = self.read_child_page(db, dbheader, pgno)?;
        let ghost base = rows_view(tablerow.rows@);
        match pgdata {
            ChildPayload::LeafTablePayload(leafpayload) => match queryop {
                QueryOperations::SearchByID(id) => {
                    let ghost lv = leaf_views(leafpayload@);
                    // Rows of a table leaf always carry their rowid.
                    let mut keys: Vec<IndexKey> = Vec::new();
                    let mut i: usize = 0;
                    while i < leafpayload.len()
                        invariant
                            lv == leaf_views(leafpayload@),
                            i <= leafpayload@.len(),
                            keys_view(keys@) =~= rowid_keys(lv).take(i as int),
                        decreases leafpayload@.len() - i,
                    {
                        let k = IndexKey::Int(
                            match leafpayload[i].rowid {
                                Some(r) => r,
                                None => 0,
                            },
                        );
                        let ghost prev = keys@;
                        keys.push(k);
                        proof {
                            crate::btree::lemma_keys_push(prev, k);
                            assert(lv[i as int] == leafpayload@[i as int]@);
                            assert(rowid_keys(lv).take(i + 1) =~= rowid_keys(lv).take(i as int).push(rowid_keys(lv)[i as int]));
                        }
                        i = i + 1;
                    }
                    assert(rowid_keys(lv).take(i as int) =~= rowid_keys(lv));
                    let res = leaf_binsearch(&keys, &IndexKey::Int(*id));
                    if let Some(idx) = res {
                        let mut leafpayload = leafpayload;
                        let data = leafpayload.remove(idx);
                        assert(data@ == lv[idx as int]);
                        let ghost before = tablerow.rows@;
                        tablerow.rows.push((data.rowid, data.row));
                        let count = tablerow.rows.len();
                        assert(tablerow.total_rows < count);
                        tablerow.total_rows = tablerow.total_rows + 1;
                        proof {
                            assert(tablerow.rows@ == before.push((data.rowid, data.row)));
                            assert(rows_view(tablerow.rows@) =~= rows_view(before) + seq![(lv[idx as int].rowid, lv[idx as int].row)]);
                        }
                    } else {
                        assert(Seq::<(Option<u64>, Seq<RecordValue>)>::empty() + base =~= base);
                        assert(base + Seq::<(Option<u64>, Seq<RecordValue>)>::empty() =~= base);
                    }
                    Ok(())
                },
                QueryOperations::GetAll => {
                    let ghost lv = leaf_views(leafpayload@);
                    let ghost base_n = tablerow.total_rows;
                    let mut list = leafpayload;
                    let ghost n = lv.len();
                    let mut k: usize = 0;
                    let list_len = list.len();
                    assert(n == list_len);
                    assert(lv.skip(0) =~= lv);
                    assert(base + leaf_row_pairs(lv).take(0) =~= base);
                    while list.len() > 0
                        invariant
                            n == lv.len(),
                            n <= usize::MAX,
                            k <= n,
                            k + list@.len() == n,
                            leaf_views(list@) == lv.skip(k as int),
                            rows_view(tablerow.rows@) == base + leaf_row_pairs(lv).take(k as int),
                            tablerow.total_rows == base_n + k,
                            tablerow.total_rows <= tablerow.rows@.len(),
                            tablerow.tblname == old(tablerow).tblname,
                        decreases list@.len(),
                    {
                        let ghost before_list = list@;
                        let payload = list.remove(0);
                        assert(leaf_views(before_list)[0] == lv.skip(k as int)[0]);
                        assert(payload@ == lv[k as int]);
                        assert(leaf_views(list@) =~= leaf_views(before_list).drop_first());
                        assert(lv.skip(k as int).drop_first() =~= lv.skip(k + 1));
                        let ghost before = tablerow.rows@;
                        tablerow.rows.push((payload.rowid, payload.row));
                        let count = tablerow.rows.len();
                        assert(tablerow.total_rows < count);
                        tablerow.total_rows = tablerow.total_rows + 1;
                        proof {
                            assert(tablerow.rows@ == before.push((payload.rowid, payload.row)));
                            assert(leaf_row_pairs(lv).take(k + 1) =~= leaf_row_pairs(lv).take(k as int).push((lv[k as int].rowid, lv[k as int].row)));
                            assert(rows_view(tablerow.rows@) =~= rows_view(before).push((lv[k as int].rowid, lv[k as int].row)));
                        }
                        k = k + 1;
                    }
                    assert(leaf_row_pairs(lv).take(n as int) =~= leaf_row_pairs(lv));
                    Ok(())
                },
                _ => Err(CustomError::InvalidQueryOperation),
            },
            ChildPayload::InteriorTablePayload(interior_payload) => match queryop {
                QueryOperations::SearchByID(id) => {
                    // This could mean 2 things either the user is searching by some id itself,
                    // or the field is indexed and we got the id from there.
                    // The role of this operation interior table is get to the right leaf
                    // page. In order to find the data that belongs to that specific id.
                    let pgptr = interior_binsearch(&interior_payload, *id);
                    if pgptr == 0 {
                        // Interior file will always return a valid ptr if it can't
                        // then something is wrong with the file, but it always should
                        return Err(CustomError::InvalidDbFile);
                    }
                    self.get_child_data(db, dbheader, pgptr, tablerow, queryop, depth - 1)
                },
                QueryOperations::GetAll => self.get_child_children(db, dbheader, &interior_payload, tablerow, queryop, depth - 1),
                _ => Err(CustomError::InvalidQueryOperation),
            },
            _ => Err(CustomError::InvalidQueryOperation),
        }
    }

    /// Walks the table tree under the entries of an interior page (see
    /// [`spec_table_children`]), adding the rows found to `tablerow`; the
    /// first child walk that fails ends it with that walk's error.
    fn get_child_children(
        &self,
        db: &[u8],
        dbheader: &DBHeader,
        entries: &Vec<InteriorTablePayload>,
        tablerow: &mut TableRow,
        queryop: &QueryOperations,
        depth: usize,
    ) -> (r: Result<(), CustomError>)
        requires
            old(tablerow).total_rows <= old(tablerow).rows@.len(),
        ensures
            final(tablerow).tblname == old(tablerow).tblname,
            final(tablerow).total_rows <= final(tablerow).rows@.len(),
            match spec_table_children(db@, *dbheader, entries@, 0, queryop@, depth as nat) {
                Ok((rows, n)) => r is Ok && rows_view(final(tablerow).rows@) == rows_view(old(tablerow).rows@) + rows
                    && final(tablerow).total_rows == old(tablerow).total_rows + n,
                Err(e) => r == Err::<(), CustomError>(e),
            },
        decreases depth, 2nat,
    {
        let ghost es = entries@;
        let ghost d = depth as nat;
        let ghost op = queryop@;
        let ghost base = rows_view(tablerow.rows@);
        let ghost base_n = tablerow.total_rows;
        let ghost mut got: Seq<(Option<u64>, Seq<RecordValue>)> = Seq::empty();
        let ghost mut got_n: nat = 0;
        proof {
            assert(base + got =~= base);
        }
        let mut idx: usize = 0;
        while idx < entries.len()
            invariant
                es == entries@,
                d == depth,
                op == queryop@,
                idx <= es.len(),
                spec_table_children(db@, *dbheader, es, 0, op, d) == followed_by(
                    (got, got_n),
                    spec_table_children(db@, *dbheader, es, idx as int, op, d),
                ),
                rows_view(tablerow.rows@) == base + got,
                tablerow.total_rows == base_n + got_n,
                tablerow.total_rows <= tablerow.rows@.len(),
                tablerow.tblname == old(tablerow).tblname,
            decreases es.len() - idx,
        {
            let item = entries[idx];
            let ghost rest = if idx == entries.len() - 1 {
                spec_table_walk(db@, *dbheader, item.rightptr, op, d)
            } else {
                spec_table_children(db@, *dbheader, es, idx + 1, op, d)
            };
            match self.get_child_data(db, dbheader, item.leftptr, tablerow, queryop, depth) {
                Err(e) => {
                    return Err(e);
                },
                Ok(()) => {},
            }
            let ghost a = spec_table_walk(db@, *dbheader, item.leftptr, op, d).unwrap();
            proof {
                assert(rows_view(tablerow.rows@) =~= base + (got + a.0));
                assert(spec_table_children(db@, *dbheader, es, idx as int, op, d) == followed_by(a, rest));
                match rest {
                    Ok(b) => {
                        assert(got + (a.0 + b.0) =~= (got + a.0) + b.0);
                    },
                    Err(_) => {},
                }
                assert(followed_by((got, got_n), followed_by(a, rest)) == followed_by((got + a.0, got_n + a.1), rest));
                got = got + a.0;
                got_n = got_n + a.1;
            }
            if idx == entries.len() - 1 {
                match self.get_child_data(db, dbheader, item.rightptr, tablerow, queryop, depth) {
                    Err(e) => {
                        return Err(e);
                    },
                    Ok(()) => {},
                }
                let ghost b = rest.unwrap();
                proof {
                    assert(rows_view(tablerow.rows@) =~= base + (got + b.0));
                    assert(spec_table_children(db@, *dbheader, es, idx + 1, op, d) == Ok::<(Seq<(Option<u64>, Seq<RecordValue>)>, nat), CustomError>((Seq::<(Option<u64>, Seq<RecordValue>)>::empty(), 0nat)));
                    assert((got + b.0) + Seq::<(Option<u64>, Seq<RecordValue>)>::empty() =~= got + b.0);
                    got = got + b.0;
                    got_n = got_n + b.1;
                }
            }
            idx = idx + 1;
        }
        proof {
            assert(got + Seq::<(Option<u64>, Seq<RecordValue>)>::empty() =~= got);
        }
        Ok(())
    }
}

impl Child {
    /// Walks the index tree from page `pgno` for `queryop` (see
    /// [`spec_index_walk`]), adding the rowids found to `indexrow`; nothing
    /// is added when the walk fails.
    fn get_child_indices(
        &self,
        db: &[u8],
        dbheader: &DBHeader,
        pgno: u32,
        indexrow: &mut IndexRow,
        queryop: &QueryOperations,
        depth: usize,
    ) -> (r: Result<(), CustomError>)
        requires
            old(indexrow).total_rows <= old(indexrow).rows@.len(),
        ensures
            final(indexrow).total_rows <= final(indexrow).rows@.len(),
            match spec_index_walk(db@, *dbheader, pgno, queryop@, depth as nat) {
                Ok(ids) => r is Ok && final(indexrow).rows@ == old(indexrow).rows@ + ids
                    && final(indexrow).total_rows == old(indexrow).total_rows + ids.len(),
                Err(e) => r == Err::<(), CustomError>(e) && final(indexrow).rows@ == old(indexrow).rows@
                    && final(indexrow).total_rows == old(indexrow).total_rows,
            },
        decreases depth,
    {
        if depth == 0 {
            return Err(CustomError::PageCycle);
        }
        let pgdata = self.read_child_page(db, dbheader, pgno)?;
        let ghost base = indexrow.rows@;
        match pgdata {
            ChildPayload::LeafIndexPayload(payload) => match queryop {
                QueryOperations::IdxSearchByVal(data) => {
                    let ghost lv = leaf_views(payload@);
                    let mut keyed = true;
                    let mut i: usize = 0;
                    while i < payload.len()
                        invariant
                            lv == leaf_views(payload@),
                            i <= payload@.len(),
                            keyed <==> forall|j: int| 0 <= j < i ==> #[trigger] lv[j].row.len() >= 1,
                        decreases payload@.len() - i,
                    {
                        assert(lv[i as int].row.len() == payload@[i as int].row@.len());
                        if payload[i].row.len() == 0 {
                            keyed = false;
                        }
                        i = i + 1;
                    }
                    if !keyed {
                        return Err(CustomError::MalformedPage);
                    }
                    let seek = data.duplicate();
                    let ghost pv = payload@;
                    match leaf_idx_binsearch_by_val(payload, seek) {
                        Some(res) => {
                            proof {
                                let sk = spec_seek_key(data@).unwrap();
                                let k = spec_leaf_search(leaf_keys(lv, sk), sk, 0, lv.len() as int).unwrap();
                                crate::btree::lemma_leaf_search_bounds(leaf_keys(lv, sk), sk, 0, lv.len() as int);
                                assert(res@ == pv[k]@);
                                assert(lv[k] == pv[k]@);
                            }
                            assert(records_view(res.row@).len() == res.row@.len());
                            if res.row.len() < 2 {
                                return Err(CustomError::MalformedPage);
                            }
                            assert(records_view(res.row@)[1] == res.row@[1]@);
                            let tbl_id: i64 = res.row[1].into_i64();
                            let ghost before = indexrow.rows@;
                            indexrow.rows.push(tbl_id as u64);
                            let count = indexrow.rows.len();
                            assert(indexrow.total_rows < count);
                            indexrow.total_rows = indexrow.total_rows + 1;
                            let ghost found: Seq<u64> = seq![tbl_id as u64];
                            assert(indexrow.rows@ =~= before + found);
                        },
                        None => {
                            assert(base + Seq::<u64>::empty() =~= base);
                        },
                    }
                    Ok(())
                },
                _ => Err(CustomError::InvalidQueryOperation),
            },
            ChildPayload::InteriorIndexPayload(payload) => match queryop {
                QueryOperations::IdxSearchByVal(data) => {
                    let ghost ev = index_views(payload@);
                    let mut keyed = true;
                    let mut i: usize = 0;
                    while i < payload.len()
                        invariant
                            ev == index_views(payload@),
                            i <= payload@.len(),
                            keyed <==> forall|j: int| 0 <= j < i ==> (#[trigger] ev[j].data) is Some && ev[j].data.unwrap().len() >= 1,
                        decreases payload@.len() - i,
                    {
                        assert(ev[i as int] == payload@[i as int]@);
                        let has_key = match &payload[i].data {
                            Some(d) => {
                                assert(ev[i as int].data == Some(records_view(d@)));
                                assert(records_view(d@).len() == d@.len());
                                d.len() >= 1
                            },
                            None => false,
                        };
                        if !has_key {
                            keyed = false;
                        }
                        i = i + 1;
                    }
                    if !keyed {
                        return Err(CustomError::MalformedPage);
                    }
                    let pgptr = interior_idx_binsearch_by_val(payload, data.duplicate());
                    self.get_child_indices(db, dbheader, pgptr, indexrow, queryop, depth - 1)
                },
                _ => Err(CustomError::InvalidQueryOperation),
            },
            _ => Err(CustomError::InvalidQueryOperation),
        }
    }

    /// The rows of the table, or the rowids from the index, that `schema`
    /// names, found by a walk of its tree from its root page for
    /// `queryop`; a walk is at most as many pages deep as the file has
    /// bytes.
    pub fn get_rows(&self, db: &[u8], dbheader: &DBHeader, schema: &SqlSchema, queryop: QueryOperations) -> (r: Result<Row, CustomError>)
        ensures
            match schema.schema_type {
                SchemaType::TABLE => match spec_table_walk(db@, *dbheader, schema.rootpg, queryop@, db@.len()) {
                    Ok((rows, n)) => r matches Ok(Row::TABLE(t)) && t.tblname@ == schema.tbl_name@
                        && rows_view(t.rows@) == rows && t.total_rows == n,
                    Err(e) => r matches Err(e2) && e2 == e,
                },
                SchemaType::INDEX => match spec_index_walk(db@, *dbheader, schema.rootpg, queryop@, db@.len()) {
                    Ok(ids) => r matches Ok(Row::INDEX(x)) && x.rows@ == ids && x.total_rows == ids.len(),
                    Err(e) => r matches Err(e2) && e2 == e,
                },
                _ => r matches Err(e) && e == CustomError::UnsupportedSchema,
            },
    {
        let rootpg = schema.rootpg;
        match schema.schema_type {
            SchemaType::TABLE => {
                let mut tablerow = TableRow { tblname: schema.tbl_name.clone(), rows: Vec::new(), total_rows: 0 };
                let ghost empty = rows_view(tablerow.rows@);
                assert(empty =~= Seq::<(Option<u64>, Seq<RecordValue>)>::empty());
                self.get_child_data(db, dbheader, rootpg, &mut tablerow, &queryop, db.len())?;
                assert(rows_view(tablerow.rows@) =~= empty + spec_table_walk(db@, *dbheader, rootpg, queryop@, db@.len()).unwrap().0);
                Ok(Row::TABLE(tablerow))
            },
            SchemaType::INDEX => {
                let mut indexrow = IndexRow { rows: Vec::new(), total_rows: 0 };
                let ghost empty = indexrow.rows@;
                self.get_child_indices(db, dbheader, rootpg, &mut indexrow, &queryop, db.len())?;
                assert(indexrow.rows@ =~= spec_index_walk(db@, *dbheader, rootpg, queryop@, db@.len()).unwrap());
                Ok(Row::INDEX(indexrow))
            },
            _ => Err(CustomError::UnsupportedSchema),
        }
    }
}

// -------------------------------------------------------------------------------
//                          LAWS OF THE WALKS
// -------------------------------------------------------------------------------

/// The rows of a table leaf page all carry their rowid.
pub proof fn lemma_table_rows_have_rowid(enc_val: u32, cells: Seq<CellView>)
    ensures
        spec_leaf_rows(enc_val, cells, false) matches Ok(rows) ==> forall|i: int|
            0 <= i < rows.len() ==> (#[trigger] rows[i]).rowid is Some,
    decreases cells.len(),
{
    if cells.len() > 0 {
        lemma_table_rows_have_rowid(enc_val, cells.drop_first());
    }
}

/// A table leaf page holds only rows that carry their rowid.
pub proof fn lemma_child_page_rowids(db: Seq<u8>, dbh: DBHeader, pgno: u32)
    ensures
        spec_child_page(db, dbh, pgno) matches Ok(ChildPayloadView::LeafTablePayload(rows)) ==> forall|i: int|
            0 <= i < rows.len() ==> (#[trigger] rows[i]).rowid is Some,
{
    reveal(spec_child_page);
    if !(pgno == 0 || (pgno - 1) * dbh.page_size > u32::MAX) {
        match spec_read_page(db, dbh, 0, ((pgno - 1) * dbh.page_size) as u32, db.len()) {
            Ok((hdr, cells)) => {
                lemma_table_rows_have_rowid(dbh.enc_val, cells);
            },
            Err(_) => {},
        }
    }
}

/// A walk that takes every row counts every row it takes.
pub proof fn lemma_get_all_counts_rows(db: Seq<u8>, dbh: DBHeader, pgno: u32, depth: nat)
    ensures
        spec_table_walk(db, dbh, pgno, QueryOpView::GetAll, depth) matches Ok((rows, n)) ==> n == rows.len(),
    decreases depth, 1nat, 0int,
{
    if depth > 0 {
        match spec_child_page(db, dbh, pgno) {
            Ok(ChildPayloadView::InteriorTablePayload(entries)) => {
                lemma_children_count_rows(db, dbh, entries, 0, (depth - 1) as nat);
            },
            _ => {},
        }
    }
}

/// The walks under the entries of an interior page count every row they
/// take.
pub proof fn lemma_children_count_rows(db: Seq<u8>, dbh: DBHeader, entries: Seq<InteriorTablePayload>, i: int, depth: nat)
    ensures
        spec_table_children(db, dbh, entries, i, QueryOpView::GetAll, depth) matches Ok((rows, n)) ==> n == rows.len(),
    decreases depth, 2nat, entries.len() - i,
{
    if 0 <= i < entries.len() {
        lemma_get_all_counts_rows(db, dbh, entries[i].leftptr, depth);
        if i == entries.len() - 1 {
            lemma_get_all_counts_rows(db, dbh, entries[i].rightptr, depth);
        } else {
            lemma_children_count_rows(db, dbh, entries, i + 1, depth);
        }
    }
}

/// The walks under the entries of an interior page, from the `j`-th entry
/// on, fail when the walk under a child of the `i`-th entry fails.
proof fn lemma_children_fail_with_a_child(
    db: Seq<u8>,
    dbh: DBHeader,
    entries: Seq<InteriorTablePayload>,
    j: int,
    i: int,
    child: u32,
    op: QueryOpView,
    depth: nat,
)
    requires
        0 <= j <= i < entries.len(),
        child == entries[i].leftptr || (i == entries.len() - 1 && child == entries[i].rightptr),
        spec_table_walk(db, dbh, child, op, depth) is Err,
    ensures
        spec_table_children(db, dbh, entries, j, op, depth) is Err,
    decreases i - j,
{
    if j < i {
        lemma_children_fail_with_a_child(db, dbh, entries, j + 1, i, child, op, depth);
    }
}

/// A walk that takes every row of a table tree fails when the walk under any
/// child of an interior page fails: no rows are given for the other
/// children.
pub proof fn lemma_get_all_fails_with_a_child(
    db: Seq<u8>,
    dbh: DBHeader,
    pgno: u32,
    entries: Seq<InteriorTablePayload>,
    i: int,
    child: u32,
    depth: nat,
)
    requires
        depth > 0,
        spec_child_page(db, dbh, pgno) == Ok::<ChildPayloadView, CustomError>(ChildPayloadView::InteriorTablePayload(entries)),
        0 <= i < entries.len(),
        child == entries[i].leftptr || (i == entries.len() - 1 && child == entries[i].rightptr),
        spec_table_walk(db, dbh, child, QueryOpView::GetAll, (depth - 1) as nat) is Err,
    ensures
        spec_table_walk(db, dbh, pgno, QueryOpView::GetAll, depth) is Err,
{
    lemma_children_fail_with_a_child(db, dbh, entries, 0, i, child, QueryOpView::GetAll, (depth - 1) as nat);
}

/// A search by rowid finds at most one row, the row with that rowid, and
/// counts the row it finds.
pub proof fn lemma_search_by_id_finds_that_row(db: Seq<u8>, dbh: DBHeader, pgno: u32, id: u64, depth: nat)
    ensures
        spec_table_walk(db, dbh, pgno, QueryOpView::SearchByID(id), depth) matches Ok((rows, n)) ==> n == rows.len()
            && rows.len() <= 1 && forall|i: int| 0 <= i < rows.len() ==> (#[trigger] rows[i]).0 == Some(id),
    decreases depth,
{
    if depth > 0 {
        lemma_child_page_rowids(db, dbh, pgno);
        match spec_child_page(db, dbh, pgno) {
            Ok(ChildPayloadView::LeafTablePayload(rows)) => {
                crate::btree::lemma_leaf_search_bounds(rowid_keys(rows), IndexKeyView::Int(id), 0, rows.len() as int);
            },
            Ok(ChildPayloadView::InteriorTablePayload(entries)) => {
                let ptr = pick_child(entries, spec_lower_bound(table_keys(entries), IndexKeyView::Int(id), 0, entries.len() as int));
                lemma_search_by_id_finds_that_row(db, dbh, ptr, id, (depth - 1) as nat);
            },
            _ => {},
        }
    }
}

/// An index walk finds at most one rowid.
pub proof fn lemma_index_walk_at_most_one(db: Seq<u8>, dbh: DBHeader, pgno: u32, op: QueryOpView, depth: nat)
    ensures
        spec_index_walk(db, dbh, pgno, op, depth) matches Ok(ids) ==> ids.len() <= 1,
    decreases depth,
{
    if depth > 0 {
        match spec_child_page(db, dbh, pgno) {
            Ok(ChildPayloadView::InteriorIndexPayload(entries)) => {
                match op {
                    QueryOpView::IdxSearchByVal(v) => {
                        let ptr = match spec_seek_key(v) {
                            None => 0,
                            Some(sk) => pick_index_child(entries, spec_lower_bound(index_keys(entries, sk), sk, 0, entries.len() as int)),
                        };
                        lemma_index_walk_at_most_one(db, dbh, ptr, op, (depth - 1) as nat);
                    },
                    _ => {},
                }
            },
            _ => {},
        }
    }
}

/// The rowid of a row of a table walk (0 for a row without one).
pub open spec fn row_rowid(r: (Option<u64>, Seq<RecordValue>)) -> int {
    match r.0 {
        Some(id) => id as int,
        None => 0,
    }
}

/// The rows come in strictly ascending rowid order.
pub open spec fn rowids_ascending(rows: Seq<(Option<u64>, Seq<RecordValue>)>) -> bool {
    forall|i: int, j: int| 0 <= i < j < rows.len() ==> row_rowid(#[trigger] rows[i]) < row_rowid(#[trigger] rows[j])
}

/// Every row's rowid lies above `lo` and at most at `hi`.
pub open spec fn rowids_within(rows: Seq<(Option<u64>, Seq<RecordValue>)>, lo: int, hi: int) -> bool {
    forall|i: int| 0 <= i < rows.len() ==> lo < row_rowid(#[trigger] rows[i]) <= hi
}

/// The `c`-th child of an interior table page with entries `entries`: the
/// left child of the `c`-th entry, and after the last entry the page's
/// right-most pointer.
pub open spec fn table_child(entries: Seq<InteriorTablePayload>, c: int) -> u32 {
    if c < entries.len() {
        entries[c].leftptr
    } else {
        entries[entries.len() - 1].rightptr
    }
}

/// The rowids that the `c`-th child of an interior table page is for lie
/// above this bound: the key of the entry before it.
pub open spec fn child_lo(entries: Seq<InteriorTablePayload>, c: int) -> int {
    if c <= 0 {
        -1
    } else {
        entries[c - 1].key as int
    }
}

/// The rowids that the `c`-th child of an interior table page is for are at
/// most this bound: the key of its entry, any rowid for the right-most
/// pointer.
pub open spec fn child_hi(entries: Seq<InteriorTablePayload>, c: int) -> int {
    if c < entries.len() {
        entries[c].key as int
    } else {
        u64::MAX as int
    }
}

/// A full scan under the `c`-th child gives its rows in ascending rowid
/// order, within the rowids that the child is for.
pub open spec fn child_scan_in_order(db: Seq<u8>, dbh: DBHeader, entries: Seq<InteriorTablePayload>, c: int, depth: nat) -> bool {
    spec_table_walk(db, dbh, table_child(entries, c), QueryOpView::GetAll, depth) matches Ok((rows, n)) ==> rowids_ascending(rows)
        && rowids_within(rows, child_lo(entries, c), child_hi(entries, c))
}

proof fn lemma_concat_ascending(
    a: Seq<(Option<u64>, Seq<RecordValue>)>,
    b: Seq<(Option<u64>, Seq<RecordValue>)>,
    lo: int,
    mid: int,
    hi: int,
)
    requires
        rowids_ascending(a),
        rowids_within(a, lo, mid),
        rowids_ascending(b),
        rowids_within(b, mid, hi),
        lo <= mid <= hi,
    ensures
        rowids_ascending(a + b),
        rowids_within(a + b, lo, hi),
{
    let ab = a + b;
    assert forall|i: int, j: int| 0 <= i < j < ab.len() implies row_rowid(#[trigger] ab[i]) < row_rowid(#[trigger] ab[j]) by {
        if j < a.len() {
            assert(ab[i] == a[i] && ab[j] == a[j]);
        } else if i >= a.len() {
            assert(ab[i] == b[i - a.len()] && ab[j] == b[j - a.len()]);
        } else {
            assert(ab[i] == a[i] && ab[j] == b[j - a.len()]);
            assert(row_rowid(a[i]) <= mid);
            assert(mid < row_rowid(b[j - a.len()]));
        }
    }
    assert forall|i: int| 0 <= i < ab.len() implies lo < row_rowid(#[trigger] ab[i]) <= hi by {
        if i < a.len() {
            assert(ab[i] == a[i]);
        } else {
            assert(ab[i] == b[i - a.len()]);
        }
    }
}

/// The walks under the entries of an interior table page, from the `i`-th
/// on, give their rows in ascending rowid order when each child's scan does
/// and stays within the rowids its child is for.
proof fn lemma_children_ascending(db: Seq<u8>, dbh: DBHeader, entries: Seq<InteriorTablePayload>, i: int, depth: nat)
    requires
        0 <= i < entries.len(),
        forall|p: int, q: int| 0 <= p < q < entries.len() ==> (#[trigger] entries[p]).key <= (#[trigger] entries[q]).key,
        forall|c: int| i <= c <= entries.len() ==> #[trigger] child_scan_in_order(db, dbh, entries, c, depth),
    ensures
        spec_table_children(db, dbh, entries, i, QueryOpView::GetAll, depth) matches Ok((rows, n)) ==> rowids_ascending(rows)
            && rowids_within(rows, child_lo(entries, i), u64::MAX as int),
    decreases entries.len() - i,
{
    if let Ok((rows, n)) = spec_table_children(db, dbh, entries, i, QueryOpView::GetAll, depth) {
        let a = spec_table_walk(db, dbh, entries[i].leftptr, QueryOpView::GetAll, depth).unwrap();
        assert(child_scan_in_order(db, dbh, entries, i, depth));
        assert(table_child(entries, i) == entries[i].leftptr);
        if i == entries.len() - 1 {
            let b = spec_table_walk(db, dbh, entries[i].rightptr, QueryOpView::GetAll, depth).unwrap();
            assert(child_scan_in_order(db, dbh, entries, entries.len() as int, depth));
            assert(table_child(entries, entries.len() as int) == entries[i].rightptr);
            assert(rows == a.0 + b.0);
            if i > 0 {
                assert(entries[i - 1].key <= entries[i].key);
            }
            lemma_concat_ascending(a.0, b.0, child_lo(entries, i), entries[i].key as int, u64::MAX as int);
        } else {
            lemma_children_ascending(db, dbh, entries, i + 1, depth);
            let b = spec_table_children(db, dbh, entries, i + 1, QueryOpView::GetAll, depth).unwrap();
            assert(rows == a.0 + b.0);
            if i > 0 {
                assert(entries[i - 1].key <= entries[i].key);
            }
            lemma_concat_ascending(a.0, b.0, child_lo(entries, i), entries[i].key as int, u64::MAX as int);
        }
    }
}

/// A full scan of a table tree whose interior keys are sorted gives its rows
/// in ascending rowid order: when the scan under each child of an interior
/// page is in order and stays within the rowids that child is for (up to
/// its entry's key, above the key before it; above the last key for the
/// right-most pointer), the scan of the page is in order too. The rows
/// under one child all come before those under the next, and those under
/// the right-most pointer come last.
pub proof fn lemma_full_scan_ascending(
    db: Seq<u8>,
    dbh: DBHeader,
    pgno: u32,
    entries: Seq<InteriorTablePayload>,
    depth: nat,
)
    requires
        depth > 0,
        entries.len() > 0,
        spec_child_page(db, dbh, pgno) == Ok::<ChildPayloadView, CustomError>(ChildPayloadView::InteriorTablePayload(entries)),
        forall|p: int, q: int| 0 <= p < q < entries.len() ==> (#[trigger] entries[p]).key <= (#[trigger] entries[q]).key,
        forall|c: int| 0 <= c <= entries.len() ==> #[trigger] child_scan_in_order(db, dbh, entries, c, (depth - 1) as nat),
    ensures
        spec_table_walk(db, dbh, pgno, QueryOpView::GetAll, depth) matches Ok((rows, n)) ==> rowids_ascending(rows),
{
    lemma_children_ascending(db, dbh, entries, 0, (depth - 1) as nat);
}

/// What `a` holds, `a + b` and `b + a` hold too.
proof fn lemma_concat_keeps_rows(a: Seq<(Option<u64>, Seq<RecordValue>)>, b: Seq<(Option<u64>, Seq<RecordValue>)>)
    ensures
        forall|x: (Option<u64>, Seq<RecordValue>)| #[trigger] a.contains(x) ==> (a + b).contains(x) && (b + a).contains(x),
{
    assert forall|x: (Option<u64>, Seq<RecordValue>)| #[trigger] a.contains(x) implies (a + b).contains(x) && (b + a).contains(x) by {
        let k = choose|k: int| 0 <= k < a.len() && a[k] == x;
        assert((a + b)[k] == x);
        assert((b + a)[b.len() + k] == x);
    }
}

/// The walks under the entries of an interior table page, from the `i`-th
/// on, take in every row found under each child from the `i`-th on, and
/// end with the rows found under the right-most pointer.
proof fn lemma_children_cover(db: Seq<u8>, dbh: DBHeader, entries: Seq<InteriorTablePayload>, i: int, depth: nat)
    requires
        0 <= i < entries.len(),
    ensures
        spec_table_children(db, dbh, entries, i, QueryOpView::GetAll, depth) matches Ok((rows, n)) ==> {
            &&& forall|c: int| i <= c <= entries.len() ==> (spec_table_walk(db, dbh, #[trigger] table_child(entries, c), QueryOpView::GetAll, depth) matches Ok((r, k))
                && forall|x: (Option<u64>, Seq<RecordValue>)| #[trigger] r.contains(x) ==> rows.contains(x))
            &&& spec_table_walk(db, dbh, table_child(entries, entries.len() as int), QueryOpView::GetAll, depth) matches Ok((r, k))
                && rows.len() >= r.len() && rows.skip(rows.len() - r.len()) == r
        },
    decreases entries.len() - i,
{
    if let Ok((rows, n)) = spec_table_children(db, dbh, entries, i, QueryOpView::GetAll, depth) {
        let a = spec_table_walk(db, dbh, entries[i].leftptr, QueryOpView::GetAll, depth).unwrap();
        let rest = if i == entries.len() - 1 {
            spec_table_walk(db, dbh, entries[i].rightptr, QueryOpView::GetAll, depth)
        } else {
            spec_table_children(db, dbh, entries, i + 1, QueryOpView::GetAll, depth)
        };
        let b = rest.unwrap();
        assert(rows == a.0 + b.0);
        assert(table_child(entries, i) == entries[i].leftptr);
        assert(table_child(entries, entries.len() as int) == entries[entries.len() - 1].rightptr);
        lemma_concat_keeps_rows(a.0, b.0);
        lemma_concat_keeps_rows(b.0, a.0);
        assert(rows.skip(rows.len() - b.0.len()) =~= b.0);
        if i < entries.len() - 1 {
            lemma_children_cover(db, dbh, entries, i + 1, depth);
            let r = spec_table_walk(db, dbh, table_child(entries, entries.len() as int), QueryOpView::GetAll, depth).unwrap().0;
            assert(rows.skip(rows.len() - r.len()) =~= b.0.skip(b.0.len() - r.len()));
        }
    }
}

/// A full scan of a table tree takes in every row under every child of an
/// interior page, the right-most pointer included, and the rows under the
/// right-most pointer come last.
pub proof fn lemma_full_scan_reads_every_child(
    db: Seq<u8>,
    dbh: DBHeader,
    pgno: u32,
    entries: Seq<InteriorTablePayload>,
    depth: nat,
)
    requires
        depth > 0,
        entries.len() > 0,
        spec_child_page(db, dbh, pgno) == Ok::<ChildPayloadView, CustomError>(ChildPayloadView::InteriorTablePayload(entries)),
    ensures
        spec_table_walk(db, dbh, pgno, QueryOpView::GetAll, depth) matches Ok((rows, n)) ==> {
            &&& forall|c: int| 0 <= c <= entries.len() ==> (spec_table_walk(db, dbh, #[trigger] table_child(entries, c), QueryOpView::GetAll, (depth - 1) as nat) matches Ok((r, k))
                && forall|x: (Option<u64>, Seq<RecordValue>)| #[trigger] r.contains(x) ==> rows.contains(x))
            &&& spec_table_walk(db, dbh, table_child(entries, entries.len() as int), QueryOpView::GetAll, (depth - 1) as nat) matches Ok((r, k))
                && rows.len() >= r.len() && rows.skip(rows.len() - r.len()) == r
        },
{
    lemma_children_cover(db, dbh, entries, 0, (depth - 1) as nat);
}

} // verus!
