use vstd::prelude::*;

use vstd::pervasive::VecAdditionalExecFns;

use crate::btree::{BTreePageHeaderFormat, InteriorTablePayload};
use crate::cell::CellView;
use crate::custom_error::CustomError;
use crate::page::{cells_view, prepend, spec_interior_nodes, spec_read_page, Page, PageHeader};
use crate::schema::{spec_extract_schema, RootSchema};
use crate::cell::Cell;
use crate::text::{ascii_lower, lower_equals, str_to_chars};
use crate::utils::{be_at, parse_be_byte_to_int};

verus! {

#[derive(Debug, Clone, Copy, PartialEq, Eq, Hash, Structural)]
pub enum SchemaType {
    TABLE,
    INDEX,
    VIEW,
    TRIGGER,
}

impl Default for SchemaType {
    fn default() -> (r: Self)
        ensures
            r == SchemaType::TABLE,
    {
        SchemaType::TABLE
    }
}

/// The schema type that `name` names, letters compared without regard to
/// ASCII case.
pub open spec fn spec_schema_type(name: Seq<char>) -> Result<SchemaType, CustomError> {
    let l = ascii_lower(name);
    if l == "table"@ {
        Ok(SchemaType::TABLE)
    } else if l == "index"@ {
        Ok(SchemaType::INDEX)
    } else if l == "trigger"@ {
        Ok(SchemaType::TRIGGER)
    } else if l == "view"@ {
        Ok(SchemaType::VIEW)
    } else {
        Err(CustomError::InvalidSchemaType)
    }
}

impl SchemaType {
    /// The schema type that `value` names ("table", "index", "trigger" or
    /// "view" in any case).
    pub fn from_name(value: &str) -> (r: Result<SchemaType, CustomError>)
        ensures
            r == spec_schema_type(value@),
    {
        let v = str_to_chars(value);
        if lower_equals(v.as_slice(), str_to_chars("table").as_slice()) {
            Ok(SchemaType::TABLE)
        } else if lower_equals(v.as_slice(), str_to_chars("index").as_slice()) {
            Ok(SchemaType::INDEX)
        } else if lower_equals(v.as_slice(), str_to_chars("trigger").as_slice()) {
            Ok(SchemaType::TRIGGER)
        } else if lower_equals(v.as_slice(), str_to_chars("view").as_slice()) {
            Ok(SchemaType::VIEW)
        } else {
            Err(CustomError::InvalidSchemaType)
        }
    }
}

impl TryFrom<String> for SchemaType {
    type Error = CustomError;

    fn try_from(value: String) -> (r: Result<Self, Self::Error>) {
        SchemaType::from_name(value.as_str())
    }
}

impl vstd::std_specs::convert::TryFromSpecImpl<String> for SchemaType {
    open spec fn obeys_try_from_spec() -> bool {
        true
    }

    open spec fn try_from_spec(value: String) -> Result<SchemaType, CustomError> {
        spec_schema_type(value@)
    }
}

#[derive(Debug)]
pub struct SqlSchema {
    pub schema_type: SchemaType,  // could be a table, index, view or trigger
    pub name: String,  // name of the object
    pub tbl_name: String,  // name of table or view the object is associated with
    pub rootpg: u32,
    pub sql: String,
}

/// The contents of a [`SqlSchema`].
pub struct SchemaView {
    pub schema_type: SchemaType,
    pub name: Seq<char>,
    pub tbl_name: Seq<char>,
    pub rootpg: u32,
    pub sql: Seq<char>,
}

impl View for SqlSchema {
    type V = SchemaView;

    open spec fn view(&self) -> SchemaView {
        SchemaView {
            schema_type: self.schema_type,
            name: self.name@,
            tbl_name: self.tbl_name@,
            rootpg: self.rootpg,
            sql: self.sql@,
        }
    }
}

#[derive(Debug)]
pub struct DBFileInfo {
    pub total_dbsize: usize,
    pub filepath: String,
}

#[derive(Debug, Clone, Copy, PartialEq, Eq, Structural)]
pub struct DBHeader {
    pub page_size: u16,
    // ff: file format | w: write | r: read
    pub ffw_ver: u8,
    pub ffr_ver: u8,
    pub resrv_bytes_per_pg: u8,
    pub total_freelist_pages: u32,
    // def: default
    pub def_pgcache_size: u32,
    pub enc_val: u32,
}

impl Default for DBHeader {
    fn default() -> (r: Self)
        ensures
            r == (DBHeader {
                page_size: 0,
                ffw_ver: 0,
                ffr_ver: 0,
                resrv_bytes_per_pg: 0,
                total_freelist_pages: 0,
                def_pgcache_size: 0,
                enc_val: 0,
            }),
    {
        DBHeader {
            page_size: 0,
            ffw_ver: 0,
            ffr_ver: 0,
            resrv_bytes_per_pg: 0,
            total_freelist_pages: 0,
            def_pgcache_size: 0,
            enc_val: 0,
        }
    }
}

impl Default for DBFileInfo {
    fn default() -> (r: Self)
        ensures
            r.total_dbsize == 0,
            r.filepath@ == Seq::<char>::empty(),
    {
        DBFileInfo { total_dbsize: 0, filepath: String::new() }
    }
}

/// The database header fields read from the first bytes of the file `buf`.
pub open spec fn spec_db_header(buf: Seq<u8>) -> DBHeader {
    DBHeader {
        page_size: be_at(buf, 16, 2) as u16,
        ffw_ver: be_at(buf, 18, 1) as u8,
        ffr_ver: be_at(buf, 19, 1) as u8,
        resrv_bytes_per_pg: be_at(buf, 20, 1) as u8,
        total_freelist_pages: be_at(buf, 36, 4) as u32,
        def_pgcache_size: be_at(buf, 48, 4) as u32,
        enc_val: be_at(buf, 56, 4) as u32,
    }
}

#[derive(Debug)]
pub enum RootPayload {
    InteriorTable(Vec<InteriorTablePayload>),
    LeafTable(Vec<SqlSchema>),
}

/// The contents of a [`RootPayload`].
pub enum RootPayloadView {
    InteriorTable(Seq<InteriorTablePayload>),
    LeafTable(Seq<SchemaView>),
}

impl Default for RootPayload {
    fn default() -> (r: Self)
        ensures
            r@ == RootPayloadView::LeafTable(Seq::empty()),
    {
        let v: Vec<SqlSchema> = Vec::new();
        assert(schemas_view(v@) =~= Seq::<SchemaView>::empty());
        RootPayload::LeafTable(v)
    }
}

pub open spec fn schemas_view(v: Seq<SqlSchema>) -> Seq<SchemaView> {
    v.map_values(|s: SqlSchema| s@)
}

impl View for RootPayload {
    type V = RootPayloadView;

    open spec fn view(&self) -> RootPayloadView {
        match self {
            RootPayload::InteriorTable(v) => RootPayloadView::InteriorTable(v@),
            RootPayload::LeafTable(v) => RootPayloadView::LeafTable(schemas_view(v@)),
        }
    }
}

#[derive(Debug, Clone, Copy, PartialEq, Eq, Structural)]
pub struct RootPage {
    pub pgheader: PageHeader,
    pub pgno: u16,
}

/// The schemas of one table name.
#[derive(Debug)]
pub struct TableSchemas {
    pub tbl_name: String,
    pub schemas: Vec<SqlSchema>,
}

/// The schemas of the database keyed by the name of the table they belong
/// to, in the order the names were first met.
#[derive(Debug)]
pub struct SchemaMap {
    pub entries: Vec<TableSchemas>,
}

pub type SchemaMapView = Seq<(Seq<char>, Seq<SchemaView>)>;

impl View for SchemaMap {
    type V = SchemaMapView;

    open spec fn view(&self) -> SchemaMapView {
        self.entries@.map_values(|e: TableSchemas| (e.tbl_name@, schemas_view(e.schemas@)))
    }
}

/// The index of the first entry of `m` with key `k`, -1 when there is none.
pub open spec fn key_index(m: SchemaMapView, k: Seq<char>) -> int
    decreases m.len(),
{
    if m.len() == 0 {
        -1
    } else if m[0].0 == k {
        0
    } else {
        let r = key_index(m.drop_first(), k);
        if r < 0 {
            -1
        } else {
            r + 1
        }
    }
}

/// The schemas kept under `k`, if any.
pub open spec fn spec_lookup(m: SchemaMapView, k: Seq<char>) -> Option<Seq<SchemaView>> {
    let i = key_index(m, k);
    if i < 0 {
        None
    } else {
        Some(m[i].1)
    }
}

/// `m` with `s` added to the schemas of its table name (a new entry at the
/// end when the name is new).
pub open spec fn spec_insert(m: SchemaMapView, s: SchemaView) -> SchemaMapView {
    let i = key_index(m, s.tbl_name);
    if i < 0 {
        m.push((s.tbl_name, seq![s]))
    } else {
        m.update(i, (m[i].0, m[i].1.push(s)))
    }
}

/// `m` with each schema of `ss` added in turn.
pub open spec fn spec_insert_all(m: SchemaMapView, ss: Seq<SchemaView>) -> SchemaMapView
    decreases ss.len(),
{
    if ss.len() == 0 {
        m
    } else {
        spec_insert_all(spec_insert(m, ss[0]), ss.drop_first())
    }
}

/// No two entries of `m` have the same key.
pub open spec fn keys_distinct(m: SchemaMapView) -> bool {
    forall|i: int, j: int| 0 <= i < m.len() && 0 <= j < m.len() && i != j ==> m[i].0 != m[j].0
}

pub proof fn lemma_key_index(m: SchemaMapView, k: Seq<char>)
    ensures
        -1 <= key_index(m, k) < m.len(),
        key_index(m, k) >= 0 ==> m[key_index(m, k)].0 == k,
        key_index(m, k) >= 0 ==> forall|j: int| 0 <= j < key_index(m, k) ==> m[j].0 != k,
        key_index(m, k) < 0 ==> forall|j: int| 0 <= j < m.len() ==> m[j].0 != k,
    decreases m.len(),
{
    if m.len() > 0 && m[0].0 != k {
        let t = m.drop_first();
        lemma_key_index(t, k);
        assert forall|j: int| 1 <= j < m.len() implies m[j] == t[j - 1] by {}
        if key_index(t, k) >= 0 {
            assert forall|j: int| 0 <= j < key_index(m, k) implies m[j].0 != k by {
                if j > 0 {
                    assert(m[j] == t[j - 1]);
                }
            }
        } else {
            assert forall|j: int| 0 <= j < m.len() implies m[j].0 != k by {
                if j > 0 {
                    assert(m[j] == t[j - 1]);
                }
            }
        }
    }
}

/// Adding a schema keeps every table name in one entry.
pub proof fn lemma_insert_keeps_keys_distinct(m: SchemaMapView, s: SchemaView)
    requires
        keys_distinct(m),
    ensures
        keys_distinct(spec_insert(m, s)),
{
    lemma_key_index(m, s.tbl_name);
}

/// After adding a schema, looking up its table name gives the schemas kept
/// under that name before, followed by the new one; every other name gives
/// what it gave before.
pub proof fn lemma_lookup_after_insert(m: SchemaMapView, s: SchemaView, k: Seq<char>)
    requires
        keys_distinct(m),
    ensures
        k == s.tbl_name ==> spec_lookup(spec_insert(m, s), k) == Some(
            match spec_lookup(m, k) {
                Some(ss) => ss.push(s),
                None => seq![s],
            },
        ),
        k != s.tbl_name ==> spec_lookup(spec_insert(m, s), k) == spec_lookup(m, k),
{
    let m2 = spec_insert(m, s);
    lemma_key_index(m, s.tbl_name);
    lemma_key_index(m, k);
    lemma_insert_keeps_keys_distinct(m, s);
    lemma_key_index(m2, k);
    let i = key_index(m, k);
    let j = key_index(m2, k);
    if i >= 0 {
        assert(m2[i].0 == k);
        if j != i {
            assert(j >= 0 ==> m2[j].0 == k);
        }
    } else if k == s.tbl_name {
        assert(m2[m.len() as int].0 == k);
    }
}

/// Adding schemas one by one keeps every table name in one entry.
pub proof fn lemma_insert_all_keeps_keys_distinct(m: SchemaMapView, ss: Seq<SchemaView>)
    requires
        keys_distinct(m),
    ensures
        keys_distinct(spec_insert_all(m, ss)),
    decreases ss.len(),
{
    if ss.len() > 0 {
        lemma_insert_keeps_keys_distinct(m, ss[0]);
        lemma_insert_all_keeps_keys_distinct(spec_insert(m, ss[0]), ss.drop_first());
    }
}

impl SchemaMap {
    pub fn new() -> (r: Self)
        ensures
            r@ == Seq::<(Seq<char>, Seq<SchemaView>)>::empty(),
    {
        SchemaMap { entries: Vec::new() }
    }

    /// The number of table names.
    pub fn len(&self) -> (r: usize)
        ensures
            r == self@.len(),
    {
        self.entries.len()
    }

    /// The index of the entry with key `name`.
    pub fn find(&self, name: &String) -> (r: Option<usize>)
        ensures
            r is None <==> key_index(self@, name@) < 0,
            r matches Some(i) ==> i == key_index(self@, name@) && i < self@.len(),
    {
        proof {
            lemma_key_index(self@, name@);
        }
        let mut i: usize = 0;
        while i < self.entries.len()
            invariant
                i <= self@.len(),
                forall|j: int| 0 <= j < i ==> self@[j].0 != name@,
                -1 <= key_index(self@, name@) < self@.len(),
                key_index(self@, name@) >= 0 ==> self@[key_index(self@, name@)].0 == name@,
                key_index(self@, name@) >= 0 ==> forall|j: int| 0 <= j < key_index(self@, name@) ==> self@[j].0 != name@,
                key_index(self@, name@) < 0 ==> forall|j: int| 0 <= j < self@.len() ==> self@[j].0 != name@,
            decreases self@.len() - i,
        {
            assert(self@[i as int].0 == self.entries@[i as int].tbl_name@);
            if self.entries[i].tbl_name == *name {
                assert(key_index(self@, name@) == i as int);
                return Some(i);
            }
            i = i + 1;
        }
        None
    }

    /// The schemas kept under `name`, if any.
    pub fn get(&self, name: &String) -> (r: Option<&Vec<SqlSchema>>)
        ensures
            match spec_lookup(self@, name@) {
                Some(v) => r matches Some(x) && schemas_view(x@) == v,
                None => r is None,
            },
    {
        proof {
            lemma_key_index(self@, name@);
        }
        match self.find(name) {
            Some(i) => {
                let r = &self.entries[i].schemas;
                assert(key_index(self@, name@) == i as int);
                assert(r@ == self.entries@[i as int].schemas@);
                assert(self@[i as int].1 == schemas_view(self.entries@[i as int].schemas@));
                assert(spec_lookup(self@, name@) == Some(schemas_view(r@)));
                Some(r)
            },
            None => None,
        }
    }

    /// The table name and schemas of the `i`-th entry.
    pub fn entry(&self, i: usize) -> (r: &TableSchemas)
        requires
            i < self@.len(),
        ensures
            r.tbl_name@ == self@[i as int].0,
            schemas_view(r.schemas@) == self@[i as int].1,
    {
        &self.entries[i]
    }

    /// Adds `schema` to the schemas of its table name.
    pub fn insert_schema(&mut self, schema: SqlSchema)
        ensures
            final(self)@ == spec_insert(old(self)@, schema@),
    {
        let ghost m = self@;
        let ghost s = schema@;
        proof {
            lemma_key_index(m, s.tbl_name);
            assert(m.len() == self.entries@.len());
        }
        match self.find(&schema.tbl_name) {
            Some(i) => {
                let mut entry = TableSchemas { tbl_name: String::new(), schemas: Vec::new() };
                self.entries.set_and_swap(i, &mut entry);
                let ghost old_schemas = entry.schemas@;
                entry.schemas.push(schema);
                assert(schemas_view(entry.schemas@) =~= schemas_view(old_schemas).push(s));
                self.entries.set_and_swap(i, &mut entry);
                assert(self@ =~= spec_insert(m, s));
            },
            None => {
                let name = schema.tbl_name.clone();
                let mut schemas: Vec<SqlSchema> = Vec::new();
                schemas.push(schema);
                assert(schemas_view(schemas@) =~= seq![s]);
                self.entries.push(TableSchemas { tbl_name: name, schemas });
                assert(self@ =~= spec_insert(m, s));
            },
        }
    }
}

/// The first page: the database header and the schema of every table.
#[derive(Debug)]
pub struct Root {
    pub db_header: DBHeader,
    pub total_pages: usize,
    pub pages: Vec<RootPage>,
    // Root usually have tables either interior or leaf.
    // The key is the table name actually
    pub tables: SchemaMap,
    pub metadata: DBFileInfo,
}

impl Default for Root {
    fn default() -> (r: Self)
        ensures
            r.db_header == (DBHeader {
                page_size: 0,
                ffw_ver: 0,
                ffr_ver: 0,
                resrv_bytes_per_pg: 0,
                total_freelist_pages: 0,
                def_pgcache_size: 0,
                enc_val: 0,
            }),
            r.total_pages == 0,
            r.pages@ == Seq::<RootPage>::empty(),
            r.tables@ == Seq::<(Seq<char>, Seq<SchemaView>)>::empty(),
            r.metadata.total_dbsize == 0,
            r.metadata.filepath@ == Seq::<char>::empty(),
    {
        Root {
            db_header: DBHeader::default(),
            total_pages: 0,
            pages: Vec::new(),
            tables: SchemaMap::new(),
            metadata: DBFileInfo::default(),
        }
    }
}

impl Root {
    /// The database header held in the first bytes of the file.
    pub fn read_db_header(&mut self, buf: &[u8]) -> (r: DBHeader)
        requires
            buf@.len() >= 60,
        ensures
            r == spec_db_header(buf@),
            *final(self) == *old(self),
    {
        // First 100 bytes of the 1st page is database header, and
        // that is where we are extracting page size from.
        proof {
            crate::utils::lemma_be_value_bound(buf@.subrange(16, 18));
            crate::utils::lemma_be_value_bound(buf@.subrange(20, 21));
            crate::utils::lemma_be_value_bound(buf@.subrange(18, 19));
            crate::utils::lemma_be_value_bound(buf@.subrange(19, 20));
            crate::utils::lemma_be_value_bound(buf@.subrange(36, 40));
            crate::utils::lemma_be_value_bound(buf@.subrange(48, 52));
            crate::utils::lemma_be_value_bound(buf@.subrange(56, 60));
            reveal_with_fuel(crate::utils::pow256, 5);
        }
        let page_size = parse_be_byte_to_int(buf, 16, 2) as u16;
        let resrv_bytes_per_pg = parse_be_byte_to_int(buf, 20, 1) as u8;
        let ffw_ver = parse_be_byte_to_int(buf, 18, 1) as u8;
        let ffr_ver = parse_be_byte_to_int(buf, 19, 1) as u8;
        let total_freelist_pages = parse_be_byte_to_int(buf, 36, 4) as u32;
        let def_pgcache_size = parse_be_byte_to_int(buf, 48, 4) as u32;
        // text encoding is a 4-byte BE int at offset 56
        let enc_val = parse_be_byte_to_int(buf, 56, 4) as u32;
        DBHeader {
            page_size,
            resrv_bytes_per_pg,
            ffw_ver,
            ffr_ver,
            total_freelist_pages,
            def_pgcache_size,
            enc_val,
        }
    }
}

/// The schemas held in the payloads of the cells of a schema leaf page.
pub open spec fn spec_cell_schemas(enc_val: u32, cells: Seq<CellView>) -> Result<Seq<SchemaView>, CustomError>
    decreases cells.len(),
{
    if cells.len() == 0 {
        Ok(Seq::empty())
    } else {
        match cells[0].payload {
            None => Err(CustomError::MalformedPage),
            Some(p) => match spec_extract_schema(enc_val, p) {
                Err(e) => Err(e),
                Ok(sch) => prepend(seq![sch], spec_cell_schemas(enc_val, cells.drop_first())),
            },
        }
    }
}

/// What a page of the schema tree holds: child pointers for an interior
/// table page, schemas otherwise.
pub open spec fn spec_root_pgdata(dbh: DBHeader, hdr: PageHeader, cells: Seq<CellView>) -> Result<RootPayloadView, CustomError> {
    if hdr.btree_pgtype == BTreePageHeaderFormat::InteriorTableBTreePage {
        Ok(RootPayloadView::InteriorTable(spec_interior_nodes(hdr, cells)))
    } else {
        match spec_cell_schemas(dbh.enc_val, cells) {
            Err(e) => Err(e),
            Ok(ss) => Ok(RootPayloadView::LeafTable(ss)),
        }
    }
}

/// The pages and the schemas of a walk, `pages` and `schemas` put in front.
pub open spec fn prepend_walk(pages: Seq<RootPage>, schemas: Seq<SchemaView>, r: Result<(Seq<RootPage>, Seq<SchemaView>), CustomError>) -> Result<(Seq<RootPage>, Seq<SchemaView>), CustomError> {
    match r {
        Ok((p, s)) => Ok((pages + p, schemas + s)),
        Err(e) => Err(e),
    }
}

/// Where page `pgno` starts in the file; page 0 stands for the first page
/// read from `start_offset`.
pub open spec fn root_page_offset(pgno: u16, page_size: u16, start_offset: u16) -> u32 {
    if pgno > 0 {
        ((pgno - 1) * page_size) as u32
    } else {
        start_offset as u32
    }
}

/// The pages visited (each before its children) and the schemas found (in
/// page order) by a walk of the schema tree from page `pgno`, at most `depth`
/// pages deep; the first failure ends the walk.
pub open spec fn spec_root_walk(db: Seq<u8>, dbh: DBHeader, start_offset: u16, pgno: u16, depth: nat) -> Result<(Seq<RootPage>, Seq<SchemaView>), CustomError>
    decreases depth, 1nat, 0int,
{
    if depth == 0 {
        Err(CustomError::PageCycle)
    } else {
        match spec_read_page(db, dbh, start_offset, root_page_offset(pgno, dbh.page_size, start_offset), db.len()) {
            Err(e) => Err(e),
            Ok((hdr, cells)) => match spec_root_pgdata(dbh, hdr, cells) {
                Err(e) => Err(e),
                Ok(RootPayloadView::InteriorTable(entries)) => prepend_walk(
                    seq![RootPage { pgheader: hdr, pgno }],
                    Seq::empty(),
                    spec_root_children(db, dbh, entries, 0, (depth - 1) as nat),
                ),
                Ok(RootPayloadView::LeafTable(schemas)) => Ok((seq![RootPage { pgheader: hdr, pgno }], schemas)),
            },
        }
    }
}

/// The walks under the entries of an interior page from the `i`-th on: each
/// entry's left child, and the last entry's right child after it.
pub open spec fn spec_root_children(db: Seq<u8>, dbh: DBHeader, entries: Seq<InteriorTablePayload>, i: int, depth: nat) -> Result<(Seq<RootPage>, Seq<SchemaView>), CustomError>
    decreases depth, 2nat, entries.len() - i,
{
    if i < 0 || i >= entries.len() {
        Ok((Seq::empty(), Seq::empty()))
    } else {
        match spec_root_walk(db, dbh, 0, entries[i].leftptr as u16, depth) {
            Err(e) => Err(e),
            Ok((p1, s1)) => prepend_walk(
                p1,
                s1,
                if i == entries.len() - 1 {
                    spec_root_walk(db, dbh, 0, entries[i].rightptr as u16, depth)
                } else {
                    spec_root_children(db, dbh, entries, i + 1, depth)
                },
            ),
        }
    }
}

pub proof fn lemma_prepend_walk(p1: Seq<RootPage>, s1: Seq<SchemaView>, p2: Seq<RootPage>, s2: Seq<SchemaView>, r: Result<(Seq<RootPage>, Seq<SchemaView>), CustomError>)
    ensures
        prepend_walk(p1, s1, prepend_walk(p2, s2, r)) == prepend_walk(p1 + p2, s1 + s2, r),
        prepend_walk(Seq::empty(), Seq::empty(), r) == r,
{
    match r {
        Ok((p, s)) => {
            assert(p1 + (p2 + p) =~= (p1 + p2) + p);
            assert(s1 + (s2 + s) =~= (s1 + s2) + s);
            assert(Seq::<RootPage>::empty() + p =~= p);
            assert(Seq::<SchemaView>::empty() + s =~= s);
        },
        Err(_) => {},
    }
}

pub proof fn lemma_insert_all_append(m: SchemaMapView, a: Seq<SchemaView>, b: Seq<SchemaView>)
    ensures
        spec_insert_all(m, a + b) == spec_insert_all(spec_insert_all(m, a), b),
    decreases a.len(),
{
    if a.len() == 0 {
        assert(a + b =~= b);
    } else {
        assert((a + b).drop_first() =~= a.drop_first() + b);
        assert((a + b)[0] == a[0]);
        lemma_insert_all_append(spec_insert(m, a[0]), a.drop_first(), b);
    }
}

impl Page for Root {

}

impl Root {
    /// What a page of the schema tree holds: child pointers for an interior
    /// table page, the schemas of its cells otherwise.
    pub fn get_pgdata(&self, dbheader: &DBHeader, pgheader: &PageHeader, cells: &Vec<Cell>) -> (r: Result<RootPayload, CustomError>)
        ensures
            match spec_root_pgdata(*dbheader, *pgheader, cells_view(cells@)) {
                Ok(v) => r matches Ok(x) && x@ == v,
                Err(e) => r matches Err(e2) && e2 == e,
            },
    {
        // Since this is for the root, it can have only 2 possible btree types Interior table or Leaf
        // Because the root has to hold the schema or nodes that point to the schema
        if pgheader.btree_pgtype == BTreePageHeaderFormat::InteriorTableBTreePage {
            Ok(RootPayload::InteriorTable(self.get_interior_node_ptr(pgheader, cells)))
        } else {
            let ghost cv = cells_view(cells@);
            let ghost full = spec_cell_schemas(dbheader.enc_val, cv);
            let mut sqlschema_list: Vec<SqlSchema> = Vec::new();
            let mut i: usize = 0;
            proof {
                assert(cv.skip(0) =~= cv);
                assert(schemas_view(sqlschema_list@) =~= Seq::<SchemaView>::empty());
                crate::page::lemma_prepend_assoc(Seq::<SchemaView>::empty(), Seq::<SchemaView>::empty(), full);
            }
            while i < cells.len()
                invariant
                    cv == cells_view(cells@),
                    full == spec_cell_schemas(dbheader.enc_val, cv),
                    pgheader.btree_pgtype != BTreePageHeaderFormat::InteriorTableBTreePage,
                    i <= cv.len(),
                    full == prepend(schemas_view(sqlschema_list@), spec_cell_schemas(dbheader.enc_val, cv.skip(i as int))),
                decreases cv.len() - i,
            {
                let ghost rest = cv.skip(i as int);
                assert(rest.drop_first() =~= cv.skip(i + 1));
                assert(rest[0] == cells@[i as int]@);
                let sql_schema = match &cells[i].payload {
                    Some(payload) => match self.extract_schema(dbheader.enc_val, payload.as_slice()) {
                        Ok(sch) => sch,
                        Err(e) => {
                            assert(spec_cell_schemas(dbheader.enc_val, rest) == Err::<Seq<SchemaView>, CustomError>(e));
                            return Err(e);
                        },
                    },
                    None => {
                        assert(spec_cell_schemas(dbheader.enc_val, rest) == Err::<Seq<SchemaView>, CustomError>(CustomError::MalformedPage));
                        return Err(CustomError::MalformedPage);
                    },
                };
                let ghost before = schemas_view(sqlschema_list@);
                sqlschema_list.push(sql_schema);
                proof {
                    assert(schemas_view(sqlschema_list@) =~= before + seq![sqlschema_list@.last()@]);
                    crate::page::lemma_prepend_assoc(before, seq![sqlschema_list@.last()@], spec_cell_schemas(dbheader.enc_val, cv.skip(i + 1)));
                }
                i = i + 1;
            }
            proof {
                assert(cv.skip(i as int) =~= Seq::<CellView>::empty());
                assert(schemas_view(sqlschema_list@) + Seq::<SchemaView>::empty() =~= schemas_view(sqlschema_list@));
            }
            Ok(RootPayload::LeafTable(sqlschema_list))
        }
    }

    /// Walks the schema tree from page `pgno` (page 0: the first page, read
    /// from `start_offset`), recording each page visited in `rootpg_list`
    /// and each schema found in `tables`; at most `depth` pages deep.
    pub fn read_root_data(
        &self,
        start_offset: u16,
        pgno: u16,
        db: &[u8],
        dbheader: &DBHeader,
        rootpg_list: &mut Vec<RootPage>,
        tables: &mut SchemaMap,
        depth: usize,
    ) -> (r: Result<(), CustomError>)
        ensures
            match spec_root_walk(db@, *dbheader, start_offset, pgno, depth as nat) {
                Ok((pages, schemas)) => r is Ok && final(rootpg_list)@ == old(rootpg_list)@ + pages
                    && final(tables)@ == spec_insert_all(old(tables)@, schemas),
                Err(e) => r == Err::<(), CustomError>(e),
            },
        decreases depth, 1nat,
    {
        if depth == 0 {
            return Err(CustomError::PageCycle);
        }
        let pgsize = dbheader.page_size;
        let pgoffset: u32 = if pgno > 0 {
            let a = (pgno - 1) as u32;
            let b = pgsize as u32;
            assert(a * b <= 65534 * 65535) by (nonlinear_arith)
                requires a <= 65534, b <= 65535;
            a * b
        } else {
            start_offset as u32
        };
        assert(pgoffset == root_page_offset(pgno, pgsize, start_offset));
        let (pgheader, cells) = match self.read_page(db, dbheader, start_offset, pgoffset, db.len()) {
            Ok(p) => p,
            Err(e) => {
                return Err(e);
            },
        };
        let pgdata = match self.get_pgdata(dbheader, &pgheader, &cells) {
            Ok(d) => d,
            Err(e) => {
                return Err(e);
            },
        };
        let ghost base_pages = rootpg_list@;
        let ghost base_tables = tables@;
        rootpg_list.push(RootPage { pgheader, pgno });
        match pgdata {
            RootPayload::InteriorTable(payload) => {
                let res = self.read_root_children(&payload, db, dbheader, rootpg_list, tables, depth - 1);
                proof {
                    lemma_prepend_walk(seq![RootPage { pgheader, pgno }], Seq::empty(), Seq::empty(), Seq::empty(), spec_root_children(db@, *dbheader, payload@, 0, (depth - 1) as nat));
                    match spec_root_children(db@, *dbheader, payload@, 0, (depth - 1) as nat) {
                        Ok((p, ss)) => {
                            assert(base_pages.push(RootPage { pgheader, pgno }) + p =~= base_pages + (seq![RootPage { pgheader, pgno }] + p));
                            assert(Seq::<SchemaView>::empty() + ss =~= ss);
                        },
                        Err(_) => {},
                    }
                }
                res
            },
            RootPayload::LeafTable(sqlschema_list) => {
                let ghost ss = schemas_view(sqlschema_list@);
                let mut list = sqlschema_list;
                let mut k: usize = 0;
                let ghost n = ss.len();
                let list_len = list.len();
                assert(n == list_len);
                proof {
                    assert(ss.take(0) =~= Seq::<SchemaView>::empty());
                }
                while list.len() > 0
                    invariant
                        n == ss.len(),
                        n <= usize::MAX,
                        k <= n,
                        k + list@.len() == n,
                        schemas_view(list@) == ss.skip(k as int),
                        tables@ == spec_insert_all(base_tables, ss.take(k as int)),
                    decreases list@.len(),
                {
                    let ghost lv = list@;
                    let schema = list.remove(0);
                    let ghost sv = schema@;
                    assert(schemas_view(lv)[0] == ss.skip(k as int)[0]);
                    assert(sv == ss[k as int]);
                    assert(list@ =~= lv.drop_first());
                    let ghost m0 = tables@;
                    tables.insert_schema(schema);
                    proof {
                        assert(ss.take(k + 1) =~= ss.take(k as int) + seq![sv]);
                        lemma_insert_all_append(base_tables, ss.take(k as int), seq![sv]);
                        assert(seq![sv].drop_first() =~= Seq::<SchemaView>::empty());
                        assert(spec_insert_all(m0, seq![sv]) == spec_insert_all(spec_insert(m0, sv), Seq::<SchemaView>::empty()));
                        assert(schemas_view(list@) =~= schemas_view(lv).drop_first());
                        assert(ss.skip(k as int).drop_first() =~= ss.skip(k + 1));
                    }
                    k = k + 1;
                }
                assert(ss.take(n as int) =~= ss);
                Ok(())
            },
        }
    }
}

impl Root {
    /// Walks the schema tree under the entries of an interior page: each
    /// entry's left child, then the last entry's right child.
    #[verifier::rlimit(60)]
    pub fn read_root_children(
        &self,
        payload: &Vec<InteriorTablePayload>,
        db: &[u8],
        dbheader: &DBHeader,
        rootpg_list: &mut Vec<RootPage>,
        tables: &mut SchemaMap,
        depth: usize,
    ) -> (r: Result<(), CustomError>)
        ensures
            match spec_root_children(db@, *dbheader, payload@, 0, depth as nat) {
                Ok((pages, schemas)) => r is Ok && final(rootpg_list)@ == old(rootpg_list)@ + pages
                    && final(tables)@ == spec_insert_all(old(tables)@, schemas),
                Err(e) => r == Err::<(), CustomError>(e),
            },
        decreases depth, 2nat,
    {
        let ghost entries = payload@;
        let ghost d = depth as nat;
        let ghost base_pages = rootpg_list@;
        let ghost base_tables = tables@;
        let ghost mut got_pages: Seq<RootPage> = Seq::empty();
        let ghost mut got_schemas: Seq<SchemaView> = Seq::empty();
        let ghost whole = spec_root_children(db@, *dbheader, entries, 0, d);
        proof {
            lemma_prepend_walk(Seq::empty(), Seq::empty(), Seq::empty(), Seq::empty(), whole);
            assert(rootpg_list@ =~= base_pages + got_pages);
        }
        let mut idx: usize = 0;
        while idx < payload.len()
            invariant
                entries == payload@,
                d == depth,
                idx <= entries.len(),
                base_pages == old(rootpg_list)@,
                base_tables == old(tables)@,
                whole == spec_root_children(db@, *dbheader, entries, 0, d),
                whole == prepend_walk(got_pages, got_schemas, spec_root_children(db@, *dbheader, entries, idx as int, d)),
                rootpg_list@ == base_pages + got_pages,
                tables@ == spec_insert_all(base_tables, got_schemas),
            decreases entries.len() - idx,
        {
            let item = payload[idx];
            let res = self.read_root_data(0, item.leftptr as u16, db, dbheader, rootpg_list, tables, depth);
            match res {
                Err(e) => {
                    assert(spec_root_children(db@, *dbheader, entries, idx as int, d) == Err::<(Seq<RootPage>, Seq<SchemaView>), CustomError>(e));
                    return Err(e);
                },
                Ok(()) => {},
            }
            let ghost p1 = spec_root_walk(db@, *dbheader, 0, item.leftptr as u16, d).unwrap().0;
            let ghost s1 = spec_root_walk(db@, *dbheader, 0, item.leftptr as u16, d).unwrap().1;
            proof {
                lemma_insert_all_append(base_tables, got_schemas, s1);
                assert(rootpg_list@ =~= base_pages + (got_pages + p1));
            }
            if idx == payload.len() - 1 {
                let res2 = self.read_root_data(0, item.rightptr as u16, db, dbheader, rootpg_list, tables, depth);
                match res2 {
                    Err(e) => {
                        assert(spec_root_children(db@, *dbheader, entries, idx as int, d) == Err::<(Seq<RootPage>, Seq<SchemaView>), CustomError>(e));
                        return Err(e);
                    },
                    Ok(()) => {},
                }
                let ghost p2 = spec_root_walk(db@, *dbheader, 0, item.rightptr as u16, d).unwrap().0;
                let ghost s2 = spec_root_walk(db@, *dbheader, 0, item.rightptr as u16, d).unwrap().1;
                proof {
                    lemma_insert_all_append(base_tables, got_schemas + s1, s2);
                    assert(rootpg_list@ =~= base_pages + ((got_pages + p1) + p2));
                    lemma_prepend_walk(got_pages, got_schemas, p1, s1, Ok((p2, s2)));
                    assert(spec_root_children(db@, *dbheader, entries, idx + 1, d) == Ok::<(Seq<RootPage>, Seq<SchemaView>), CustomError>((Seq::empty(), Seq::empty())));
                    lemma_prepend_walk(got_pages + p1, got_schemas + s1, p2, s2, Ok((Seq::empty(), Seq::empty())));
                    assert((got_pages + p1) + (p2 + Seq::<RootPage>::empty()) =~= (got_pages + p1) + p2);
                    assert((got_schemas + s1) + (s2 + Seq::<SchemaView>::empty()) =~= (got_schemas + s1) + s2);
                    got_pages = (got_pages + p1) + p2;
                    got_schemas = (got_schemas + s1) + s2;
                }
            } else {
                proof {
                    lemma_prepend_walk(got_pages, got_schemas, p1, s1, spec_root_children(db@, *dbheader, entries, idx + 1, d));
                    got_pages = got_pages + p1;
                    got_schemas = got_schemas + s1;
                }
            }
            idx = idx + 1;
        }
        proof {
            assert(got_pages + Seq::<RootPage>::empty() =~= got_pages);
            assert(got_schemas + Seq::<SchemaView>::empty() =~= got_schemas);
        }
        Ok(())
    }
}

impl crate::file::Initialize for Root {
    open spec fn loaded_from(&self, db: Seq<u8>, filepath: Seq<char>, pages: Seq<RootPage>, tables: SchemaMapView) -> bool {
        let hdr = crate::file::spec_file_header(db);
        &&& self.db_header == hdr
        &&& hdr.page_size > 0
        &&& self.total_pages == db.len() / (hdr.page_size as nat)
        &&& self.pages@ == pages
        &&& self.tables@ == tables
        &&& self.metadata.total_dbsize == db.len()
        &&& self.metadata.filepath@ == filepath
    }

    fn init(&mut self, db: &[u8], filepath: String) -> (r: Result<(), CustomError>) {
        let total_page_size = db.len();
        let dbheader_bytes = crate::utils::read_specific_bytes(db, 0, 99);
        let dbheader = self.read_db_header(dbheader_bytes.as_slice());
        let mut tables = SchemaMap::new();
        let mut rootpg_list: Vec<RootPage> = Vec::new();
        let ghost empty_pages = rootpg_list@;
        self.read_root_data(100, 0, db, &dbheader, &mut rootpg_list, &mut tables, db.len())?;
        assert(empty_pages =~= Seq::<RootPage>::empty());
        proof {
            let (pages, schemas) = spec_root_walk(db@, dbheader, 100, 0, db@.len()).unwrap();
            assert(rootpg_list@ =~= pages);
        }
        if dbheader.page_size == 0 {
            // A page of no bytes has no page header, so the walk above
            // failed already.
            proof {
                assert(crate::page::page_buf_size(100, 0) == 0);
            }
            return Err(CustomError::MalformedPage);
        }
        // Since all the pages are going to be of the same size
        // we can get the total no. of pages.
        self.total_pages = total_page_size / dbheader.page_size as usize;
        self.metadata = DBFileInfo { total_dbsize: total_page_size, filepath };
        self.db_header = dbheader;
        self.tables = tables;
        self.pages = rootpg_list;
        Ok(())
    }
}

/// What `a` holds, `a + b` and `b + a` hold too.
proof fn lemma_concat_keeps_schemas(a: Seq<SchemaView>, b: Seq<SchemaView>)
    ensures
        forall|x: SchemaView| #[trigger] a.contains(x) ==> (a + b).contains(x) && (b + a).contains(x),
{
    assert forall|x: SchemaView| #[trigger] a.contains(x) implies (a + b).contains(x) && (b + a).contains(x) by {
        let k = choose|k: int| 0 <= k < a.len() && a[k] == x;
        assert((a + b)[k] == x);
        assert((b + a)[b.len() + k] == x);
    }
}

/// The walks under the entries of an interior schema page, from the `i`-th
/// entry on, take in every schema found under the left child of each of
/// those entries, and end with the schemas found under the last entry's
/// right-most pointer.
#[verifier::spinoff_prover]
#[verifier::rlimit(60)]
proof fn lemma_root_children_cover(db: Seq<u8>, dbh: DBHeader, entries: Seq<InteriorTablePayload>, i: int, depth: nat)
    requires
        0 <= i < entries.len(),
    ensures
        spec_root_children(db, dbh, entries, i, depth) matches Ok((pc, sc)) ==> {
            &&& forall|j: int| i <= j < entries.len() ==> (spec_root_walk(db, dbh, 0, (#[trigger] entries[j]).leftptr as u16, depth) matches Ok((p, s))
                && forall|x: SchemaView| #[trigger] s.contains(x) ==> sc.contains(x))
            &&& spec_root_walk(db, dbh, 0, entries.last().rightptr as u16, depth) matches Ok((p, s)) && sc.len() >= s.len()
                && sc.skip(sc.len() - s.len()) == s
        },
    decreases entries.len() - i,
{
    if let Ok((pc, sc)) = spec_root_children(db, dbh, entries, i, depth) {
        let (p1, s1) = spec_root_walk(db, dbh, 0, entries[i].leftptr as u16, depth).unwrap();
        let rest = if i == entries.len() - 1 {
            spec_root_walk(db, dbh, 0, entries[i].rightptr as u16, depth)
        } else {
            spec_root_children(db, dbh, entries, i + 1, depth)
        };
        let (pr, sr) = rest.unwrap();
        assert(sc == s1 + sr);
        lemma_concat_keeps_schemas(s1, sr);
        lemma_concat_keeps_schemas(sr, s1);
        assert(sc.skip(sc.len() - sr.len()) =~= sr);
        if i < entries.len() - 1 {
            lemma_root_children_cover(db, dbh, entries, i + 1, depth);
            let (prr, srr) = spec_root_walk(db, dbh, 0, entries.last().rightptr as u16, depth).unwrap();
            assert(sc.skip(sc.len() - srr.len()) =~= sr.skip(sr.len() - srr.len()));
        }
    }
}

/// Loading walks every child of an interior `sqlite_schema` page, the
/// right-most pointer included: every schema found under any child is
/// among the loaded schemas, and those found under the right-most pointer
/// come last.
pub proof fn lemma_root_walk_reads_every_child(
    db: Seq<u8>,
    dbh: DBHeader,
    start_offset: u16,
    pgno: u16,
    depth: nat,
    entries: Seq<InteriorTablePayload>,
)
    requires
        depth > 0,
        entries.len() > 0,
        spec_read_page(db, dbh, start_offset, root_page_offset(pgno, dbh.page_size, start_offset), db.len()) matches Ok((hdr, cells))
            && spec_root_pgdata(dbh, hdr, cells) == Ok::<RootPayloadView, CustomError>(RootPayloadView::InteriorTable(entries)),
    ensures
        spec_root_walk(db, dbh, start_offset, pgno, depth) matches Ok((pages, schemas)) ==> {
            &&& forall|j: int| 0 <= j < entries.len() ==> (spec_root_walk(db, dbh, 0, (#[trigger] entries[j]).leftptr as u16, (depth - 1) as nat) matches Ok((p, s))
                && forall|x: SchemaView| #[trigger] s.contains(x) ==> schemas.contains(x))
            &&& spec_root_walk(db, dbh, 0, entries.last().rightptr as u16, (depth - 1) as nat) matches Ok((p, s))
                && schemas.len() >= s.len() && schemas.skip(schemas.len() - s.len()) == s
        },
{
    if let Ok((pages, schemas)) = spec_root_walk(db, dbh, start_offset, pgno, depth) {
        lemma_root_children_cover(db, dbh, entries, 0, (depth - 1) as nat);
        let (pc, sc) = spec_root_children(db, dbh, entries, 0, (depth - 1) as nat).unwrap();
        assert(schemas =~= sc);
    }
}

} // verus!
