use vstd::prelude::*;

use crate::btree::child::{rows_view, spec_index_walk, spec_table_walk};
use crate::btree::root::{schemas_view, spec_lookup, SchemaMapView};
use crate::btree::{Child, DBHeader, IndexRow, Root, Row, SchemaType, SchemaView, SqlSchema, TableRow};
use crate::query::common::{
    strings_view, CreateParsedQuery, CreateView, ParsedQueryResult, ParsedView, QueryError,
    SelectParsedQuery, SelectView,
};
use crate::query::parser::{is_word, spec_parse, QueryParser};
use crate::record_type::{RecordDataType, RecordValue};
use crate::text::{first_index, lemma_first_index, lemma_first_index_found};

verus! {

/// What a walk of a b-tree looks for.
#[derive(Debug)]
pub enum QueryOperations {
    GetAll,
    SearchByID(u64),
    // In case of indexing the indexed val, will be the first one and then the row id will be the
    // second in interior or leaf index btree page.
    IdxSearchByVal(RecordDataType),
    // This is the case when the field is not indexed.
    // First is the col idx for which we are trying to find the data.
    // Second is the cold value we want to match.
    FullTableScanSearch(usize, RecordDataType),
    Empty,
}

/// The value of a [`QueryOperations`].
pub enum QueryOpView {
    GetAll,
    SearchByID(u64),
    IdxSearchByVal(RecordValue),
    FullTableScanSearch(usize, RecordValue),
    Empty,
}

impl View for QueryOperations {
    type V = QueryOpView;

    open spec fn view(&self) -> QueryOpView {
        match self {
            QueryOperations::GetAll => QueryOpView::GetAll,
            QueryOperations::SearchByID(id) => QueryOpView::SearchByID(*id),
            QueryOperations::IdxSearchByVal(v) => QueryOpView::IdxSearchByVal(v@),
            QueryOperations::FullTableScanSearch(i, v) => QueryOpView::FullTableScanSearch(*i, v@),
            QueryOperations::Empty => QueryOpView::Empty,
        }
    }
}

/// The index of the first schema of `list` of type `t`.
pub open spec fn first_schema_index(list: Seq<SchemaView>, t: SchemaType) -> Option<int>
    decreases list.len(),
{
    if list.len() == 0 {
        None
    } else if list[0].schema_type == t {
        Some(0)
    } else {
        match first_schema_index(list.drop_first(), t) {
            Some(i) => Some(i + 1),
            None => None,
        }
    }
}

proof fn lemma_first_schema_index(list: Seq<SchemaView>, t: SchemaType, i: int)
    requires
        0 <= i <= list.len(),
        forall|j: int| 0 <= j < i ==> (#[trigger] list[j]).schema_type != t,
        i < list.len() ==> list[i].schema_type == t,
    ensures
        first_schema_index(list, t) == (if i < list.len() { Some(i) } else { None::<int> }),
    decreases i,
{
    if i > 0 {
        assert forall|j: int| 0 <= j < i - 1 implies (#[trigger] list.drop_first()[j]).schema_type != t by {
            assert(list.drop_first()[j] == list[j + 1]);
        }
        lemma_first_schema_index(list.drop_first(), t, i - 1);
    }
}

fn find_schema(list: &Vec<SqlSchema>, t: SchemaType) -> (r: Option<usize>)
    ensures
        match first_schema_index(schemas_view(list@), t) {
            Some(i) => r matches Some(x) && x as int == i && i < list@.len(),
            None => r is None,
        },
        r matches Some(x) ==> list@[x as int].schema_type == t,
{
    let ghost lv = schemas_view(list@);
    let mut i: usize = 0;
    while i < list.len()
        invariant
            lv == schemas_view(list@),
            i <= lv.len(),
            forall|j: int| 0 <= j < i ==> (#[trigger] lv[j]).schema_type != t,
        decreases lv.len() - i,
    {
        assert(lv[i as int] == list@[i as int]@);
        if list[i].schema_type == t {
            proof {
                lemma_first_schema_index(lv, t, i as int);
            }
            return Some(i);
        }
        i = i + 1;
    }
    proof {
        lemma_first_schema_index(lv, t, i as int);
    }
    None
}

/// The `CREATE` statement `sql` of a schema.
pub open spec fn spec_orig_cols(sql: Seq<char>) -> Result<CreateView, QueryError> {
    match spec_parse(sql) {
        Err(e) => Err(e),
        Ok(ParsedView::Create(c)) => Ok(c),
        Ok(ParsedView::Select(_)) => Err(QueryError::NotCreateQuery),
    }
}

/// The value a `WHERE` equality compares with: `given` when there is one,
/// else the text itself.
pub open spec fn where_value_of(given: Option<RecordValue>, text: Seq<char>) -> RecordValue {
    match given {
        Some(v) => v,
        None => RecordValue::Str(text),
    }
}

/// How the rows of a table are looked up for the equality `field = value`:
/// when the table has an index, by the first rowid that the index gives for
/// `value` (nothing when it gives none); else by a full scan on the
/// field's column.
pub open spec fn spec_query_op(db: Seq<u8>, dbh: DBHeader, list: Seq<SchemaView>, tbl: SchemaView, field: Seq<char>, value: RecordValue) -> Result<QueryOpView, QueryError> {
    match first_schema_index(list, SchemaType::INDEX) {
        Some(k) => match spec_orig_cols(list[k].sql) {
            Err(e) => Err(e),
            Ok(c) => if c.cols.contains(field) {
                match spec_index_walk(db, dbh, list[k].rootpg, QueryOpView::IdxSearchByVal(value), db.len()) {
                    Err(e) => Err(QueryError::Read(e)),
                    Ok(ids) => if ids.len() > 0 {
                        Ok(QueryOpView::SearchByID(ids[0]))
                    } else {
                        Ok(QueryOpView::Empty)
                    },
                }
            } else {
                Err(QueryError::InvalidField)
            },
        },
        None => match spec_orig_cols(tbl.sql) {
            Err(e) => Err(e),
            Ok(c) => match first_index(c.cols, is_word(field)) {
                Some(pos) => Ok(QueryOpView::FullTableScanSearch(pos as usize, value)),
                None => Err(QueryError::InvalidField),
            },
        },
    }
}

/// For each column of the table, whether the user asked for it.
pub open spec fn spec_shown(user: Seq<Seq<char>>, orig: Seq<Seq<char>>) -> Seq<bool> {
    Seq::new(orig.len(), |i: int| user.contains(orig[i]))
}

/// What a query shows: the column names for the header, for each column of
/// the table whether it is shown, and the rows found.
#[derive(Debug)]
pub struct QueryOutput {
    pub columns: Vec<String>,
    pub shown: Vec<bool>,
    pub table: TableRow,
}

pub struct QueryOutputView {
    pub columns: Seq<Seq<char>>,
    pub shown: Seq<bool>,
    pub tblname: Seq<char>,
    pub rows: Seq<(Option<u64>, Seq<RecordValue>)>,
    pub total_rows: nat,
}

impl View for QueryOutput {
    type V = QueryOutputView;

    open spec fn view(&self) -> QueryOutputView {
        QueryOutputView {
            columns: strings_view(self.columns@),
            shown: self.shown@,
            tblname: self.table.tblname@,
            rows: rows_view(self.table.rows@),
            total_rows: self.table.total_rows as nat,
        }
    }
}

/// What a `SELECT` shows of the rows found in `tbl`: the columns asked
/// for, all of them for `*`; asking for a column the table does not have is
/// an error.
pub open spec fn spec_select_output(tbl: SchemaView, user: Seq<Seq<char>>, rows: Seq<(Option<u64>, Seq<RecordValue>)>, n: nat) -> Result<QueryOutputView, QueryError> {
    match spec_orig_cols(tbl.sql) {
        Err(e) => Err(e),
        Ok(c) => if user.len() == 1 && user[0] == "*"@ {
            Ok(QueryOutputView { columns: c.cols, shown: spec_shown(c.cols, c.cols), tblname: tbl.tbl_name, rows, total_rows: n })
        } else if forall|i: int| 0 <= i < user.len() ==> c.cols.contains(#[trigger] user[i]) {
            Ok(QueryOutputView { columns: user, shown: spec_shown(user, c.cols), tblname: tbl.tbl_name, rows, total_rows: n })
        } else {
            Err(QueryError::InvalidColumns)
        },
    }
}

/// What running the `SELECT` `sel` gives: the table must exist; its rows
/// are looked up as the `WHERE` equality says (all rows without one).
pub open spec fn spec_run_select(sel: SelectView, tables: SchemaMapView, dbh: DBHeader, db: Seq<u8>, given: Option<RecordValue>) -> Result<QueryOutputView, QueryError> {
    match spec_lookup(tables, sel.tblname) {
        None => Err(QueryError::TableNotFound),
        Some(list) => match first_schema_index(list, SchemaType::TABLE) {
            None => Err(QueryError::TableNotFound),
            Some(t) => {
                let tbl = list[t];
                let op = match sel.where_clause {
                    None => Ok(QueryOpView::GetAll),
                    Some((f, text)) => spec_query_op(db, dbh, list, tbl, f, where_value_of(given, text)),
                };
                match op {
                    Err(e) => Err(e),
                    Ok(op) => match spec_table_walk(db, dbh, tbl.rootpg, op, db.len()) {
                        Err(e) => Err(QueryError::Read(e)),
                        Ok((rows, n)) => spec_select_output(tbl, sel.output_fields, rows, n),
                    },
                }
            },
        },
    }
}

/// What running the query `q` on a database gives: only `SELECT` runs.
pub open spec fn spec_execute(q: Seq<char>, tables: SchemaMapView, dbh: DBHeader, db: Seq<u8>, given: Option<RecordValue>) -> Result<QueryOutputView, QueryError> {
    match spec_parse(q) {
        Err(e) => Err(e),
        Ok(ParsedView::Create(_)) => Err(QueryError::OnlySelect),
        Ok(ParsedView::Select(sel)) => spec_run_select(sel, tables, dbh, db, given),
    }
}

/// A `SELECT` without `WHERE` shows every row of its table and counts each.
pub proof fn lemma_select_all_counts_rows(sel: SelectView, tables: SchemaMapView, dbh: DBHeader, db: Seq<u8>, given: Option<RecordValue>)
    requires
        sel.where_clause is None,
    ensures
        spec_run_select(sel, tables, dbh, db, given) matches Ok(out) ==> out.total_rows == out.rows.len(),
{
    match spec_lookup(tables, sel.tblname) {
        Some(list) => match first_schema_index(list, SchemaType::TABLE) {
            Some(t) => {
                crate::btree::child::lemma_get_all_counts_rows(db, dbh, list[t].rootpg, db.len());
            },
            None => {},
        },
        None => {},
    }
}

/// A `SELECT` whose `WHERE` goes through an index shows at most one row, the
/// row whose rowid the index gave for the value, and counts the row it shows.
pub proof fn lemma_indexed_select_counts_its_row(sel: SelectView, tables: SchemaMapView, dbh: DBHeader, db: Seq<u8>, given: Option<RecordValue>)
    requires
        sel.where_clause is Some,
        spec_lookup(tables, sel.tblname) matches Some(list) && first_schema_index(list, SchemaType::INDEX) is Some,
    ensures
        spec_run_select(sel, tables, dbh, db, given) matches Ok(out) ==> out.total_rows == out.rows.len() && out.rows.len() <= 1
            && forall|i: int|
            0 <= i < out.rows.len() ==> ({
                let list = spec_lookup(tables, sel.tblname).unwrap();
                let tbl = list[first_schema_index(list, SchemaType::TABLE).unwrap()];
                spec_query_op(db, dbh, list, tbl, sel.where_clause.unwrap().0, where_value_of(given, sel.where_clause.unwrap().1))
                    == Ok::<QueryOpView, QueryError>(QueryOpView::SearchByID((#[trigger] out.rows[i]).0.unwrap()))
            }),
{
    let list = spec_lookup(tables, sel.tblname).unwrap();
    match first_schema_index(list, SchemaType::TABLE) {
        Some(t) => {
            let tbl = list[t];
            let (f, text) = sel.where_clause.unwrap();
            match spec_query_op(db, dbh, list, tbl, f, where_value_of(given, text)) {
                Ok(QueryOpView::SearchByID(id)) => {
                    crate::btree::child::lemma_search_by_id_finds_that_row(db, dbh, tbl.rootpg, id, db.len());
                },
                _ => {},
            }
        },
        None => {},
    }
}

/// A query to run on a database file.
#[derive(Debug)]
pub struct QueryExecutor {
    query: String,
    filepath: String,
}

impl QueryExecutor {
    /// The text of the query.
    pub closed spec fn query_text(&self) -> Seq<char> {
        self.query@
    }

    /// The path of the database file.
    pub closed spec fn file_path(&self) -> Seq<char> {
        self.filepath@
    }

    pub fn new(query: String, filepath: String) -> (r: Self)
        ensures
            r.query_text() == query@,
            r.file_path() == filepath@,
    {
        QueryExecutor { query, filepath }
    }
}

pub open spec fn opt_value_view(o: Option<RecordDataType>) -> Option<RecordValue> {
    match o {
        Some(v) => Some(v@),
        None => None,
    }
}

/// Whether `list` holds `s`.
fn contains_string(list: &Vec<String>, s: &String) -> (r: bool)
    ensures
        r == strings_view(list@).contains(s@),
{
    let ghost lv = strings_view(list@);
    let mut i: usize = 0;
    while i < list.len()
        invariant
            lv == strings_view(list@),
            i <= lv.len(),
            forall|j: int| 0 <= j < i ==> lv[j] != s@,
        decreases lv.len() - i,
    {
        assert(lv[i as int] == list@[i as int]@);
        if list[i] == *s {
            return true;
        }
        i = i + 1;
    }
    false
}

/// The index of the first `s` in `list`.
fn position_of(list: &Vec<String>, s: &String) -> (r: Option<usize>)
    ensures
        match first_index(strings_view(list@), is_word(s@)) {
            Some(i) => r matches Some(x) && x as int == i,
            None => r is None,
        },
{
    let ghost lv = strings_view(list@);
    let mut i: usize = 0;
    while i < list.len()
        invariant
            lv == strings_view(list@),
            i <= lv.len(),
            forall|j: int| 0 <= j < i ==> !is_word(s@)(#[trigger] lv[j]),
        decreases lv.len() - i,
    {
        assert(lv[i as int] == list@[i as int]@);
        if list[i] == *s {
            proof {
                lemma_first_index(lv, is_word(s@), i as int);
            }
            return Some(i);
        }
        i = i + 1;
    }
    proof {
        lemma_first_index(lv, is_word(s@), i as int);
    }
    None
}

/// For each column of the table, whether the user asked for it.
pub fn output_mask(user_output_cols: &Vec<String>, orig_cols: &Vec<String>) -> (r: Vec<bool>)
    ensures
        r@ == spec_shown(strings_view(user_output_cols@), strings_view(orig_cols@)),
{
    // The values of a row follow the order of the columns in the create query, and the user
    // might not write the select output fields in the same order, or ask for fewer of them:
    // so each column of the table is marked shown or not.
    let mut shown: Vec<bool> = Vec::new();
    let mut i: usize = 0;
    while i < orig_cols.len()
        invariant
            i <= orig_cols@.len(),
            shown@ =~= spec_shown(strings_view(user_output_cols@), strings_view(orig_cols@)).take(i as int),
        decreases orig_cols@.len() - i,
    {
        assert(strings_view(orig_cols@)[i as int] == orig_cols@[i as int]@);
        shown.push(contains_string(user_output_cols, &orig_cols[i]));
        i = i + 1;
    }
    shown
}

impl QueryExecutor {
    /// The `CREATE` statement `sql` of a schema, parsed.
    fn get_orig_cols(&self, qparser: &ParsedQueryResult, sql: &String) -> (r: Result<CreateParsedQuery, QueryError>)
        ensures
            match spec_orig_cols(sql@) {
                Ok(c) => r matches Ok(x) && x@ == c,
                Err(e) => r matches Err(e2) && e2 == e,
            },
    {
        // The columns named in the create query; fields that the user asks for must be
        // among them.
        match qparser.get_parsed_query(sql.as_str())? {
            ParsedQueryResult::CREATE(create_parsed_query_res) => Ok(create_parsed_query_res),
            _ => Err(QueryError::NotCreateQuery),
        }
    }

    /// Every requested field is a column of the table.
    fn validate_output_fields(&self, fields: &Vec<String>, orig_cols: &Vec<String>) -> (r: Result<(), QueryError>)
        ensures
            r is Ok <==> forall|i: int| 0 <= i < fields@.len() ==> strings_view(orig_cols@).contains(#[trigger] strings_view(fields@)[i]),
            r is Err ==> r == Err::<(), QueryError>(QueryError::InvalidColumns),
    {
        let ghost fv = strings_view(fields@);
        let mut i: usize = 0;
        while i < fields.len()
            invariant
                fv == strings_view(fields@),
                i <= fv.len(),
                forall|j: int| 0 <= j < i ==> strings_view(orig_cols@).contains(#[trigger] fv[j]),
            decreases fv.len() - i,
        {
            assert(fv[i as int] == fields@[i as int]@);
            if !contains_string(orig_cols, &fields[i]) {
                return Err(QueryError::InvalidColumns);
            }
            i = i + 1;
        }
        Ok(())
    }

    // fss = full scan search
    fn get_idx_and_val_for_fss(
        &self,
        qparser: &ParsedQueryResult,
        tblschema: &SqlSchema,
        where_field: &String,
        where_value: &RecordDataType,
    ) -> (r: Result<(usize, RecordDataType), QueryError>)
        ensures
            match spec_orig_cols(tblschema.sql@) {
                Err(e) => r matches Err(e2) && e2 == e,
                Ok(c) => match first_index(c.cols, is_word(where_field@)) {
                    Some(pos) => r matches Ok((p, v)) && p as int == pos && v@ == where_value@,
                    None => r matches Err(e) && e == QueryError::InvalidField,
                },
            },
    {
        // This is the create table query.
        let orig_query = self.get_orig_cols(qparser, &tblschema.sql)?;
        match position_of(&orig_query.cols, where_field) {
            Some(pos) => Ok((pos, where_value.duplicate())),
            None => Err(QueryError::InvalidField),
        }
    }

    /// The rowids that the index `schema_list[create_idx_schema_pos]` gives
    /// for `where_value`, when `where_field` is one of its columns.
    fn get_indexed_rows(
        &self,
        create_idx_schema_pos: usize,
        childnode: &Child,
        schema_list: &Vec<SqlSchema>,
        db: &[u8],
        dbheader: &DBHeader,
        qparser: &ParsedQueryResult,
        where_field: &String,
        where_value: &RecordDataType,
    ) -> (r: Result<IndexRow, QueryError>)
        requires
            create_idx_schema_pos < schema_list@.len(),
            schema_list@[create_idx_schema_pos as int].schema_type == SchemaType::INDEX,
        ensures
            ({
                let idx = schema_list@[create_idx_schema_pos as int]@;
                match spec_orig_cols(idx.sql) {
                    Err(e) => r matches Err(e2) && e2 == e,
                    Ok(c) => if c.cols.contains(where_field@) {
                        match spec_index_walk(db@, *dbheader, idx.rootpg, QueryOpView::IdxSearchByVal(where_value@), db@.len()) {
                            Err(e) => r matches Err(e2) && e2 == QueryError::Read(e),
                            Ok(ids) => r matches Ok(x) && x.rows@ == ids && x.total_rows == ids.len(),
                        }
                    } else {
                        r matches Err(e) && e == QueryError::InvalidField
                    },
                }
            }),
    {
        let idx_schema = &schema_list[create_idx_schema_pos];
        let create_idx_query = self.get_orig_cols(qparser, &idx_schema.sql)?;
        // Check if the field, for which we are doing the scan is valid.
        if contains_string(&create_idx_query.cols, where_field) {
            match childnode.get_rows(db, dbheader, idx_schema, QueryOperations::IdxSearchByVal(where_value.duplicate())) {
                Ok(Row::INDEX(idx_row)) => Ok(idx_row),
                Ok(Row::TABLE(_)) => Ok(IndexRow::default()),
                Err(e) => Err(QueryError::Read(e)),
            }
        } else {
            Err(QueryError::InvalidField)
        }
    }

    /// Sets `queryop` to how the rows of `tbl_schema` are looked up for the
    /// `WHERE` equality of the query, with `where_value` as its value (see
    /// [`spec_query_op`]); leaves it when there is no `WHERE` equality.
    fn handle_where_clause(
        &self,
        childnode: &Child,
        tbl_schema: &SqlSchema,
        schema_list: &Vec<SqlSchema>,
        select_parsed_query: &SelectParsedQuery,
        db: &[u8],
        dbheader: &DBHeader,
        qparser: &ParsedQueryResult,
        where_value: &RecordDataType,
        queryop: &mut QueryOperations,
    ) -> (r: Result<(), QueryError>)
        ensures
            match select_parsed_query.where_clause {
                None => r is Ok && final(queryop)@ == old(queryop)@,
                Some((field, _)) => match spec_query_op(db@, *dbheader, schemas_view(schema_list@), tbl_schema@, field@, where_value@) {
                    Ok(op) => r is Ok && final(queryop)@ == op,
                    Err(e) => r == Err::<(), QueryError>(e),
                },
            },
    {
        if let Some((field, _text)) = &select_parsed_query.where_clause {
            let ghost lv = schemas_view(schema_list@);
            let create_index_schema_pos = find_schema(schema_list, SchemaType::INDEX);
            match create_index_schema_pos {
                Some(pos) => {
                    // This means the schema is indexed.
                    assert(lv[pos as int] == schema_list@[pos as int]@);
                    let idxrows = self.get_indexed_rows(pos, childnode, schema_list, db, dbheader, qparser, field, where_value)?;
                    if idxrows.total_rows > 0 {
                        assert(idxrows.rows@.len() > 0);
                        *queryop = QueryOperations::SearchByID(idxrows.rows[0]);
                    } else {
                        *queryop = QueryOperations::Empty;
                    }
                },
                None => {
                    // Incase the fields are not indexed
                    let (col_idx, seek) = self.get_idx_and_val_for_fss(qparser, tbl_schema, field, where_value)?;
                    *queryop = QueryOperations::FullTableScanSearch(col_idx, seek);
                },
            }
        }
        Ok(())
    }

    /// What the `SELECT` shows of the rows found in `tbl_schema`.
    fn select_output(
        &self,
        qparser: &ParsedQueryResult,
        tbl_schema: &SqlSchema,
        cols_to_print: Vec<String>,
        tablerow: TableRow,
    ) -> (r: Result<QueryOutput, QueryError>)
        requires
            tablerow.tblname@ == tbl_schema.tbl_name@,
        ensures
            match spec_select_output(tbl_schema@, strings_view(cols_to_print@), rows_view(tablerow.rows@), tablerow.total_rows as nat) {
                Ok(v) => r matches Ok(x) && x@ == v,
                Err(e) => r matches Err(e2) && e2 == e,
            },
    {
        let orig_cols = self.get_orig_cols(qparser, &tbl_schema.sql)?.cols;
        let star = "*".to_owned();
        if cols_to_print.len() == 1 && cols_to_print[0] == star {
            assert(strings_view(cols_to_print@)[0] == cols_to_print@[0]@);
            let shown = output_mask(&orig_cols, &orig_cols);
            Ok(QueryOutput { columns: orig_cols, shown, table: tablerow })
        } else {
            proof {
                if cols_to_print@.len() == 1 {
                    assert(strings_view(cols_to_print@)[0] == cols_to_print@[0]@);
                }
            }
            self.validate_output_fields(&cols_to_print, &orig_cols)?;
            let shown = output_mask(&cols_to_print, &orig_cols);
            Ok(QueryOutput { columns: cols_to_print, shown, table: tablerow })
        }
    }

    /// Runs the `SELECT` (see [`spec_run_select`]).
    fn run_select(
        &self,
        qparser: &ParsedQueryResult,
        root: &Root,
        db: &[u8],
        select_parsed_query: SelectParsedQuery,
        where_value: Option<RecordDataType>,
    ) -> (r: Result<QueryOutput, QueryError>)
        ensures
            match spec_run_select(select_parsed_query@, root.tables@, root.db_header, db@, opt_value_view(where_value)) {
                Ok(v) => r matches Ok(x) && x@ == v,
                Err(e) => r matches Err(e2) && e2 == e,
            },
    {
        let dbheader = &root.db_header;
        let schema_list = match root.tables.get(&select_parsed_query.tblname) {
            Some(l) => l,
            None => {
                return Err(QueryError::TableNotFound);
            },
        };
        let ghost lv = schemas_view(schema_list@);
        let tblpos = match find_schema(schema_list, SchemaType::TABLE) {
            Some(p) => p,
            None => {
                return Err(QueryError::TableNotFound);
            },
        };
        let tbl_schema = &schema_list[tblpos];
        assert(lv[tblpos as int] == tbl_schema@);
        let childnode = Child::default();
        let mut queryop = QueryOperations::GetAll;
        let value = match (&select_parsed_query.where_clause, where_value) {
            (Some(_), Some(v)) => v,
            (Some((_, text)), None) => RecordDataType::STR(text.clone()),
            (None, _) => RecordDataType::NULL,
        };
        // Set the query operation here for the table leaf to get the righ data.
        self.handle_where_clause(
            &childnode,
            tbl_schema,
            schema_list,
            &select_parsed_query,
            db,
            dbheader,
            qparser,
            &value,
            &mut queryop,
        )?;
        let tablerow = match childnode.get_rows(db, dbheader, tbl_schema, queryop) {
            Ok(Row::TABLE(t)) => t,
            Ok(Row::INDEX(_)) => {
                return Err(QueryError::TableNotFound);
            },
            Err(e) => {
                return Err(QueryError::Read(e));
            },
        };
        self.select_output(qparser, tbl_schema, select_parsed_query.output_fields, tablerow)
    }

    /// Runs the query on the database whose first page `root` describes and
    /// whose file holds `db` (see [`spec_execute`]). The value of a `WHERE`
    /// equality is `where_value` when given, else the equality's text.
    pub fn execute(&self, root: &Root, db: &[u8], where_value: Option<RecordDataType>) -> (r: Result<QueryOutput, QueryError>)
        ensures
            match spec_execute(self.query_text(), root.tables@, root.db_header, db@, opt_value_view(where_value)) {
                Ok(v) => r matches Ok(x) && x@ == v,
                Err(e) => r matches Err(e2) && e2 == e,
            },
    {
        let qparser = ParsedQueryResult::default();
        let parsed_query = qparser.get_parsed_query(self.query.as_str())?;
        match parsed_query {
            ParsedQueryResult::SELECT(select_parsed_query) => self.run_select(&qparser, root, db, select_parsed_query, where_value),
            _ => Err(QueryError::OnlySelect),
        }
    }
}

} // verus!
