use lib::btree::{Child, Root, Row, SchemaType, SqlSchema};
use lib::cli::{Cli, CliAction, CliError};
use lib::commands::{CommandOutput, Commands};
use lib::custom_error::CustomError;
use lib::file::Initialize;
use lib::query::executor::{QueryExecutor, QueryOperations};
use lib::query::{QueryError, QueryType};
use lib::record_type::RecordDataType;

const PAGE_SIZE: usize = 512;

enum V<'a> {
    T(&'a str),
    I(i8),
}

fn varint(v: usize) -> Vec<u8> {
    assert!(v < 1 << 14);
    if v < 128 {
        vec![v as u8]
    } else {
        vec![0x80 | (v >> 7) as u8, (v & 0x7f) as u8]
    }
}

fn record(vals: &[V]) -> Vec<u8> {
    let mut types = vec![];
    let mut body = vec![];
    for v in vals {
        match v {
            V::T(s) => {
                types.extend(varint(2 * s.len() + 13));
                body.extend_from_slice(s.as_bytes());
            }
            V::I(i) => {
                types.push(1);
                body.push(*i as u8);
            }
        }
    }
    let mut hdr_len = types.len() + 1;
    if hdr_len >= 128 {
        hdr_len += 1;
    }
    let mut out = varint(hdr_len);
    out.extend(types);
    out.extend(body);
    out
}

fn table_cell(rowid: usize, rec: Vec<u8>) -> Vec<u8> {
    let mut c = varint(rec.len());
    c.extend(varint(rowid));
    c.extend(rec);
    c
}

fn index_cell(rec: Vec<u8>) -> Vec<u8> {
    let mut c = varint(rec.len());
    c.extend(rec);
    c
}

fn leaf_page(kind: u8, header_offset: usize, cells: &[Vec<u8>]) -> Vec<u8> {
    let mut page = vec![0u8; PAGE_SIZE];
    let mut content_start = PAGE_SIZE;
    let mut ptrs = vec![];
    for c in cells {
        content_start -= c.len();
        page[content_start..content_start + c.len()].copy_from_slice(c);
        ptrs.push(content_start as u16);
    }
    let h = header_offset;
    page[h] = kind;
    page[h + 3..h + 5].copy_from_slice(&(cells.len() as u16).to_be_bytes());
    page[h + 5..h + 7].copy_from_slice(&(content_start as u16).to_be_bytes());
    for (i, p) in ptrs.iter().enumerate() {
        page[h + 8 + 2 * i..h + 10 + 2 * i].copy_from_slice(&p.to_be_bytes());
    }
    page
}

const TABLE_SQL: &str = "CREATE TABLE test(name text, id integer, age integer)";
const INDEX_SQL: &str = "CREATE INDEX idx_name ON test(name)";

/// A database of three pages: the schema (a table `test` on page 2 and an
/// index on its `name` on page 3), the table's rows and the index.
fn sample_db() -> Vec<u8> {
    let schema_cells = vec![
        table_cell(1, record(&[V::T("table"), V::T("test"), V::T("test"), V::I(2), V::T(TABLE_SQL)])),
        table_cell(2, record(&[V::T("index"), V::T("idx_name"), V::T("test"), V::I(3), V::T(INDEX_SQL)])),
    ];
    let mut page1 = leaf_page(0x0d, 100, &schema_cells);
    page1[..16].copy_from_slice(b"SQLite format 3\0");
    page1[16..18].copy_from_slice(&(PAGE_SIZE as u16).to_be_bytes());
    page1[18] = 1;
    page1[19] = 1;
    page1[56..60].copy_from_slice(&1u32.to_be_bytes());

    let rows = vec![
        table_cell(1, record(&[V::T("Ava Martinez"), V::I(1), V::I(28)])),
        table_cell(2, record(&[V::T("Bob"), V::I(2), V::I(30)])),
        table_cell(3, record(&[V::T("Carl"), V::I(3), V::I(41)])),
    ];
    let page2 = leaf_page(0x0d, 0, &rows);

    let entries = vec![
        index_cell(record(&[V::T("Ava Martinez"), V::I(1)])),
        index_cell(record(&[V::T("Bob"), V::I(2)])),
        index_cell(record(&[V::T("Carl"), V::I(3)])),
    ];
    let page3 = leaf_page(0x0a, 0, &entries);

    let mut db = page1;
    db.extend(page2);
    db.extend(page3);
    db
}

fn loaded_root(db: &[u8]) -> Root {
    let mut root = Root::default();
    root.init(db, "sample.db".to_string()).unwrap();
    root
}

fn text_of(v: &RecordDataType) -> String {
    match v {
        RecordDataType::STR(s) => s.clone(),
        _ => panic!("not text"),
    }
}

fn int_of(v: &RecordDataType) -> i64 {
    match v {
        RecordDataType::INT8(i) => *i as i64,
        RecordDataType::INT16(i) => *i as i64,
        RecordDataType::INT32(i) => *i as i64,
        RecordDataType::INT64(i) => *i,
        _ => panic!("not an integer"),
    }
}

#[test]
fn init_reads_header_and_schema() {
    let db = sample_db();
    let root = loaded_root(&db);
    assert_eq!(root.db_header.page_size, 512);
    assert_eq!(root.db_header.enc_val, 1);
    assert_eq!(root.total_pages, 3);
    assert_eq!(root.metadata.total_dbsize, db.len());
    assert_eq!(root.metadata.filepath, "sample.db");
    assert_eq!(root.pages.len(), 1);
    assert_eq!(root.pages[0].pgno, 0);
    assert_eq!(root.tables.len(), 1);
    let schemas = root.tables.get(&"test".to_string()).unwrap();
    assert_eq!(schemas.len(), 2);
    assert_eq!(schemas[0].schema_type, SchemaType::TABLE);
    assert_eq!(schemas[0].name, "test");
    assert_eq!(schemas[0].rootpg, 2);
    assert_eq!(schemas[0].sql, TABLE_SQL);
    assert_eq!(schemas[1].schema_type, SchemaType::INDEX);
    assert_eq!(schemas[1].name, "idx_name");
    assert_eq!(schemas[1].rootpg, 3);
    assert!(root.tables.get(&"other".to_string()).is_none());
}

#[test]
fn init_of_truncated_file_fails_and_leaves_root() {
    let db = sample_db();
    let mut root = Root::default();
    let res = root.init(&db[..50], "x.db".to_string());
    assert!(res.is_err());
    assert_eq!(root.tables.len(), 0);
    assert_eq!(root.total_pages, 0);
}

#[test]
fn init_of_bad_page_type_fails() {
    let mut db = sample_db();
    db[100] = 0x07;
    let mut root = Root::default();
    assert_eq!(root.init(&db, "x.db".to_string()), Err(CustomError::InvalidOffsetValueError));
}

#[test]
fn get_rows_takes_every_row() {
    let db = sample_db();
    let root = loaded_root(&db);
    let schemas = root.tables.get(&"test".to_string()).unwrap();
    let child = Child::default();
    match child.get_rows(&db, &root.db_header, &schemas[0], QueryOperations::GetAll).unwrap() {
        Row::TABLE(t) => {
            assert_eq!(t.tblname, "test");
            assert_eq!(t.total_rows, 3);
            assert_eq!(t.rows.len(), 3);
            assert_eq!(t.rows[0].0, Some(1));
            assert_eq!(text_of(&t.rows[0].1[0]), "Ava Martinez");
            assert_eq!(int_of(&t.rows[0].1[2]), 28);
            assert_eq!(t.rows[2].0, Some(3));
            assert_eq!(text_of(&t.rows[2].1[0]), "Carl");
        }
        Row::INDEX(_) => panic!("expected table rows"),
    }
}

#[test]
fn get_rows_search_by_id_finds_one_row_and_counts_it() {
    let db = sample_db();
    let root = loaded_root(&db);
    let schemas = root.tables.get(&"test".to_string()).unwrap();
    let child = Child::default();
    match child.get_rows(&db, &root.db_header, &schemas[0], QueryOperations::SearchByID(2)).unwrap() {
        Row::TABLE(t) => {
            assert_eq!(t.total_rows, 1);
            assert_eq!(t.rows.len(), 1);
            assert_eq!(t.rows[0].0, Some(2));
            assert_eq!(text_of(&t.rows[0].1[0]), "Bob");
        }
        Row::INDEX(_) => panic!("expected table rows"),
    }
    match child.get_rows(&db, &root.db_header, &schemas[0], QueryOperations::SearchByID(9)).unwrap() {
        Row::TABLE(t) => {
            assert_eq!(t.rows.len(), 0);
            assert_eq!(t.total_rows, 0);
        }
        Row::INDEX(_) => panic!("expected table rows"),
    }
}

#[test]
fn get_rows_index_lookup() {
    let db = sample_db();
    let root = loaded_root(&db);
    let schemas = root.tables.get(&"test".to_string()).unwrap();
    let child = Child::default();
    let op = QueryOperations::IdxSearchByVal(RecordDataType::STR("Carl".to_string()));
    match child.get_rows(&db, &root.db_header, &schemas[1], op).unwrap() {
        Row::INDEX(ix) => {
            assert_eq!(ix.rows, vec![3]);
            assert_eq!(ix.total_rows, 1);
        }
        Row::TABLE(_) => panic!("expected index rows"),
    }
    let op = QueryOperations::IdxSearchByVal(RecordDataType::STR("Nobody".to_string()));
    match child.get_rows(&db, &root.db_header, &schemas[1], op).unwrap() {
        Row::INDEX(ix) => {
            assert!(ix.rows.is_empty());
            assert_eq!(ix.total_rows, 0);
        }
        Row::TABLE(_) => panic!("expected index rows"),
    }
}

#[test]
fn get_rows_errors() {
    let db = sample_db();
    let root = loaded_root(&db);
    let schemas = root.tables.get(&"test".to_string()).unwrap();
    let child = Child::default();
    // A table leaf does not answer a full scan search or an empty lookup.
    let op = QueryOperations::FullTableScanSearch(0, RecordDataType::STR("Bob".to_string()));
    assert_eq!(child.get_rows(&db, &root.db_header, &schemas[0], op).err(), Some(CustomError::InvalidQueryOperation));
    assert_eq!(
        child.get_rows(&db, &root.db_header, &schemas[0], QueryOperations::Empty).err(),
        Some(CustomError::InvalidQueryOperation)
    );
    // An index tree is not searched by rowid.
    assert_eq!(
        child.get_rows(&db, &root.db_header, &schemas[1], QueryOperations::GetAll).err(),
        Some(CustomError::InvalidQueryOperation)
    );
    // A view holds no rows.
    let view = SqlSchema {
        schema_type: SchemaType::VIEW,
        name: "v".to_string(),
        tbl_name: "test".to_string(),
        rootpg: 2,
        sql: String::new(),
    };
    assert_eq!(
        child.get_rows(&db, &root.db_header, &view, QueryOperations::GetAll).err(),
        Some(CustomError::UnsupportedSchema)
    );
    // Page 0 does not exist.
    let bad = SqlSchema {
        schema_type: SchemaType::TABLE,
        name: "test".to_string(),
        tbl_name: "test".to_string(),
        rootpg: 0,
        sql: TABLE_SQL.to_string(),
    };
    assert_eq!(
        child.get_rows(&db, &root.db_header, &bad, QueryOperations::GetAll).err(),
        Some(CustomError::InvalidPageNumber)
    );
}

#[test]
fn select_star() {
    let db = sample_db();
    let root = loaded_root(&db);
    let q = QueryExecutor::new("select * from test;".to_string(), "sample.db".to_string());
    let out = q.execute(&root, &db, None).unwrap();
    assert_eq!(out.columns, vec!["name", "id", "age"]);
    assert_eq!(out.shown, vec![true, true, true]);
    assert_eq!(out.table.total_rows, 3);
    assert_eq!(out.table.rows.len(), 3);
    assert_eq!(text_of(&out.table.rows[1].1[0]), "Bob");
}

#[test]
fn select_some_columns() {
    let db = sample_db();
    let root = loaded_root(&db);
    let q = QueryExecutor::new("select age name from test".to_string(), "sample.db".to_string());
    let out = q.execute(&root, &db, None).unwrap();
    assert_eq!(out.columns, vec!["age", "name"]);
    assert_eq!(out.shown, vec![true, false, true]);
    assert_eq!(out.table.total_rows, 3);
}

#[test]
fn select_with_indexed_where() {
    let db = sample_db();
    let root = loaded_root(&db);
    let q = QueryExecutor::new(
        "select * from test where name='Ava Martinez';".to_string(),
        "sample.db".to_string(),
    );
    let out = q.execute(&root, &db, Some(RecordDataType::STR("Ava Martinez".to_string()))).unwrap();
    assert_eq!(out.table.rows.len(), 1);
    assert_eq!(out.table.rows[0].0, Some(1));
    assert_eq!(text_of(&out.table.rows[0].1[0]), "Ava Martinez");
    assert_eq!(int_of(&out.table.rows[0].1[1]), 1);
    // The indexed path counts the row it shows.
    assert_eq!(out.table.total_rows, 1);
    // Without a converted value the where text itself is looked up.
    let out = q.execute(&root, &db, None).unwrap();
    assert_eq!(out.table.rows.len(), 1);
}

#[test]
fn select_with_indexed_where_no_match() {
    let db = sample_db();
    let root = loaded_root(&db);
    let q = QueryExecutor::new("select * from test where name = 'Zed'".to_string(), "sample.db".to_string());
    assert_eq!(q.execute(&root, &db, None).err(), Some(QueryError::Read(CustomError::InvalidQueryOperation)));
}

#[test]
fn select_errors() {
    let db = sample_db();
    let root = loaded_root(&db);
    let run = |text: &str| QueryExecutor::new(text.to_string(), "sample.db".to_string()).execute(&root, &db, None);
    assert_eq!(run("select * from nope;").err(), Some(QueryError::TableNotFound));
    assert_eq!(run("select foo from test;").err(), Some(QueryError::InvalidColumns));
    assert_eq!(run("select * test;").err(), Some(QueryError::MissingFrom));
    assert_eq!(run("select * from").err(), Some(QueryError::MissingTableName));
    assert_eq!(run("insert into test values (1)").err(), Some(QueryError::UnsupportedQueryType(QueryType::INSERT)));
    assert_eq!(run("drop table test").err(), Some(QueryError::InvalidQueryType));
    assert_eq!(run("   ").err(), Some(QueryError::InvalidQueryType));
    assert_eq!(run("CREATE TABLE t(a)").err(), Some(QueryError::OnlySelect));
    assert_eq!(run("select * from test where age='1 \"x\"").err(), Some(QueryError::InvalidQuoting));
    assert_eq!(run("select * from test where nope='x' ;").err(), Some(QueryError::InvalidField));
    // An equality written as one word is looked up like the others.
    let bob = run("select * from test where name='Bob';").unwrap();
    assert_eq!(bob.table.total_rows, 1);
    assert_eq!(bob.table.rows.len(), 1);
    assert_eq!(bob.table.rows[0].0, Some(2));
    assert_eq!(text_of(&bob.table.rows[0].1[0]), "Bob");
}

#[test]
fn commands_show_dbinfo_and_tables() {
    let db = sample_db();
    let root = loaded_root(&db);
    assert!(Commands::is_valid(".dbinfo"));
    assert!(Commands::is_valid(".tables"));
    assert!(!Commands::is_valid(".schema"));
    match Commands::process_cmd(".dbinfo", &root) {
        CommandOutput::DbInfo { page_size, num_of_tables } => {
            assert_eq!(page_size, 512);
            assert_eq!(num_of_tables, 1);
        }
        _ => panic!("expected dbinfo"),
    }
    match Commands::process_cmd(".tables", &root) {
        CommandOutput::Tables(names) => assert_eq!(names, vec!["test"]),
        _ => panic!("expected tables"),
    }
    assert_eq!(Commands::DbInfo.name(), ".dbinfo");
    assert_eq!(Commands::from_name(".tables"), Some(Commands::Tables));
}

#[test]
fn cli_init_and_actions() {
    let db = sample_db();
    let cli = Cli { filename: Some("sample.db".to_string()), cmd: Some(".tables".to_string()) };
    let (root, out) = cli.init(&db).unwrap();
    assert_eq!(root.total_pages, 3);
    match out {
        Some(CommandOutput::Tables(names)) => assert_eq!(names, vec!["test"]),
        _ => panic!("expected tables"),
    }
    let cli = Cli { filename: Some("sample.db".to_string()), cmd: Some(".nope".to_string()) };
    assert_eq!(cli.init(&db).err(), Some(CliError::InvalidCommand));
    let cli = Cli { filename: None, cmd: Some(".tables".to_string()) };
    assert_eq!(cli.init(&db).err(), Some(CliError::MissingFilePath));
    let cli = Cli { filename: Some("bad.db".to_string()), cmd: None };
    assert_eq!(cli.init(&db[..10]).err(), Some(CliError::Load(CustomError::MalformedPage)));

    let cli = Cli { filename: Some("sample.db".to_string()), cmd: None };
    assert!(matches!(cli.start("  .quit "), CliAction::Quit));
    assert!(matches!(cli.start(".exit"), CliAction::Quit));
    assert!(matches!(cli.start(" .dbinfo"), CliAction::Command(Commands::DbInfo)));
    match cli.start("  select * from test;  ") {
        CliAction::Query(q) => assert_eq!(q, "select * from test;"),
        _ => panic!("expected a query"),
    }
}

#[test]
fn defaults() {
    let t = lib::btree::TableRow::default();
    assert!(t.tblname.is_empty() && t.rows.is_empty() && t.total_rows == 0);
    let c = lib::query::CreateParsedQuery::default();
    assert_eq!(c.schematype, SchemaType::TABLE);
    assert!(c.cols.is_empty());
    let r = Root::default();
    assert_eq!(r.db_header.page_size, 0);
    assert_eq!(r.tables.len(), 0);
    let ix = lib::btree::IndexRow::default();
    assert_eq!(ix.total_rows, 0);
}

/// An interior table page whose one cell points at page `left` for rowids up
/// to `key`, and whose right-most pointer is `right`.
fn interior_table_page(left: u32, key: usize, right: u32) -> Vec<u8> {
    let mut cell = left.to_be_bytes().to_vec();
    cell.extend(varint(key));
    let mut page = vec![0u8; PAGE_SIZE];
    let start = PAGE_SIZE - cell.len();
    page[start..].copy_from_slice(&cell);
    page[0] = 0x05;
    page[3..5].copy_from_slice(&1u16.to_be_bytes());
    page[5..7].copy_from_slice(&(start as u16).to_be_bytes());
    page[8..12].copy_from_slice(&right.to_be_bytes());
    page[12..14].copy_from_slice(&(start as u16).to_be_bytes());
    page
}

/// The sample database with a fourth page, an interior table page, and a
/// fifth page whose page-type byte names no page type.
fn db_with_interior(left: u32, right: u32) -> Vec<u8> {
    let mut db = sample_db();
    db.extend(interior_table_page(left, 3, right));
    let mut bad = vec![0u8; PAGE_SIZE];
    bad[0] = 0x07;
    db.extend(bad);
    db
}

fn table_at(rootpg: u32) -> SqlSchema {
    SqlSchema {
        schema_type: SchemaType::TABLE,
        name: "test".to_string(),
        tbl_name: "test".to_string(),
        rootpg,
        sql: TABLE_SQL.to_string(),
    }
}

#[test]
fn get_rows_walks_interior_table_page() {
    let db = db_with_interior(2, 2);
    let root = loaded_root(&db);
    let child = Child::default();
    match child.get_rows(&db, &root.db_header, &table_at(4), QueryOperations::GetAll).unwrap() {
        Row::TABLE(t) => {
            assert_eq!(t.total_rows, 6);
            assert_eq!(t.rows.len(), 6);
            assert_eq!(t.rows[3].0, Some(1));
            assert_eq!(text_of(&t.rows[5].1[0]), "Carl");
        }
        Row::INDEX(_) => panic!("expected table rows"),
    }
    match child.get_rows(&db, &root.db_header, &table_at(4), QueryOperations::SearchByID(3)).unwrap() {
        Row::TABLE(t) => {
            assert_eq!(t.total_rows, 1);
            assert_eq!(t.rows[0].0, Some(3));
        }
        Row::INDEX(_) => panic!("expected table rows"),
    }
}

#[test]
fn get_rows_fails_when_a_child_page_fails() {
    let child = Child::default();
    // The right-most child has a bad page-type byte.
    let db = db_with_interior(2, 5);
    let root = loaded_root(&db);
    assert_eq!(
        child.get_rows(&db, &root.db_header, &table_at(4), QueryOperations::GetAll).err(),
        Some(CustomError::InvalidOffsetValueError)
    );
    // The left child lies past the end of the file.
    let db = db_with_interior(9, 2);
    let root = loaded_root(&db);
    assert!(child.get_rows(&db, &root.db_header, &table_at(4), QueryOperations::GetAll).is_err());
    // A search for a rowid beyond the last key goes to the bad right-most child.
    let db = db_with_interior(2, 5);
    let root = loaded_root(&db);
    assert_eq!(
        child.get_rows(&db, &root.db_header, &table_at(4), QueryOperations::SearchByID(7)).err(),
        Some(CustomError::InvalidOffsetValueError)
    );
}
