# toydb, verified

A small, read-only reader of SQLite database files, with its logic proved
by Verus: the database header, the `sqlite_schema` tree, table and index
B-tree pages and their cells, overflow chains, record serial types, a
small SQL parser (`SELECT`, `CREATE TABLE`, `CREATE INDEX`) and the
executor of `SELECT` queries with one `WHERE` equality, looked up through an
index when the table has one.

## Layout

```text
src/                    the verified library
├── utils.rs            big-endian integers, varints, UTF-16 units, file bytes
├── text.rs             character sequences: trim, split, compare
├── fileformat.rs       page kinds
├── cell.rs             cells of b-tree pages
├── page.rs             page headers, cells, overflow chains
├── record_type.rs      record values, IEEE 754 comparisons on double bits
├── schema.rs           records and `sqlite_schema` rows
├── recordformat.rs     a record read column by column
├── btree.rs            search keys and the binary searches over page entries
├── btree/root.rs       database header, schema tree, schemas by table name
├── btree/child.rs      walks of table and index trees
├── query/common.rs     parsed queries and query errors
├── query/parser.rs     the SQL parser
├── query/executor.rs   the `SELECT` executor
├── commands.rs         `.dbinfo` and `.tables`
├── cli.rs              command line and prompt decisions
└── file.rs             loading a database
tests/                  tests, among them a small database built byte by byte
app/main.rs             the program: reads the file, runs the prompt, prints
```

`Root.tables` holds the schemas by table name in a `SchemaMap`, a vector of
(name, schemas) pairs whose names are distinct, in the order the names are
first met in the schema tree. A `HashMap` keyed by `String` would leave its contents unproved
(vstd's specification of it gives nothing for such keys), and `.tables`
would list the names in the order the map is walked, which no contract can
state.

The library works on the bytes of the database file; the program reads
them from disk. The value of a `WHERE` equality is read from its text by the
program (a double, else an integer, else the text) and handed to the
executor.

Run the program on an existing SQLite file; the prompt is `$`:

```text
$ .dbinfo
$ .tables
$ select * from test;
$ select * from test where name='Ava Martinez';
$ .quit
```
