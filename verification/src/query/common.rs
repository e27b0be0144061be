use vstd::prelude::*;

use crate::btree::SchemaType;
use crate::custom_error::CustomError;
use crate::text::{chars_equal, str_to_chars};

verus! {

/**
* NOTE: [About type affinity]:
* one interesting thing about sqlite is that it supports - type affinity by default.
* Meaning any of the fields can be of a storage class (i.e, affinity), but it's only
* a recommended type and not required (i.e, not enforced).
* If you want strict types then you have to create table with the strict table option.
*/
#[derive(Debug, Clone, Copy, PartialEq, Eq, Structural)]
pub enum ColType {
    TEXT,
    INTEGER,
    NUMERIC,
    REAL,
    BLOB,
}

#[derive(Debug, Clone, Copy, PartialEq, Eq, Structural)]
pub enum QueryType {
    SELECT,
    CREATE,
    INSERT,
    UPDATE,
    DELETE,
}

impl Default for QueryType {
    fn default() -> (r: Self)
        ensures
            r == QueryType::SELECT,
    {
        QueryType::SELECT
    }
}

/// Why a query could not be parsed or run.
#[derive(Debug, Clone, Copy, PartialEq, Eq, Structural)]
pub enum QueryError {
    /// The first word names no query type.
    InvalidQueryType,
    /// A word that names no clause.
    InvalidQueryClause,
    /// A query type that is recognised but not run.
    UnsupportedQueryType(QueryType),
    /// Only `SELECT` queries are run.
    OnlySelect,
    /// A `SELECT` without `from`.
    MissingFrom,
    /// Nothing after `from`.
    MissingTableName,
    /// Single and double quotes mixed in a `WHERE` clause.
    InvalidQuoting,
    /// A column list with an empty entry.
    MissingColumns,
    /// A `CREATE` statement whose words are not where they should be.
    InvalidCreateQuery,
    /// A `CREATE INDEX` without `ON`.
    MissingOnClause,
    /// Views and triggers are not parsed.
    UnsupportedSchemaQuery,
    /// No table of that name.
    TableNotFound,
    /// A `WHERE` field that the table (or its index) does not have.
    InvalidField,
    /// Requested columns that the table does not have.
    InvalidColumns,
    /// A schema whose SQL is not a `CREATE` statement.
    NotCreateQuery,
    /// Reading the database failed.
    Read(CustomError),
}

/// The query type that the lower-case word `l` names.
pub open spec fn spec_query_type(l: Seq<char>) -> Result<QueryType, QueryError> {
    if l == "create"@ {
        Ok(QueryType::CREATE)
    } else if l == "update"@ {
        Ok(QueryType::UPDATE)
    } else if l == "delete"@ {
        Ok(QueryType::DELETE)
    } else if l == "select"@ {
        Ok(QueryType::SELECT)
    } else if l == "insert"@ {
        Ok(QueryType::INSERT)
    } else {
        Err(QueryError::InvalidQueryType)
    }
}

impl QueryType {
    /// The query type that `value` names (lower case only, as `FromStr`
    /// reads it).
    pub fn from_name(value: &str) -> (r: Result<QueryType, QueryError>)
        ensures
            r == spec_query_type(value@),
    {
        let v = str_to_chars(value);
        if chars_equal(v.as_slice(), str_to_chars("create").as_slice()) {
            Ok(QueryType::CREATE)
        } else if chars_equal(v.as_slice(), str_to_chars("update").as_slice()) {
            Ok(QueryType::UPDATE)
        } else if chars_equal(v.as_slice(), str_to_chars("delete").as_slice()) {
            Ok(QueryType::DELETE)
        } else if chars_equal(v.as_slice(), str_to_chars("select").as_slice()) {
            Ok(QueryType::SELECT)
        } else if chars_equal(v.as_slice(), str_to_chars("insert").as_slice()) {
            Ok(QueryType::INSERT)
        } else {
            Err(QueryError::InvalidQueryType)
        }
    }
}

/// A `SELECT` query: the table, the requested columns and the `WHERE`
/// equality (field and value text), if any.
#[derive(Debug)]
pub struct SelectParsedQuery {
    pub tblname: String,
    pub output_fields: Vec<String>,
    pub where_clause: Option<(String, String)>,
}

pub struct SelectView {
    pub tblname: Seq<char>,
    pub output_fields: Seq<Seq<char>>,
    pub where_clause: Option<(Seq<char>, Seq<char>)>,
}

pub open spec fn strings_view(v: Seq<String>) -> Seq<Seq<char>> {
    v.map_values(|s: String| s@)
}

impl View for SelectParsedQuery {
    type V = SelectView;

    open spec fn view(&self) -> SelectView {
        SelectView {
            tblname: self.tblname@,
            output_fields: strings_view(self.output_fields@),
            where_clause: match self.where_clause {
                Some((f, v)) => Some((f@, v@)),
                None => None,
            },
        }
    }
}

impl Default for SelectParsedQuery {
    fn default() -> (r: Self)
        ensures
            r@ == (SelectView { tblname: Seq::empty(), output_fields: Seq::empty(), where_clause: None }),
    {
        let r = SelectParsedQuery { tblname: String::new(), output_fields: Vec::new(), where_clause: None };
        assert(strings_view(r.output_fields@) =~= Seq::<Seq<char>>::empty());
        r
    }
}

/// A `CREATE TABLE` or `CREATE INDEX` statement: the table and the names of
/// its columns (of the indexed columns for an index).
#[derive(Debug)]
pub struct CreateParsedQuery {
    pub tblname: String,
    pub schematype: SchemaType,
    // NOTE:
    // Currently we'll only have support for name.
    // I did try to add checks for constraint and types and whatnot
    // but the grammer is too big to handle (too many cases) for my
    // super-dumb parser to handle. Maybe once I learn more about AST's
    // parser generator (how lemon parser generator works) since that's what
    // sqlite does. Then maybe we'll give it a real shot on handling all
    // that neat stuff. For now we will only extract col names that's it.
    pub cols: Vec<String>,
}

pub struct CreateView {
    pub tblname: Seq<char>,
    pub schematype: SchemaType,
    pub cols: Seq<Seq<char>>,
}

impl Default for CreateParsedQuery {
    fn default() -> (r: Self)
        ensures
            r@ == (CreateView { tblname: Seq::empty(), schematype: SchemaType::TABLE, cols: Seq::empty() }),
    {
        let r = CreateParsedQuery { tblname: String::new(), schematype: SchemaType::TABLE, cols: Vec::new() };
        assert(strings_view(r.cols@) =~= Seq::<Seq<char>>::empty());
        r
    }
}

impl View for CreateParsedQuery {
    type V = CreateView;

    open spec fn view(&self) -> CreateView {
        CreateView { tblname: self.tblname@, schematype: self.schematype, cols: strings_view(self.cols@) }
    }
}

#[derive(Debug)]
pub enum ParsedQueryResult {
    CREATE(CreateParsedQuery),
    SELECT(SelectParsedQuery),
}

pub enum ParsedView {
    Create(CreateView),
    Select(SelectView),
}

impl View for ParsedQueryResult {
    type V = ParsedView;

    open spec fn view(&self) -> ParsedView {
        match self {
            ParsedQueryResult::CREATE(c) => ParsedView::Create(c@),
            ParsedQueryResult::SELECT(s) => ParsedView::Select(s@),
        }
    }
}

impl Default for ParsedQueryResult {
    fn default() -> (r: Self)
        ensures
            r@ == ParsedView::Select(SelectView { tblname: Seq::empty(), output_fields: Seq::empty(), where_clause: None }),
    {
        ParsedQueryResult::SELECT(SelectParsedQuery::default())
    }
}

#[derive(Debug, Clone, Copy, PartialEq, Eq, Structural)]
pub enum QueryClause {
    From,
    Where,
    // NOTE: Order and By (similarly Group and By) are two different
    // clause but I am writing it as one for now. Since we are making
    // a super simple (dumb) parser.
    GroupBy,
    OrderBy,
    Limit,
    Offset,
}

/// The clause that `value` names.
pub open spec fn spec_query_clause(value: Seq<char>) -> Result<QueryClause, QueryError> {
    if value == "from"@ {
        Ok(QueryClause::From)
    } else if value == "where"@ {
        Ok(QueryClause::Where)
    } else if value == "group by"@ {
        Ok(QueryClause::GroupBy)
    } else if value == "order by"@ {
        Ok(QueryClause::OrderBy)
    } else if value == "limit"@ {
        Ok(QueryClause::Limit)
    } else if value == "offset"@ {
        Ok(QueryClause::Offset)
    } else {
        Err(QueryError::InvalidQueryClause)
    }
}

/// The words of a clause.
pub open spec fn spec_clause_name(c: QueryClause) -> Seq<char> {
    match c {
        QueryClause::From => "from"@,
        QueryClause::Where => "where"@,
        QueryClause::OrderBy => "order by"@,
        QueryClause::GroupBy => "group by"@,
        QueryClause::Limit => "limit"@,
        QueryClause::Offset => "offset"@,
    }
}

impl QueryClause {
    /// The clause that `value` names (`TryFrom<String>`).
    pub fn from_name(value: &str) -> (r: Result<QueryClause, QueryError>)
        ensures
            r == spec_query_clause(value@),
    {
        let v = str_to_chars(value);
        if chars_equal(v.as_slice(), str_to_chars("from").as_slice()) {
            Ok(QueryClause::From)
        } else if chars_equal(v.as_slice(), str_to_chars("where").as_slice()) {
            Ok(QueryClause::Where)
        } else if chars_equal(v.as_slice(), str_to_chars("group by").as_slice()) {
            Ok(QueryClause::GroupBy)
        } else if chars_equal(v.as_slice(), str_to_chars("order by").as_slice()) {
            Ok(QueryClause::OrderBy)
        } else if chars_equal(v.as_slice(), str_to_chars("limit").as_slice()) {
            Ok(QueryClause::Limit)
        } else if chars_equal(v.as_slice(), str_to_chars("offset").as_slice()) {
            Ok(QueryClause::Offset)
        } else {
            Err(QueryError::InvalidQueryClause)
        }
    }

    /// The words of the clause (`From<QueryClause> for String`).
    pub fn name(&self) -> (r: String)
        ensures
            r@ == spec_clause_name(*self),
    {
        match self {
            QueryClause::From => "from".to_owned(),
            QueryClause::Where => "where".to_owned(),
            QueryClause::OrderBy => "order by".to_owned(),
            QueryClause::GroupBy => "group by".to_owned(),
            QueryClause::Limit => "limit".to_owned(),
            QueryClause::Offset => "offset".to_owned(),
        }
    }
}

impl TryFrom<String> for QueryClause {
    type Error = QueryError;

    fn try_from(value: String) -> (r: Result<Self, Self::Error>) {
        QueryClause::from_name(value.as_str())
    }
}

impl vstd::std_specs::convert::TryFromSpecImpl<String> for QueryClause {
    open spec fn obeys_try_from_spec() -> bool {
        true
    }

    open spec fn try_from_spec(value: String) -> Result<QueryClause, QueryError> {
        spec_query_clause(value@)
    }
}

impl std::str::FromStr for QueryType {
    type Err = QueryError;

    fn from_str(value: &str) -> (r: Result<Self, Self::Err>)
        ensures
            r == spec_query_type(value@),
    {
        QueryType::from_name(value)
    }
}

/// The words of a clause name that clause.
pub proof fn lemma_clause_name_roundtrip(c: QueryClause)
    ensures
        spec_query_clause(spec_clause_name(c)) == Ok::<QueryClause, QueryError>(c),
{
    reveal_strlit("from");
    reveal_strlit("where");
    reveal_strlit("group by");
    reveal_strlit("order by");
    reveal_strlit("limit");
    reveal_strlit("offset");
    assert("from"@.len() == 4 && "where"@.len() == 5 && "group by"@.len() == 8);
    assert("order by"@.len() == 8 && "limit"@.len() == 5 && "offset"@.len() == 6);
    assert("where"@[0] != "limit"@[0]);
    assert("group by"@[0] != "order by"@[0]);
}

} // verus!
