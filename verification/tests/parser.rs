use lib::btree::SchemaType;
use lib::query::parser::QueryParser;
use lib::query::{ParsedQueryResult, QueryClause, QueryError, QueryType};

fn parse(q: &str) -> Result<ParsedQueryResult, QueryError> {
    ParsedQueryResult::default().get_parsed_query(q)
}

#[test]
fn parses_create_table_columns() {
    match parse("CREATE TABLE test(name text, id integer, age integer)").unwrap() {
        ParsedQueryResult::CREATE(c) => {
            assert_eq!(c.schematype, SchemaType::TABLE);
            assert_eq!(c.tblname, "test(name");
            assert_eq!(c.cols, vec!["name", "id", "age"]);
        }
        _ => panic!("expected create"),
    }
    match parse("CREATE TABLE IF NOT EXISTS users (id integer, email text)").unwrap() {
        ParsedQueryResult::CREATE(c) => {
            assert_eq!(c.tblname, "users");
            assert_eq!(c.cols, vec!["id", "email"]);
        }
        _ => panic!("expected create"),
    }
    match parse("create table t(a)").unwrap() {
        ParsedQueryResult::CREATE(c) => assert_eq!(c.cols, vec!["a"]),
        _ => panic!("expected create"),
    }
}

#[test]
fn parses_create_index() {
    match parse("CREATE INDEX idx_name ON test(name)").unwrap() {
        ParsedQueryResult::CREATE(c) => {
            assert_eq!(c.schematype, SchemaType::INDEX);
            assert_eq!(c.tblname, "test");
            assert_eq!(c.cols, vec!["name"]);
        }
        _ => panic!("expected create"),
    }
    assert_eq!(parse("CREATE INDEX idx test(name)").err(), Some(QueryError::MissingOnClause));
}

#[test]
fn create_errors() {
    assert_eq!(parse("CREATE VIEW v AS select 1").err(), Some(QueryError::UnsupportedSchemaQuery));
    assert_eq!(parse("CREATE").err(), Some(QueryError::InvalidCreateQuery));
    assert_eq!(parse("CREATE TABLE t a").err(), Some(QueryError::InvalidCreateQuery));
    assert_eq!(parse("CREATE TABLE t(a, , b)").err(), Some(QueryError::MissingColumns));
    assert!(matches!(parse("CREATE THING t(a)"), Err(QueryError::Read(_))));
}

#[test]
fn parses_select() {
    match parse("SELECT name, age FROM t").err() {
        Some(e) => assert_eq!(e, QueryError::MissingFrom),
        None => panic!("`FROM` is not the clause word"),
    }
    match parse("Select name age from people;").unwrap() {
        ParsedQueryResult::SELECT(s) => {
            assert_eq!(s.tblname, "people");
            assert_eq!(s.output_fields, vec!["name", "age"]);
            assert!(s.where_clause.is_none());
        }
        _ => panic!("expected select"),
    }
}

#[test]
fn parses_where_equality() {
    match parse("select * from test where name='Ava Martinez';").unwrap() {
        ParsedQueryResult::SELECT(s) => {
            assert_eq!(s.tblname, "test");
            assert_eq!(s.where_clause, Some(("name".to_string(), "Ava Martinez".to_string())));
        }
        _ => panic!("expected select"),
    }
    match parse("select * from test WHERE id = 42").unwrap() {
        ParsedQueryResult::SELECT(s) => {
            assert_eq!(s.where_clause, Some(("id".to_string(), "42".to_string())));
        }
        _ => panic!("expected select"),
    }
    match parse("select * from test where id=5").unwrap() {
        ParsedQueryResult::SELECT(s) => {
            assert_eq!(s.where_clause, Some(("id".to_string(), "5".to_string())));
        }
        _ => panic!("expected select"),
    }
    match parse("select * from test where name='Bob';").unwrap() {
        ParsedQueryResult::SELECT(s) => {
            assert_eq!(s.where_clause, Some(("name".to_string(), "Bob".to_string())));
        }
        _ => panic!("expected select"),
    }
    // a lone `=` with nothing after it is no equality
    match parse("select * from test where id =").unwrap() {
        ParsedQueryResult::SELECT(s) => assert!(s.where_clause.is_none()),
        _ => panic!("expected select"),
    }
    assert_eq!(parse("select * from t where a='x \"y\"").err(), Some(QueryError::InvalidQuoting));
}

#[test]
fn refuses_other_query_types() {
    assert_eq!(parse("UPDATE t SET a = 1").err(), Some(QueryError::UnsupportedQueryType(QueryType::UPDATE)));
    assert_eq!(parse("delete from t").err(), Some(QueryError::UnsupportedQueryType(QueryType::DELETE)));
    assert_eq!(parse("explain select 1").err(), Some(QueryError::InvalidQueryType));
    assert_eq!(parse("").err(), Some(QueryError::InvalidQueryType));
}

#[test]
fn query_type_and_clause_names() {
    assert_eq!(QueryType::from_name("select"), Ok(QueryType::SELECT));
    assert_eq!(QueryType::from_name("insert"), Ok(QueryType::INSERT));
    assert_eq!(QueryType::from_name("SELECT"), Err(QueryError::InvalidQueryType));
    assert_eq!(QueryType::default(), QueryType::SELECT);
    for c in [
        QueryClause::From,
        QueryClause::Where,
        QueryClause::GroupBy,
        QueryClause::OrderBy,
        QueryClause::Limit,
        QueryClause::Offset,
    ] {
        assert_eq!(QueryClause::from_name(c.name().as_str()), Ok(c));
    }
    assert_eq!(QueryClause::OrderBy.name(), "order by");
    assert_eq!(QueryClause::from_name("having"), Err(QueryError::InvalidQueryClause));
}

#[test]
fn std_conversions() {
    assert_eq!("delete".parse::<QueryType>(), Ok(QueryType::DELETE));
    assert_eq!("Delete".parse::<QueryType>(), Err(QueryError::InvalidQueryType));
    assert_eq!(QueryClause::try_from("limit".to_string()), Ok(QueryClause::Limit));
    assert_eq!(QueryClause::try_from("LIMIT".to_string()), Err(QueryError::InvalidQueryClause));
    assert_eq!(".tables".parse::<lib::commands::Commands>(), Ok(lib::commands::Commands::Tables));
    assert_eq!(".help".parse::<lib::commands::Commands>(), Err("Unknown command!!!".to_string()));
    assert_eq!(SchemaType::try_from("Trigger".to_string()), Ok(SchemaType::TRIGGER));
}
