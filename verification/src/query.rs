pub mod common;
pub mod executor;
pub mod parser;

pub use common::{
    ColType, CreateParsedQuery, ParsedQueryResult, QueryClause, QueryError, QueryType,
    SelectParsedQuery,
};
pub use executor::{QueryOpView, QueryOperations};
