pub mod btree;
pub mod cell;
pub mod cli;
pub mod commands;
pub mod custom_error;
pub mod file;
pub mod fileformat;
pub mod page;
pub mod record_type;
pub mod recordformat;
pub mod text;
pub mod utils;
pub mod query;
pub mod schema;
