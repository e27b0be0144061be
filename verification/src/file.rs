pub mod enums;

use vstd::prelude::*;

use crate::btree::{spec_db_header, spec_insert_all, spec_root_walk, Root};
use crate::custom_error::CustomError;
use crate::utils::spec_read_bytes;

verus! {

/// The database header read from the first 99 bytes of the file `db`.
pub open spec fn spec_file_header(db: Seq<u8>) -> crate::btree::DBHeader {
    spec_db_header(spec_read_bytes(db, 0, 99))
}

pub trait Initialize: Sized {
    /// Loads the database whose file, at `filepath`, holds the bytes `db`:
    /// its header, the pages of its schema tree and the schema of every
    /// table. `self` is left as it was when loading fails.
    fn init(&mut self, db: &[u8], filepath: String) -> (r: Result<(), CustomError>)
        ensures
            match spec_root_walk(db@, spec_file_header(db@), 100, 0, db@.len()) {
                Ok((pages, schemas)) => r is Ok && final(self).loaded_from(db@, filepath@, pages, spec_insert_all(Seq::empty(), schemas)),
                Err(e) => r == Err::<(), CustomError>(e) && *final(self) == *old(self),
            },
    ;

    /// Whether `self` holds what loading the file bytes `db` from
    /// `filepath` gives, with the schema pages `pages` and the schemas
    /// `tables`.
    spec fn loaded_from(&self, db: Seq<u8>, filepath: Seq<char>, pages: Seq<crate::btree::RootPage>, tables: crate::btree::root::SchemaMapView) -> bool;
}

/// Loading a database keeps each table name in one entry.
pub proof fn lemma_loaded_names_distinct(schemas: Seq<crate::btree::SchemaView>)
    ensures
        crate::btree::root::keys_distinct(spec_insert_all(Seq::empty(), schemas)),
{
    crate::btree::root::lemma_insert_all_keeps_keys_distinct(Seq::empty(), schemas);
}

} // verus!
