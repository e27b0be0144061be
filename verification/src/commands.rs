use vstd::prelude::*;

use crate::btree::root::{SchemaMapView, SchemaView};
use crate::btree::{Root, SchemaType};
use crate::text::{chars_equal, str_to_chars};

verus! {

/// The commands of the prompt.
#[derive(Debug, Clone, Copy, PartialEq, Eq, Structural)]
pub enum Commands {
    DbInfo,
    Tables,
}

/// The command that `s` names.
pub open spec fn spec_command(s: Seq<char>) -> Option<Commands> {
    if s == ".dbinfo"@ {
        Some(Commands::DbInfo)
    } else if s == ".tables"@ {
        Some(Commands::Tables)
    } else {
        None
    }
}

impl std::str::FromStr for Commands {
    type Err = String;

    fn from_str(s: &str) -> (r: Result<Self, Self::Err>)
        ensures
            match spec_command(s@) {
                Some(c) => r == Ok::<Commands, String>(c),
                None => r matches Err(m) && m@ == "Unknown command!!!"@,
            },
    {
        match Commands::from_name(s) {
            Some(c) => Ok(c),
            None => Err("Unknown command!!!".to_owned()),
        }
    }
}

/// The names of the tables among the schemas of `m`, entry by entry, each
/// entry's schemas in order.
pub open spec fn spec_table_names(m: SchemaMapView) -> Seq<Seq<char>>
    decreases m.len(),
{
    if m.len() == 0 {
        Seq::empty()
    } else {
        spec_table_names(m.drop_last()) + spec_tables_of(m.last().1)
    }
}

/// The names of the tables among `ss`, in order.
pub open spec fn spec_tables_of(ss: Seq<SchemaView>) -> Seq<Seq<char>>
    decreases ss.len(),
{
    if ss.len() == 0 {
        Seq::empty()
    } else if ss.last().schema_type == SchemaType::TABLE {
        spec_tables_of(ss.drop_last()).push(ss.last().tbl_name)
    } else {
        spec_tables_of(ss.drop_last())
    }
}

/// Whether `out` is what the command `c` shows of a database with pages of
/// `page_size` bytes and the schemas `tables`.
pub open spec fn command_shows(c: Commands, page_size: u16, tables: SchemaMapView, out: CommandOutput) -> bool {
    match c {
        Commands::DbInfo => out matches CommandOutput::DbInfo { page_size: p, num_of_tables: n } && p == page_size && n
            == tables.len(),
        Commands::Tables => out matches CommandOutput::Tables(names) && crate::query::common::strings_view(names@)
            == spec_table_names(tables),
    }
}

/// What a command shows.
#[derive(Debug)]
pub enum CommandOutput {
    /// The page size and the number of table names.
    DbInfo { page_size: u16, num_of_tables: usize },
    /// The names of the tables.
    Tables(Vec<String>),
}

impl Commands {
    /// The command that `s` names (`FromStr`).
    pub fn from_name(s: &str) -> (r: Option<Commands>)
        ensures
            r == spec_command(s@),
    {
        let v = str_to_chars(s);
        if chars_equal(v.as_slice(), str_to_chars(".dbinfo").as_slice()) {
            Some(Commands::DbInfo)
        } else if chars_equal(v.as_slice(), str_to_chars(".tables").as_slice()) {
            Some(Commands::Tables)
        } else {
            None
        }
    }

    /// The name of the command.
    pub fn name(&self) -> (r: String)
        ensures
            r@ == (match self {
                Commands::DbInfo => ".dbinfo"@,
                Commands::Tables => ".tables"@,
            }),
    {
        match self {
            Commands::DbInfo => ".dbinfo".to_owned(),
            Commands::Tables => ".tables".to_owned(),
        }
    }

    pub fn is_valid(cmd: &str) -> (r: bool)
        ensures
            r == spec_command(cmd@) is Some,
    {
        Commands::from_name(cmd).is_some()
    }

    /// What the command `cmd` shows of the database: `.dbinfo` its page
    /// size and number of table names, `.tables` the names of its tables.
    pub fn process_cmd(cmd: &str, root: &Root) -> (r: CommandOutput)
        requires
            spec_command(cmd@) is Some,
        ensures
            command_shows(spec_command(cmd@).unwrap(), root.db_header.page_size, root.tables@, r),
    {
        let command = Commands::from_name(cmd).unwrap();
        let db_header = &root.db_header;
        let tables = &root.tables;
        let pg_size = db_header.page_size;
        let num_of_tables = tables.len();
        match command {
            Commands::DbInfo => CommandOutput::DbInfo { page_size: pg_size, num_of_tables },
            Commands::Tables => CommandOutput::Tables(table_names(root)),
        }
    }
}

/// The names of the tables of the database (see [`spec_table_names`]).
fn table_names(root: &Root) -> (r: Vec<String>)
    ensures
        crate::query::common::strings_view(r@) == spec_table_names(root.tables@),
{
    let ghost m = root.tables@;
    let mut names: Vec<String> = Vec::new();
    let mut i: usize = 0;
    assert(m.take(0) =~= Seq::<(Seq<char>, Seq<SchemaView>)>::empty());
    assert(crate::query::common::strings_view(names@) =~= Seq::<Seq<char>>::empty());
    while i < root.tables.len()
        invariant
            m == root.tables@,
            i <= m.len(),
            crate::query::common::strings_view(names@) == spec_table_names(m.take(i as int)),
        decreases m.len() - i,
    {
        let entry = root.tables.entry(i);
        let ghost ss = crate::btree::root::schemas_view(entry.schemas@);
        assert(m.take(i + 1).drop_last() =~= m.take(i as int));
        assert(m.take(i + 1).last() == m[i as int]);
        let ghost base = crate::query::common::strings_view(names@);
        let mut k: usize = 0;
        assert(ss.take(0) =~= Seq::<SchemaView>::empty());
        assert(base + spec_tables_of(ss.take(0)) =~= base);
        while k < entry.schemas.len()
            invariant
                ss == crate::btree::root::schemas_view(entry.schemas@),
                k <= ss.len(),
                crate::query::common::strings_view(names@) == base + spec_tables_of(ss.take(k as int)),
            decreases ss.len() - k,
        {
            assert(ss.take(k + 1).drop_last() =~= ss.take(k as int));
            assert(ss.take(k + 1).last() == entry.schemas@[k as int]@);
            if entry.schemas[k].schema_type == SchemaType::TABLE {
                let ghost before = crate::query::common::strings_view(names@);
                names.push(entry.schemas[k].tbl_name.clone());
                assert(crate::query::common::strings_view(names@) =~= before.push(entry.schemas@[k as int].tbl_name@));
            }
            k = k + 1;
        }
        assert(ss.take(k as int) =~= ss);
        i = i + 1;
    }
    assert(m.take(i as int) =~= m);
    names
}

/// The name of a command names that command.
pub proof fn lemma_command_name_roundtrip(c: Commands)
    ensures
        spec_command(
            match c {
                Commands::DbInfo => ".dbinfo"@,
                Commands::Tables => ".tables"@,
            },
        ) == Some(c),
{
    reveal_strlit(".dbinfo");
    reveal_strlit(".tables");
    assert(".dbinfo"@[1] != ".tables"@[1]);
}

} // verus!
