use vstd::prelude::*;

use crate::btree::{spec_insert_all, spec_root_walk, Root};
use crate::commands::{command_shows, spec_command, CommandOutput, Commands};
use crate::custom_error::CustomError;
use crate::file::{spec_file_header, Initialize};
use crate::text::{spec_trim, str_to_chars, string_from_chars, trim_chars};

verus! {

/// The command line: the database file and a command to run first.
#[derive(Debug)]
pub struct Cli {
    pub filename: Option<String>,
    pub cmd: Option<String>,
}

/// Why the prompt could not start.
#[derive(Debug, Clone, Copy, PartialEq, Eq, Structural)]
pub enum CliError {
    /// The named file is not a file.
    InvalidFilePath,
    /// A command was given without a database file.
    MissingFilePath,
    /// The command given is not one.
    InvalidCommand,
    /// Loading the database failed.
    Load(CustomError),
}

/// What the prompt does with a line of input.
#[derive(Debug)]
pub enum CliAction {
    /// `.quit` or `.exit`.
    Quit,
    /// A command.
    Command(Commands),
    /// Anything else is run as a query.
    Query(String),
}

/// What the prompt does with the line `input`, once trimmed.
pub open spec fn spec_action(input: Seq<char>) -> (bool, Option<Commands>) {
    let t = spec_trim(input);
    if t == ".quit"@ || t == ".exit"@ {
        (true, None)
    } else {
        (false, spec_command(t))
    }
}

impl Cli {
    /// Loads the database named on the command line, whose file holds
    /// `db`, and runs the command given with it, if any.
    pub fn init(&self, db: &[u8]) -> (r: Result<(Root, Option<CommandOutput>), CliError>)
        requires
            self.filename is Some || self.cmd is Some,
        ensures
            match self.filename {
                None => r == Err::<(Root, Option<CommandOutput>), CliError>(CliError::MissingFilePath),
                Some(f) => match spec_root_walk(db@, spec_file_header(db@), 100, 0, db@.len()) {
                    Err(e) => r == Err::<(Root, Option<CommandOutput>), CliError>(CliError::Load(e)),
                    Ok((pages, schemas)) => match self.cmd {
                        None => r matches Ok((root, None)) && root.loaded_from(
                            db@,
                            f@,
                            pages,
                            spec_insert_all(Seq::empty(), schemas),
                        ),
                        Some(c) => match spec_command(c@) {
                            None => r == Err::<(Root, Option<CommandOutput>), CliError>(CliError::InvalidCommand),
                            Some(command) => r matches Ok((root, Some(out))) && root.loaded_from(
                                db@,
                                f@,
                                pages,
                                spec_insert_all(Seq::empty(), schemas),
                            ) && command_shows(command, root.db_header.page_size, root.tables@, out),
                        },
                    },
                },
            },
    {
        let mut root = Root::default();
        match &self.filename {
            Some(filename) => {
                match root.init(db, filename.clone()) {
                    Ok(()) => {},
                    Err(e) => {
                        return Err(CliError::Load(e));
                    },
                }
            },
            None => {
                return Err(CliError::MissingFilePath);
            },
        }
        match &self.cmd {
            Some(cmd) => {
                if !Commands::is_valid(cmd.as_str()) {
                    return Err(CliError::InvalidCommand);
                }
                let out = Commands::process_cmd(cmd.as_str(), &root);
                Ok((root, Some(out)))
            },
            None => Ok((root, None)),
        }
    }

    /// What the prompt does with the line `input` (see [`spec_action`]).
    pub fn start(&self, input: &str) -> (r: CliAction)
        ensures
            match spec_action(input@) {
                (true, _) => r is Quit,
                (false, Some(c)) => r == CliAction::Command(c),
                (false, None) => r matches CliAction::Query(q) && q@ == spec_trim(input@),
            },
    {
        let line = trim_chars(str_to_chars(input).as_slice());
        let text = string_from_chars(line.as_slice());
        let quit = crate::text::chars_equal(line.as_slice(), str_to_chars(".quit").as_slice());
        let exit = crate::text::chars_equal(line.as_slice(), str_to_chars(".exit").as_slice());
        if quit || exit {
            return CliAction::Quit;
        }
        match Commands::from_name(text.as_str()) {
            Some(c) => CliAction::Command(c),
            None => CliAction::Query(text),
        }
    }
}

} // verus!
