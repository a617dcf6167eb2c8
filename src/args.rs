//! The command surface: what the program is asked to do, and on which file.

use std::path::PathBuf;
use vstd::prelude::*;

verus! {

/// A file system path, carried through as it is.
#[verifier::external_type_specification]
#[verifier::external_body]
pub struct ExPathBuf(PathBuf);

/// The command line.
pub struct Cli {
    pub command: Commands,
}

/// What to do with the clippings export.
pub enum Commands {
    /// Read the export and build the library, writing nothing.
    Parse(ParseArgs),
    /// Read the export and write the Markdown documents.
    Generate(ParseArgs),
}

/// The export to read.
pub struct ParseArgs {
    pub path: PathBuf,
}

impl Commands {
    /// The arguments of the command.
    pub fn args(&self) -> (r: &ParseArgs)
        ensures
            r == (match self {
                Commands::Parse(a) => a,
                Commands::Generate(a) => a,
            }),
    {
        match self {
            Commands::Parse(a) => a,
            Commands::Generate(a) => a,
        }
    }

    /// Whether the command writes documents after reading the export.
    pub fn writes_output(&self) -> (r: bool)
        ensures
            r == (self is Generate),
    {
        match self {
            Commands::Parse(_) => false,
            Commands::Generate(_) => true,
        }
    }
}

} // verus!
