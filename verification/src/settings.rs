//! The settings of a run.

use vstd::prelude::*;

verus! {

/// How much is printed while a run goes on.
#[derive(Debug, Clone, Copy, PartialEq, Eq, Structural)]
pub enum Verbosity {
    Quiet,
    Normal,
}

impl Default for Verbosity {
    fn default() -> (verbosity: Verbosity)
        ensures
            verbosity == Verbosity::Normal,
    {
        Verbosity::Normal
    }
}

/// Settings of a run over directories.
#[derive(Debug)]
pub struct Settings {
    /// How much is printed.
    pub verbosity: Verbosity,
    /// If true, nothing is written to the file system.
    pub dry_run: bool,
    /// If true, hidden files are patched too.
    pub hidden: bool,
    /// If true, ignored files are patched too.
    pub ignored: bool,
    /// File types to select: each a type's name, or a glob.
    pub selected_file_types: Vec<String>,
    /// File types to leave out: each a type's name, or a glob.
    pub ignored_file_types: Vec<String>,
}

impl Default for Settings {
    fn default() -> (settings: Settings)
        ensures
            settings.verbosity == Verbosity::Normal,
            !settings.dry_run,
            !settings.hidden,
            !settings.ignored,
            settings.selected_file_types@.len() == 0,
            settings.ignored_file_types@.len() == 0,
    {
        Settings {
            verbosity: Verbosity::Normal,
            dry_run: false,
            hidden: false,
            ignored: false,
            selected_file_types: Vec::new(),
            ignored_file_types: Vec::new(),
        }
    }
}

} // verus!
