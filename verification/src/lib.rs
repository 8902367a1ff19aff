//! Find-and-replace over lines and whole files: literal, regular-expression and
//! case-preserving queries, with the matched and substituted fragments kept
//! for display, and the counters of a run.

pub mod directory_patcher;
pub mod errors;
pub mod file_patcher;
pub mod lines;
pub mod outcome;
pub mod query;
pub mod replacer;
pub mod report;
pub mod settings;
pub mod stats;
pub mod text;

pub use directory_patcher::DirectoryPatcher;
pub use errors::Error;
pub use file_patcher::FilePatcher;
pub use query::Query;
pub use replacer::{replace, Replacement};
pub use settings::{Settings, Verbosity};
pub use stats::Stats;
