//! How a run ends: what is said at its end, and the status that the process
//! leaves with.

use vstd::prelude::*;
use vstd::string::*;
use crate::stats::Stats;

verus! {

/// How a run over the files ended.
#[derive(Debug, Clone, Copy, PartialEq, Eq, Structural)]
pub enum RunOutcome {
    /// Something was replaced, or would have been in a run that writes.
    Replaced,
    /// Nothing was found to replace, and the settings allow that.
    NothingFound,
    /// Nothing was found to replace, which counts as a failure.
    NothingFoundFailure,
}

/// The status with which the process ends after a failure that stopped the
/// run: a pattern that is no regex, or a file that could not be read or
/// written.
pub const EXIT_FAILURE: u8 = 1;

/// The status with which the process ends after a run that found nothing to
/// replace, where that is not allowed.
pub const EXIT_NOTHING_FOUND: u8 = 2;

/// How a run with these counters ended.
pub fn run_outcome(stats: &Stats, allow_empty: bool) -> (outcome: RunOutcome)
    ensures
        outcome == if stats.replacements() != 0 {
            RunOutcome::Replaced
        } else if allow_empty {
            RunOutcome::NothingFound
        } else {
            RunOutcome::NothingFoundFailure
        },
{
    if stats.total_replacements() != 0 {
        RunOutcome::Replaced
    } else if allow_empty {
        RunOutcome::NothingFound
    } else {
        RunOutcome::NothingFoundFailure
    }
}

/// The status with which the process ends after a run that was not stopped by
/// a failure.
pub fn exit_status(outcome: RunOutcome) -> (status: u8)
    ensures
        status == match outcome {
            RunOutcome::Replaced => 0u8,
            RunOutcome::NothingFound => 0u8,
            RunOutcome::NothingFoundFailure => EXIT_NOTHING_FOUND,
        },
{
    match outcome {
        RunOutcome::Replaced => 0,
        RunOutcome::NothingFound => 0,
        RunOutcome::NothingFoundFailure => EXIT_NOTHING_FOUND,
    }
}

/// What is said at the end of a run in which something was replaced.
pub open spec fn closing_text(summary: Seq<char>, dry_run: bool) -> Seq<char> {
    if dry_run {
        "Would perform "@ + summary + "\n"@
            + "Re-run ruplacer with --go to write these changes to the filesystem\n"@
    } else {
        "Performed "@ + summary + "\n"@
    }
}

/// Writes what is said at the end of a run in which something was replaced:
/// the summary of the counters, and after a dry run how to have the changes
/// written.
pub fn closing_message(stats: &Stats, dry_run: bool) -> (text: String)
    ensures
        text@ == closing_text(stats.summary_view(), dry_run),
{
    let mut text = if dry_run {
        "Would perform ".to_owned()
    } else {
        "Performed ".to_owned()
    };
    text.append(stats.to_string().as_str());
    text.append("\n");
    if dry_run {
        text.append("Re-run ruplacer with --go to write these changes to the filesystem\n");
    }
    text
}

} // verus!
