//! What the `clean` command reports after looking for the build directory.
use vstd::prelude::*;

verus! {

/// What happened to the build directory.
#[derive(Debug, Clone, PartialEq, Eq)]
pub enum CleanOutcome {
    /// There was no build directory.
    Missing,
    /// The build directory and everything in it were removed.
    Removed,
    /// Removing the build directory failed with this error.
    Failed(String),
}

/// A line for the log, and whether it reports an error. Cleaning never
/// fails the command: an absent directory is already clean.
#[derive(Debug, Clone, PartialEq, Eq)]
pub struct CleanReport {
    pub is_error: bool,
    pub message: String,
}

pub open spec fn missing_message() -> Seq<char> {
    "Build directory does not exist."@
}

pub open spec fn removed_message() -> Seq<char> {
    "Build directory removed successfully."@
}

pub open spec fn failed_prefix() -> Seq<char> {
    "Unable to remove the build directory during clean command. Error: "@
}

/// The report for an outcome of the `clean` command.
pub fn report_clean(outcome: CleanOutcome) -> (r: CleanReport)
    ensures
        r.is_error <==> outcome is Failed,
        outcome is Missing ==> r.message@ == missing_message(),
        outcome is Removed ==> r.message@ == removed_message(),
        outcome matches CleanOutcome::Failed(e) ==> r.message@ == failed_prefix() + e@,
{
    match outcome {
        CleanOutcome::Missing => CleanReport {
            is_error: false,
            message: String::from_str("Build directory does not exist."),
        },
        CleanOutcome::Removed => CleanReport {
            is_error: false,
            message: String::from_str("Build directory removed successfully."),
        },
        CleanOutcome::Failed(e) => {
            let mut message = String::from_str(
                "Unable to remove the build directory during clean command. Error: ",
            );
            message.append(e.as_str());
            CleanReport { is_error: true, message }
        },
    }
}

} // verus!
