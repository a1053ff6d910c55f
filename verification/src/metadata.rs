//! Per-run metadata recorded by the runner and read back by the later
//! stages: how the tool process ended, whether its output parsed, and
//! whether the run has been evaluated.

use vstd::prelude::*;

verus! {

/// How the tool process ended.
#[derive(Debug, Clone, Copy, PartialEq, Eq, Structural)]
pub enum Status {
    Exited,
    ScriptError,
    Timeout,
}

impl Default for Status {
    fn default() -> (r: Self)
        ensures
            r == Status::Exited,
    {
        Status::Exited
    }
}

/// Whether the tool's output has been parsed into a report.
#[derive(Debug, Clone, Copy, PartialEq, Eq, Structural)]
pub enum ParseStatus {
    No,
    Failed,
    Yes,
}

impl Default for ParseStatus {
    fn default() -> (r: Self)
        ensures
            r == ParseStatus::No,
    {
        ParseStatus::No
    }
}

/// The record of one (benchmark, tool) run.  `time` is the wall-clock run
/// time in nanoseconds.
#[derive(Debug, Clone, Copy, PartialEq, Eq, Structural)]
pub struct Metadata {
    pub status: Status,
    pub exit_code: i32,
    pub time: u64,
    pub parsed: ParseStatus,
    pub evaluated: bool,
}

impl Default for Metadata {
    fn default() -> (r: Self)
        ensures
            r.status == Status::Exited,
            r.exit_code == 0,
            r.time == 0,
            r.parsed == ParseStatus::No,
            !r.evaluated,
    {
        Metadata {
            status: Status::Exited,
            exit_code: 0,
            time: 0,
            parsed: ParseStatus::No,
            evaluated: false,
        }
    }
}

} // verus!
