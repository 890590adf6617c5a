//! What is reported of a job's execution.
//!
//! The executor runs a job's command through a shell, detached from the
//! scheduler, and captures what the command writes. This module decides what
//! of that is reported, and how gravely; the wording is the caller's.

use vstd::prelude::*;

verus! {

/// How grave a report is.
#[derive(Debug, Clone, Copy, PartialEq, Eq, Structural)]
pub enum Severity {
    Info,
    Error,
}

/// One thing to report of an execution.
#[derive(Debug, Clone, Copy, PartialEq, Eq, Structural)]
pub enum Report {
    /// The command ran to its end, whatever its exit status.
    Finished,
    /// The command wrote to standard output.
    Output,
    /// The command wrote to standard error.
    ErrorOutput,
    /// The shell could not be started.
    LaunchFailed,
}

impl Report {
    /// A failure to launch and anything written to standard error are
    /// errors; the rest is information.
    pub open spec fn spec_severity(self) -> Severity {
        match self {
            Report::Finished => Severity::Info,
            Report::Output => Severity::Info,
            Report::ErrorOutput => Severity::Error,
            Report::LaunchFailed => Severity::Error,
        }
    }

    /// How grave this report is.
    #[verifier::when_used_as_spec(spec_severity)]
    pub fn severity(self) -> (grade: Severity)
        ensures
            grade == self.spec_severity(),
    {
        match self {
            Report::Finished => Severity::Info,
            Report::Output => Severity::Info,
            Report::ErrorOutput => Severity::Error,
            Report::LaunchFailed => Severity::Error,
        }
    }
}

/// The reports of one execution, in order: for a command that could not be
/// launched, that alone; for one that ran, that it finished, then its
/// standard output if it wrote any, then its standard error if it wrote any.
pub open spec fn reports_of(launched: bool, stdout_len: nat, stderr_len: nat) -> Seq<Report> {
    if !launched {
        seq![Report::LaunchFailed]
    } else {
        seq![Report::Finished] + (if stdout_len > 0 {
            seq![Report::Output]
        } else {
            Seq::empty()
        }) + (if stderr_len > 0 {
            seq![Report::ErrorOutput]
        } else {
            Seq::empty()
        })
    }
}

/// Decides what to report of one execution, from whether the shell could be
/// started and how many bytes the command wrote to its two streams.
pub fn execution_reports(launched: bool, stdout_len: usize, stderr_len: usize) -> (reports: Vec<
    Report,
>)
    ensures
        reports@ == reports_of(launched, stdout_len as nat, stderr_len as nat),
{
    let mut reports: Vec<Report> = Vec::new();
    if !launched {
        reports.push(Report::LaunchFailed);
        return reports;
    }
    reports.push(Report::Finished);
    if stdout_len > 0 {
        reports.push(Report::Output);
    }
    if stderr_len > 0 {
        reports.push(Report::ErrorOutput);
    }
    reports
}

} // verus!
