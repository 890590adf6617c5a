//! The data model of a task: the job to run and the trigger that says when.

use vstd::prelude::*;

verus! {

/// The job to be executed: a label for display and a shell command line.
#[derive(Debug, PartialEq, Eq)]
pub struct Job {
    pub description: String,
    pub command: String,
}

/// The mathematical model of a [`Job`].
pub struct JobView {
    pub description: Seq<char>,
    pub command: Seq<char>,
}

impl View for Job {
    type V = JobView;

    open spec fn view(&self) -> JobView {
        JobView { description: self.description@, command: self.command@ }
    }
}

impl Clone for Job {
    fn clone(&self) -> (copy: Self)
        ensures
            copy == *self,
    {
        Job { description: self.description.clone(), command: self.command.clone() }
    }
}

/// The trigger of a task as it is written down: a calendar date-time for a
/// one-time task (`YYYY-MM-DD HH:MM:SS`, in local time), or an interval for a
/// recurring one (such as `1h30m10s`).
///
/// Where both fields are set the calendar date-time decides and the interval
/// is ignored; where neither is set the trigger is invalid.
#[derive(Debug, PartialEq, Eq)]
pub struct Trigger {
    pub on_calendar: Option<String>,
    pub every: Option<String>,
}

/// What a [`Trigger`] means: exactly one of a fixed point in time and a
/// repeat interval, or nothing.
pub enum TriggerKind {
    /// A single point in time, written as a local date-time.
    OnCalendar(Seq<char>),
    /// A repeat interval, written as a compact duration.
    Every(Seq<char>),
    /// Neither is given.
    Unset,
}

impl View for Trigger {
    type V = TriggerKind;

    open spec fn view(&self) -> TriggerKind {
        match self.on_calendar {
            Some(text) => TriggerKind::OnCalendar(text@),
            None => match self.every {
                Some(text) => TriggerKind::Every(text@),
                None => TriggerKind::Unset,
            },
        }
    }
}

impl Clone for Trigger {
    fn clone(&self) -> (copy: Self)
        ensures
            copy == *self,
    {
        let on_calendar = match &self.on_calendar {
            Some(text) => Some(text.clone()),
            None => None,
        };
        let every = match &self.every {
            Some(text) => Some(text.clone()),
            None => None,
        };
        Trigger { on_calendar, every }
    }
}

/// One task record: a job and its trigger.
#[derive(Debug, PartialEq, Eq)]
pub struct Task {
    pub job: Job,
    pub trigger: Trigger,
}

impl Clone for Task {
    fn clone(&self) -> (copy: Self)
        ensures
            copy == *self,
    {
        Task { job: self.job.clone(), trigger: self.trigger.clone() }
    }
}

} // verus!
