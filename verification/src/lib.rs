//! Kronos: the scheduling engine of a lightweight task daemon.
//!
//! The crate holds the trigger model, the computation of next run times, the
//! ordered set of scheduled jobs, and the poll / dispatch / reschedule cycle
//! with its sleep policy. All times are whole seconds since the Unix epoch
//! (UTC); all spans are whole seconds.

pub mod calendar;
pub mod cycle;
pub mod duration;
pub mod load;
pub mod report;
pub mod schedule;
pub mod task;
pub mod trigger;

pub use calendar::{read_calendar, unique_instant, LocalMapping};
pub use cycle::{capped_sleep, drain_due, reschedule, run_cycle, sleep_interval, Cycle};
pub use duration::parse_duration;
pub use load::{load_and_schedule_tasks, schedule_task, Loaded, Skipped};
pub use report::{execution_reports, Report, Severity};
pub use schedule::{insert_by_time, sort_by_time, ScheduledJob};
pub use task::{Job, Task, Trigger};
pub use trigger::{compute_next_run, evaluate_trigger, next_run_from, TriggerError};
