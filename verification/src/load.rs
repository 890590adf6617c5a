//! Loading: from task records to the entries of the scheduled set.
//!
//! Each record is evaluated on its own at the load-time "now". A record whose
//! trigger yields a run time becomes an entry; any other record is skipped,
//! and the load goes on with the next.

use vstd::prelude::*;

use crate::calendar::{reading_of, LocalMapping};
use crate::duration::duration_of;
use crate::schedule::ScheduledJob;
use crate::task::{Task, TriggerKind};
use crate::trigger::{
    evaluate_trigger, evaluates_to, lemma_one_time_never_past, one_time_next_run,
    recurring_next_run, TriggerError,
};

verus! {

/// Whether `entry` can be what the record `task` loads to at `now`: the
/// record's job and trigger, at a time that evaluating the trigger can yield.
pub open spec fn scheduled_as(task: Task, now: i64, entry: ScheduledJob) -> bool {
    &&& entry.job == task.job
    &&& entry.trigger == task.trigger
    &&& evaluates_to(task.trigger@, now, Ok(entry.next_run_at))
}

/// Whether the record `task` can be skipped at `now`: evaluating its trigger
/// can yield a refusal.
pub open spec fn may_skip(task: Task, now: i64) -> bool {
    exists|reason: TriggerError| #[trigger] skipped_for(task, now, reason)
}

/// Whether the record `task` can be skipped at `now` for `reason`.
pub open spec fn skipped_for(task: Task, now: i64, reason: TriggerError) -> bool {
    evaluates_to(task.trigger@, now, Err(reason))
}

/// A record that was skipped: its index among the records, and why.
#[derive(Debug, Clone, Copy, PartialEq, Eq, Structural)]
pub struct Skipped {
    pub index: usize,
    pub reason: TriggerError,
}

/// What a load yields: the entries of the scheduled set, and the records
/// that were skipped, both in the order of the records.
#[derive(Debug)]
pub struct Loaded {
    pub jobs: Vec<ScheduledJob>,
    pub skipped: Vec<Skipped>,
}

/// Whether `jobs` and `skipped` can be what the records `tasks` load to at
/// `now`: record by record, in order, each either loaded to the next entry or
/// skipped, under its index, for a reason that evaluating its trigger can
/// give.
pub open spec fn loaded_from(
    tasks: Seq<Task>,
    now: i64,
    jobs: Seq<ScheduledJob>,
    skipped: Seq<Skipped>,
) -> bool
    decreases tasks.len(),
{
    if tasks.len() == 0 {
        jobs.len() == 0 && skipped.len() == 0
    } else {
        ||| (jobs.len() > 0 && scheduled_as(tasks.last(), now, jobs.last()) && loaded_from(
            tasks.drop_last(),
            now,
            jobs.drop_last(),
            skipped,
        ))
        ||| (skipped.len() > 0 && skipped.last().index == tasks.len() - 1 && skipped_for(
            tasks.last(),
            now,
            skipped.last().reason,
        ) && loaded_from(tasks.drop_last(), now, jobs, skipped.drop_last()))
    }
}

/// A record loads to an entry at a time of `now` or later, and a recurring
/// record to exactly `now` plus its interval.
pub proof fn lemma_scheduled_as(task: Task, now: i64, entry: ScheduledJob)
    requires
        scheduled_as(task, now, entry),
    ensures
        entry.next_run_at >= now,
        !(task.trigger@ is Unset),
        task.trigger@ matches TriggerKind::Every(text) ==> duration_of(text) matches Some(span)
            && entry.next_run_at == now + span,
{
    match task.trigger@ {
        TriggerKind::OnCalendar(text) => {
            let reading = choose|reading: Option<LocalMapping>|
                reading_of(text, reading) && Ok::<i64, TriggerError>(entry.next_run_at)
                    == #[trigger] one_time_next_run(reading, now);
            lemma_one_time_never_past(reading, now);
        },
        _ => {},
    }
}

/// Which records must load and which must be skipped: a recurring record
/// whose interval names a span that can be added to `now` cannot be skipped;
/// a record without a trigger, or with an interval that names no such span,
/// cannot load.
pub proof fn lemma_load_is_owed(task: Task, now: i64, entry: ScheduledJob)
    ensures
        task.trigger@ matches TriggerKind::Every(text) && recurring_next_run(text, now) is Ok
            ==> !may_skip(task, now),
        task.trigger@ matches TriggerKind::Every(text) && recurring_next_run(text, now) is Err
            ==> !scheduled_as(task, now, entry),
        task.trigger@ is Unset ==> !scheduled_as(task, now, entry),
{
}

/// Whether `entry` can be what one of the records of `tasks` from index
/// `from` on loads to at `now`.
pub open spec fn comes_from(tasks: Seq<Task>, now: i64, entry: ScheduledJob, from: int) -> bool {
    exists|k: int| from <= k < tasks.len() && scheduled_as(#[trigger] tasks[k], now, entry)
}

/// Whether `skip` names a record of `tasks` and a reason for which that
/// record can be skipped at `now`.
pub open spec fn skips_record(tasks: Seq<Task>, now: i64, skip: Skipped) -> bool {
    skip.index < tasks.len() && skipped_for(tasks[skip.index as int], now, skip.reason)
}

/// Whatever a load yields, every record is accounted for once, no entry is
/// scheduled before `now`, and each entry comes from a record of its own,
/// the entries in the order of their records.
pub proof fn lemma_loaded_from(
    tasks: Seq<Task>,
    now: i64,
    jobs: Seq<ScheduledJob>,
    skipped: Seq<Skipped>,
)
    requires
        loaded_from(tasks, now, jobs, skipped),
    ensures
        jobs.len() + skipped.len() == tasks.len(),
        forall|i: int| 0 <= i < jobs.len() ==> (#[trigger] jobs[i]).next_run_at >= now,
        forall|i: int| 0 <= i < jobs.len() ==> comes_from(tasks, now, #[trigger] jobs[i], i),
        forall|i: int|
            0 <= i < skipped.len() ==> i <= skipped[i].index && skips_record(
                tasks,
                now,
                #[trigger] skipped[i],
            ),
    decreases tasks.len(),
{
    if tasks.len() > 0 {
        let front = tasks.drop_last();
        if jobs.len() > 0 && scheduled_as(tasks.last(), now, jobs.last()) && loaded_from(
            front,
            now,
            jobs.drop_last(),
            skipped,
        ) {
            let earlier = jobs.drop_last();
            lemma_loaded_from(front, now, earlier, skipped);
            lemma_scheduled_as(tasks.last(), now, jobs.last());
            assert forall|i: int| 0 <= i < jobs.len() implies (#[trigger] jobs[i]).next_run_at
                >= now && comes_from(tasks, now, jobs[i], i) by {
                if i < earlier.len() {
                    assert(earlier[i] == jobs[i]);
                    assert(comes_from(front, now, earlier[i], i));
                    let k = choose|k: int|
                        i <= k < front.len() && scheduled_as(#[trigger] front[k], now, earlier[i]);
                    assert(front[k] == tasks[k]);
                } else {
                    assert(jobs[i] == jobs.last());
                    assert(tasks[tasks.len() - 1] == tasks.last());
                }
            }
            assert forall|i: int| 0 <= i < skipped.len() implies i <= skipped[i].index
                && skips_record(tasks, now, #[trigger] skipped[i]) by {
                assert(skips_record(front, now, skipped[i]));
                assert(front[skipped[i].index as int] == tasks[skipped[i].index as int]);
            }
        } else {
            let earlier = skipped.drop_last();
            lemma_loaded_from(front, now, jobs, earlier);
            assert forall|i: int| 0 <= i < jobs.len() implies comes_from(
                tasks,
                now,
                #[trigger] jobs[i],
                i,
            ) by {
                assert(comes_from(front, now, jobs[i], i));
                let k = choose|k: int|
                    i <= k < front.len() && scheduled_as(#[trigger] front[k], now, jobs[i]);
                assert(front[k] == tasks[k]);
            }
            assert forall|i: int| 0 <= i < skipped.len() implies i <= skipped[i].index
                && skips_record(tasks, now, #[trigger] skipped[i]) by {
                if i < earlier.len() {
                    assert(earlier[i] == skipped[i]);
                    assert(skips_record(front, now, earlier[i]));
                    assert(front[earlier[i].index as int] == tasks[earlier[i].index as int]);
                } else {
                    assert(skipped[i] == skipped.last());
                    assert(tasks[tasks.len() - 1] == tasks.last());
                }
            }
        }
    }
}

/// Loads one record at `now`: an entry with the record's job and trigger at
/// the next run time of the trigger, or the reason why the record is
/// skipped.
pub fn schedule_task(task: &Task, now: i64) -> (loaded: Result<ScheduledJob, TriggerError>)
    ensures
        match loaded {
            Ok(entry) => scheduled_as(*task, now, entry),
            Err(reason) => skipped_for(*task, now, reason),
        },
{
    match evaluate_trigger(&task.trigger, now) {
        Ok(at) => Ok(
            ScheduledJob { job: task.job.clone(), trigger: task.trigger.clone(), next_run_at: at },
        ),
        Err(reason) => Err(reason),
    }
}

/// Loads the records at `now` into the entries of a scheduled set, in the
/// order of the records. A record whose trigger yields no run time is
/// skipped, with its index and the reason, and the load goes on.
pub fn load_and_schedule_tasks(tasks: &Vec<Task>, now: i64) -> (loaded: Loaded)
    ensures
        loaded_from(tasks@, now, loaded.jobs@, loaded.skipped@),
{
    let mut jobs: Vec<ScheduledJob> = Vec::new();
    let mut skipped: Vec<Skipped> = Vec::new();
    let mut i: usize = 0;
    while i < tasks.len()
        invariant
            i <= tasks.len(),
            loaded_from(tasks@.take(i as int), now, jobs@, skipped@),
        decreases tasks.len() - i,
    {
        let ghost jobs_before = jobs@;
        let ghost skipped_before = skipped@;
        proof {
            assert(tasks@.take(i + 1).drop_last() =~= tasks@.take(i as int));
            assert(tasks@.take(i + 1).last() == tasks@[i as int]);
        }
        match schedule_task(&tasks[i], now) {
            Ok(entry) => {
                jobs.push(entry);
                proof {
                    assert(jobs@.drop_last() =~= jobs_before);
                    assert(jobs@.last() == entry);
                }
            },
            Err(reason) => {
                skipped.push(Skipped { index: i, reason });
                proof {
                    assert(skipped@.drop_last() =~= skipped_before);
                    assert(skipped@.last() == Skipped { index: i, reason });
                }
            },
        }
        i = i + 1;
    }
    proof {
        assert(tasks@.take(i as int) =~= tasks@);
    }
    Loaded { jobs, skipped }
}

} // verus!
