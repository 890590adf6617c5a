//! The trigger evaluator: from a trigger and a reference "now" to the next
//! run time, or to the reason why there is none.

use vstd::prelude::*;

use crate::calendar::{
    near, read_calendar, reading_of, unique_instant, wall_clock_seconds, LocalMapping,
    CALENDAR_FORMAT,
};
use crate::duration::{duration_of, parse_duration, scan};
use crate::task::{Trigger, TriggerKind};

verus! {

/// Why a trigger yields no run time.
#[derive(Debug, Clone, Copy, PartialEq, Eq, Structural)]
pub enum TriggerError {
    /// The trigger names neither a calendar date-time nor an interval.
    MissingTrigger,
    /// The calendar text is not a date-time of the form `YYYY-MM-DD HH:MM:SS`.
    BadCalendar,
    /// The calendar date-time falls in a gap or a fold of local time.
    NoLocalTime,
    /// The calendar date-time lies strictly before "now".
    PastDue,
    /// The interval text names no strictly positive span that can be held.
    BadInterval,
    /// "Now" plus the interval is later than any time that can be held.
    OutOfRange,
}

/// The next run of a recurring trigger: "now" plus the span that its text
/// names.
pub open spec fn recurring_next_run(text: Seq<char>, now: i64) -> Result<i64, TriggerError> {
    match duration_of(text) {
        Some(span) => if now + span <= i64::MAX {
            Ok((now + span) as i64)
        } else {
            Err(TriggerError::OutOfRange)
        },
        None => Err(TriggerError::BadInterval),
    }
}

/// The run of a one-time trigger, given what reading its calendar text
/// yielded: the single instant that the reading names, unless that instant
/// lies strictly before "now".
pub open spec fn one_time_next_run(reading: Option<LocalMapping>, now: i64) -> Result<
    i64,
    TriggerError,
> {
    match reading {
        Some(mapping) => match mapping.unique() {
            Some(at) => if at < now {
                Err(TriggerError::PastDue)
            } else {
                Ok(at)
            },
            None => Err(TriggerError::NoLocalTime),
        },
        None => Err(TriggerError::BadCalendar),
    }
}

/// The next run of a trigger at "now". `reading` is what reading the calendar
/// text yielded; it counts for a calendar trigger only.
pub open spec fn next_run(kind: TriggerKind, reading: Option<LocalMapping>, now: i64) -> Result<
    i64,
    TriggerError,
> {
    match kind {
        TriggerKind::OnCalendar(_) => one_time_next_run(reading, now),
        TriggerKind::Every(text) => recurring_next_run(text, now),
        TriggerKind::Unset => Err(TriggerError::MissingTrigger),
    }
}

/// Whether `outcome` can be what evaluating a trigger at "now" yields. For a
/// recurring or an unset trigger one outcome is possible. For a calendar
/// trigger the machine's time zone has its say: the outcome is the one that
/// belongs to some reading of the calendar text.
pub open spec fn evaluates_to(
    kind: TriggerKind,
    now: i64,
    outcome: Result<i64, TriggerError>,
) -> bool {
    match kind {
        TriggerKind::OnCalendar(text) => exists|reading: Option<LocalMapping>|
            reading_of(text, reading) && outcome == #[trigger] one_time_next_run(reading, now),
        _ => outcome == next_run(kind, None, now),
    }
}

/// The run time in an outcome, if it holds one.
pub open spec fn run_time(outcome: Result<i64, TriggerError>) -> Option<i64> {
    match outcome {
        Ok(at) => Some(at),
        Err(_) => None,
    }
}

/// A one-time trigger never yields a time before "now": a reading that names
/// an instant strictly before "now" is refused as past due, whatever else
/// holds of it.
pub proof fn lemma_one_time_never_past(reading: Option<LocalMapping>, now: i64)
    ensures
        one_time_next_run(reading, now) matches Ok(at) ==> at >= now,
        reading matches Some(mapping) && mapping.unique() matches Some(at) && at < now
            ==> one_time_next_run(reading, now) == Err::<i64, TriggerError>(TriggerError::PastDue),
{
}

/// What holds of a calendar trigger on every machine: it is refused as a bad
/// calendar exactly where its text does not parse; no other refusal than a
/// bad calendar, a missing local time or a past date comes of it; and a run
/// time that it yields is not before "now" and lies less than a day from the
/// wall-clock reading of its text.
pub proof fn lemma_calendar_outcome(text: Seq<char>, now: i64, outcome: Result<i64, TriggerError>)
    requires
        evaluates_to(TriggerKind::OnCalendar(text), now, outcome),
    ensures
        wall_clock_seconds(text, CALENDAR_FORMAT@) is None <==> outcome == Err::<
            i64,
            TriggerError,
        >(TriggerError::BadCalendar),
        outcome matches Ok(at) ==> at >= now && (wall_clock_seconds(text, CALENDAR_FORMAT@)
            matches Some(wall) && near(wall, at)),
        outcome matches Err(reason) ==> reason == TriggerError::BadCalendar || reason
            == TriggerError::NoLocalTime || reason == TriggerError::PastDue,
{
    let reading = choose|reading: Option<LocalMapping>|
        reading_of(text, reading) && outcome == #[trigger] one_time_next_run(reading, now);
    lemma_one_time_never_past(reading, now);
}

/// A trigger of every hour runs next exactly 3600 seconds after "now",
/// for every "now" from which that time can be held.
pub proof fn lemma_every_hour(now: i64)
    requires
        now + 3600 <= i64::MAX,
    ensures
        next_run(TriggerKind::Every("1h"@), None, now) == Ok::<i64, TriggerError>(
            (now + 3600) as i64,
        ),
        evaluates_to(TriggerKind::Every("1h"@), now, Ok((now + 3600) as i64)),
{
    reveal_strlit("1h");
    let text = "1h"@;
    assert(text =~= seq!['1', 'h']);
    assert(text.drop_last() =~= seq!['1']);
    assert(seq!['1'].drop_last() =~= Seq::<char>::empty());
    reveal_with_fuel(scan, 4);
    assert(scan(text).total == 3600);
}

/// Decides the next run of a trigger from what reading its calendar text
/// yielded.
///
/// A calendar trigger runs at the single instant of the reading, and is
/// refused where the text did not parse (`BadCalendar`), where the reading
/// names no single instant (`NoLocalTime`), and where the instant lies
/// strictly before `now` (`PastDue`). A recurring trigger runs at `now` plus
/// its interval, and is refused where the interval names no positive span
/// (`BadInterval`) or the sum cannot be held (`OutOfRange`). A trigger with
/// neither is refused (`MissingTrigger`).
pub fn next_run_from(trigger: &Trigger, reading: Option<LocalMapping>, now: i64) -> (outcome:
    Result<i64, TriggerError>)
    ensures
        outcome == next_run(trigger@, reading, now),
{
    match &trigger.on_calendar {
        Some(_) => match reading {
            Some(mapping) => match unique_instant(mapping) {
                Some(at) => if at < now {
                    Err(TriggerError::PastDue)
                } else {
                    Ok(at)
                },
                None => Err(TriggerError::NoLocalTime),
            },
            None => Err(TriggerError::BadCalendar),
        },
        None => match &trigger.every {
            Some(text) => match parse_duration(text.as_str()) {
                Some(span) => match now.checked_add(span) {
                    Some(at) => Ok(at),
                    None => Err(TriggerError::OutOfRange),
                },
                None => Err(TriggerError::BadInterval),
            },
            None => Err(TriggerError::MissingTrigger),
        },
    }
}

/// Evaluates a trigger at `now`: the next run time, or the reason why there
/// is none.
///
/// For a recurring or an unset trigger the outcome is fixed by the trigger
/// and `now`. For a calendar trigger the text is read under the machine's
/// local time zone, and the outcome is the one that belongs to that reading.
pub fn evaluate_trigger(trigger: &Trigger, now: i64) -> (outcome: Result<i64, TriggerError>)
    ensures
        evaluates_to(trigger@, now, outcome),
{
    let reading = match &trigger.on_calendar {
        Some(text) => read_calendar(text.as_str()),
        None => None,
    };
    let outcome = next_run_from(trigger, reading, now);
    proof {
        if trigger@ is OnCalendar {
            assert(outcome == one_time_next_run(reading, now));
        }
    }
    outcome
}

/// Computes the next run time of a trigger at `now`, or `None` where it has
/// none.
///
/// A recurring trigger yields exactly `now` plus its interval. A calendar
/// trigger yields the instant that its text names under the local time zone,
/// never one before `now`.
pub fn compute_next_run(trigger: &Trigger, now: i64) -> (at: Option<i64>)
    ensures
        exists|outcome: Result<i64, TriggerError>|
            evaluates_to(trigger@, now, outcome) && at == #[trigger] run_time(outcome),
        trigger@ matches TriggerKind::Every(text) ==> at == run_time(
            recurring_next_run(text, now),
        ),
        trigger@ is Unset ==> at is None,
        trigger@ matches TriggerKind::OnCalendar(text) ==> match at {
            Some(instant) => instant >= now && (wall_clock_seconds(text, CALENDAR_FORMAT@)
                matches Some(wall) && near(wall, instant)),
            None => true,
        },
        trigger@ matches TriggerKind::OnCalendar(text) && wall_clock_seconds(
            text,
            CALENDAR_FORMAT@,
        ) is None ==> at is None,
{
    let outcome = evaluate_trigger(trigger, now);
    proof {
        assert(evaluates_to(trigger@, now, outcome));
        if let TriggerKind::OnCalendar(text) = trigger@ {
            lemma_calendar_outcome(text, now, outcome);
        }
    }
    let at = match outcome {
        Ok(at) => Some(at),
        Err(_) => None,
    };
    assert(at == run_time(outcome));
    at
}

} // verus!
