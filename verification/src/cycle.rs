//! One cycle of the scheduler: order the set, take out what is due, put the
//! recurring entries back at their next time, and say how long to sleep.
//!
//! The caller runs the loop. Each turn it samples the clock once, in whole
//! seconds, calls [`run_cycle`], hands every entry that fired to an executor
//! without waiting for it, and sleeps for the seconds that the cycle names.

use vstd::prelude::*;

use crate::duration::{duration_of, parse_duration};
use crate::schedule::{
    first_after, in_time_order, insert_by_time, insert_position, lemma_first_after,
    lemma_first_after_sorted, lemma_in_time_order, lemma_in_time_order_of_sorted,
    lemma_with_entry, sort_by_time, sorted_by_time, with_entry, ScheduledJob,
};
use crate::task::TriggerKind;

verus! {

/// The shortest sleep between two cycles, in seconds.
pub const MIN_SLEEP_SECONDS: u64 = 1;

/// The longest sleep between two cycles, in seconds: a job that becomes due
/// is noticed within this time.
pub const MAX_SLEEP_SECONDS: u64 = 60;

/// The interval that an empty set asks for, in seconds.
pub const IDLE_SLEEP_SECONDS: u64 = 3600;

/// What one cycle hands to the caller.
#[derive(Debug)]
pub struct Cycle {
    /// The entries that fired, earliest first, each as it stood in the set.
    pub fired: Vec<ScheduledJob>,
    /// How long to sleep before the next cycle, in seconds.
    pub sleep_seconds: u64,
}

/// How many entries at the front of the set are due at `now`.
pub open spec fn due_count(jobs: Seq<ScheduledJob>, now: i64) -> int {
    first_after(jobs, now, 0)
}

/// The entry with which a fired entry goes back into the set: the same job
/// and trigger, one interval after the time for which it was scheduled. Only
/// a recurring entry has one, and only where its interval names a span and
/// the new time can be held.
pub open spec fn renewal(entry: ScheduledJob) -> Option<ScheduledJob> {
    match entry.trigger@ {
        TriggerKind::Every(text) => match duration_of(text) {
            Some(span) => if entry.next_run_at + span <= i64::MAX {
                Some(
                    ScheduledJob {
                        job: entry.job,
                        trigger: entry.trigger,
                        next_run_at: (entry.next_run_at + span) as i64,
                    },
                )
            } else {
                None
            },
            None => None,
        },
        _ => None,
    }
}

/// The set `waiting` after the renewals of the entries `fired` went in, one
/// by one in the order of `fired`.
pub open spec fn with_renewals(waiting: Seq<ScheduledJob>, fired: Seq<ScheduledJob>) -> Seq<
    ScheduledJob,
>
    decreases fired.len(),
{
    if fired.len() == 0 {
        waiting
    } else {
        let earlier = with_renewals(waiting, fired.drop_last());
        match renewal(fired.last()) {
            Some(again) => with_entry(earlier, again),
            None => earlier,
        }
    }
}

/// The entries that fire in a cycle at `now`: in the ordered set, the
/// leading entries whose time has come.
pub open spec fn fired_at(jobs: Seq<ScheduledJob>, now: i64) -> Seq<ScheduledJob> {
    let ordered = in_time_order(jobs);
    ordered.take(due_count(ordered, now))
}

/// The set after a cycle at `now`: the entries that did not fire, and the
/// renewals of those that did.
pub open spec fn after_cycle(jobs: Seq<ScheduledJob>, now: i64) -> Seq<ScheduledJob> {
    let ordered = in_time_order(jobs);
    with_renewals(ordered.skip(due_count(ordered, now)), fired_at(jobs, now))
}

/// The earliest next run time in a set that is not empty.
pub open spec fn earliest(jobs: Seq<ScheduledJob>) -> int
    decreases jobs.len(),
{
    if jobs.len() <= 1 {
        jobs[0].next_run_at as int
    } else {
        let before = earliest(jobs.drop_last());
        if jobs.last().next_run_at < before {
            jobs.last().next_run_at as int
        } else {
            before
        }
    }
}

/// The interval that a set asks for at `now`, in seconds: for a set with
/// entries the time until the earliest of them, held between the shortest
/// and the longest sleep; for an empty set the idle interval.
pub open spec fn interval_at(jobs: Seq<ScheduledJob>, now: i64) -> int {
    if jobs.len() == 0 {
        IDLE_SLEEP_SECONDS as int
    } else {
        let until = earliest(jobs) - now;
        if until < MIN_SLEEP_SECONDS {
            MIN_SLEEP_SECONDS as int
        } else if until > MAX_SLEEP_SECONDS {
            MAX_SLEEP_SECONDS as int
        } else {
            until
        }
    }
}

/// The sleep for an interval: the interval, but never longer than the
/// longest sleep.
pub open spec fn capped(interval: int) -> int {
    if interval > MAX_SLEEP_SECONDS {
        MAX_SLEEP_SECONDS as int
    } else {
        interval
    }
}

/// The earliest time of a set is the time of one of its entries, and no
/// entry runs before it.
pub proof fn lemma_earliest(jobs: Seq<ScheduledJob>)
    requires
        jobs.len() > 0,
    ensures
        forall|i: int| 0 <= i < jobs.len() ==> earliest(jobs) <= (#[trigger] jobs[i]).next_run_at,
        exists|i: int| 0 <= i < jobs.len() && earliest(jobs) == (#[trigger] jobs[i]).next_run_at,
    decreases jobs.len(),
{
    if jobs.len() > 1 {
        let front = jobs.drop_last();
        lemma_earliest(front);
        let w = choose|i: int|
            0 <= i < front.len() && earliest(front) == (#[trigger] front[i]).next_run_at;
        assert(front[w] == jobs[w]);
        assert(jobs[jobs.len() - 1] == jobs.last());
        assert forall|i: int| 0 <= i < jobs.len() implies earliest(jobs) <= (
        #[trigger] jobs[i]).next_run_at by {
            if i < front.len() {
                assert(front[i] == jobs[i]);
            }
        }
    } else {
        assert(earliest(jobs) == jobs[0].next_run_at);
    }
}

/// In a set in order the first entry is the earliest.
pub proof fn lemma_first_is_earliest(jobs: Seq<ScheduledJob>)
    requires
        jobs.len() > 0,
        sorted_by_time(jobs),
    ensures
        earliest(jobs) == jobs[0].next_run_at,
{
    lemma_earliest(jobs);
}

/// Putting renewals into a set in order leaves it in order.
pub proof fn lemma_with_renewals_sorted(waiting: Seq<ScheduledJob>, fired: Seq<ScheduledJob>)
    requires
        sorted_by_time(waiting),
    ensures
        sorted_by_time(with_renewals(waiting, fired)),
    decreases fired.len(),
{
    if fired.len() > 0 {
        lemma_with_renewals_sorted(waiting, fired.drop_last());
        match renewal(fired.last()) {
            Some(again) => {
                lemma_with_entry(with_renewals(waiting, fired.drop_last()), again);
            },
            None => {},
        }
    }
}

/// After a cycle the set is in order: its first entry is the earliest, and
/// ordering it again, as the next cycle does, changes nothing.
pub proof fn lemma_after_cycle_sorted(jobs: Seq<ScheduledJob>, now: i64)
    ensures
        sorted_by_time(after_cycle(jobs, now)),
        after_cycle(jobs, now).len() > 0 ==> earliest(after_cycle(jobs, now)) == after_cycle(
            jobs,
            now,
        )[0].next_run_at,
        in_time_order(after_cycle(jobs, now)) == after_cycle(jobs, now),
{
    let ordered = in_time_order(jobs);
    lemma_in_time_order(jobs);
    lemma_first_after(ordered, now, 0);
    let waiting = ordered.skip(due_count(ordered, now));
    assert(sorted_by_time(waiting));
    lemma_with_renewals_sorted(waiting, fired_at(jobs, now));
    if after_cycle(jobs, now).len() > 0 {
        lemma_first_is_earliest(after_cycle(jobs, now));
    }
    lemma_in_time_order_of_sorted(after_cycle(jobs, now));
}

/// What fires in a cycle is what is due: every entry that fires was
/// scheduled for `now` or earlier, every entry of the set that was scheduled
/// for `now` or earlier fires, and the entries that fire and the entries that
/// wait are together the entries of the set.
pub proof fn lemma_fired_are_due(jobs: Seq<ScheduledJob>, now: i64)
    ensures
        forall|i: int|
            0 <= i < fired_at(jobs, now).len() ==> (#[trigger] fired_at(jobs, now)[i]).next_run_at
                <= now,
        forall|entry: ScheduledJob|
            jobs.contains(entry) && entry.next_run_at <= now ==> #[trigger] fired_at(
                jobs,
                now,
            ).contains(entry),
        forall|i: int|
            #![trigger in_time_order(jobs)[i]]
            due_count(in_time_order(jobs), now) <= i < jobs.len() ==> in_time_order(
                jobs,
            )[i].next_run_at > now,
        fired_at(jobs, now) + in_time_order(jobs).skip(due_count(in_time_order(jobs), now))
            == in_time_order(jobs),
        in_time_order(jobs).to_multiset() == jobs.to_multiset(),
{
    let ordered = in_time_order(jobs);
    lemma_in_time_order(jobs);
    lemma_first_after(ordered, now, 0);
    lemma_first_after_sorted(ordered, now);
    let k = due_count(ordered, now);
    assert(ordered.take(k) + ordered.skip(k) =~= ordered);
    assert forall|entry: ScheduledJob|
        jobs.contains(entry) && entry.next_run_at <= now implies #[trigger] fired_at(
        jobs,
        now,
    ).contains(entry) by {
        broadcast use vstd::seq_lib::group_to_multiset_ensures;

        assert(jobs.to_multiset().count(entry) > 0);
        assert(ordered.to_multiset().count(entry) > 0);
        assert(ordered.contains(entry));
        let i = choose|i: int| 0 <= i < ordered.len() && ordered[i] == entry;
        assert(i < k);
        assert(ordered.take(k)[i] == entry);
    }
}

/// A set with renewals holds every entry that waited and the renewal of
/// every entry that fired and has one.
pub proof fn lemma_with_renewals_holds(waiting: Seq<ScheduledJob>, fired: Seq<ScheduledJob>)
    ensures
        forall|entry: ScheduledJob|
            waiting.contains(entry) ==> #[trigger] with_renewals(waiting, fired).contains(entry),
        forall|i: int|
            0 <= i < fired.len() && renewal(#[trigger] fired[i]) is Some ==> with_renewals(
                waiting,
                fired,
            ).contains(renewal(fired[i]).unwrap()),
    decreases fired.len(),
{
    if fired.len() > 0 {
        let front = fired.drop_last();
        let earlier = with_renewals(waiting, front);
        let all = with_renewals(waiting, fired);
        lemma_with_renewals_holds(waiting, front);
        match renewal(fired.last()) {
            Some(again) => {
                let at = insert_position(earlier, again.next_run_at);
                lemma_first_after(earlier, again.next_run_at, 0);
                assert(all[at] == again);
                assert forall|entry: ScheduledJob| earlier.contains(entry) implies all.contains(
                    entry,
                ) by {
                    let k = choose|k: int| 0 <= k < earlier.len() && earlier[k] == entry;
                    if k < at {
                        assert(all[k] == entry);
                    } else {
                        assert(all[k + 1] == entry);
                    }
                }
            },
            None => {},
        }
        assert forall|i: int|
            0 <= i < fired.len() && renewal(#[trigger] fired[i]) is Some implies all.contains(
            renewal(fired[i]).unwrap(),
        ) by {
            if i < front.len() {
                assert(front[i] == fired[i]);
                assert(earlier.contains(renewal(front[i]).unwrap()));
            } else {
                assert(fired[i] == fired.last());
            }
        }
    }
}

/// Every entry of a set with renewals is an entry that waited or the renewal
/// of an entry that fired.
pub proof fn lemma_with_renewals_origin(
    waiting: Seq<ScheduledJob>,
    fired: Seq<ScheduledJob>,
    entry: ScheduledJob,
)
    requires
        with_renewals(waiting, fired).contains(entry),
    ensures
        waiting.contains(entry) || exists|i: int|
            0 <= i < fired.len() && renewal(#[trigger] fired[i]) == Some(entry),
    decreases fired.len(),
{
    if fired.len() > 0 {
        let front = fired.drop_last();
        let earlier = with_renewals(waiting, front);
        let from_earlier = match renewal(fired.last()) {
            Some(again) => {
                let at = insert_position(earlier, again.next_run_at);
                lemma_first_after(earlier, again.next_run_at, 0);
                let all = with_entry(earlier, again);
                let k = choose|k: int| 0 <= k < all.len() && all[k] == entry;
                if k == at {
                    assert(renewal(fired[fired.len() - 1]) == Some(entry));
                    false
                } else {
                    if k < at {
                        assert(earlier[k] == entry);
                    } else {
                        assert(earlier[k - 1] == entry);
                    }
                    true
                }
            },
            None => true,
        };
        if from_earlier {
            assert(earlier.contains(entry));
            lemma_with_renewals_origin(waiting, front, entry);
            if !waiting.contains(entry) {
                let i = choose|i: int|
                    0 <= i < front.len() && renewal(#[trigger] front[i]) == Some(entry);
                assert(front[i] == fired[i]);
            }
        }
    }
}

/// A one-time entry that fires is gone: whatever entry the set holds after
/// a cycle at `now` without a recurring trigger was in the set before and
/// was scheduled for later than `now`.
pub proof fn lemma_fired_one_time_is_removed(jobs: Seq<ScheduledJob>, now: i64, entry: ScheduledJob)
    requires
        after_cycle(jobs, now).contains(entry),
        !(entry.trigger@ is Every),
    ensures
        jobs.contains(entry),
        entry.next_run_at > now,
{
    let ordered = in_time_order(jobs);
    let k = due_count(ordered, now);
    let waiting = ordered.skip(k);
    lemma_with_renewals_origin(waiting, fired_at(jobs, now), entry);
    lemma_fired_are_due(jobs, now);
    lemma_first_after(ordered, now, 0);
    assert(waiting.contains(entry));
    let w = choose|w: int| 0 <= w < waiting.len() && waiting[w] == entry;
    lemma_in_time_order(jobs);
    lemma_first_after_sorted(ordered, now);
    assert(ordered[k + w] == entry);
    assert(ordered[k + w].next_run_at > now);
    assert(ordered.contains(entry));
    broadcast use vstd::seq_lib::group_to_multiset_ensures;

    assert(ordered.to_multiset().count(entry) > 0);
    assert(jobs.to_multiset().count(entry) > 0);
}

/// The set after a run of cycles, one at each of the times `nows` in turn.
pub open spec fn after_cycles(jobs: Seq<ScheduledJob>, nows: Seq<i64>) -> Seq<ScheduledJob>
    decreases nows.len(),
{
    if nows.len() == 0 {
        jobs
    } else {
        after_cycle(after_cycles(jobs, nows.drop_last()), nows.last())
    }
}

/// A one-time entry fires once and never comes back: after a cycle at a time
/// `now` at or after its own, no later cycle, at whatever times, holds an
/// entry without a recurring trigger that was scheduled for `now` or
/// earlier.
pub proof fn lemma_one_time_stays_removed(
    jobs: Seq<ScheduledJob>,
    now: i64,
    later: Seq<i64>,
    entry: ScheduledJob,
)
    requires
        !(entry.trigger@ is Every),
        entry.next_run_at <= now,
    ensures
        !after_cycles(after_cycle(jobs, now), later).contains(entry),
    decreases later.len(),
{
    if later.len() == 0 {
        if after_cycle(jobs, now).contains(entry) {
            lemma_fired_one_time_is_removed(jobs, now, entry);
        }
    } else {
        let before = after_cycles(after_cycle(jobs, now), later.drop_last());
        lemma_one_time_stays_removed(jobs, now, later.drop_last(), entry);
        if after_cycle(before, later.last()).contains(entry) {
            lemma_fired_one_time_is_removed(before, later.last(), entry);
        }
    }
}

/// A cycle takes out nothing that is not due: an entry of the set scheduled
/// for later than `now` is in the set after the cycle, as it was.
pub proof fn lemma_waiting_entries_stay(jobs: Seq<ScheduledJob>, now: i64, entry: ScheduledJob)
    requires
        jobs.contains(entry),
        entry.next_run_at > now,
    ensures
        after_cycle(jobs, now).contains(entry),
        !fired_at(jobs, now).contains(entry),
{
    let ordered = in_time_order(jobs);
    let k = due_count(ordered, now);
    lemma_fired_are_due(jobs, now);
    lemma_first_after(ordered, now, 0);
    broadcast use vstd::seq_lib::group_to_multiset_ensures;

    assert(jobs.to_multiset().count(entry) > 0);
    assert(ordered.to_multiset().count(entry) > 0);
    assert(ordered.contains(entry));
    let i = choose|i: int| 0 <= i < ordered.len() && ordered[i] == entry;
    assert(i >= k);
    let waiting = ordered.skip(k);
    assert(waiting[i - k] == entry);
    assert(waiting.contains(entry));
    lemma_with_renewals_holds(waiting, fired_at(jobs, now));
}

/// Rescheduling is anchored to the schedule, not to the clock: a recurring
/// entry of the set scheduled for a time T with an interval of D seconds
/// fires in any cycle at T or later, and stands at exactly T + D after that
/// cycle, however late the cycle comes.
pub proof fn lemma_reschedule_is_anchored(
    jobs: Seq<ScheduledJob>,
    entry: ScheduledJob,
    span: i64,
    now: i64,
)
    requires
        jobs.contains(entry),
        entry.trigger@ matches TriggerKind::Every(text) && duration_of(text) == Some(span),
        entry.next_run_at <= now,
        entry.next_run_at + span <= i64::MAX,
    ensures
        fired_at(jobs, now).contains(entry),
        after_cycle(jobs, now).contains(
            ScheduledJob {
                job: entry.job,
                trigger: entry.trigger,
                next_run_at: (entry.next_run_at + span) as i64,
            },
        ),
{
    lemma_fired_are_due(jobs, now);
    let fired = fired_at(jobs, now);
    let ordered = in_time_order(jobs);
    assert(fired_at(jobs, now).contains(entry));
    let i = choose|i: int| 0 <= i < fired.len() && fired[i] == entry;
    lemma_with_renewals_holds(ordered.skip(due_count(ordered, now)), fired);
    assert(renewal(fired[i]) is Some);
}

/// Takes the due entries out of the set: from the front, every entry
/// scheduled for `now` or earlier, up to the first that is scheduled for
/// later. Returns them in the order in which they stood.
pub fn drain_due(jobs: &mut Vec<ScheduledJob>, now: i64) -> (due: Vec<ScheduledJob>)
    ensures
        due@ == old(jobs)@.take(due_count(old(jobs)@, now)),
        final(jobs)@ == old(jobs)@.skip(due_count(old(jobs)@, now)),
        forall|i: int| 0 <= i < due@.len() ==> (#[trigger] due@[i]).next_run_at <= now,
        final(jobs)@.len() > 0 ==> final(jobs)@[0].next_run_at > now,
{
    let mut due: Vec<ScheduledJob> = Vec::new();
    let ghost before = jobs@;
    proof {
        lemma_first_after(before, now, 0);
    }
    while jobs.len() > 0 && jobs[0].next_run_at <= now
        invariant
            due@.len() <= before.len(),
            due@ == before.take(due@.len() as int),
            jobs@ == before.skip(due@.len() as int),
            first_after(before, now, 0) == first_after(before, now, due@.len() as int),
        decreases jobs.len(),
    {
        let ghost n = due@.len() as int;
        let entry = jobs.remove(0);
        due.push(entry);
        proof {
            assert(entry == before[n]);
            assert(before.take(n).push(before[n]) =~= before.take(n + 1));
            assert(before.skip(n).remove(0) =~= before.skip(n + 1));
        }
    }
    proof {
        let n = due@.len() as int;
        if n < before.len() {
            assert(jobs@[0] == before[n]);
        }
        assert(first_after(before, now, n) == n);
    }
    due
}

/// The entry with which a fired entry goes back into the set, if it has one:
/// for a recurring entry, the same job and trigger one interval after the
/// time for which the entry was scheduled, whatever the time is now.
pub fn reschedule(entry: &ScheduledJob) -> (again: Option<ScheduledJob>)
    ensures
        again == renewal(*entry),
{
    match &entry.trigger.on_calendar {
        Some(_) => None,
        None => match &entry.trigger.every {
            Some(text) => match parse_duration(text.as_str()) {
                Some(span) => match entry.next_run_at.checked_add(span) {
                    Some(at) => Some(
                        ScheduledJob {
                            job: entry.job.clone(),
                            trigger: entry.trigger.clone(),
                            next_run_at: at,
                        },
                    ),
                    None => None,
                },
                None => None,
            },
            None => None,
        },
    }
}

/// The interval that the set asks for at `now`, in whole seconds: the time
/// until its earliest entry, but at least the shortest and at most the
/// longest sleep; the idle interval where the set is empty.
pub fn sleep_interval(jobs: &Vec<ScheduledJob>, now: i64) -> (seconds: u64)
    ensures
        seconds == interval_at(jobs@, now),
        MIN_SLEEP_SECONDS <= seconds <= IDLE_SLEEP_SECONDS,
        jobs@.len() > 0 ==> seconds <= MAX_SLEEP_SECONDS,
{
    if jobs.len() == 0 {
        return IDLE_SLEEP_SECONDS;
    }
    let mut soonest: i64 = jobs[0].next_run_at;
    let mut i: usize = 1;
    assert(jobs@.take(1).len() == 1);
    while i < jobs.len()
        invariant
            1 <= i <= jobs.len(),
            soonest == earliest(jobs@.take(i as int)),
        decreases jobs.len() - i,
    {
        proof {
            assert(jobs@.take(i + 1).drop_last() =~= jobs@.take(i as int));
            assert(jobs@.take(i + 1).last() == jobs@[i as int]);
        }
        if jobs[i].next_run_at < soonest {
            soonest = jobs[i].next_run_at;
        }
        i = i + 1;
    }
    proof {
        assert(jobs@.take(i as int) =~= jobs@);
    }
    let until: i128 = soonest as i128 - now as i128;
    if until < MIN_SLEEP_SECONDS as i128 {
        MIN_SLEEP_SECONDS
    } else if until > MAX_SLEEP_SECONDS as i128 {
        MAX_SLEEP_SECONDS
    } else {
        until as u64
    }
}

/// The sleep for an interval: the interval itself, cut at the longest sleep.
pub fn capped_sleep(interval: u64) -> (seconds: u64)
    ensures
        seconds == capped(interval as int),
        seconds <= MAX_SLEEP_SECONDS,
{
    if interval > MAX_SLEEP_SECONDS {
        MAX_SLEEP_SECONDS
    } else {
        interval
    }
}

/// Runs one cycle of the scheduler at `now`.
///
/// The set is put in order. The entries at its front that are scheduled for
/// `now` or earlier fire: they leave the set and are handed back, earliest
/// first. Each of them that recurs goes back into the set one interval after
/// the time for which it was scheduled; a one-time entry does not go back.
/// The set is left in order, and the cycle names the sleep until the next
/// one.
pub fn run_cycle(jobs: &mut Vec<ScheduledJob>, now: i64) -> (cycle: Cycle)
    ensures
        cycle.fired@ == fired_at(old(jobs)@, now),
        final(jobs)@ == after_cycle(old(jobs)@, now),
        forall|i: int|
            0 <= i < cycle.fired@.len() ==> (#[trigger] cycle.fired@[i]).next_run_at <= now,
        sorted_by_time(final(jobs)@),
        cycle.sleep_seconds == capped(interval_at(final(jobs)@, now)),
        MIN_SLEEP_SECONDS <= cycle.sleep_seconds <= MAX_SLEEP_SECONDS,
{
    let ghost before = jobs@;
    sort_by_time(jobs);
    let fired = drain_due(jobs, now);
    let ghost waiting = jobs@;
    let mut i: usize = 0;
    while i < fired.len()
        invariant
            i <= fired.len(),
            jobs@ == with_renewals(waiting, fired@.take(i as int)),
        decreases fired.len() - i,
    {
        proof {
            assert(fired@.take(i + 1).drop_last() =~= fired@.take(i as int));
            assert(fired@.take(i + 1).last() == fired@[i as int]);
        }
        match reschedule(&fired[i]) {
            Some(again) => {
                insert_by_time(jobs, again);
            },
            None => {},
        }
        i = i + 1;
    }
    proof {
        assert(fired@.take(i as int) =~= fired@);
        lemma_after_cycle_sorted(before, now);
    }
    let sleep_seconds = capped_sleep(sleep_interval(jobs, now));
    Cycle { fired, sleep_seconds }
}

} // verus!
