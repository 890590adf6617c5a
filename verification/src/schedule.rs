//! The scheduled set: entries ordered by their next run time.
//!
//! The set is a `Vec<ScheduledJob>`. It is kept in ascending order of
//! `next_run_at`, entries of equal time in the order in which they came, so
//! that its first entry is always the earliest.

use vstd::prelude::*;

use crate::task::{Job, JobView, Trigger, TriggerKind};

verus! {

/// A job, its trigger, and the time of its next run (seconds since the Unix
/// epoch, UTC).
#[derive(Debug, PartialEq, Eq)]
pub struct ScheduledJob {
    pub job: Job,
    pub trigger: Trigger,
    pub next_run_at: i64,
}

/// The mathematical model of a [`ScheduledJob`].
pub struct ScheduledJobView {
    pub job: JobView,
    pub trigger: TriggerKind,
    pub next_run_at: int,
}

impl View for ScheduledJob {
    type V = ScheduledJobView;

    open spec fn view(&self) -> ScheduledJobView {
        ScheduledJobView {
            job: self.job@,
            trigger: self.trigger@,
            next_run_at: self.next_run_at as int,
        }
    }
}

impl Clone for ScheduledJob {
    fn clone(&self) -> (copy: Self)
        ensures
            copy == *self,
    {
        ScheduledJob {
            job: self.job.clone(),
            trigger: self.trigger.clone(),
            next_run_at: self.next_run_at,
        }
    }
}

/// Ascending order of next run time: no entry runs later than one behind it.
pub open spec fn sorted_by_time(jobs: Seq<ScheduledJob>) -> bool {
    forall|i: int, j: int|
        0 <= i <= j < jobs.len() ==> jobs[i].next_run_at <= jobs[j].next_run_at
}

/// Each entry runs no later than its successor.
pub open spec fn adjacent_in_order(jobs: Seq<ScheduledJob>) -> bool {
    forall|i: int|
        0 <= i < jobs.len() - 1 ==> (#[trigger] jobs[i]).next_run_at <= jobs[i + 1].next_run_at
}

/// The index, at or after `from`, of the first entry that runs strictly after
/// `bound`; the length of `jobs` where there is none.
pub open spec fn first_after(jobs: Seq<ScheduledJob>, bound: i64, from: int) -> int
    decreases jobs.len() - from,
{
    if 0 <= from < jobs.len() && jobs[from].next_run_at <= bound {
        first_after(jobs, bound, from + 1)
    } else {
        from
    }
}

/// Where an entry that runs at `at` goes: behind every entry that runs at
/// `at` or earlier, from the front.
pub open spec fn insert_position(jobs: Seq<ScheduledJob>, at: i64) -> int {
    first_after(jobs, at, 0)
}

/// The set with `entry` put in at its position.
pub open spec fn with_entry(jobs: Seq<ScheduledJob>, entry: ScheduledJob) -> Seq<ScheduledJob> {
    jobs.insert(insert_position(jobs, entry.next_run_at), entry)
}

/// The entries of `jobs` in ascending order of next run time, entries of
/// equal time in the order in which `jobs` holds them.
pub open spec fn in_time_order(jobs: Seq<ScheduledJob>) -> Seq<ScheduledJob>
    decreases jobs.len(),
{
    if jobs.len() == 0 {
        Seq::empty()
    } else {
        with_entry(in_time_order(jobs.drop_last()), jobs.last())
    }
}

/// `first_after` finds the end of the leading run of entries that run at
/// `bound` or earlier.
pub proof fn lemma_first_after(jobs: Seq<ScheduledJob>, bound: i64, from: int)
    requires
        0 <= from <= jobs.len(),
    ensures
        from <= first_after(jobs, bound, from) <= jobs.len(),
        forall|i: int|
            from <= i < first_after(jobs, bound, from) ==> (#[trigger] jobs[i]).next_run_at
                <= bound,
        first_after(jobs, bound, from) < jobs.len() ==> jobs[first_after(
            jobs,
            bound,
            from,
        )].next_run_at > bound,
    decreases jobs.len() - from,
{
    if from < jobs.len() && jobs[from].next_run_at <= bound {
        lemma_first_after(jobs, bound, from + 1);
    }
}

/// In a set in order, every entry from `first_after` on runs strictly after
/// the bound.
pub proof fn lemma_first_after_sorted(jobs: Seq<ScheduledJob>, bound: i64)
    requires
        sorted_by_time(jobs),
    ensures
        forall|i: int|
            first_after(jobs, bound, 0) <= i < jobs.len() ==> (#[trigger] jobs[i]).next_run_at
                > bound,
{
    lemma_first_after(jobs, bound, 0);
}

/// Order between all pairs and order between neighbours are the same thing.
pub proof fn lemma_sorted_iff_adjacent(jobs: Seq<ScheduledJob>)
    ensures
        sorted_by_time(jobs) <==> adjacent_in_order(jobs),
{
    if adjacent_in_order(jobs) {
        assert forall|i: int, j: int| 0 <= i <= j < jobs.len() implies jobs[i].next_run_at
            <= jobs[j].next_run_at by {
            lemma_adjacent_chain(jobs, i, j);
        }
    }
}

proof fn lemma_adjacent_chain(jobs: Seq<ScheduledJob>, i: int, j: int)
    requires
        adjacent_in_order(jobs),
        0 <= i <= j < jobs.len(),
    ensures
        jobs[i].next_run_at <= jobs[j].next_run_at,
    decreases j - i,
{
    if i < j {
        lemma_adjacent_chain(jobs, i, j - 1);
        assert(jobs[j - 1].next_run_at <= jobs[j - 1 + 1].next_run_at);
    }
}

/// Putting an entry in at its position keeps a set in order, and adds that
/// entry and no other.
pub proof fn lemma_with_entry(jobs: Seq<ScheduledJob>, entry: ScheduledJob)
    ensures
        sorted_by_time(jobs) ==> sorted_by_time(with_entry(jobs, entry)),
        with_entry(jobs, entry).len() == jobs.len() + 1,
        with_entry(jobs, entry).to_multiset() == jobs.to_multiset().insert(entry),
{
    let at = insert_position(jobs, entry.next_run_at);
    lemma_first_after(jobs, entry.next_run_at, 0);
    let after = with_entry(jobs, entry);
    if sorted_by_time(jobs) {
        lemma_first_after_sorted(jobs, entry.next_run_at);
        assert forall|i: int, j: int| 0 <= i <= j < after.len() implies after[i].next_run_at
            <= after[j].next_run_at by {
            if i < at {
                assert(after[i] == jobs[i]);
            } else if i > at {
                assert(after[i] == jobs[i - 1]);
            }
            if j < at {
                assert(after[j] == jobs[j]);
            } else if j > at {
                assert(after[j] == jobs[j - 1]);
            }
        }
    }
    assert(after.to_multiset() == jobs.to_multiset().insert(entry)) by {
        broadcast use vstd::seq_lib::group_to_multiset_ensures;

        assert(after.remove(at) =~= jobs);
        assert(after[at] == entry);
        assert(after.remove(at).to_multiset() == after.to_multiset().remove(after[at]));
        assert(after.to_multiset().count(entry) > 0) by {
            assert(after.contains(entry));
        }
        assert(after.to_multiset() =~= after.to_multiset().remove(entry).insert(entry));
    }
}

/// Ordering a set puts it in ascending order of next run time and keeps
/// exactly its entries.
pub proof fn lemma_in_time_order(jobs: Seq<ScheduledJob>)
    ensures
        sorted_by_time(in_time_order(jobs)),
        adjacent_in_order(in_time_order(jobs)),
        in_time_order(jobs).len() == jobs.len(),
        in_time_order(jobs).to_multiset() == jobs.to_multiset(),
    decreases jobs.len(),
{
    if jobs.len() == 0 {
        assert(jobs =~= Seq::empty());
    } else {
        lemma_in_time_order(jobs.drop_last());
        lemma_with_entry(in_time_order(jobs.drop_last()), jobs.last());
        assert(jobs.drop_last().push(jobs.last()) =~= jobs);
        broadcast use vstd::seq_lib::group_to_multiset_ensures;

    }
    lemma_sorted_iff_adjacent(in_time_order(jobs));
}

/// A set that is in order already is left as it is.
pub proof fn lemma_in_time_order_of_sorted(jobs: Seq<ScheduledJob>)
    requires
        sorted_by_time(jobs),
    ensures
        in_time_order(jobs) == jobs,
    decreases jobs.len(),
{
    if jobs.len() == 0 {
        assert(jobs =~= Seq::empty());
    } else {
        let front = jobs.drop_last();
        lemma_in_time_order_of_sorted(front);
        lemma_first_after(front, jobs.last().next_run_at, 0);
        let at = insert_position(front, jobs.last().next_run_at);
        if at < front.len() {
            assert(front[at] == jobs[at]);
        }
        assert(front.insert(at, jobs.last()) =~= jobs);
    }
}

/// Puts `entry` into the set behind every entry, counted from the front,
/// that runs no later than it does.
pub fn insert_by_time(jobs: &mut Vec<ScheduledJob>, entry: ScheduledJob)
    ensures
        final(jobs)@ == with_entry(old(jobs)@, entry),
        sorted_by_time(old(jobs)@) ==> sorted_by_time(final(jobs)@),
{
    let mut at: usize = 0;
    while at < jobs.len() && jobs[at].next_run_at <= entry.next_run_at
        invariant
            at <= jobs.len(),
            jobs@ == old(jobs)@,
            first_after(jobs@, entry.next_run_at, 0) == first_after(
                jobs@,
                entry.next_run_at,
                at as int,
            ),
        decreases jobs.len() - at,
    {
        at = at + 1;
    }
    proof {
        lemma_with_entry(jobs@, entry);
    }
    jobs.insert(at, entry);
}

/// Sorts the set in ascending order of next run time; entries of equal time
/// keep their order.
pub fn sort_by_time(jobs: &mut Vec<ScheduledJob>)
    ensures
        final(jobs)@ == in_time_order(old(jobs)@),
        sorted_by_time(final(jobs)@),
        adjacent_in_order(final(jobs)@),
        final(jobs)@.to_multiset() == old(jobs)@.to_multiset(),
{
    let mut sorted: Vec<ScheduledJob> = Vec::new();
    let ghost before = jobs@;
    let ghost mut done: int = 0;
    while jobs.len() > 0
        invariant
            0 <= done <= before.len(),
            jobs@ == before.skip(done),
            sorted@ == in_time_order(before.take(done)),
        decreases jobs.len(),
    {
        let entry = jobs.remove(0);
        proof {
            assert(entry == before[done]);
            assert(before.take(done + 1).drop_last() =~= before.take(done));
            assert(before.take(done + 1).last() == before[done]);
            assert(before.skip(done).remove(0) =~= before.skip(done + 1));
            done = done + 1;
        }
        insert_by_time(&mut sorted, entry);
    }
    proof {
        assert(before.take(done) =~= before);
        lemma_in_time_order(before);
    }
    *jobs = sorted;
}

} // verus!
