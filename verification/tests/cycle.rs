use kronos::cycle::{IDLE_SLEEP_SECONDS, MAX_SLEEP_SECONDS, MIN_SLEEP_SECONDS};
use kronos::{
    capped_sleep, drain_due, reschedule, run_cycle, sleep_interval, Job, ScheduledJob, Trigger,
};

fn job(name: &str) -> Job {
    Job { description: name.to_string(), command: format!("run-{}", name) }
}

fn recurring(name: &str, every: &str, at: i64) -> ScheduledJob {
    ScheduledJob {
        job: job(name),
        trigger: Trigger { on_calendar: None, every: Some(every.to_string()) },
        next_run_at: at,
    }
}

fn one_time(name: &str, at: i64) -> ScheduledJob {
    ScheduledJob {
        job: job(name),
        trigger: Trigger { on_calendar: Some("2031-02-27 12:00:00".to_string()), every: None },
        next_run_at: at,
    }
}

fn names(jobs: &Vec<ScheduledJob>) -> Vec<String> {
    jobs.iter().map(|e| e.job.description.clone()).collect()
}

#[test]
fn drain_takes_the_due_front() {
    let mut jobs = vec![one_time("a", 10), one_time("b", 20), one_time("c", 30)];
    let due = drain_due(&mut jobs, 20);
    assert_eq!(names(&due), vec!["a", "b"]);
    assert_eq!(names(&jobs), vec!["c"]);
}

#[test]
fn drain_takes_an_entry_due_this_very_second() {
    let mut jobs = vec![one_time("a", 10)];
    assert_eq!(names(&drain_due(&mut jobs, 9)), Vec::<String>::new());
    assert_eq!(names(&drain_due(&mut jobs, 10)), vec!["a"]);
    assert!(jobs.is_empty());
}

#[test]
fn drain_of_nothing_due_changes_nothing() {
    let mut jobs = vec![one_time("a", 10), one_time("b", 20)];
    let due = drain_due(&mut jobs, 9);
    assert!(due.is_empty());
    assert_eq!(names(&jobs), vec!["a", "b"]);
    let mut none: Vec<ScheduledJob> = Vec::new();
    assert!(drain_due(&mut none, 0).is_empty());
}

#[test]
fn drain_stops_at_the_first_entry_in_the_future() {
    let mut jobs = vec![one_time("a", 10), one_time("late", 99), one_time("b", 20)];
    let due = drain_due(&mut jobs, 50);
    assert_eq!(names(&due), vec!["a"]);
    assert_eq!(names(&jobs), vec!["late", "b"]);
}

#[test]
fn reschedule_is_anchored_to_the_schedule() {
    let fired = recurring("a", "1h30m", 1_000);
    let again = reschedule(&fired).expect("a recurring entry goes back");
    assert_eq!(again.next_run_at, 1_000 + 5_400);
    assert_eq!(again.job, fired.job);
    assert_eq!(again.trigger, fired.trigger);
}

#[test]
fn reschedule_of_a_one_time_entry_is_none() {
    assert_eq!(reschedule(&one_time("a", 10)), None);
    let both = ScheduledJob {
        job: job("both"),
        trigger: Trigger {
            on_calendar: Some("2031-02-27 12:00:00".to_string()),
            every: Some("1h".to_string()),
        },
        next_run_at: 10,
    };
    assert_eq!(reschedule(&both), None);
    let unset = ScheduledJob {
        job: job("unset"),
        trigger: Trigger { on_calendar: None, every: None },
        next_run_at: 10,
    };
    assert_eq!(reschedule(&unset), None);
}

#[test]
fn reschedule_without_a_span_or_beyond_the_last_time_is_none() {
    assert_eq!(reschedule(&recurring("a", "never", 10)), None);
    assert_eq!(reschedule(&recurring("a", "1s", i64::MAX)), None);
    let last = reschedule(&recurring("a", "1s", i64::MAX - 1)).expect("the last second is held");
    assert_eq!(last.next_run_at, i64::MAX);
}

#[test]
fn sleep_interval_is_the_time_to_the_earliest() {
    let jobs = vec![one_time("a", 1_030), one_time("b", 1_045)];
    assert_eq!(sleep_interval(&jobs, 1_000), 30);
    assert_eq!(sleep_interval(&jobs, 1_029), 1);
    assert_eq!(sleep_interval(&jobs, 970), 60);
}

#[test]
fn sleep_interval_is_at_most_sixty() {
    let jobs = vec![one_time("a", 1_000_000)];
    assert_eq!(sleep_interval(&jobs, 0), 60);
    assert_eq!(sleep_interval(&jobs, 1_000_000 - 61), 60);
    assert_eq!(sleep_interval(&jobs, 1_000_000 - 59), 59);
    assert_eq!(sleep_interval(&vec![one_time("far", i64::MAX)], i64::MIN), 60);
}

#[test]
fn sleep_interval_is_at_least_one() {
    let jobs = vec![one_time("a", 1_000)];
    assert_eq!(sleep_interval(&jobs, 1_000), 1);
    assert_eq!(sleep_interval(&jobs, 5_000), 1);
    assert_eq!(sleep_interval(&vec![one_time("old", i64::MIN)], i64::MAX), 1);
}

#[test]
fn sleep_interval_of_an_empty_set_is_an_hour() {
    assert_eq!(sleep_interval(&Vec::new(), 1_000), 3_600);
    assert_eq!(IDLE_SLEEP_SECONDS, 3_600);
    assert_eq!(MAX_SLEEP_SECONDS, 60);
    assert_eq!(MIN_SLEEP_SECONDS, 1);
}

#[test]
fn sleep_interval_looks_at_the_earliest_wherever_it_stands() {
    let jobs = vec![one_time("late", 1_050), one_time("early", 1_010), one_time("mid", 1_020)];
    assert_eq!(sleep_interval(&jobs, 1_000), 10);
}

#[test]
fn capped_sleep_cuts_at_sixty() {
    assert_eq!(capped_sleep(3_600), 60);
    assert_eq!(capped_sleep(61), 60);
    assert_eq!(capped_sleep(60), 60);
    assert_eq!(capped_sleep(59), 59);
    assert_eq!(capped_sleep(1), 1);
    assert_eq!(capped_sleep(0), 0);
    assert_eq!(capped_sleep(u64::MAX), 60);
}

#[test]
fn cycle_fires_what_is_due_earliest_first() {
    let mut jobs = vec![one_time("c", 30), one_time("a", 10), one_time("z", 99), one_time("b", 20)];
    let cycle = run_cycle(&mut jobs, 30);
    assert_eq!(names(&cycle.fired), vec!["a", "b", "c"]);
    assert_eq!(names(&jobs), vec!["z"]);
    assert_eq!(cycle.sleep_seconds, 60);
}

#[test]
fn cycle_with_nothing_due_only_sorts() {
    let mut jobs = vec![one_time("b", 1_020), recurring("a", "5s", 1_010)];
    let cycle = run_cycle(&mut jobs, 1_000);
    assert!(cycle.fired.is_empty());
    assert_eq!(names(&jobs), vec!["a", "b"]);
    assert_eq!(cycle.sleep_seconds, 10);
}

#[test]
fn cycle_on_an_empty_set_sleeps_the_longest_sleep() {
    let mut jobs: Vec<ScheduledJob> = Vec::new();
    let cycle = run_cycle(&mut jobs, 1_000);
    assert!(cycle.fired.is_empty());
    assert!(jobs.is_empty());
    assert_eq!(cycle.sleep_seconds, 60);
}

#[test]
fn recurring_entry_goes_back_one_interval_after_its_time() {
    let mut jobs = vec![recurring("a", "10s", 1_000)];
    let cycle = run_cycle(&mut jobs, 1_000);
    assert_eq!(cycle.fired, vec![recurring("a", "10s", 1_000)]);
    assert_eq!(jobs, vec![recurring("a", "10s", 1_010)]);
    assert_eq!(cycle.sleep_seconds, 10);
}

#[test]
fn late_detection_does_not_move_the_schedule() {
    for late in [0i64, 1, 3, 9] {
        let mut jobs = vec![recurring("a", "10s", 1_000)];
        let cycle = run_cycle(&mut jobs, 1_000 + late);
        assert_eq!(cycle.fired.len(), 1);
        assert_eq!(jobs.len(), 1);
        assert_eq!(jobs[0].next_run_at, 1_010);
        assert_eq!(cycle.sleep_seconds as i64, 10 - late);
    }
}

#[test]
fn missed_ticks_are_caught_up_one_per_cycle() {
    let mut jobs = vec![recurring("a", "10s", 1_000)];
    let now = 1_025;
    let first = run_cycle(&mut jobs, now);
    assert_eq!(first.fired.len(), 1);
    assert_eq!(jobs[0].next_run_at, 1_010);
    assert_eq!(first.sleep_seconds, 1);
    let second = run_cycle(&mut jobs, now);
    assert_eq!(second.fired[0].next_run_at, 1_010);
    assert_eq!(jobs[0].next_run_at, 1_020);
    assert_eq!(second.sleep_seconds, 1);
    let third = run_cycle(&mut jobs, now);
    assert_eq!(third.fired[0].next_run_at, 1_020);
    assert_eq!(jobs[0].next_run_at, 1_030);
    assert_eq!(third.sleep_seconds, 5);
    let fourth = run_cycle(&mut jobs, now);
    assert!(fourth.fired.is_empty());
}

#[test]
fn one_time_entry_fires_once_and_is_gone() {
    let mut jobs = vec![one_time("once", 1_000), recurring("again", "1m", 1_000)];
    let first = run_cycle(&mut jobs, 1_000);
    assert_eq!(names(&first.fired), vec!["once", "again"]);
    assert_eq!(names(&jobs), vec!["again"]);
    let mut now = 1_000;
    for _ in 0..50 {
        now += 60;
        let cycle = run_cycle(&mut jobs, now);
        assert_eq!(names(&cycle.fired), vec!["again"]);
        assert!(jobs.iter().all(|e| e.job.description != "once"));
        assert_eq!(jobs.len(), 1);
    }
    assert_eq!(jobs[0].next_run_at, 1_000 + 51 * 60);
}

#[test]
fn trigger_with_both_fields_fires_once() {
    let both = ScheduledJob {
        job: job("both"),
        trigger: Trigger {
            on_calendar: Some("2031-02-27 12:00:00".to_string()),
            every: Some("1s".to_string()),
        },
        next_run_at: 1_000,
    };
    let mut jobs = vec![both];
    let cycle = run_cycle(&mut jobs, 1_000);
    assert_eq!(names(&cycle.fired), vec!["both"]);
    assert!(jobs.is_empty());
}

#[test]
fn renewed_entry_takes_its_place_in_the_order() {
    let mut jobs = vec![
        recurring("fast", "5s", 1_000),
        one_time("soon", 1_003),
        one_time("later", 1_008),
    ];
    let cycle = run_cycle(&mut jobs, 1_000);
    assert_eq!(names(&cycle.fired), vec!["fast"]);
    assert_eq!(names(&jobs), vec!["soon", "fast", "later"]);
    assert_eq!(jobs[1].next_run_at, 1_005);
    assert_eq!(cycle.sleep_seconds, 3);
}

#[test]
fn sleep_follows_a_renewal_that_is_the_earliest() {
    // The renewed entry runs before the entry that waited: the sleep is
    // measured to the renewal.
    let mut jobs = vec![recurring("a", "2s", 1_000), one_time("b", 1_100)];
    let cycle = run_cycle(&mut jobs, 1_000);
    assert_eq!(names(&jobs), vec!["a", "b"]);
    assert_eq!(cycle.sleep_seconds, 2);
}

#[test]
fn set_is_in_order_after_every_cycle() {
    let mut jobs = vec![
        recurring("a", "7s", 1_000),
        recurring("b", "3s", 1_001),
        one_time("c", 1_010),
        recurring("d", "11s", 999),
        one_time("e", 1_002),
        recurring("f", "bad", 1_000),
    ];
    let mut fired_once: Vec<String> = Vec::new();
    for now in 1_000..1_040 {
        let cycle = run_cycle(&mut jobs, now);
        for i in 0..jobs.len().saturating_sub(1) {
            assert!(jobs[i].next_run_at <= jobs[i + 1].next_run_at);
        }
        for e in &jobs {
            assert!(e.next_run_at > now || e.trigger.on_calendar.is_none());
        }
        for e in &cycle.fired {
            assert!(e.next_run_at <= now);
            if e.trigger.on_calendar.is_some() || e.job.description == "f" {
                assert!(!fired_once.contains(&e.job.description));
                fired_once.push(e.job.description.clone());
            }
        }
        assert!(1 <= cycle.sleep_seconds && cycle.sleep_seconds <= 60);
    }
    fired_once.sort();
    assert_eq!(fired_once, vec!["c", "e", "f"]);
    assert_eq!(names(&jobs).len(), 3);
}
