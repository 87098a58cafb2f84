use chrono::{Local, NaiveDateTime, TimeZone, Utc};
use familiar::heartbeat::{Due, Recovery, Schedule};
use familiar::jobs::{pick, Destination, Job, Jobs, Source};
use familiar::thread::Heartbeat;
use familiar::time::{Clock, Moment, Stamp, Weekday};

fn local(text: &str) -> Moment {
    let when = Local
        .from_local_datetime(
            &NaiveDateTime::parse_from_str(text, "%Y-%m-%d %H:%M").expect("a time"),
        )
        .earliest()
        .expect("a local time");
    Moment {
        seconds: when.timestamp(),
        nanos: when.timestamp_subsec_nanos(),
        offset: when.offset().local_minus_utc(),
    }
}

fn utc(moment: Moment) -> Stamp {
    Stamp { seconds: moment.seconds, nanos: moment.nanos }
}

fn now() -> Stamp {
    let now = Utc::now();
    Stamp { seconds: now.timestamp(), nanos: now.timestamp_subsec_nanos() }
}

fn at(hour: u32, minute: u32) -> Clock {
    Clock::at(hour, minute).expect("a time")
}

fn briefing(id: &str, thread: &str) -> Job {
    Job::new(
        id,
        Schedule::Daily { at: at(7, 0) },
        "the morning briefing",
        Destination::Chat {
            slug: "default".into(),
            thread: thread.into(),
        },
    )
}

#[test]
fn a_chat_can_be_the_destination_of_several_jobs() {
    // Setting a second schedule on a chat must not destroy the first.
    let mut jobs = Jobs::default();
    jobs.add(briefing("morning", "chat-1"), now());
    let mut evening = briefing("evening", "chat-1");
    evening.schedule = Schedule::Daily { at: at(18, 0) };
    jobs.add(evening, now());

    assert_eq!(jobs.jobs.len(), 2);
    assert_eq!(jobs.for_chat("default", "chat-1").len(), 2);
    assert!(jobs.get("morning").is_some(), "the first must survive");
}

#[test]
fn adding_a_job_with_a_taken_id_mints_a_new_one_instead_of_replacing() {
    let mut jobs = Jobs::default();
    jobs.add(briefing("same", "chat-1"), now());
    let id = jobs.add(briefing("same", "chat-2"), now());
    assert_ne!(id, "same");
    assert_eq!(jobs.jobs.len(), 2, "nothing may be silently overwritten");
}

#[test]
fn the_most_overdue_job_runs_first() {
    // A backlog drains in the order it accumulated. Picking by file order
    // would starve whichever job happened to be written last.
    let mut jobs = Jobs::default();
    let mut early = briefing("early", "chat-1");
    early.recovery = Recovery::Whenever;
    early.schedule = Schedule::Daily { at: at(6, 0) };
    early.last_run = Some(utc(local("2026-08-02 06:00")));
    let mut late = briefing("late", "chat-2");
    late.recovery = Recovery::Whenever;
    late.schedule = Schedule::Daily { at: at(8, 0) };
    late.last_run = Some(utc(local("2026-08-02 08:00")));
    // Deliberately out of order in the file.
    jobs.add(late, now());
    jobs.add(early, now());

    let (job, _, at) = jobs
        .next_due(local("2026-08-03 09:00"))
        .expect("one is due");
    assert_eq!(job.id, "early");
    assert_eq!(at, local("2026-08-03 06:00"));
}

#[test]
fn a_paused_job_is_never_due() {
    let mut job = briefing("paused", "chat-1");
    job.enabled = false;
    job.recovery = Recovery::Whenever;
    job.last_run = Some(utc(local("2026-07-20 07:00")));
    assert_eq!(job.due(local("2026-08-03 09:00")), None);
}

#[test]
fn a_job_with_an_empty_prompt_never_runs() {
    // There is nothing to submit, and submitting nothing spends a turn to
    // produce an answer to no question.
    let mut job = briefing("blank", "chat-1");
    job.prompt = "   ".into();
    job.last_run = Some(utc(local("2026-08-02 07:00")));
    assert_eq!(job.due(local("2026-08-03 07:00")), None);
}

#[test]
fn deleting_a_chat_takes_its_jobs_with_it() {
    // A job pointing at a chat that is gone would run forever against
    // nothing, writing turns nobody can reach.
    let mut jobs = Jobs::default();
    jobs.add(briefing("a", "chat-1"), now());
    jobs.add(briefing("b", "chat-1"), now());
    jobs.add(briefing("c", "chat-2"), now());

    assert_eq!(jobs.forget_chat("default", "chat-1"), 2);
    assert_eq!(jobs.jobs.len(), 1);
    assert_eq!(jobs.jobs[0].id, "c");
}

#[test]
fn deleting_a_project_takes_its_jobs_with_it() {
    let mut jobs = Jobs::default();
    jobs.add(briefing("a", "chat-1"), now());
    let mut elsewhere = briefing("b", "chat-9");
    elsewhere.destination = Destination::Chat {
        slug: "other".into(),
        thread: "chat-9".into(),
    };
    jobs.add(elsewhere, now());

    assert_eq!(jobs.forget_project("other"), 1);
    assert_eq!(jobs.jobs.len(), 1);
    assert_eq!(jobs.jobs[0].id, "a");
}

#[test]
fn a_job_names_itself_from_its_prompt_when_nobody_named_it() {
    // A scheduled job is the kind you go looking for weeks later in a list,
    // and "Untitled" in a list of five is useless.
    let job = briefing("x", "chat-1");
    assert_eq!(job.title(), "the morning briefing");

    let mut named = briefing("y", "chat-1");
    named.name = "Morning Briefing".into();
    assert_eq!(named.title(), "Morning Briefing");
}

#[test]
fn a_long_prompt_is_cut_rather_than_filling_the_list() {
    let mut job = briefing("x", "chat-1");
    job.prompt = "a".repeat(200);
    let title = job.title();
    assert!(title.chars().count() <= 60, "{title}");
    assert!(title.ends_with('…'));
}

#[test]
fn the_systems_own_jobs_are_not_editable() {
    // Consolidation's cadence lives in Preferences. Offering it twice is
    // how two places come to disagree.
    assert!(!Source::System.editable());
    assert!(Source::User.editable());
    assert!(
        Source::Agent.editable(),
        "the model setting it up does not make it the model's"
    );
}

#[test]
fn a_fresh_chat_job_belongs_to_a_project_but_to_no_thread() {
    let job = Job::new(
        "weekly",
        Schedule::Weekly {
            day: Weekday::Mon,
            at: at(9, 0),
        },
        "the weekly review",
        Destination::FreshChat {
            slug: "work".into(),
        },
    );
    assert_eq!(job.destination.slug(), Some("work"));
    assert_eq!(job.destination.thread(), None);
    // And deleting a chat must not take it with them.
    let mut jobs = Jobs::default();
    jobs.add(job, now());
    assert_eq!(jobs.forget_chat("work", "chat-1"), 0);
    assert_eq!(jobs.forget_project("work"), 1);
}

#[test]
fn migrating_a_heartbeat_keeps_its_clock_and_its_recovery() {
    // Resetting `last_run` would make every schedule on the machine fire at
    // once the first time the new build starts.
    let mut beat = Heartbeat::new(Schedule::Daily { at: at(7, 0) }, "the morning briefing");
    beat.recovery = Recovery::SameDay;
    beat.enabled = false;
    beat.last_run = Some(utc(local("2026-08-02 07:00")));
    beat.last_outcome = Some("Nothing to report.".into());

    let jobs = Jobs::migrated(&vec![("default".to_string(), "chat-1".to_string(), beat.clone())]);
    assert_eq!(jobs.jobs.len(), 1);
    let job = &jobs.jobs[0];
    assert_eq!(job.last_run, beat.last_run);
    assert_eq!(job.recovery, Recovery::SameDay);
    assert!(!job.enabled, "a paused schedule stays paused");
    assert_eq!(job.last_outcome.as_deref(), Some("Nothing to report."));
    assert_eq!(
        job.destination,
        Destination::Chat {
            slug: "default".into(),
            thread: "chat-1".into()
        }
    );
    assert!(
        job.source.editable(),
        "a migrated schedule must stay editable"
    );
}

#[test]
fn migrating_gives_each_chat_a_distinct_job_id() {
    let beat = Heartbeat::new(Schedule::Daily { at: at(7, 0) }, "a briefing");
    let jobs = Jobs::migrated(&vec![
        ("default".to_string(), "chat-1".to_string(), beat.clone()),
        ("default".to_string(), "chat-2".to_string(), beat.clone()),
        ("work".to_string(), "chat-3".to_string(), beat),
    ]);
    let mut ids: Vec<&str> = jobs.jobs.iter().map(|job| job.id.as_str()).collect();
    ids.sort_unstable();
    ids.dedup();
    assert_eq!(ids.len(), 3, "ids collided: {ids:?}");
}

#[test]
fn minting_an_id_twice_in_the_same_second_still_gives_two() {
    let now = now();
    let first = Job::mint(now, &vec![]);
    let second = Job::mint(now, &vec![first.clone()]);
    assert_ne!(first, second);
}

#[test]
fn an_id_is_the_clock_to_the_second_and_then_a_number() {
    // 2026-08-02T12:00:00Z
    let noon = Stamp { seconds: 1_785_672_000, nanos: 7 };
    assert_eq!(Job::mint(noon, &vec![]), "job-20260802-120000");
    assert_eq!(
        Job::mint(noon, &vec!["job-20260802-120000".to_string()]),
        "job-20260802-120000-2"
    );
    assert_eq!(
        Job::mint_from("a", &vec!["a".to_string(), "a-2".to_string(), "a-4".to_string()]),
        "a-3"
    );
}

#[test]
fn the_earliest_occurrence_is_picked() {
    let one = local("2026-08-03 06:00");
    let two = local("2026-08-03 08:00");
    assert_eq!(pick(&vec![]), None);
    assert_eq!(pick(&vec![None, None]), None);
    assert_eq!(pick(&vec![None, Some((Due::Late, two)), Some((Due::Regular, one))]), Some(2));
    assert_eq!(pick(&vec![Some((Due::Late, one)), Some((Due::Regular, one))]), Some(0));
}

#[test]
fn a_job_is_found_changed_and_removed_by_its_id() {
    let mut jobs = Jobs::default();
    jobs.add(briefing("a", "chat-1"), now());
    jobs.add(briefing("b", "chat-1"), now());
    assert!(jobs.get("c").is_none());
    assert!(jobs.get_mut("c").is_none());
    jobs.get_mut("b").expect("b").enabled = false;
    assert!(!jobs.get("b").expect("b").enabled);
    assert_eq!(jobs.remove("a").map(|job| job.id), Some("a".to_string()));
    assert_eq!(jobs.remove("a"), None);
    assert_eq!(jobs.jobs.len(), 1);
}

#[test]
fn the_next_run_is_counted_from_the_last_one() {
    let mut job = briefing("a", "chat-1");
    let now = local("2026-08-03 09:00");
    assert_eq!(job.next_run(now), Some(local("2026-08-04 07:00")));
    job.enabled = false;
    assert_eq!(job.next_run(now), None);
}

#[test]
fn a_job_with_no_destination_belongs_to_nothing() {
    assert_eq!(Destination::Nothing.slug(), None);
    assert_eq!(Destination::Nothing.thread(), None);
    assert_eq!(Source::default(), Source::User);
}
