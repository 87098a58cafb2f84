use chrono::{Local, NaiveDateTime, TimeZone};
use familiar::heartbeat::{
    clock_face, guidance, parse, preamble, preamble_for, Due, Recovery, Schedule, GRACE,
};
use familiar::time::{
    accept, ask, later, moment_at, settle, weekday_of, Clock, Moment, Resolution, Weekday,
};

/// A fixed instant in the machine's zone, which for these tests only has to be
/// self-consistent.
fn local(text: &str) -> Moment {
    let when = Local
        .from_local_datetime(
            &NaiveDateTime::parse_from_str(text, "%Y-%m-%d %H:%M").expect("a time"),
        )
        .earliest()
        .expect("a local time");
    Moment {
        seconds: when.timestamp(),
        nanos: when.timestamp_subsec_nanos(),
        offset: when.offset().local_minus_utc(),
    }
}

fn at(hour: u32, minute: u32) -> Clock {
    Clock::at(hour, minute).expect("a time")
}

#[test]
fn the_four_shapes_are_understood_however_the_time_is_written() {
    assert_eq!(
        parse("daily at 07:00"),
        Some(Schedule::Daily {
            at: at(7, 0)
        })
    );
    assert_eq!(
        parse("weekdays at 8am"),
        Some(Schedule::Weekdays {
            at: at(8, 0)
        })
    );
    assert_eq!(
        parse("Mondays at 9:30"),
        Some(Schedule::Weekly {
            day: Weekday::Mon,
            at: at(9, 30)
        })
    );
    assert_eq!(parse("every 4 hours"), Some(Schedule::Hours { hours: 4 }));
    assert_eq!(parse("hourly"), Some(Schedule::Hours { hours: 1 }));
}

#[test]
fn afternoon_times_are_the_afternoon() {
    // "7pm" becoming 07:00 is the kind of wrong that is only noticed twelve
    // hours later, by which time the user has stopped believing in it.
    assert_eq!(
        parse("daily at 7pm"),
        Some(Schedule::Daily {
            at: at(19, 0)
        })
    );
    assert_eq!(
        parse("daily at 12am"),
        Some(Schedule::Daily {
            at: at(0, 0)
        })
    );
    assert_eq!(
        parse("every day at 19:30"),
        Some(Schedule::Daily {
            at: at(19, 30)
        })
    );
}

#[test]
fn a_bare_time_is_a_daily_one() {
    // The commonest thing anybody asks for, and refusing it would be
    // pedantry rather than safety.
    assert_eq!(
        parse("at 7am"),
        Some(Schedule::Daily {
            at: at(7, 0)
        })
    );
}

#[test]
fn a_phrase_with_no_time_in_it_is_refused_rather_than_guessed_at() {
    // A briefing that silently lands at midnight is worse than one that was
    // never set up, because the user believes in it.
    assert_eq!(parse("sometimes"), None);
    assert_eq!(parse(""), None);
    assert_eq!(parse("when the roof is finished"), None);
}

#[test]
fn the_guidance_says_what_it_is_not() {
    // The whole reason this exists: the assistant made a Planner task for a
    // morning briefing and then said it had no scheduler at all.
    let note = guidance();
    assert!(note.contains("not a reminder"), "{note}");
    assert!(note.contains("not a task in a task list"), "{note}");
}

#[test]
fn daily_fires_at_the_next_occurrence_of_the_time() {
    let daily = Schedule::Daily { at: at(7, 0) };
    // Before today's, it is today's.
    assert_eq!(
        daily.next_after(local("2026-08-03 06:00")),
        local("2026-08-03 07:00")
    );
    // After today's, it is tomorrow's.
    assert_eq!(
        daily.next_after(local("2026-08-03 07:30")),
        local("2026-08-04 07:00")
    );
    // Exactly on it, it is tomorrow's — strictly after, or a run would
    // immediately be due again.
    assert_eq!(
        daily.next_after(local("2026-08-03 07:00")),
        local("2026-08-04 07:00")
    );
}

#[test]
fn weekdays_skips_the_weekend() {
    let weekdays = Schedule::Weekdays { at: at(7, 0) };
    // 2026-08-07 is a Friday.
    assert_eq!(
        weekdays.next_after(local("2026-08-07 08:00")),
        local("2026-08-10 07:00"),
        "Friday evening should go to Monday"
    );
    assert_eq!(
        weekdays.next_after(local("2026-08-08 12:00")),
        local("2026-08-10 07:00"),
        "Saturday should go to Monday"
    );
}

#[test]
fn weekly_lands_on_its_day() {
    let weekly = Schedule::Weekly {
        day: Weekday::Mon,
        at: at(9, 0),
    };
    let next = weekly.next_after(local("2026-08-05 12:00"));
    assert_eq!(weekday_of(next.date()), Weekday::Mon);
    assert_eq!(next, local("2026-08-10 09:00"));
}

#[test]
fn hourly_counts_from_the_last_run() {
    let every = Schedule::Hours { hours: 4 };
    assert_eq!(
        every.next_after(local("2026-08-03 06:00")),
        local("2026-08-03 10:00")
    );
}

#[test]
fn a_nonsense_interval_is_clamped_rather_than_looping_forever() {
    // `Hours { hours: 0 }` would make every tick due, which is a busy loop
    // against the GPU.
    let broken = Schedule::Hours { hours: 0 };
    let next = broken.next_after(local("2026-08-03 06:00"));
    assert!(local("2026-08-03 06:00").before(&next), "{next:?}");
}

#[test]
fn a_schedule_that_has_never_run_does_not_fire_immediately() {
    // Setting up a 07:00 daily at 09:00 must not instantly fire for the
    // 07:00 that has already gone.
    let daily = Schedule::Daily { at: at(7, 0) };
    assert_eq!(
        daily.due(None, local("2026-08-03 09:00"), Recovery::OnTime),
        None
    );
}

#[test]
fn a_run_fires_once_the_moment_has_passed() {
    let daily = Schedule::Daily { at: at(7, 0) };
    let last = local("2026-08-02 07:00");
    assert_eq!(
        daily.due(Some(last), local("2026-08-03 06:59"), Recovery::OnTime),
        None
    );
    assert_eq!(
        daily.due(Some(last), local("2026-08-03 07:00"), Recovery::OnTime),
        Some((Due::Regular, local("2026-08-03 07:00")))
    );
}

#[test]
fn a_run_a_few_minutes_late_still_happens_and_says_so() {
    // The tick is every minute and a streaming turn defers a run, so a few
    // minutes of slack is ordinary rather than exceptional.
    let daily = Schedule::Daily { at: at(7, 0) };
    let last = local("2026-08-02 07:00");
    assert_eq!(
        daily.due(Some(last), local("2026-08-03 07:10"), Recovery::OnTime),
        Some((Due::Late, local("2026-08-03 07:00")))
    );
}

#[test]
fn a_run_the_machine_slept_through_is_skipped_when_the_job_says_on_time() {
    // A 07:00 briefing delivered at 14:00 is worse than none if that is
    // what the job asked for: the weather is stale, the pull requests have
    // moved, and nobody asked for it now.
    let daily = Schedule::Daily { at: at(7, 0) };
    let last = local("2026-08-02 07:00");
    assert_eq!(
        daily.due(Some(last), local("2026-08-03 14:00"), Recovery::OnTime),
        None
    );
}

#[test]
fn the_power_cut_case_recovers_the_same_morning() {
    // The machine was off at 07:00 and comes back at 08:40. That is not a missed briefing, it is a late one.
    let daily = Schedule::Daily { at: at(7, 0) };
    let last = local("2026-08-02 07:00");
    assert_eq!(
        daily.due(Some(last), local("2026-08-03 08:40"), Recovery::SameDay),
        Some((Due::Recovered, local("2026-08-03 07:00")))
    );
    // The next day is a different day, and one briefing per day is the
    // whole point.
    assert_eq!(
        daily.due(Some(last), local("2026-08-04 08:40"), Recovery::SameDay),
        Some((Due::Recovered, local("2026-08-04 07:00"))),
        "should recover *that* day's, not the one it missed"
    );
}

#[test]
fn a_fortnight_away_produces_one_run_and_not_fourteen() {
    // Coalescing, which is what makes recovery safe to offer at all. The
    // most recent occurrence is the only candidate however many were
    // missed — so even the most permissive policy fires once.
    let daily = Schedule::Daily { at: at(7, 0) };
    let last = local("2026-07-20 07:00");
    let back = local("2026-08-03 09:00");
    assert_eq!(
        daily.due(Some(last), back, Recovery::Whenever),
        Some((Due::Recovered, local("2026-08-03 07:00"))),
        "the candidate is this morning's, not the fourteen before it"
    );
    // And once that run is recorded, nothing else is owed until tomorrow.
    assert_eq!(daily.due(Some(back), back, Recovery::Whenever), None);
}

#[test]
fn lateness_is_measured_from_the_newest_missed_occurrence() {
    // `next_after(last)` is the *oldest* thing missed, so after a gap every
    // policy would discard it as impossibly overdue.
    let daily = Schedule::Daily { at: at(7, 0) };
    let last = local("2026-07-20 07:00");
    assert_eq!(
        daily.latest_due(last, local("2026-08-03 09:00")),
        Some(local("2026-08-03 07:00"))
    );
    assert_eq!(
        daily.next_after(last),
        local("2026-07-21 07:00"),
        "the measure for scheduling forwards"
    );
}

#[test]
fn the_grace_window_is_the_boundary_for_on_time() {
    let daily = Schedule::Daily { at: at(7, 0) };
    let last = local("2026-08-02 07:00");
    let due_at = local("2026-08-03 07:00");
    let inside = later(due_at, GRACE as i64 / 1_000_000_000 - 60);
    let outside = later(due_at, GRACE as i64 / 1_000_000_000 + 60);
    assert_eq!(
        daily.due(Some(last), inside, Recovery::OnTime),
        Some((Due::Late, due_at))
    );
    assert_eq!(daily.due(Some(last), outside, Recovery::OnTime), None);
    // The same moment is a recovery rather than nothing, for a job that
    // asked for one.
    assert_eq!(
        daily.due(Some(last), outside, Recovery::SameDay),
        Some((Due::Recovered, due_at))
    );
}

#[test]
fn latest_due_agrees_with_walking_next_after_forwards() {
    // `next_after` defines the occurrence grid, so the newest occurrence
    // at or before now must be the last step of a walk along it. Checked
    // rather than assumed, because the two are computed separately.
    for schedule in [
        Schedule::Hours { hours: 4 },
        Schedule::Daily { at: at(7, 0) },
        Schedule::Weekdays { at: at(8, 15) },
        Schedule::Weekly {
            day: Weekday::Mon,
            at: at(9, 0),
        },
    ] {
        let last = local("2026-07-20 05:00");
        let now = local("2026-08-03 09:00");
        let mut walked = None;
        let mut cursor = last;
        loop {
            let next = schedule.next_after(cursor);
            if now.before(&next) {
                break;
            }
            walked = Some(next);
            cursor = next;
        }
        assert_eq!(
            schedule.latest_due(last, now),
            walked,
            "{schedule:?} disagreed with the walk"
        );
    }
}

#[test]
fn weekly_recovery_does_not_reach_back_past_its_own_day() {
    // A Monday 09:00 job, asked on the Wednesday. The most recent
    // occurrence is Monday — not "today at nine", which never happens.
    let weekly = Schedule::Weekly {
        day: Weekday::Mon,
        at: at(9, 0),
    };
    let last = local("2026-07-27 09:00");
    assert_eq!(
        weekly.latest_due(last, local("2026-08-05 12:00")),
        Some(local("2026-08-03 09:00")),
        "2026-08-03 is a Monday"
    );
}

#[test]
fn weekdays_recovery_skips_back_over_the_weekend() {
    let weekdays = Schedule::Weekdays { at: at(7, 0) };
    // 2026-08-09 is a Sunday; the newest weekday occurrence is Friday's.
    let last = local("2026-08-06 07:00");
    assert_eq!(
        weekdays.latest_due(last, local("2026-08-09 11:00")),
        Some(local("2026-08-07 07:00")),
        "2026-08-07 is a Friday"
    );
}

#[test]
fn a_recovered_run_tells_the_model_it_is_catching_up() {
    // Without this a briefing recovered at 08:40 opens with "good morning"
    // as though it were 07:00 and reports last night's forecast as today's.
    let note = preamble(Due::Recovered, local("2026-08-03 07:00"));
    assert!(note.contains("recovered late"), "{note}");
    assert!(note.contains("off or asleep"), "{note}");
    assert!(
        note.contains("earlier occurrences were let go"),
        "the model must not think it owes thirteen more: {note}"
    );
}

#[test]
fn a_schedule_reads_as_a_sentence() {
    assert_eq!(
        Schedule::Daily { at: at(7, 0) }.describe(),
        "Daily at 07:00"
    );
    assert_eq!(
        Schedule::Weekdays { at: at(8, 15) }.describe(),
        "Weekdays at 08:15"
    );
    assert_eq!(Schedule::Hours { hours: 1 }.describe(), "Every hour");
    assert_eq!(Schedule::Hours { hours: 6 }.describe(), "Every 6 hours");
}

#[test]
fn the_model_is_told_the_turn_came_from_the_clock() {
    // Otherwise it opens with "as you asked" when nobody asked.
    let regular = preamble(Due::Regular, local("2026-08-03 07:00"));
    assert!(regular.contains("scheduled run"), "{regular}");
    assert!(regular.contains("Nobody is necessarily"), "{regular}");

    let late = preamble(Due::Late, local("2026-08-03 07:00"));
    assert!(late.contains("late"), "{late}");
    assert!(late.contains("time-sensitive"), "{late}");
}

#[test]
fn next_after_always_moves_forward() {
    // A schedule that returned a time in the past would fire every tick.
    let now = local("2026-08-03 07:00");
    for schedule in [
        Schedule::Hours { hours: 1 },
        Schedule::Daily { at: at(7, 0) },
        Schedule::Weekdays { at: at(7, 0) },
        Schedule::Weekly {
            day: Weekday::Mon,
            at: at(7, 0),
        },
    ] {
        assert!(
            now.before(&schedule.next_after(now)),
            "{} went backwards",
            schedule.describe()
        );
    }
}

#[test]
fn the_four_occurrences_are_named_and_described() {
    assert_eq!(
        Schedule::Weekly { day: Weekday::Mon, at: at(9, 0) }.describe(),
        "Mons at 09:00"
    );
    assert_eq!(clock_face(at(7, 5)), "07:05");
    assert_eq!(Schedule::Hours { hours: 0 }.describe(), "Every 0 hours");
}

#[test]
fn a_looser_policy_allows_whatever_a_tighter_one_does() {
    let scheduled = local("2026-08-03 07:00");
    for now in ["2026-08-03 07:01", "2026-08-03 07:19", "2026-08-03 14:00", "2026-08-09 07:00"] {
        let now = local(now);
        if Recovery::OnTime.allows(scheduled, now) {
            assert!(Recovery::SameDay.allows(scheduled, now));
        }
        if Recovery::SameDay.allows(scheduled, now) {
            assert!(Recovery::Whenever.allows(scheduled, now));
        }
    }
    assert!(Recovery::OnTime.allows(scheduled, local("2026-08-03 07:20")));
    assert!(!Recovery::OnTime.allows(scheduled, local("2026-08-03 07:21")));
    assert!(!Recovery::SameDay.allows(scheduled, local("2026-08-04 00:01")));
}

#[test]
fn a_policy_is_on_time_until_somebody_chooses() {
    assert_eq!(Recovery::default(), Recovery::OnTime);
    for policy in [Recovery::OnTime, Recovery::SameDay, Recovery::Whenever] {
        assert!(!policy.describe().is_empty());
    }
}

#[test]
fn nothing_is_owed_in_the_moment_after_a_run() {
    let now = local("2026-08-03 07:00");
    for schedule in [
        Schedule::Hours { hours: 1 },
        Schedule::Daily { at: at(7, 0) },
        Schedule::Weekdays { at: at(7, 0) },
        Schedule::Weekly { day: Weekday::Mon, at: at(7, 0) },
    ] {
        assert_eq!(schedule.due(Some(now), now, Recovery::Whenever), None);
    }
}

#[test]
fn the_newest_hour_is_counted_from_the_last_run() {
    let every = Schedule::Hours { hours: 4 };
    assert_eq!(
        every.latest_due(local("2026-08-03 06:00"), local("2026-08-03 19:00")),
        Some(local("2026-08-03 18:00"))
    );
    assert_eq!(every.latest_due(local("2026-08-03 06:00"), local("2026-08-03 09:59")), None);
}

#[test]
fn occurrences_are_judged_by_how_late_they_are() {
    let now = local("2026-08-03 07:10");
    assert_eq!(Schedule::judge(None, now, Recovery::Whenever), None);
    assert_eq!(
        Schedule::judge(Some(local("2026-08-03 07:09")), now, Recovery::OnTime),
        Some((Due::Regular, local("2026-08-03 07:09")))
    );
    assert_eq!(
        Schedule::judge(Some(local("2026-08-03 07:08")), now, Recovery::OnTime),
        Some((Due::Late, local("2026-08-03 07:08")))
    );
    assert_eq!(
        Schedule::judge(Some(local("2026-08-03 06:00")), now, Recovery::SameDay),
        Some((Due::Recovered, local("2026-08-03 06:00")))
    );
}

#[test]
fn the_days_an_occurrence_can_fall_on_are_taken_in_order() {
    let daily = Schedule::Daily { at: at(7, 0) };
    let after = local("2026-08-03 07:00");
    let days = vec![local("2026-08-03 07:00"), local("2026-08-04 07:00"), local("2026-08-05 07:00")];
    assert_eq!(daily.next_among(after, &days), Some(local("2026-08-04 07:00")));
    assert_eq!(
        daily.latest_among(local("2026-08-01 07:00"), local("2026-08-04 12:00"), &vec![
            local("2026-08-04 07:00"),
            local("2026-08-03 07:00"),
        ]),
        Some(local("2026-08-04 07:00"))
    );
    assert_eq!(daily.first_after(after), local("2026-08-04 07:00"));
}

/// A moment by its instant and its clock's distance from it in hours.
fn moment(text: &str, hours: i32) -> Moment {
    let when = chrono::DateTime::parse_from_rfc3339(text).expect("a date");
    Moment { seconds: when.timestamp(), nanos: 0, offset: hours * 3600 }
}

#[test]
fn a_clock_put_back_over_midnight_does_not_run_a_day_early() {
    // The clock goes from 24:00 back to 23:00, so there are two midnights, and
    // the first of them is over when 23:30 comes round again.
    let daily = Schedule::Daily { at: at(0, 0) };
    let after = moment("2026-10-29T21:30:00Z", 2);
    let days = vec![
        moment("2026-10-28T21:00:00Z", 3),
        moment("2026-10-29T21:00:00Z", 3),
        moment("2026-10-30T22:00:00Z", 2),
    ];
    assert_eq!(daily.next_among(after, &days), Some(days[2]));
}

#[test]
fn an_occurrence_that_is_due_is_not_ahead() {
    let daily = Schedule::Daily { at: at(0, 0) };
    let last = moment("2026-10-20T00:00:00Z", 0);
    let now = moment("2026-10-29T12:00:00Z", 0);
    let days = vec![
        moment("2026-10-29T13:00:00Z", 0),
        moment("2026-10-29T12:00:01Z", 0),
        moment("2026-10-29T12:00:00Z", 0),
    ];
    assert_eq!(daily.latest_among(last, now, &days), Some(days[2]));
    assert_eq!(daily.latest_among(now, now, &days), None);
    assert_eq!(daily.latest_among(last, now, &days[..2].to_vec()), None);
}

#[test]
fn a_preamble_names_the_time_it_was_for() {
    assert!(preamble_for(Due::Regular, "07:00 on Monday").contains("07:00 on Monday"));
    assert!(preamble(Due::Regular, local("2026-08-03 07:00")).contains("07:00"));
}

#[test]
fn a_time_of_day_exists_only_within_a_day() {
    assert_eq!(Clock::at(24, 0), None);
    assert_eq!(Clock::at(0, 60), None);
    assert_eq!(at(1, 2).seconds(), 3720);
    assert_eq!(Clock::after_midnight(86_400), None);
    assert_eq!(Clock::after_midnight(3720), Some(at(1, 2)));
}

#[test]
fn a_time_on_a_date_is_where_the_zone_puts_it() {
    // 2026-08-03 is day 20668 of the epoch.
    assert_eq!(settle(20668, at(7, 0)), Some(local("2026-08-03 07:00")));
    assert_eq!(weekday_of(20668), Weekday::Mon);
    assert_eq!(weekday_of(0), Weekday::Thu);
    let noon = local("2026-08-03 12:00");
    assert_eq!(moment_at(noon.seconds, 0), noon);
    assert_eq!(noon.date(), 20668);
}

#[test]
fn a_skipped_time_is_walked_past_and_a_repeated_one_is_taken_early() {
    let early = Moment { seconds: 1_000_000, nanos: 0, offset: 7200 };
    let late = Moment { seconds: 1_003_600, nanos: 0, offset: 3600 };
    let twice = Resolution::Ambiguous(early, late);
    // The time itself, then each minute behind it, then the next midnight.
    assert_eq!(ask(100, at(2, 30), 0), Some((100, 9000)));
    assert_eq!(ask(100, at(2, 30), 1), Some((100, 9060)));
    assert_eq!(ask(100, at(2, 30), 120), Some((100, 16_200)));
    assert_eq!(ask(100, at(2, 30), 121), Some((101, 0)));
    assert_eq!(ask(100, at(2, 30), 122), None);
    assert_eq!(ask(100, at(23, 58), 1), Some((100, 86_340)));
    assert_eq!(ask(100, at(23, 58), 2), Some((101, 0)));
    // A skipped time gives nothing, so that the next is asked for.
    assert_eq!(accept(at(2, 30), 0, Resolution::Never), None);
    assert_eq!(accept(at(2, 30), 30, Resolution::Single(late)), Some(late));
    // Of two moments the earlier one is taken, but not among the minutes behind.
    assert_eq!(accept(at(2, 30), 0, twice), Some(early));
    assert_eq!(accept(at(2, 30), 0, Resolution::Ambiguous(late, early)), Some(early));
    assert_eq!(accept(at(2, 30), 5, twice), None);
    assert_eq!(accept(at(2, 30), 121, twice), Some(early));
}

#[test]
fn what_is_none_of_the_shapes_is_refused() {
    assert_eq!(parse("every 15 minutes"), None);
    assert_eq!(parse("every 30 minutes, 24 hours a day"), None);
    assert_eq!(parse("every 6  hours"), Some(Schedule::Hours { hours: 6 }));
    assert_eq!(parse("every 2 weeks on Monday at 9"), None);
    assert_eq!(parse("monthly at 9am"), None);
    assert_eq!(parse("on the 1st at 08:00"), None);
    assert_eq!(parse("7am"), Some(Schedule::Daily { at: at(7, 0) }));
    assert_eq!(parse("each day at 08:15"), Some(Schedule::Daily { at: at(8, 15) }));
    assert_eq!(parse("every Monday at 9"), Some(Schedule::Weekly { day: Weekday::Mon, at: at(9, 0) }));
}

#[test]
fn the_half_of_the_day_may_stand_apart() {
    assert_eq!(parse("daily at 7 pm"), Some(Schedule::Daily { at: at(19, 0) }));
    assert_eq!(parse("at 12 a.m."), Some(Schedule::Daily { at: at(0, 0) }));
    assert_eq!(parse("weekdays at 8 am"), Some(Schedule::Weekdays { at: at(8, 0) }));
}
