use familiar::memory::observation::{
    is_familiars, normalise, parse, render, restamp, stamp_of, text_of, Kind, Observation, MARK, TAG,
};
use familiar::time::Stamp;

fn at(text: &str) -> Stamp {
    let when = chrono::DateTime::parse_from_rfc3339(text).expect("date");
    Stamp { seconds: when.timestamp(), nanos: when.timestamp_subsec_nanos() }
}

fn now() -> Stamp {
    at("2026-08-02T09:00:00Z")
}

/// A date as the number of its day.
fn day(text: &str) -> i64 {
    let date: chrono::NaiveDate = text.parse().expect("date");
    at(&format!("{date}T00:00:00Z")).date()
}

/// What an observation is worth: its kind's weight, halved every half life, and
/// raised by the logarithm of its uses.
fn score(observation: &Observation, uses: u32, now: Stamp) -> f32 {
    let decay = match observation.age_days(now) {
        Some(age) => 0.5f32.powf(age as f32 / observation.kind.half_life_days() as f32),
        None => 1.0,
    };
    observation.kind.weight() as f32 / 10.0 * decay * (1.0 + (uses as f32).ln_1p())
}

fn observation(kind: Kind, saved: &str) -> Observation {
    Observation {
        note: "Familiar/Matthew.md".into(),
        subject: "Matthew".into(),
        text: "prefers small commits".into(),
        kind,
        saved: Some(day(saved)),
    }
}

#[test]
fn a_rendered_line_round_trips_through_the_parser() {
    let line = render("prefers small commits", Kind::Preference, None, now());
    let parsed = parse("Familiar/Matthew.md", "Matthew", &line).expect("an observation");
    assert_eq!(parsed.text, "prefers small commits");
    assert_eq!(parsed.kind, Kind::Preference);
    assert_eq!(parsed.saved, Some(day("2026-08-02")));
}

#[test]
fn a_relation_survives_the_round_trip_as_a_wikilink() {
    let line = render("is built on GTK", Kind::Fact, Some("Brain"), now());
    assert!(line.contains("[[Brain]]"), "{line}");
    let parsed = parse("Familiar/Familiar.md", "Familiar", &line).expect("an observation");
    assert!(parsed.text.contains("[[Brain]]"), "{parsed:?}");
}

#[test]
fn a_line_written_before_kinds_existed_still_reads() {
    // Nothing rewrites a vault, so this has to keep parsing for as long as
    // anyone's notes hold one.
    let old = "- writes Rust for GNOME #familiar <!-- 2026-07-14 -->";
    let parsed = parse("Familiar/Matthew.md", "Matthew", old).expect("an observation");
    assert_eq!(parsed.text, "writes Rust for GNOME");
    assert_eq!(parsed.kind, Kind::Fact);
    assert_eq!(parsed.saved, Some(day("2026-07-14")));
}

#[test]
fn a_line_a_person_edited_the_comment_off_is_kept_rather_than_dropped() {
    let edited = "- writes Rust for GNOME #familiar";
    let parsed = parse("Familiar/Matthew.md", "Matthew", edited).expect("an observation");
    assert_eq!(parsed.kind, Kind::Fact);
    assert_eq!(parsed.saved, None);
}

#[test]
fn a_line_familiar_did_not_write_is_not_one_of_ours() {
    assert!(parse("Rust.md", "Rust", "- moves are destructive").is_none());
    assert!(parse("Rust.md", "Rust", "Some prose #familiar").is_none());
}

#[test]
fn an_older_observation_is_worth_less_than_a_new_one_of_the_same_kind() {
    let fresh = observation(Kind::Fact, "2026-08-01");
    let stale = observation(Kind::Fact, "2026-05-01");
    assert!(score(&fresh, 0, now()) > score(&stale, 0, now()));
    // And 93 days is about two half-lives, so it should be down near a
    // quarter rather than nudged.
    assert!(score(&stale, 0, now()) < score(&fresh, 0, now()) / 3.0);
}

#[test]
fn a_profile_fact_barely_decays_and_a_loose_fact_does() {
    let old = "2025-08-02";
    let profile = Observation {
        kind: Kind::Profile,
        ..observation(Kind::Profile, old)
    };
    let fact = observation(Kind::Fact, old);
    // A year on, the profile fact is still nearly its full weight and the
    // loose fact is nearly gone.
    assert!(score(&profile, 0, now()) > 0.9);
    assert!(score(&fact, 0, now()) < 0.05);
}

#[test]
fn being_reached_for_keeps_something_alive_without_letting_it_run_away() {
    let stale = observation(Kind::Fact, "2026-05-01");
    let unused = score(&stale, 0, now());
    let used_twice = score(&stale, 2, now());
    let used_forty = score(&stale, 40, now());
    assert!(used_twice > unused * 1.5, "use has to matter");
    // Damped: forty uses is not twenty times two uses.
    assert!(
        used_forty < used_twice * 3.0,
        "{used_forty} vs {used_twice}"
    );
}

#[test]
fn an_undated_line_does_not_decay_to_nothing() {
    // The oldest lines in a vault are the ones with no date, and they are
    // disproportionately profile facts. Guessing an age for them would
    // quietly delete exactly the wrong things.
    let undated = Observation {
        saved: None,
        ..observation(Kind::Fact, "2026-01-01")
    };
    assert_eq!(score(&undated, 0, now()), Kind::Fact.weight() as f32 / 10.0);
}

#[test]
fn a_core_kind_is_one_that_has_to_be_in_front_of_the_model() {
    // A preference it would have to look up is a preference it will not
    // honour: nothing in the turn tells it to go looking.
    assert!(Kind::Profile.is_core());
    assert!(Kind::Preference.is_core());
    assert!(!Kind::Project.is_core());
    assert!(!Kind::Fact.is_core());
}

#[test]
fn the_same_sentence_saved_twice_has_the_same_key() {
    let one = Observation {
        text: "Prefers small, single-purpose commits.".into(),
        ..observation(Kind::Preference, "2026-08-01")
    };
    let two = Observation {
        text: "prefers small single purpose commits".into(),
        ..observation(Kind::Preference, "2026-06-01")
    };
    assert_eq!(one.key(), two.key());
}

#[test]
fn two_observations_in_different_notes_are_different_keys() {
    let one = observation(Kind::Fact, "2026-08-01");
    let two = Observation {
        note: "Familiar/Rust.md".into(),
        ..one.clone()
    };
    assert_ne!(one.key(), two.key());
}

#[test]
fn refiling_a_line_keeps_its_text_and_the_day_it_was_saved() {
    // Resetting the date would make every reclassified observation look
    // brand new and therefore immortal, which would turn the safest
    // operation the dream has into a way of exempting things from expiry.
    let line = render("prefers metric", Kind::Fact, None, now());
    let refiled = restamp(&line, Kind::Preference);
    let parsed = parse("Familiar/Matthew.md", "Matthew", &refiled).expect("an observation");
    assert_eq!(parsed.kind, Kind::Preference);
    assert_eq!(parsed.text, "prefers metric");
    assert_eq!(parsed.saved, Some(day("2026-08-02")));
}

#[test]
fn refiling_a_line_written_before_kinds_existed_keeps_its_date_too() {
    let old = "- writes Rust for GNOME #familiar <!-- 2026-07-14 -->";
    let parsed = parse("n.md", "n", &restamp(old, Kind::Profile)).expect("an observation");
    assert_eq!(parsed.kind, Kind::Profile);
    assert_eq!(parsed.saved, Some(day("2026-07-14")));
}

#[test]
fn refiling_an_undated_line_leaves_it_undated() {
    let bare = "- writes Rust for GNOME #familiar";
    let parsed = parse("n.md", "n", &restamp(bare, Kind::Profile)).expect("an observation");
    assert_eq!(parsed.kind, Kind::Profile);
    assert_eq!(parsed.saved, None);
}

#[test]
fn every_kind_reads_back_from_what_it_writes() {
    for kind in Kind::all() {
        assert_eq!(Kind::parse(kind.label()), Some(kind));
    }
    assert_eq!(Kind::parse("nonsense"), None);
}

#[test]
fn an_age_is_counted_in_days_and_never_runs_backwards() {
    let saved = observation(Kind::Fact, "2026-05-01");
    assert_eq!(saved.age_days(now()), Some(93));
    assert_eq!(observation(Kind::Fact, "2026-09-01").age_days(now()), Some(0));
    let undated = Observation { saved: None, ..saved };
    assert_eq!(undated.age_days(now()), None);
}

#[test]
fn a_line_is_marked_tagged_and_stamped() {
    let line = render("  prefers metric ", Kind::Preference, Some("Units"), now());
    assert_eq!(
        line,
        "- prefers metric — see [[Units]] #familiar <!-- familiar preference 2026-08-02 -->"
    );
    assert!(line.starts_with(MARK) && line.contains(TAG));
    assert!(is_familiars(&line));
    assert_eq!(text_of(&line), "prefers metric — see [[Units]]");
    assert_eq!(stamp_of(&line), (Kind::Preference, Some(day("2026-08-02"))));
    assert_eq!(stamp_of("- a #familiar <!-- whatever -->"), (Kind::Fact, None));
}

#[test]
fn a_key_ignores_how_a_sentence_is_punctuated() {
    assert_eq!(normalise("  Prefers SMALL, single-purpose commits! "), "prefers small single purpose commits");
    let held = observation(Kind::Fact, "2026-08-01");
    assert_eq!(held.key(), "Familiar/Matthew.md\u{1f}prefers small commits");
    assert_eq!(held.line(), "Matthew: prefers small commits");
    assert_eq!(held.copy(), held);
}

#[test]
fn a_kind_outranks_the_ones_that_fade_sooner() {
    assert!(Kind::Profile.outranks(Kind::Fact));
    assert!(!Kind::Fact.outranks(Kind::Profile));
    assert!(!Kind::Fact.outranks(Kind::Fact));
    assert_eq!(Kind::from_lowercase("preference"), Some(Kind::Preference));
    assert_eq!(Kind::from_lowercase("Preference"), None);
    assert_eq!(Kind::parse(" Preference "), Some(Kind::Preference));
}

#[test]
fn normalising_again_changes_nothing() {
    let once = normalise("  Moves, in RUST -- are\tdestructive (really)! ");
    assert_eq!(once, "moves in rust are destructive really");
    assert_eq!(normalise(&once), once);
    assert_eq!(normalise("moves in rust: are destructive; really"), once);
}

#[test]
fn any_line_can_be_filed_under_another_kind() {
    for line in ["mine", "", "  <!-- familiar fact 2026-01-02 -->", "- a #familiar <!-- familiar 2026-01-02 -->"] {
        let filed = restamp(line, Kind::Preference);
        assert_eq!(text_of(&filed), text_of(line), "{line}");
        assert_eq!(stamp_of(&filed), (Kind::Preference, stamp_of(line).1), "{line}");
    }
}
