use chrono::{Local, TimeZone};
use familiar::json::Json;
use familiar::lookout::{
    read, request, subjects_in, tasks_from, tasks_in, vet, Outcome, Signals, INSTRUCTIONS,
    MAX_HEADLINE, MAX_LINES,
};
use familiar::time::Moment;
use familiar::wire::Role;

fn signals() -> Signals {
    Signals {
        tasks: vec!["Renew the lease — due today".into()],
        mail: vec!["Ada Prins — Invoice 8871, payment due Friday".into()],
        alerts: Vec::new(),
        context: vec!["Familiar: a GTK 4 desktop assistant".into()],
    }
}

#[test]
fn a_check_with_nothing_in_it_is_never_sent() {
    // Asking a model to find something in nothing is how a model invents
    // something.
    assert!(!Signals::default().worth_asking());
    assert!(!Signals {
        context: vec!["they write Rust".into()],
        ..Signals::default()
    }
    .worth_asking());
    assert!(signals().worth_asking());
}

#[test]
fn quiet_is_the_answer_in_every_shape_a_model_writes_it() {
    for reply in [
        "QUIET",
        "quiet",
        "  QUIET  ",
        "Nothing worth reporting today.",
        "Nothing urgent.",
        "",
    ] {
        assert!(read(reply).is_quiet(), "{reply:?} was not read as quiet");
    }
}

#[test]
fn a_real_notice_survives() {
    let outcome = read(
        "NOTICE: Invoice 8871 is due Friday and the lease renewal is today\n\
         Both land this week and the lease is the one with no slack in it.",
    );
    let Outcome::Notice { headline, detail } = outcome else {
        panic!("a specific, dated notice should survive: {outcome:?}");
    };
    assert!(headline.starts_with("Invoice 8871"), "{headline}");
    assert!(detail.contains("no slack"), "{detail}");
}

#[test]
fn a_notice_that_names_nothing_is_thrown_away() {
    // The failure this whole module is built around. A notification that
    // says "you have a few things to look at" teaches the user to dismiss
    // notifications, after which a real one is invisible too.
    for reply in [
        "NOTICE: You have a few things to look at today\nWorth a glance.",
        "NOTICE: Some tasks are due\nYou might want to check them.",
        "NOTICE: Just checking in\nHave a productive day.",
        "NOTICE: Your inbox has unread mail\nThere are three messages.",
    ] {
        assert!(read(reply).is_quiet(), "{reply:?} got through");
    }
}

#[test]
fn a_headline_too_long_to_be_a_headline_is_thrown_away() {
    let long = format!("NOTICE: {}\nBecause.", "a".repeat(MAX_HEADLINE + 1));
    assert!(read(&long).is_quiet());
}

#[test]
fn a_notice_with_no_reason_behind_it_is_thrown_away() {
    assert!(read("NOTICE: The lease renewal is due today").is_quiet());
}

#[test]
fn a_notice_cannot_ask_a_question() {
    // Nobody is at the keyboard. A notification that asks something is a
    // notification that will never be answered.
    assert!(read(
        "NOTICE: The lease renewal is due today\nShall I draft the email to the landlord?"
    )
    .is_quiet());
}

#[test]
fn preamble_before_the_marker_is_ignored_rather_than_breaking_the_parse() {
    let outcome = read(
        "Here is my assessment.\n\nNOTICE: Storm warning until 9pm tonight\n\
         The roofers are due at four and the warning covers that window.",
    );
    assert!(matches!(outcome, Outcome::Notice { .. }), "{outcome:?}");
}

#[test]
fn planner_json_becomes_the_two_words_a_check_turns_on() {
    let listed = r#"{"ok":true,"action":"list","tasks":[
        {"id":15,"title":"Renew the lease","project":"Admin","priority":"p1","due":"2026-08-03"},
        {"id":12,"title":"Put the bins out","project":"Home","priority":"p3"}],"count":2}"#;
    assert_eq!(
        tasks_in(listed),
        [
            "Renew the lease — due 2026-08-03",
            "Put the bins out — due no due date"
        ]
    );
    assert!(tasks_in("not json").is_empty());
}

#[test]
fn a_mail_listing_gives_up_its_senders_and_subjects_and_nothing_else() {
    // Headers only. Reading somebody's post to them unasked is a different
    // thing from noticing that it arrived.
    let listing = "2 of 2 message(s) in INBOX:\n\n\
        [102] UNREAD Mon, 3 Aug 2026 — Ada Prins <billing@prins.example>\n  \
        Invoice 8871 — payment due Friday\n  \
        The balance of 13,850 is due on Friday. Bank details are on the invoice.\n";
    let found = subjects_in(listing);
    assert_eq!(found.len(), 1, "{found:?}");
    assert!(found[0].contains("Ada Prins"), "{found:?}");
    assert!(found[0].contains("Invoice 8871"), "{found:?}");
    assert!(
        !found[0].contains("Bank details"),
        "the body leaked into the signal: {found:?}"
    );
}

#[test]
fn the_request_carries_the_signals_and_the_time() {
    let when = Local
        .with_ymd_and_hms(2026, 8, 3, 8, 30, 0)
        .single()
        .expect("a time");
    let now = Moment {
        seconds: when.timestamp(),
        nanos: 0,
        offset: when.offset().local_minus_utc(),
    };
    let request = request(&signals(), now);
    let asked = format!("{:?}", request.messages);
    assert!(asked.contains("Monday 3 August"), "{asked}");
    assert!(asked.contains("Invoice 8871"), "{asked}");
    assert!(asked.contains("Tasks due or overdue"), "{asked}");
    // No tools, ever: a proactive check that could act is one that spends
    // money and changes files while nobody is watching.
    assert!(request.tools.is_empty());
}

#[test]
fn the_instructions_say_when_to_speak_before_they_say_when_not_to() {
    // The order matters. With the bar first, a deadline in somebody's own
    // task list reads as obvious, and the answer to it as QUIET.
    let speak = INSTRUCTIONS
        .find("Speak when there is something")
        .expect("the permission");
    let bar = INSTRUCTIONS
        .find("Otherwise answer QUIET")
        .expect("the bar");
    assert!(speak < bar, "the bar comes before the permission");
    assert!(INSTRUCTIONS.contains("goes wrong if they do nothing about it today"));
    assert!(INSTRUCTIONS.contains("a lot of mail existing"));
}

#[test]
fn no_worked_example_matches_a_case_the_suite_asks_about() {
    // The examples are what actually moved this, and they have to be
    // examples of the *form*. With one that matched a scenario, the model
    // reproduced it word for word and the case passed for no reason at all.
    assert!(INSTRUCTIONS.contains("do not reuse their words"));
    for planted in [
        "lease",
        "passport",
        "roofer",
        "thunderstorm",
        "Kernel Weekly",
    ] {
        assert!(
            !INSTRUCTIONS
                .to_lowercase()
                .contains(&planted.to_lowercase()),
            "a worked example uses {planted:?}, which a scenario also uses"
        );
    }
}

#[test]
fn a_notice_is_vetted_line_by_line() {
    let notice = vet("The lease is due today", "the lease is due today", "There is no slack.");
    assert_eq!(
        notice,
        Outcome::Notice {
            headline: "The lease is due today".to_string(),
            detail: "There is no slack.".to_string(),
        }
    );
    assert!(vet("", "", "There is no slack.").is_quiet());
    assert!(vet("The lease is due today", "the lease is due today", "").is_quiet());
    assert!(vet("The lease", "the lease", "Shall I?").is_quiet());
    assert!(vet("The lease", "you have a few things", "Because.").is_quiet());
    let fits = "a".repeat(MAX_HEADLINE);
    assert!(!vet(&fits, &fits, "Because.").is_quiet());
}

#[test]
fn the_marker_is_found_however_it_is_cased() {
    let outcome = read("Notice: Storm warning until 9pm tonight\nThe roofers are due at four.");
    assert!(!outcome.is_quiet(), "{outcome:?}");
    // Letters that grow in upper case, before the marker, move nothing.
    let outcome = read("ßßß NOTICE: Storm warning until 9pm\nThe roofers are due at four.");
    assert_eq!(
        outcome,
        Outcome::Notice {
            headline: "Storm warning until 9pm".to_string(),
            detail: "The roofers are due at four.".to_string(),
        }
    );
}

#[test]
fn tasks_are_read_from_what_was_listed() {
    let parsed = Json::parse(r#"{"tasks":[{"title":"A","due":"2026-08-03"},{"due":"x"}]}"#)
        .expect("json");
    assert_eq!(tasks_from(&parsed), ["A — due 2026-08-03"]);
    assert!(tasks_from(&Json::parse("{}").expect("json")).is_empty());
}

#[test]
fn a_check_asks_the_rubric_and_then_the_day() {
    let now = Moment { seconds: 1_785_744_000, nanos: 0, offset: 0 };
    let asked = request(&signals(), now);
    assert_eq!(asked.messages.len(), 2);
    assert_eq!(asked.messages[0].role, Role::System);
    assert!(asked.messages[0].content.ends_with(INSTRUCTIONS));
    assert_eq!(asked.messages[1].role, Role::User);
    assert!(
        asked.messages[1].content.starts_with("It is Monday 3 August, 08:00.\n\n"),
        "{}",
        asked.messages[1].content
    );
    assert_eq!((asked.temperature, asked.top_p, asked.max_tokens), (Some(20), None, Some(300)));
    assert!(asked.messages[1].content.contains("Ada Prins"), "{}", asked.messages[1].content);
    let rows: Vec<String> = (0..20).map(|n| format!(r#"{{"title":"{n}"}}"#)).collect();
    let listed = tasks_in(&format!(r#"{{"tasks":[{}]}}"#, rows.join(",")));
    assert_eq!(listed.len(), MAX_LINES);
}

#[test]
fn a_body_that_looks_like_a_header_is_not_read() {
    let listing = "[102] UNREAD Mon — Ada\n  Invoice\n  [1] Bank details\n  are inside\n";
    assert_eq!(subjects_in(listing), vec!["Ada — Invoice"]);
}
