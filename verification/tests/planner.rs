use familiar::json::Json;
use familiar::planner::{classify, command, guidance, note_about, note_for, verb, Decision, MAX_OUTPUT};
use familiar::tools::Gate;

fn args(line: &str) -> Vec<String> {
    line.split_whitespace().map(str::to_string).collect()
}

#[test]
fn reading_is_ungated_and_changing_is_not() {
    for line in ["overview", "list due: today", "show 12", "search lease"] {
        assert_eq!(
            classify(&args(line)),
            Decision::Run(Gate::Never),
            "{line} should read freely"
        );
    }
    for line in [
        "add Ring the plumber",
        "complete 12",
        "delete 12",
        "update 12 due=friday",
        "remove-project Home",
    ] {
        assert_eq!(
            classify(&args(line)),
            Decision::Run(Gate::Always),
            "{line} changes the task list"
        );
    }
}

#[test]
fn an_unknown_verb_is_gated_rather_than_run() {
    // The list can only go stale in the safe direction: a verb Planner
    // gains costs an approval click, never an unreviewed write.
    assert_eq!(
        classify(&args("archive-everything")),
        Decision::Run(Gate::Always)
    );
}

#[test]
fn planner_the_fixed_prefix_is_added_and_not_doubled() {
    assert_eq!(command(&args("list")), ["planner", "agent", "list"]);
    assert_eq!(command(&args("agent list")), ["planner", "agent", "list"]);
}

#[test]
fn planner_a_flag_is_refused_with_what_to_write_instead() {
    // GOption rejects it before the verb runs, so the error the model would
    // otherwise see is about the launcher and says nothing useful.
    let Decision::Refuse(why) = classify(&args("list --limit 10")) else {
        panic!("a flag should be refused");
    };
    assert!(why.contains("key=value"), "{why}");
    assert!(why.contains("limit=10"), "{why}");
}

#[test]
fn no_verb_at_all_says_which_ones_to_start_with() {
    let Decision::Refuse(why) = classify(&[]) else {
        panic!("nothing should be refused");
    };
    assert!(why.contains("overview"), "{why}");
}

#[test]
fn a_shell_metacharacter_is_an_argument_and_not_an_operator() {
    // There is no shell. The filter query's own or-operator is a literal
    // `|` argument, which is exactly why this has to keep working.
    let built = command(&args("list due: today | overdue"));
    assert_eq!(
        built,
        ["planner", "agent", "list", "due:", "today", "|", "overdue"]
    );
    assert_eq!(
        classify(&args("list due: today | overdue")),
        Decision::Run(Gate::Never)
    );
}

#[test]
fn completing_a_repeating_task_is_reported_as_both_things() {
    // The failure this exists to stop: "I moved that to Thursday", which is
    // the opposite of what the user asked for.
    let note = note_for(
        r#"{"ok":true,"action":"completed","outcome":"completed-and-repeats",
            "next_due":"2026-08-06","task":{"id":4,"title":"Bins"}}"#,
    )
    .expect("a note");
    assert!(note.contains("2026-08-06"), "{note}");
    assert!(note.contains("Say"), "{note}");
}

#[test]
fn an_ambiguous_reference_is_a_question_rather_than_a_guess() {
    let note = note_for(
        r#"{"ok":false,"error":"ambiguous","message":"more than one",
            "candidates":[{"id":1},{"id":2}]}"#,
    )
    .expect("a note");
    assert!(note.contains("ask which they meant"), "{note}");
    // The clause that matters most: anything less is read as licence to
    // call again.
    assert!(note.contains("Do not call `planner` again"), "{note}");
}

#[test]
fn a_task_that_landed_in_the_inbox_says_the_project_did_not_exist() {
    let note = note_for(
        r#"{"ok":true,"action":"added","task":{"id":9,"title":"Ring","project":"Inbox"}}"#,
    )
    .expect("a note");
    assert!(note.contains("does not exist"), "{note}");
    assert!(note.contains("overview"), "{note}");
}

#[test]
fn a_task_that_landed_somewhere_real_says_to_read_the_response_back() {
    let note = note_for(
        r#"{"ok":true,"action":"added","task":{"id":9,"title":"Ring","project":"Home"}}"#,
    )
    .expect("a note");
    assert!(note.contains("actually parsed"), "{note}");
}

#[test]
fn a_truncated_list_says_how_many_there_really_were() {
    let note = note_for(r#"{"ok":true,"tasks":[],"count":50,"matched":137,"truncated":true}"#)
        .expect("a note");
    assert!(note.contains("137"), "{note}");
}

#[test]
fn planner_an_ordinary_response_needs_no_note() {
    assert_eq!(
        note_for(r#"{"ok":true,"tasks":[],"count":3,"matched":3,"truncated":false}"#),
        None
    );
    // Not JSON at all — `help` prints text on purpose.
    assert_eq!(note_for("PLANNER AGENT\n\nVerbs:"), None);
}

#[test]
fn the_verb_of_a_planner_call_is_the_first_word_after_the_prefix() {
    assert_eq!(verb(&args("add Ring")), Some("add"));
    assert_eq!(verb(&args("agent add Ring")), Some("add"));
    assert_eq!(verb(&[]), None);
    assert!(guidance().contains("planner"));
    assert!(MAX_OUTPUT > 0);
}

#[test]
fn a_query_that_did_not_parse_is_explained() {
    let parsed = Json::parse(r#"{"ok":false,"error":"bad-query"}"#).expect("json");
    let note = note_about(&parsed).expect("a note");
    assert!(note.contains("did not parse"), "{note}");
}
