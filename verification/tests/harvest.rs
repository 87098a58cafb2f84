use familiar::json::Json;
use familiar::memory::harvest::{
    candidates_in, parse, request, vet, worth_reading, Candidate, INSTRUCTIONS, LONGEST,
    MOST_PER_TURN, SHORTEST,
};
use familiar::memory::observation::Kind;
use familiar::memory::reply::extract_json;

fn candidate(subject: &str, observation: &str, kind: Kind) -> Candidate {
    Candidate {
        subject: subject.into(),
        observation: observation.into(),
        kind,
    }
}

#[test]
fn a_turn_about_the_user_is_worth_reading() {
    assert!(worth_reading(
        "I've switched from Neovim to Zed as my main editor."
    ));
    assert!(worth_reading("My flight lands in Ljubljana at 6:40am."));
    assert!(worth_reading(
        "From now on, put the files under work/ rather than the root."
    ));
    assert!(worth_reading("Always give me measurements in metric."));
}

#[test]
fn a_turn_with_nothing_durable_in_it_is_not() {
    // Most turns cost nothing. A question about a
    // fact of the world has nothing about the user in it.
    for asked in [
        "What's the weather like?",
        "Explain the borrow checker.",
        "What is 12% of 40?",
        "Thanks!",
        "Who wrote Middlemarch?",
    ] {
        assert!(!worth_reading(asked), "{asked}");
    }
}

#[test]
fn a_fragment_is_never_worth_reading() {
    assert!(!worth_reading("ok"));
    assert!(!worth_reading("  "));
    assert!(!worth_reading("my"));
}

#[test]
fn the_reader_is_given_the_transcript_as_data_and_no_tools() {
    let request = request("I use Zed now.", "Noted.", &[]);
    assert_eq!(request.messages.len(), 2);
    assert!(request.tools.is_empty(), "the reader must not act");
    assert_eq!(request.temperature, Some(10));
    let ask = request.messages[1].content.clone();
    assert!(ask.contains("<transcript>"), "{ask}");
    assert!(ask.contains("User: I use Zed now."), "{ask}");
}

#[test]
fn what_is_already_known_is_put_in_front_of_the_reader() {
    let request = request("I use Zed now.", "Noted.", &["Matthew: writes Rust".into()]);
    let ask = request.messages[1].content.clone();
    assert!(ask.contains("<known>"), "{ask}");
    assert!(ask.contains("Matthew: writes Rust"), "{ask}");
}

#[test]
fn a_plain_reply_parses() {
    let found = parse(
        r#"{"remember":[{"subject":"Matthew","kind":"preference","observation":"Uses Zed as their main editor."}]}"#,
    );
    assert_eq!(
        found,
        [candidate(
            "Matthew",
            "Uses Zed as their main editor.",
            Kind::Preference
        )]
    );
}

#[test]
fn a_fenced_reply_with_a_preamble_parses() {
    // What a small model actually sends. Losing a week of memory over a
    // code fence would be a poor trade.
    let found = parse(
        "Here is the JSON:\n\n```json\n{\"remember\": [{\"subject\": \"Matthew\", \
         \"kind\": \"profile\", \"observation\": \"Lives in Ashford, Ohio.\"}]}\n```",
    );
    assert_eq!(found.len(), 1, "{found:?}");
    assert_eq!(found[0].kind, Kind::Profile);
}

#[test]
fn a_bare_array_parses() {
    let found = parse(r#"[{"subject":"Roof","observation":"Was finished in April 2026."}]"#);
    assert_eq!(found.len(), 1, "{found:?}");
    // No kind given is a `fact`: the least privileged reading, which is the
    // right way to be wrong.
    assert_eq!(found[0].kind, Kind::Fact);
}

#[test]
fn the_empty_answer_is_an_answer() {
    assert!(parse(r#"{"remember":[]}"#).is_empty());
    assert!(parse("Nothing worth saving here.").is_empty());
    assert!(parse("").is_empty());
}

#[test]
fn an_item_missing_a_field_is_dropped_rather_than_guessed_at() {
    let found = parse(r#"{"remember":[{"subject":"Matthew"},{"observation":"no subject"}]}"#);
    assert!(found.is_empty(), "{found:?}");
}

#[test]
fn vetting_keeps_a_good_observation() {
    let kept = vet(&vec![candidate(
            "Matthew",
            "Uses Zed as their main editor.",
            Kind::Preference,
        )],
        &[],
    );
    assert_eq!(kept.len(), 1);
}

#[test]
fn vetting_drops_a_summary_of_the_turn() {
    // Past the length of a fact it is a summary, and a summary is what
    // compaction is for.
    let long = "The user asked about the borrow checker and was given a long explanation \
                covering ownership, moves, borrows, lifetimes and the way the compiler \
                proves a reference cannot outlive what it points at.";
    assert!(vet(&vec![candidate("Rust", long, Kind::Fact)], &[]).is_empty());
}

#[test]
fn vetting_drops_a_note_about_the_assistants_own_turn() {
    // The commonest way this goes wrong: true, useless, and true again
    // tomorrow.
    for text in [
        "The assistant explained the borrow checker.",
        "I explained how the KV cache works.",
        "I will write the file under work/.",
    ] {
        assert!(
            vet(&vec![candidate("Rust", text, Kind::Fact)], &[]).is_empty(),
            "{text}"
        );
    }
}

#[test]
fn vetting_drops_what_the_vault_already_says() {
    let held = ["Matthew: prefers small, single-purpose commits".to_string()];
    let kept = vet(&vec![candidate(
            "Matthew",
            "Prefers small single purpose commits",
            Kind::Preference,
        )],
        &held,
    );
    assert!(kept.is_empty(), "{kept:?}");
}

#[test]
fn vetting_drops_the_same_thing_proposed_twice() {
    let kept = vet(&vec![
            candidate("Matthew", "Uses Zed as their editor.", Kind::Preference),
            candidate("Matthew", "uses zed as their editor", Kind::Fact),
        ],
        &[],
    );
    assert_eq!(kept.len(), 1);
}

#[test]
fn vetting_caps_what_one_turn_may_save() {
    // A turn that appears to hold six durable facts holds one and five
    // restatements of it.
    let many: Vec<Candidate> = (0..10)
        .map(|n| {
            candidate(
                "Matthew",
                &format!("Has a distinct preference number {n}."),
                Kind::Fact,
            )
        })
        .collect();
    assert_eq!(vet(&many, &[]).len(), MOST_PER_TURN);
}

#[test]
fn vetting_drops_a_fragment() {
    assert!(vet(&vec![candidate("Rust", "yes", Kind::Fact)], &[]).is_empty());
}

#[test]
fn what_is_kept_is_short_and_about_the_person() {
    let long = "a".repeat(LONGEST + 1);
    let fits = "Has a distinct preference.".to_string();
    let kept = vet(
        &vec![
            candidate("Rust", &long, Kind::Fact),
            candidate("", &fits, Kind::Fact),
            candidate("Rust", &fits, Kind::Fact),
            candidate("Rust", &"b".repeat(SHORTEST - 1), Kind::Fact),
        ],
        &[],
    );
    assert_eq!(kept, vec![candidate("", &fits, Kind::Fact)]);
}

#[test]
fn candidates_are_read_from_a_list_or_from_the_object_around_it() {
    let listed = Json::parse(r#"[{"subject":"Roof","observation":"Was finished."}]"#).expect("json");
    assert_eq!(candidates_in(&listed), vec![candidate("Roof", "Was finished.", Kind::Fact)]);
    assert!(candidates_in(&Json::parse("3").expect("json")).is_empty());
    let asked = request("I use Zed now.", "Noted.", &[]);
    assert!(asked.messages[0].content.contains(INSTRUCTIONS));
}

#[test]
fn the_json_is_cut_out_of_what_surrounds_it() {
    assert_eq!(extract_json("so: {\"a\":1} done", true).as_deref(), Some("{\"a\":1}"));
    assert_eq!(extract_json("[1] and more", true).as_deref(), Some("[1]"));
    assert_eq!(extract_json("[1] and more", false), None);
    assert_eq!(extract_json("nothing", true), None);
}
