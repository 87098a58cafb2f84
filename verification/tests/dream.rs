use familiar::memory::dream::journal::NIGHTS;
use familiar::memory::dream::reckoning::times;
use familiar::memory::dream::{
    self, mentions, parse, request, Applied, Held, Journal, Mention, Operation, Plan, Policy,
    Removed, Why, BATCH, INSTRUCTIONS,
};
use familiar::memory::observation::{Kind, Observation};
use familiar::time::Stamp;

fn at(text: &str) -> Stamp {
    let when = chrono::DateTime::parse_from_rfc3339(text).expect("date");
    Stamp { seconds: when.timestamp(), nanos: when.timestamp_subsec_nanos() }
}

fn now() -> Stamp {
    at("2026-08-02T03:00:00Z")
}

/// A date as the number of its day.
fn day(text: &str) -> i64 {
    let date: chrono::NaiveDate = text.parse().expect("date");
    at(&format!("{date}T00:00:00Z")).date()
}

/// What an observation is worth: its kind's weight, halved every half life, and
/// raised by the logarithm of its uses.
fn score(observation: &Observation, uses: u32, now: Stamp) -> f32 {
    let decay = match observation.age_days(now) {
        Some(age) => 0.5f32.powf(age as f32 / observation.kind.half_life_days() as f32),
        None => 1.0,
    };
    observation.kind.weight() as f32 / 10.0 * decay * (1.0 + (uses as f32).ln_1p())
}

/// What a held observation is worth: half again, by the logarithm, for each time
/// its subject came up.
fn value(held: &Held, now: Stamp) -> f32 {
    score(&held.observation, held.uses, now) * (1.0 + (held.mentions as f32).ln_1p() / 2.0)
}

fn arithmetic(held: &[Held], now: Stamp, policy: &Policy) -> Plan {
    let scores: Vec<u32> = held.iter().map(|item| value(item, now).to_bits()).collect();
    dream::arithmetic(held, &scores, now, policy)
}

fn held(subject: &str, text: &str, kind: Kind, saved: &str) -> Held {
    Held {
        observation: Observation {
            note: format!("Familiar/{subject}.md"),
            subject: subject.to_string(),
            text: text.to_string(),
            kind,
            saved: Some(day(saved)),
        },
        uses: 0,
        last_used: None,
        mentions: 0,
    }
}

/// A corpus big enough that the share cap is not what is being measured.
fn padded(mut items: Vec<Held>) -> Vec<Held> {
    for n in 0..80 {
        items.push(held(
            &format!("Padding{n}"),
            &format!("a recent and entirely unremarkable fact number {n}"),
            Kind::Fact,
            "2026-08-01",
        ));
    }
    items
}

#[test]
fn something_old_unused_and_unmentioned_is_dropped() {
    let corpus = padded(vec![held(
        "Kubernetes",
        "was mentioned once in passing",
        Kind::Fact,
        "2026-01-01",
    )]);
    let plan = arithmetic(&corpus, now(), &Policy::default());
    assert_eq!(plan.drops(), 1, "{plan:?}");
    assert!(matches!(
        plan.operations.first(),
        Some(Operation::Drop {
            why: Why::Stale,
            ..
        })
    ));
}

#[test]
fn who_someone_is_is_never_dropped() {
    // Whatever the arithmetic says. Profile facts are the oldest things in
    // a vault and the least often searched for by name, which is exactly
    // the shape decay punishes.
    let corpus = padded(vec![held(
        "Matthew",
        "lives in Ashford, Ohio",
        Kind::Profile,
        "2024-01-01",
    )]);
    assert!(arithmetic(&corpus, now(), &Policy::default()).is_empty());
}

#[test]
fn something_saved_last_week_is_never_dropped() {
    let corpus = padded(vec![held(
        "Kubernetes",
        "was mentioned once in passing",
        Kind::Fact,
        "2026-07-28",
    )]);
    assert!(arithmetic(&corpus, now(), &Policy::default()).is_empty());
}

#[test]
fn something_looked_up_recently_is_never_dropped() {
    let mut item = held(
        "Kubernetes",
        "the cluster is on GKE",
        Kind::Fact,
        "2026-01-01",
    );
    item.uses = 1;
    item.last_used = Some(day("2026-07-20"));
    assert!(arithmetic(&padded(vec![item]), now(), &Policy::default()).is_empty());
}

#[test]
fn something_whose_subject_keeps_coming_up_is_never_dropped() {
    // The signal only a slow pass can gather: nobody searched for it by
    // name, and it has been in the room all month.
    let mut item = held(
        "Kubernetes",
        "the cluster is on GKE",
        Kind::Fact,
        "2026-01-01",
    );
    item.mentions = 4;
    assert!(arithmetic(&padded(vec![item]), now(), &Policy::default()).is_empty());
}

#[test]
fn the_same_sentence_twice_in_one_note_becomes_one() {
    let mut twice = held(
        "Roof",
        "was finished in April 2026",
        Kind::Fact,
        "2026-04-25",
    );
    twice.observation.text = "Was finished in April 2026.".into();
    let corpus = vec![
        held(
            "Roof",
            "was finished in April 2026",
            Kind::Fact,
            "2026-04-25",
        ),
        twice,
    ];
    let plan = arithmetic(&corpus, now(), &Policy::default());
    match plan.operations.first() {
        Some(Operation::Merge { keys, into, .. }) => {
            assert_eq!(keys.len(), 2);
            // The fuller wording survives.
            assert_eq!(into, "Was finished in April 2026.");
        }
        other => panic!("expected a merge, got {other:?}"),
    }
}

#[test]
fn a_line_saved_as_both_a_fact_and_a_preference_merges_as_a_preference() {
    let corpus = vec![
        held("Matthew", "prefers metric", Kind::Fact, "2026-04-25"),
        held("Matthew", "Prefers metric", Kind::Preference, "2026-05-25"),
    ];
    match arithmetic(&corpus, now(), &Policy::default())
        .operations
        .first()
    {
        Some(Operation::Merge { kind, .. }) => assert_eq!(*kind, Kind::Preference),
        other => panic!("expected a merge, got {other:?}"),
    }
}

#[test]
fn collapsing_a_duplicate_costs_nothing_and_waits_for_nothing() {
    // Two ways this matters. A memory of four observations would otherwise
    // never be tidied at all — a quarter of four is zero — and a duplicate
    // created this morning would have to sit there for a month.
    let corpus = vec![
        held("Roof", "was finished in April", Kind::Fact, "2026-08-01"),
        held("Roof", "Was finished in April.", Kind::Fact, "2026-08-01"),
    ];
    let plan = arithmetic(&corpus, now(), &Policy::default());
    assert_eq!(plan.operations.len(), 1, "{plan:?}");
    assert_eq!(plan.drops(), 0, "de-duplication is not a deletion");
}

#[test]
fn a_merge_that_rewrites_two_different_sentences_does_cost() {
    let corpus = padded(vec![
        held("Roof", "was finished in April", Kind::Fact, "2026-01-01"),
        held("Roof", "cost 13,850", Kind::Fact, "2026-01-01"),
    ]);
    let merge = Operation::Merge {
        note: "Familiar/Roof.md".into(),
        subject: "Roof".into(),
        kind: Kind::Fact,
        into: "The roof was finished in April 2026 and cost 13,850.".into(),
        keys: vec![corpus[0].key(), corpus[1].key()],
        texts: vec!["was finished in April".into(), "cost 13,850".into()],
    };
    assert!(!merge.is_lossless());
    assert_eq!(
        Plan {
            operations: vec![merge]
        }
        .drops(),
        1
    );
}

#[test]
fn one_night_can_only_take_so_much() {
    // A model that answers "drop them all" costs a fraction rather than the
    // lot. Both bounds have to hold: a small memory needs the share and a
    // large one needs the count.
    let corpus: Vec<Held> = (0..400)
        .map(|n| {
            held(
                &format!("Old{n}"),
                "an ancient unloved fact",
                Kind::Fact,
                "2025-01-01",
            )
        })
        .collect();
    let plan = arithmetic(&corpus, now(), &Policy::default());
    assert_eq!(plan.drops(), Policy::default().most_drops);

    let small: Vec<Held> = (0..8)
        .map(|n| {
            held(
                &format!("Old{n}"),
                "an ancient unloved fact",
                Kind::Fact,
                "2025-01-01",
            )
        })
        .collect();
    assert_eq!(arithmetic(&small, now(), &Policy::default()).drops(), 2);
}

#[test]
fn the_least_valuable_things_go_first_when_the_budget_runs_out() {
    let mut corpus: Vec<Held> = (0..40)
        .map(|n| {
            held(
                &format!("Old{n}"),
                "an ancient unloved fact",
                Kind::Fact,
                "2025-06-01",
            )
        })
        .collect();
    corpus.push(held("Ancient", "even older", Kind::Fact, "2024-01-01"));
    let plan = arithmetic(&corpus, now(), &Policy::default());
    let first = plan.operations.first().expect("an operation");
    assert!(
        matches!(first, Operation::Drop { subject, .. } if subject == "Ancient"),
        "{first:?}"
    );
}

#[test]
fn a_subject_that_came_up_in_conversation_is_counted() {
    let observations = [
        Observation {
            note: "Familiar/Kubernetes.md".into(),
            subject: "Kubernetes".into(),
            text: "the cluster is on GKE".into(),
            kind: Kind::Fact,
            saved: None,
        },
        Observation {
            note: "Familiar/Zed.md".into(),
            subject: "Zed".into(),
            text: "is the editor now".into(),
            kind: Kind::Preference,
            saved: None,
        },
    ];
    let threads = [
        "How do I roll a deployment on Kubernetes?".to_string(),
        "Kubernetes again — what about the ingress?".to_string(),
    ];
    let counted = mentions(&observations, &threads);
    assert_eq!(times(&counted, &observations[0].key()), 2);
    assert_eq!(times(&counted, &observations[1].key()), 0);
}

// -- the model's half ------------------------------------------------------

fn batch() -> Vec<Held> {
    vec![
        held("Matthew", "prefers small commits", Kind::Fact, "2026-01-01"),
        held("Roof", "was replaced in April", Kind::Fact, "2026-01-01"),
        held(
            "Roof",
            "the north slope was done in April",
            Kind::Fact,
            "2026-01-01",
        ),
    ]
}

#[test]
fn the_request_numbers_what_it_asks_about_and_offers_no_tools() {
    let request = request(&batch(), now());
    let listing = request.messages[1].content.clone();
    assert!(
        listing.contains("Matthew\n  0. [fact] prefers small commits"),
        "{listing}"
    );
    assert!(listing.contains("looked up 0 time(s)"), "{listing}");
    assert!(request.tools.is_empty(), "the dream must not act");
}

#[test]
fn two_notes_that_share_a_title_get_a_heading_each() {
    // A merge is checked against the *note*, so grouping by the title a
    // person sees would invite exactly the operation the parser refuses.
    let mut theirs = held("Matthew", "lives in Ashford", Kind::Profile, "2024-01-01");
    theirs.observation.note = "People/Matthew.md".into();
    let batch = vec![
        theirs,
        held(
            "Matthew",
            "prefers small commits",
            Kind::Preference,
            "2024-01-01",
        ),
    ];
    let listing = request(&batch, now()).messages[1].content.clone();
    assert_eq!(
        listing.matches("Matthew\n").count(),
        2,
        "one heading per note: {listing}"
    );
}

#[test]
fn the_listing_groups_by_subject_so_a_merge_cannot_reach_across_one() {
    // A merge that spans two notes is refused whole, and the night would do
    // nothing at all.
    let listing = request(&batch(), now()).messages[1].content.clone();
    let matthew = listing.find("Matthew\n").expect("a heading");
    let roof = listing.find("Roof\n").expect("a heading");
    assert!(matthew < roof, "{listing}");
    // Both Roof observations sit under the one heading, and nothing of
    // Matthew's is between them.
    let first = listing.find("was replaced in April").expect("one");
    let second = listing.find("north slope was done in April").expect("two");
    assert!(roof < first && first < second, "{listing}");
}

#[test]
fn a_line_the_rails_protect_says_so_where_the_model_will_read_it() {
    // Stated only in the rules above, the model spent its answer proposing
    // things the rails then refused — and, worse, reasoned about them as
    // candidates. Marked in the data, they stop being candidates.
    let batch = vec![
        held("Matthew", "lives in Ashford", Kind::Profile, "2024-02-14"),
        held("Zed", "is the editor now", Kind::Fact, "2026-07-30"),
        held("Kubernetes", "was never taken up", Kind::Fact, "2025-10-06"),
    ];
    let listing = request(&batch, now()).messages[1].content.clone();
    let line_for = |needle: &str| {
        listing
            .lines()
            .find(|line| line.contains(needle))
            .unwrap_or_default()
            .to_string()
    };
    assert!(line_for("Ashford").contains("KEEP"), "{listing}");
    assert!(line_for("editor now").contains("KEEP"), "{listing}");
    assert!(!line_for("never taken up").contains("KEEP"), "{listing}");
}

#[test]
fn one_night_may_not_halve_a_note() {
    // Shown a fact worded twice, a model drops both as duplicates of each
    // other. Each is a reasonable answer to a question asked one line at a
    // time.
    let corpus = padded(vec![
        held("Roof", "was replaced in April", Kind::Fact, "2025-10-06"),
        held(
            "Roof",
            "the north slope was done in April",
            Kind::Fact,
            "2025-10-06",
        ),
    ]);
    let plan = Plan {
        operations: vec![
            Operation::Drop {
                key: corpus[0].key(),
                note: "Familiar/Roof.md".into(),
                subject: "Roof".into(),
                text: "was replaced in April".into(),
                why: Why::Duplicate,
            },
            Operation::Drop {
                key: corpus[1].key(),
                note: "Familiar/Roof.md".into(),
                subject: "Roof".into(),
                text: "the north slope was done in April".into(),
                why: Why::Duplicate,
            },
        ],
    };
    let bounded = plan.bounded(&corpus, &Policy::default(), now());
    assert_eq!(bounded.operations.len(), 1, "the fact left the vault");
}

#[test]
fn every_observation_about_a_subject_can_still_be_merged_into_one() {
    // The per-note rail counts drops, not lines. A merge leaves a line
    // behind, so collapsing all three of a subject's observations into one
    // sentence is the operation working — and a rail that counted it
    // discarded exactly that, which is how the distinction was found.
    let corpus = padded(vec![
        held("Roof", "was replaced in April", Kind::Fact, "2025-10-06"),
        held(
            "Roof",
            "the north slope was done in April",
            Kind::Fact,
            "2025-10-06",
        ),
        held("Roof", "cost 13,850", Kind::Fact, "2025-10-06"),
    ]);
    let plan = Plan {
        operations: vec![Operation::Merge {
            note: "Familiar/Roof.md".into(),
            subject: "Roof".into(),
            kind: Kind::Fact,
            into: "The north slope was replaced in April 2026 and cost 13,850.".into(),
            keys: corpus[..3].iter().map(Held::key).collect(),
            texts: corpus[..3]
                .iter()
                .map(|held| held.observation.text.clone())
                .collect(),
        }],
    };
    assert_eq!(
        plan.bounded(&corpus, &Policy::default(), now())
            .operations
            .len(),
        1
    );
}

#[test]
fn a_subject_with_one_dead_line_can_still_be_cleared() {
    // The floor of one. Half of a single line is zero, and a rail that
    // rounded down without it would make a note of one observation
    // permanent whatever it said.
    let corpus = padded(vec![held(
        "Kubernetes",
        "was never taken up",
        Kind::Fact,
        "2025-10-06",
    )]);
    let plan = arithmetic(&corpus, now(), &Policy::default());
    assert_eq!(plan.drops(), 1, "{plan:?}");
}

#[test]
fn a_reclassification_is_read_back() {
    let plan = parse(r#"{"reclassify":[{"id":0,"kind":"preference"}]}"#, &batch());
    assert!(matches!(
        plan.operations.first(),
        Some(Operation::Reclassify {
            to: Kind::Preference,
            from: Kind::Fact,
            ..
        })
    ));
}

#[test]
fn a_merge_is_read_back_with_the_sentence_that_replaces_them() {
    let plan = parse(
        r#"{"merge":[{"ids":[1,2],"observation":"The north slope was replaced in April 2026.","kind":"fact"}]}"#,
        &batch(),
    );
    match plan.operations.first() {
        Some(Operation::Merge { keys, into, .. }) => {
            assert_eq!(keys.len(), 2);
            assert!(into.contains("north slope"), "{into}");
        }
        other => panic!("expected a merge, got {other:?}"),
    }
}

#[test]
fn an_id_that_is_not_in_the_batch_is_ignored() {
    // A model given a numbered list answers with id 41 often enough that
    // acting on it unchecked would mean deleting an arbitrary line.
    let plan = parse(
        r#"{"drop":[{"id":99,"why":"stale"},{"id":0,"why":"stale"}]}"#,
        &batch(),
    );
    assert_eq!(plan.operations.len(), 1);
}

#[test]
fn a_merge_across_two_notes_is_refused() {
    // The merged line would have to live in two files at once.
    let plan = parse(
        r#"{"merge":[{"ids":[0,1],"observation":"Something about both."}]}"#,
        &batch(),
    );
    assert!(plan.is_empty(), "{plan:?}");
}

#[test]
fn a_reply_that_is_not_json_proposes_nothing() {
    assert!(parse("I'd leave all of these alone.", &batch()).is_empty());
    assert!(parse("", &batch()).is_empty());
}

#[test]
fn a_fenced_reply_parses() {
    let plan = parse(
        "```json\n{\"drop\":[{\"id\":0,\"why\":\"trivial\"}]}\n```",
        &batch(),
    );
    assert!(matches!(
        plan.operations.first(),
        Some(Operation::Drop {
            why: Why::Trivial,
            ..
        })
    ));
}

#[test]
fn the_models_proposals_are_held_to_the_same_rails_as_the_arithmetic() {
    // The whole reason `bounded` runs over the combined plan: a model told
    // the rules is not the thing that enforces them.
    let recent = vec![held("Matthew", "uses Zed", Kind::Fact, "2026-08-01")];
    let plan = parse(r#"{"drop":[{"id":0,"why":"trivial"}]}"#, &recent);
    assert_eq!(
        plan.operations.len(),
        1,
        "the parse is not where this stops"
    );
    assert!(plan.bounded(&recent, &Policy::default(), now()).is_empty());
}

#[test]
fn a_profile_fact_the_model_asked_to_drop_survives() {
    let profile = vec![held(
        "Matthew",
        "lives in Ashford, Ohio",
        Kind::Profile,
        "2024-01-01",
    )];
    let plan = parse(r#"{"drop":[{"id":0,"why":"stale"}]}"#, &profile);
    assert!(plan.bounded(&profile, &Policy::default(), now()).is_empty());
}

#[test]
fn a_profile_fact_cannot_be_merged_away_either() {
    // The one route around "nothing drops a profile fact": fold it into a
    // replacement that quietly says less. Merging is exempt from the age
    // and use rails precisely because it does not delete, so this is where
    // that exemption has to stop.
    let corpus = padded(vec![
        held(
            "Matthew",
            "lives in Ashford, Ohio",
            Kind::Profile,
            "2024-01-01",
        ),
        held(
            "Matthew",
            "has lived in Ohio for years",
            Kind::Fact,
            "2024-01-01",
        ),
    ]);
    let plan = parse(
        r#"{"merge":[{"ids":[0,1],"observation":"Has lived in Ohio for years.","kind":"profile"}]}"#,
        &corpus,
    );
    assert_eq!(
        plan.operations.len(),
        1,
        "the parse is not where this stops"
    );
    assert!(plan.bounded(&corpus, &Policy::default(), now()).is_empty());
}

#[test]
fn a_recently_wanted_observation_can_still_be_merged() {
    // A drop of this would be refused, and a merge of it must not be: a
    // well-used note would otherwise be the one thing consolidation can
    // never tidy.
    let mut recent = held("Roof", "was replaced in April", Kind::Fact, "2026-06-20");
    recent.uses = 2;
    recent.last_used = Some(day("2026-07-25"));
    let corpus = padded(vec![
        recent.clone(),
        held(
            "Roof",
            "the north slope, by Vandenberg",
            Kind::Fact,
            "2026-06-20",
        ),
    ]);
    assert!(!corpus[0].is_droppable(&Policy::default(), now()));

    let plan = parse(
        r#"{"merge":[{"ids":[0,1],"observation":"Vandenberg replaced the north slope in April 2026.","kind":"fact"}]}"#,
        &corpus,
    );
    assert_eq!(
        plan.bounded(&corpus, &Policy::default(), now())
            .operations
            .len(),
        1
    );
}

#[test]
fn refiling_something_is_allowed_even_when_dropping_it_would_not_be() {
    // Reclassification takes nothing away, so the rails about age and use
    // do not apply — and it is the most useful operation there is.
    let recent = vec![held("Matthew", "uses Zed", Kind::Fact, "2026-08-01")];
    let plan = parse(r#"{"reclassify":[{"id":0,"kind":"preference"}]}"#, &recent);
    assert_eq!(
        plan.bounded(&recent, &Policy::default(), now())
            .operations
            .len(),
        1
    );
}

#[test]
fn two_operations_over_one_line_keep_the_first() {
    // A merge and a drop over the same sentence is a contradiction, and the
    // caller puts the cheaper pass first.
    let corpus = padded(vec![held(
        "Old",
        "an ancient unloved fact",
        Kind::Fact,
        "2025-01-01",
    )]);
    let key = corpus[0].key();
    let plan = Plan {
        operations: vec![
            Operation::Reclassify {
                key: key.clone(),
                note: corpus[0].observation.note.clone(),
                subject: "Old".into(),
                text: "an ancient unloved fact".into(),
                from: Kind::Fact,
                to: Kind::Project,
            },
            Operation::Drop {
                key,
                note: corpus[0].observation.note.clone(),
                subject: "Old".into(),
                text: "an ancient unloved fact".into(),
                why: Why::Stale,
            },
        ],
    };
    let bounded = plan.bounded(&corpus, &Policy::default(), now());
    assert_eq!(bounded.operations.len(), 1);
    assert!(matches!(
        bounded.operations[0],
        Operation::Reclassify { .. }
    ));
}

#[test]
fn an_operation_naming_a_line_that_is_not_held_is_discarded() {
    let corpus = padded(Vec::new());
    let plan = Plan {
        operations: vec![Operation::Drop {
            key: "Familiar/Nowhere.md\u{1f}nothing".into(),
            note: "Familiar/Nowhere.md".into(),
            subject: "Nowhere".into(),
            text: "nothing".into(),
            why: Why::Stale,
        }],
    };
    assert!(plan.bounded(&corpus, &Policy::default(), now()).is_empty());
}

// -- the record ------------------------------------------------------------

#[test]
fn a_night_that_did_nothing_is_not_written_down() {
    let mut journal = Journal::default();
    journal.record(Applied::default(), now());
    assert!(journal.nights.is_empty());
}

#[test]
fn the_journal_keeps_what_was_removed_and_forgets_the_oldest_nights() {
    let mut journal = Journal::default();
    for _ in 0..(NIGHTS + 5) {
        journal.record(
            Applied {
                dropped: vec![Removed {
                    note: "Familiar/Old.md".into(),
                    subject: "Old".into(),
                    text: "an ancient unloved fact".into(),
                    why: Why::Stale,
                    on: now().date(),
                }],
                ..Applied::default()
            },
            now(),
        );
    }
    assert_eq!(journal.nights.len(), NIGHTS);
    assert_eq!(
        journal.nights[0].applied.dropped[0].text,
        "an ancient unloved fact"
    );
}

#[test]
fn what_a_night_did_reads_as_a_sentence() {
    let applied = Applied {
        dropped: vec![Removed {
            note: "n".into(),
            subject: "s".into(),
            text: "t".into(),
            why: Why::Stale,
            on: now().date(),
        }],
        merged: 2,
        reclassified: 1,
        failed: 0,
    };
    assert_eq!(
        applied.describe().as_deref(),
        Some("dropped 1 observation, merged 2, refiled 1")
    );
    assert_eq!(Applied::default().describe(), None);
}

fn ancient(n: usize) -> Held {
    held(&format!("Old{n}"), "an ancient unloved fact", Kind::Fact, "2025-01-01")
}

fn drop_of(held: &Held, why: Why) -> Operation {
    Operation::Drop {
        key: held.key(),
        note: held.observation.note.clone(),
        subject: held.observation.subject.clone(),
        text: held.observation.text.clone(),
        why,
    }
}

#[test]
fn a_plan_never_takes_more_than_its_share_whatever_it_asks_for() {
    let corpus: Vec<Held> = (0..40).map(ancient).collect();
    let greedy = Plan {
        operations: corpus.iter().map(|item| drop_of(item, Why::Stale)).collect(),
    };
    let bounded = greedy.bounded(&corpus, &Policy::default(), now());
    assert_eq!(bounded.drops(), 10);
    // What is bounded once is within bounds.
    assert_eq!(bounded.clone().bounded(&corpus, &Policy::default(), now()), bounded);
}

#[test]
fn only_something_cold_may_be_dropped() {
    let policy = Policy::default();
    let mut item = ancient(0);
    assert!(item.is_droppable(&policy, now()));
    item.last_used = Some(day("2026-07-20"));
    assert!(!item.is_droppable(&policy, now()));
    let young = held("A", "a young fact here", Kind::Fact, "2026-07-20");
    assert!(!young.is_droppable(&policy, now()));
    assert_eq!(f32::from_bits(policy.drop_below), 0.1);
}

#[test]
fn every_reason_reads_back_from_what_it_writes() {
    for why in [Why::Stale, Why::Duplicate, Why::Superseded, Why::Trivial] {
        assert_eq!(Why::parse(why.label()), Some(why));
        assert_eq!(Why::from_lowercase(why.label()), Some(why));
    }
    assert_eq!(Why::parse("nonsense"), None);
}

#[test]
fn an_operation_says_what_it_takes_and_what_that_costs() {
    let item = ancient(0);
    let drop = drop_of(&item, Why::Trivial);
    assert_eq!(drop.removes(), vec![item.key()]);
    assert_eq!(drop.drops(), 1);
    assert!(!drop.is_lossless());
    assert_eq!(drop.copy(), drop);
    let refile = Operation::Reclassify {
        key: item.key(),
        note: item.observation.note.clone(),
        subject: item.observation.subject.clone(),
        text: item.observation.text.clone(),
        from: Kind::Fact,
        to: Kind::Project,
    };
    assert!(refile.removes().is_empty());
    assert_eq!(refile.drops(), 0);
    assert!(Plan::default().is_empty());
}

#[test]
fn what_was_carried_out_is_written_down() {
    let item = ancient(0);
    let mut applied = Applied::default();
    applied.settle(&drop_of(&item, Why::Stale), true, now());
    applied.settle(&drop_of(&item, Why::Stale), false, now());
    assert_eq!(applied.dropped.len(), 1);
    assert_eq!(applied.dropped[0].on, day("2026-08-02"));
    assert_eq!(applied.failed, 1);
    assert!(!applied.is_quiet());
    assert!(Applied::default().is_quiet());
}

#[test]
fn a_subject_nobody_mentioned_is_not_counted() {
    let counted: Vec<Mention> = mentions(&[], &["anything".to_string()]);
    assert!(counted.is_empty());
    let asked = request(&[], now());
    assert!(asked.messages[0].content.contains(INSTRUCTIONS));
    assert!(BATCH > 0);
}
