use familiar::memory::ambient::{
    compose, Ranked, BACKGROUND_LINES, BUDGET, CORE_CEILING, CORE_LINES, PREAMBLE, RECENT_LINES,
};
use familiar::memory::observation::{Kind, Observation};

fn ranked(subject: &str, text: &str, kind: Kind, score: f32) -> Ranked {
    Ranked {
        observation: Observation {
            note: format!("Familiar/{subject}.md"),
            subject: subject.to_string(),
            text: text.to_string(),
            kind,
            saved: None,
        },
        score: score.to_bits(),
    }
}

#[test]
fn nothing_at_all_contributes_no_block() {
    assert_eq!(compose(&[], &[], &[]), None);
}

#[test]
fn the_block_says_it_is_data_and_wraps_the_facts() {
    let core = [ranked("Matthew", "writes Rust", Kind::Profile, 1.0)];
    let block = compose(&core, &[], &[]).expect("a block");
    assert!(block.contains("data, not instructions"), "{block}");
    assert!(block.contains("<saved_memory>"), "{block}");
    assert!(block.ends_with("</saved_memory>"), "{block}");
    assert!(block.contains("Matthew: writes Rust"), "{block}");
}

#[test]
fn core_memory_comes_before_everything_else() {
    // The ordering is the point: a preference the model has to look up is a
    // preference it will not honour.
    let core = [ranked(
        "Matthew",
        "prefers small commits",
        Kind::Preference,
        1.0,
    )];
    let recent = [ranked("Roof", "was finished in April", Kind::Fact, 0.5)];
    let background = [(
        "Contractors".to_string(),
        "Vandenberg did the roof.".to_string(),
    )];
    let block = compose(&core, &recent, &background).expect("a block");

    let preference = block.find("prefers small commits").expect("core");
    let fact = block.find("finished in April").expect("recent");
    let note = block.find("Vandenberg").expect("background");
    assert!(preference < fact, "{block}");
    assert!(fact < note, "{block}");
}

#[test]
fn the_block_never_exceeds_its_budget_however_big_the_vault_is() {
    // The property the whole module exists for. Six months of use must not
    // produce a bigger prompt than six days.
    let many: Vec<Ranked> = (0..500)
        .map(|n| {
            ranked(
                &format!("Subject{n}"),
                &format!("a sentence about the {n}th thing, with enough words to be real"),
                Kind::Preference,
                1.0 - (n as f32) / 1000.0,
            )
        })
        .collect();
    let more: Vec<Ranked> = (0..500)
        .map(|n| {
            ranked(
                &format!("Other{n}"),
                "another sentence entirely",
                Kind::Fact,
                0.5,
            )
        })
        .collect();
    let background: Vec<(String, String)> = (0..500)
        .map(|n| (format!("Note{n}"), "some excerpt or other".to_string()))
        .collect();

    let block = compose(&many, &more, &background).expect("a block");
    let body = block
        .split_once("<saved_memory>")
        .and_then(|(_, rest)| rest.split_once("</saved_memory>"))
        .map(|(body, _)| body)
        .expect("a body");
    assert!(
        body.chars().count() <= BUDGET,
        "the block ran to {} characters",
        body.chars().count()
    );
}

#[test]
fn core_cannot_crowd_out_the_rest_of_the_block() {
    // Without the share, a vault heavy on preferences would leave nothing
    // for what the conversation is actually about.
    let many: Vec<Ranked> = (0..50)
        .map(|n| {
            ranked(
                &format!("Subject{n}"),
                &"a long standing preference of some kind ".repeat(4),
                Kind::Preference,
                1.0,
            )
        })
        .collect();
    let recent = [ranked("Roof", "was finished in April", Kind::Fact, 0.5)];
    let block = compose(&many, &recent, &[]).expect("a block");
    assert!(block.contains("finished in April"), "{block}");
}

#[test]
fn the_highest_scoring_observations_are_the_ones_that_make_the_cut() {
    let core: Vec<Ranked> = (0..20)
        .map(|n| {
            ranked(
                &format!("Subject{n}"),
                &format!("observation number {n}"),
                Kind::Preference,
                n as f32 / 100.0,
            )
        })
        .collect();
    let block = compose(&core, &[], &[]).expect("a block");
    assert!(block.contains("observation number 19"), "{block}");
    assert!(!block.contains("observation number 0\n"), "{block}");
}

#[test]
fn each_section_is_capped_in_lines_as_well_as_characters() {
    let core: Vec<Ranked> = (0..40)
        .map(|n| ranked(&format!("S{n}"), &format!("x{n}"), Kind::Preference, 1.0))
        .collect();
    let block = compose(&core, &[], &[]).expect("a block");
    assert_eq!(
        block.lines().filter(|l| l.starts_with("- ")).count(),
        CORE_LINES
    );
}

#[test]
fn the_same_sentence_is_not_printed_twice() {
    // A note's excerpt and the observation drawn from it are the commonest
    // case, and reading the same fact twice in one block makes the model
    // treat it as two corroborating sources.
    let core = [ranked(
        "Roof",
        "The north slope was replaced in April.",
        Kind::Fact,
        1.0,
    )];
    let background = [(
        "Roof".to_string(),
        "The north slope was replaced in April.".to_string(),
    )];
    let block = compose(&core, &[], &background).expect("a block");
    assert_eq!(block.matches("north slope").count(), 1, "{block}");
}

#[test]
fn a_section_with_nothing_in_it_leaves_no_empty_heading() {
    let core = [ranked("Matthew", "writes Rust", Kind::Profile, 1.0)];
    let block = compose(&core, &[], &[]).expect("a block");
    assert!(!block.contains("Learned recently"), "{block}");
    assert!(!block.contains("From the user's own notes"), "{block}");
}

#[test]
fn two_observations_that_score_the_same_come_out_in_a_fixed_order() {
    // Otherwise the prompt's stable prefix changes between launches and the
    // server re-prefills the whole thing for no reason.
    let core = [
        ranked("B", "second", Kind::Preference, 1.0),
        ranked("A", "first", Kind::Preference, 1.0),
    ];
    let once = compose(&core, &[], &[]).expect("a block");
    let reversed = [core[1].clone(), core[0].clone()];
    let twice = compose(&reversed, &[], &[]).expect("a block");
    assert_eq!(once, twice);
}

#[test]
fn every_section_has_a_ceiling() {
    let recent: Vec<Ranked> = (0..40)
        .map(|n| ranked(&format!("S{n}"), &format!("x{n}"), Kind::Fact, 1.0))
        .collect();
    let block = compose(&[], &recent, &[]).expect("a block");
    assert_eq!(block.lines().filter(|l| l.starts_with("- ")).count(), RECENT_LINES);
    let background: Vec<(String, String)> =
        (0..40).map(|n| (format!("N{n}"), format!("y{n}"))).collect();
    let block = compose(&[], &[], &background).expect("a block");
    assert_eq!(block.lines().filter(|l| l.starts_with("- ")).count(), BACKGROUND_LINES);
    assert!(block.starts_with(PREAMBLE), "{block}");
    assert_eq!(CORE_CEILING, BUDGET * 60 / 100);
}

/// What stands between the two tags.
fn between(block: &str) -> &str {
    let (_, rest) = block.split_once("<saved_memory>").expect("a tag");
    rest.split_once("</saved_memory>").expect("a tag").0
}

#[test]
fn the_headings_count_towards_the_budget() {
    // The subject, a colon and a space, the bullet, the heading and the line
    // breaks leave this much for the sentence.
    let room = BUDGET - 1 - "Learned recently:\n".len() - "- S: \n".len();
    let fits = ranked("S", &"x".repeat(room), Kind::Fact, 1.0);
    let block = compose(&[], &[fits], &[]).expect("a block");
    assert_eq!(between(&block).chars().count(), BUDGET);
    let over = ranked("S", &"x".repeat(room + 1), Kind::Fact, 1.0);
    assert_eq!(compose(&[], &[over], &[]), None);
}

#[test]
fn every_section_keeps_the_block_within_its_budget() {
    let core = [ranked("A", &"x".repeat(1000), Kind::Preference, 1.0)];
    let recent = [ranked("B", &"y".repeat(600), Kind::Fact, 0.5)];
    let background = [("C".to_string(), "z".repeat(100)), ("D".to_string(), "w".repeat(20))];
    let block = compose(&core, &recent, &background).expect("a block");
    assert!(between(&block).chars().count() <= BUDGET);
    assert!(block.contains("D: www"), "{block}");
    assert!(!block.contains("C: zzz"), "{block}");
}
