use familiar::office::skills::{all, by_lowercase, catalogue, docx, named, pdf, pptx, xlsx, CLOSING_LINE};

#[test]
fn every_format_has_a_skill() {
    let names: Vec<&str> = all().iter().map(|skill| skill.name).collect();
    assert_eq!(names, ["docx", "xlsx", "pptx", "pdf"]);
}

#[test]
fn a_skill_reads_as_the_markdown_file_it_is_modelled_on() {
    let document = docx().document();
    assert!(
        document.starts_with("---\nname: docx\ndescription: "),
        "{document}"
    );
    assert_eq!(
        document.matches("\n---\n").count(),
        1,
        "one frontmatter block"
    );
    assert!(document.contains("# Making a Word document"));
    // The one thing in here that is not `SKILL.md`, and it goes last so it
    // is the most recent thing read when the next decision is made.
    assert!(document.trim_end().ends_with(CLOSING_LINE), "{document}");
}

#[test]
fn every_skill_ends_by_saying_the_instructions_are_not_the_deliverable() {
    for skill in all() {
        assert!(
            skill.document().contains("Make it now"),
            "{} does not say to build it",
            skill.name
        );
    }
}

#[test]
fn skills_are_found_by_the_names_a_person_would_say() {
    // A model repeats the user's word back, and the user says "Word".
    assert_eq!(named("docx").map(|s| s.name), Some("docx"));
    assert_eq!(named("Word").map(|s| s.name), Some("docx"));
    assert_eq!(named(".xlsx").map(|s| s.name), Some("xlsx"));
    assert_eq!(named("excel").map(|s| s.name), Some("xlsx"));
    assert_eq!(named(" PowerPoint ").map(|s| s.name), Some("pptx"));
    assert_eq!(named("slides").map(|s| s.name), Some("pptx"));
    assert_eq!(named("PDF").map(|s| s.name), Some("pdf"));
    assert_eq!(named("keynote"), None);
}

#[test]
fn the_catalogue_names_every_skill_and_how_to_load_one() {
    let catalogue = catalogue(false);
    for skill in all() {
        assert!(catalogue.contains(skill.name), "{} is missing", skill.name);
    }
    assert!(catalogue.contains("read_skill"), "{catalogue}");
    // The division of labour is only mentioned where there is a sandbox to
    // divide the labour with.
    assert!(!catalogue.contains("run_python"), "{catalogue}");
    let with_sandbox = familiar::office::skills::catalogue(true);
    assert!(with_sandbox.contains("run_python"), "{with_sandbox}");
    assert!(
        with_sandbox.contains("cannot open a document"),
        "{with_sandbox}"
    );
}

#[test]
fn the_always_loaded_half_stays_small() {
    // The whole point of the split. Descriptions ride in every prompt and
    // bodies do not — not to save context, which is ample, but because
    // every token in the prefix is attended to on every generated token and
    // a small model follows a short instruction set better than a long one.
    // ~1,000 characters is about 250 tokens, which is what the whole
    // feature costs a conversation that never asks for a document.
    let always = catalogue(false).chars().count();
    assert!(
        always < 1_050,
        "the catalogue has grown to {always} characters"
    );

    let deferred: usize = all().iter().map(|skill| skill.body.chars().count()).sum();
    assert!(
        deferred > always * 4,
        "deferring {deferred} characters behind {always} is not worth the tool call"
    );
}

#[test]
fn every_body_names_the_tool_it_is_about() {
    for skill in all() {
        let expected = match skill.name {
            "docx" => "create_document",
            "xlsx" => "create_spreadsheet",
            "pptx" => "create_presentation",
            _ => "create_pdf",
        };
        assert!(
            skill.body.contains(expected),
            "the {} skill never mentions {expected}",
            skill.name
        );
    }
}

#[test]
fn every_skill_says_what_it_cannot_do() {
    // A skill that only lists capabilities teaches the model to promise
    // things the tool does not do, which the user finds out by opening the
    // file.
    for skill in all() {
        assert!(
            skill.body.contains("will not do"),
            "the {} skill has no limits section",
            skill.name
        );
    }
}

#[test]
fn a_description_says_when_to_read_it_not_just_what_it_is() {
    for skill in all() {
        assert!(
            skill.description.contains("Read this before"),
            "the {} description does not say when to load it",
            skill.name
        );
    }
}

#[test]
fn the_four_skills_are_the_ones_on_the_list() {
    assert_eq!(all(), vec![docx(), xlsx(), pptx(), pdf()]);
    assert_eq!(by_lowercase("spreadsheet").map(|s| s.name), Some("xlsx"));
    assert_eq!(by_lowercase("Word"), None);
}

#[test]
fn the_longer_catalogue_begins_with_the_shorter() {
    let short = catalogue(false);
    let long = catalogue(true);
    assert!(long.starts_with(&short) && long.len() > short.len());
    for skill in all() {
        assert!(short.contains(&format!("- `{}` — {}", skill.name, skill.description)));
    }
}
