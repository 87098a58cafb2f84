use familiar::instructions::{date_line, Prompt, DEFAULT_PERSONA};
use familiar::time::Moment;

fn capabilities() -> Vec<String> {
    vec![
        "You can search the user's notes with `recall`.".to_string(),
        "You can search the web with `web_search`.".to_string(),
    ]
}

#[test]
fn the_volatile_line_is_last_whatever_else_is_present() {
    let capabilities = capabilities();
    let variants = [
        Prompt {
            persona: DEFAULT_PERSONA,
            instructions: Some("Call me Matt."),
            capabilities: &capabilities,
            ambient: Some("<saved_memory>…</saved_memory>"),
            volatile: "Today is Friday 31 July 2026.",
        },
        Prompt {
            persona: DEFAULT_PERSONA,
            instructions: None,
            capabilities: &[],
            ambient: None,
            volatile: "Today is Friday 31 July 2026.",
        },
        Prompt {
            persona: "",
            instructions: None,
            capabilities: &[],
            ambient: None,
            volatile: "Today is Friday 31 July 2026.",
        },
    ];
    for prompt in variants {
        let composed = prompt.compose();
        assert!(
            composed.ends_with("Today is Friday 31 July 2026."),
            "{composed}"
        );
    }
}

#[test]
fn changing_the_date_leaves_the_cached_prefix_untouched() {
    // The property the KV cache depends on. If this fails, every turn on a
    // new day pays for a full prefill.
    let capabilities = capabilities();
    let prompt = Prompt {
        persona: DEFAULT_PERSONA,
        instructions: Some("Call me Matt."),
        capabilities: &capabilities,
        ambient: Some("<saved_memory>Matthew writes Rust.</saved_memory>"),
        volatile: "Today is Friday 31 July 2026.",
    };
    let tomorrow = Prompt {
        volatile: "Today is Saturday 1 August 2026.",
        ..prompt.clone()
    };

    let today = prompt.compose();
    let later = tomorrow.compose();
    let shared = prompt.stable_prefix();

    assert_eq!(shared, tomorrow.stable_prefix());
    assert!(today.starts_with(&shared), "{today}");
    assert!(later.starts_with(&shared), "{later}");
    assert_ne!(today, later);
}

#[test]
fn ambient_memory_sits_above_the_date_and_below_the_capabilities() {
    let capabilities = capabilities();
    let composed = Prompt {
        persona: "You are Familiar.",
        instructions: None,
        capabilities: &capabilities,
        ambient: Some("<saved_memory>Matthew writes Rust.</saved_memory>"),
        volatile: "Today is Friday 31 July 2026.",
    }
    .compose();

    let capability = composed.find("`recall`").expect("capabilities");
    let ambient = composed.find("saved_memory").expect("ambient");
    let date = composed.find("Today is").expect("date");
    assert!(capability < ambient, "{composed}");
    assert!(ambient < date, "{composed}");
}

/// The whole point of the change: what the user asked for is *added* to the
/// built-in instructions, so asking to be called Matt does not cost the
/// paragraph about Markdown.
#[test]
fn what_the_user_asked_for_is_added_to_the_persona_not_swapped_for_it() {
    let composed = Prompt {
        persona: DEFAULT_PERSONA,
        instructions: Some("Call me Matt, and keep answers short."),
        capabilities: &[],
        ambient: None,
        volatile: "Today is Friday 31 July 2026.",
    }
    .compose();

    assert!(composed.contains("rendered as Markdown"), "{composed}");
    let persona = composed.find("You are Familiar").expect("the persona");
    let asked = composed.find("Call me Matt").expect("the instructions");
    let date = composed.find("Today is").expect("the date");
    assert!(persona < asked, "{composed}");
    assert!(asked < date, "{composed}");
}

/// The project is where the instructions came from and the model is never
/// told that. See the header of `model::project`.
#[test]
fn nothing_names_the_project_the_instructions_came_from() {
    let composed = Prompt {
        persona: DEFAULT_PERSONA,
        instructions: Some("Prefer Rust."),
        capabilities: &[],
        ambient: None,
        volatile: "Today is Friday 31 July 2026.",
    }
    .compose();
    assert!(!composed.to_lowercase().contains("project"), "{composed}");
}

#[test]
fn an_absent_part_leaves_no_blank_hole() {
    let composed = Prompt {
        persona: "You are Familiar.",
        instructions: None,
        capabilities: &[],
        ambient: None,
        volatile: "Today is Friday 31 July 2026.",
    }
    .compose();
    assert_eq!(
        composed,
        "You are Familiar.\n\nToday is Friday 31 July 2026."
    );
    assert!(!composed.contains("\n\n\n"), "{composed}");
}

#[test]
fn each_capability_is_its_own_line() {
    let capabilities = capabilities();
    let composed = Prompt {
        persona: "",
        instructions: None,
        capabilities: &capabilities,
        ambient: None,
        volatile: "",
    }
    .compose();
    assert_eq!(
        composed,
        "## What you can do\n\nYou can search the user's notes with `recall`.\n\nYou can search the web with `web_search`."
    );
}

#[test]
fn the_date_line_reads_as_a_person_would_say_it() {
    let parsed = chrono::DateTime::parse_from_rfc3339("2026-07-31T14:02:11+01:00").expect("date");
    let when = Moment {
        seconds: parsed.timestamp(),
        nanos: parsed.timestamp_subsec_nanos(),
        offset: parsed.offset().local_minus_utc(),
    };
    assert_eq!(date_line(when), "Today is Friday 31 July 2026.");
}

#[test]
fn the_date_is_the_one_on_the_local_calendar() {
    // 2026-07-31T23:30:00Z, which an hour to the east is the next day.
    let seconds = 1_785_540_600;
    assert_eq!(
        date_line(Moment { seconds, nanos: 0, offset: 0 }),
        "Today is Friday 31 July 2026."
    );
    assert_eq!(
        date_line(Moment { seconds, nanos: 0, offset: 3600 }),
        "Today is Saturday 1 August 2026."
    );
}

#[test]
fn an_empty_prompt_says_nothing() {
    assert_eq!(Prompt::default().compose(), "");
    assert_eq!(Prompt::default().stable_prefix(), "");
}
