use familiar::json::Json;
use familiar::magpie::{classify, command, guidance, is_slow, note_about, note_for, verb, waiting_for, Decision, MAX_OUTPUT};
use familiar::tools::Gate;

fn args(line: &str) -> Vec<String> {
    line.split_whitespace().map(str::to_string).collect()
}

#[test]
fn only_the_verb_that_downloads_is_gated_or_slow() {
    for line in ["tools", "list", "show 3", "describe", "help"] {
        assert_eq!(classify(&args(line)), Decision::Run(Gate::Never), "{line}");
        assert!(!is_slow(&args(line)), "{line}");
    }
    assert_eq!(
        classify(&args("transcribe https://youtu.be/x")),
        Decision::Run(Gate::Always)
    );
    assert!(is_slow(&args("transcribe https://youtu.be/x")));
}

#[test]
fn an_unknown_verb_is_gated() {
    assert_eq!(
        classify(&args("delete-everything")),
        Decision::Run(Gate::Always)
    );
}

#[test]
fn a_slow_call_says_what_it_is_waiting_for_before_it_waits() {
    // A spinner with nothing in front of it is how a four-minute wait
    // becomes a bug report.
    let said = waiting_for(&args("transcribe https://youtu.be/x")).expect("something to say");
    assert!(said.contains("minutes"), "{said}");
    assert_eq!(waiting_for(&args("list")), None);
}

#[test]
fn magpie_the_fixed_prefix_is_added_and_not_doubled() {
    assert_eq!(command(&args("tools")), ["magpie", "agent", "tools"]);
    assert_eq!(command(&args("agent tools")), ["magpie", "agent", "tools"]);
}

#[test]
fn magpie_a_flag_is_refused_with_what_to_write_instead() {
    let Decision::Refuse(why) = classify(&args("transcribe url --format srt")) else {
        panic!("a flag should be refused");
    };
    assert!(why.contains("format=srt"), "{why}");
}

#[test]
fn a_download_without_a_transcript_is_reported_as_both_things() {
    // The audio is on disk, so looking at the download would say it went
    // fine. What was asked for was a transcript.
    let note = note_for(
        r#"{"ok":false,"error":"transcript-failed",
            "message":"The audio downloaded, but there is no transcript.",
            "hint":"The audio is at /home/user/Downloads/A talk.m4a."}"#,
    )
    .expect("a note");
    assert!(note.contains("FAILED"), "{note}");
    assert!(note.contains("no transcript"), "{note}");
    assert!(note.contains("A talk.m4a"), "{note}");
    assert!(note.contains("still on disk"), "{note}");
}

#[test]
fn a_finished_transcript_says_the_words_are_in_a_file() {
    let note = note_for(
        r#"{"ok":true,"action":"transcribed","job":{"id":7,"title":"Me at the zoo",
            "transcript":{"state":"ready","format":"text","path":"/home/user/x.txt",
                          "bytes":193,"speakers":"2 speakers · Alice, Speaker 2"}}}"#,
    )
    .expect("a note");
    assert!(note.contains("Do NOT call `read_file`"), "{note}");
    assert!(note.contains("/home/user/x.txt"), "{note}");
    assert!(note.contains("Alice"), "{note}");
}

#[test]
fn a_machine_that_cannot_transcribe_says_so_before_anything_is_promised() {
    let note =
        note_for(r#"{"ok":true,"ready":{"transcribe":false,"missing":["Install yt-dlp"]}}"#)
            .expect("a note");
    assert!(note.contains("not possible"), "{note}");

    assert_eq!(
        note_for(r#"{"ok":true,"ready":{"transcribe":true,"missing":[]}}"#),
        None
    );
}

#[test]
fn a_playlist_refusal_says_to_ask_which_video() {
    let note = note_for(r#"{"ok":false,"error":"refused","message":"That is a playlist."}"#)
        .expect("a note");
    assert!(note.contains("single"), "{note}");
}

#[test]
fn magpie_an_ordinary_response_needs_no_note() {
    assert_eq!(note_for(r#"{"ok":true,"downloads":[]}"#), None);
    assert_eq!(note_for("MAGPIE AGENT\n\nVerbs:"), None);
}

#[test]
fn the_verb_of_a_magpie_call_is_the_first_word_after_the_prefix() {
    assert_eq!(verb(&args("transcribe x")), Some("transcribe"));
    assert_eq!(verb(&args("agent transcribe x")), Some("transcribe"));
    assert_eq!(verb(&[]), None);
    assert!(guidance().contains("magpie"));
    assert!(MAX_OUTPUT > 0);
}

#[test]
fn a_refused_download_is_relayed() {
    let parsed = Json::parse(r#"{"ok":false,"error":"download-failed"}"#).expect("json");
    let note = note_about(&parsed).expect("a note");
    assert!(note.contains("refused the download"), "{note}");
    let parsed = Json::parse(r#"{"ok":false,"error":"tool-missing"}"#).expect("json");
    assert!(note_about(&parsed).expect("a note").contains("installed"));
}
