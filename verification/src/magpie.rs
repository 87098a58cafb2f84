//! Turning a video link into a transcript, through the `magpie agent` command
//! line.
//!
//! One verb writes, and it is slow: it is asked about, and announced before it is
//! waited on. Everything else reads.

use crate::json::{
    field, json_of, number_at, text_at, truth_at, Json, JsonModel,
};
use crate::text;
use crate::tools::{any_flag, command_for, command_line, has_flag, verb_in, verb_of, Gate};
use vstd::prelude::*;

verus! {

/// What may be done with an invocation.
#[derive(Debug, Clone, PartialEq, Eq)]
pub enum Decision {
    Run(Gate),
    Refuse(String),
}

/// What a decision says.
pub enum Verdict {
    Run(Gate),
    Refuse(Seq<char>),
}

impl View for Decision {
    type V = Verdict;

    open spec fn view(&self) -> Verdict {
        match self {
            Decision::Run(gate) => Verdict::Run(*gate),
            Decision::Refuse(why) => Verdict::Refuse(why@),
        }
    }
}

/// Verbs that only read. Anything absent is gated, so that this being out of
/// date costs an approval rather than an unreviewed change.
pub open spec fn is_read(verb: Seq<char>) -> bool {
    verb == "help"@ || verb == "describe"@ || verb == "tools"@ || verb == "check"@ || verb == "list"@ || verb == "downloads"@ || verb == "show"@ || verb == "job"@
}

fn reads(verb: &str) -> (r: bool)
    ensures
        r == is_read(verb@),
{
    let chars = text::chars_of(verb);
    let v = chars.as_slice();
    text::spells(v, "help") || text::spells(v, "describe") || text::spells(v, "tools") || text::spells(v, "check") || text::spells(v, "list") || text::spells(v, "downloads") || text::spells(v, "show") || text::spells(v, "job")
}

/// How much of a response is kept.
pub const MAX_OUTPUT: usize = 8_000;

pub const NEEDS_A_VERB: &'static str = "`magpie` needs a verb. `tools` says whether a transcript can be made at all, `list` searches what has already been transcribed, `transcribe` takes a link.";

pub const NO_FLAGS_START: &'static str = "`";

pub const NO_FLAGS_END: &'static str = "` takes no `--flags` — Magpie's launcher rejects an option it was not told about before the verb ever runs. Use key=value pairs, like `transcribe <url> format=srt speakers=no`.";

/// What is decided of an invocation: one without a verb, or with a flag, is
/// refused; one that only reads runs without asking; any other asks first.
pub open spec fn decided(args: Seq<Seq<char>>) -> Verdict {
    match verb_of(args) {
        None => Verdict::Refuse(NEEDS_A_VERB@),
        Some(verb) => if has_flag(args) {
            Verdict::Refuse(NO_FLAGS_START@ + verb + NO_FLAGS_END@)
        } else if is_read(verb) {
            Verdict::Run(Gate::Never)
        } else {
            Verdict::Run(Gate::Always)
        },
    }
}

/// The verb, with a leading `agent` tolerated.
pub fn verb<'a>(args: &'a [String]) -> (r: Option<&'a str>)
    ensures
        match r {
            Some(v) => verb_of(text::texts(args@)) == Some(v@),
            None => verb_of(text::texts(args@)) is None,
        },
{
    verb_in(args)
}

/// Decides what to do with an invocation.
pub fn classify(args: &[String]) -> (r: Decision)
    ensures
        r@ == decided(text::texts(args@)),
{
    match verb_in(args) {
        None => Decision::Refuse(NEEDS_A_VERB.to_owned()),
        Some(verb) => {
            if any_flag(args) {
                let mut why = NO_FLAGS_START.to_owned();
                why.append(verb);
                why.append(NO_FLAGS_END);
                Decision::Refuse(why)
            } else if reads(verb) {
                Decision::Run(Gate::Never)
            } else {
                Decision::Run(Gate::Always)
            }
        },
    }
}

/// Nothing runs without asking but a verb that only reads, and nothing with a
/// flag runs at all.
pub proof fn only_reads_run_unasked(args: Seq<Seq<char>>)
    ensures
        decided(args) == Verdict::Run(Gate::Never) ==> verb_of(args) is Some && is_read(
            verb_of(args)->0,
        ) && !has_flag(args),
        has_flag(args) ==> decided(args) is Refuse,
{
}

/// The argument vector to spawn, with the fixed prefix put back on.
pub fn command(args: &[String]) -> (r: Vec<String>)
    ensures
        text::texts(r@) == command_line("magpie"@, text::texts(args@)),
{
    command_for("magpie", args)
}

/// What the system prompt says.
pub const GUIDANCE: &'static str = "`magpie` turns a video link into a transcript of what was said. Call it with the arguments after `magpie agent`: `tools`, `list [text]` and `show <id>` read and are instant; `transcribe <url>` downloads and transcribes, which takes minutes and will ask the user first.\n\nLook before transcribing. `list <text>` finds a transcript made weeks ago for the price of one fast call, and `tools` says whether transcribing is possible on this machine at all — it needs yt-dlp, FFmpeg and whisper.cpp, and the first transcript downloads a 466 MB speech model. Do not promise a transcript before checking.\n\n`transcribe` takes one video. Options are `format=text|srt|vtt`, `language=`, `model=tiny|base|small|medium` and `speakers=yes|no|N`; anything not passed comes from the user's own preferences, so pass only what they asked for. A playlist link is refused rather than expanded.\n\nThe words are never in the response — it returns a path to a file. Read it with `read_file` only if the user asked about what was *said*; if they asked for a transcript to be made, saying where it is is the finished job.";

/// What the system prompt says.
pub fn guidance() -> (r: String)
    ensures
        r@ == GUIDANCE@,
{
    GUIDANCE.to_owned()
}

/// The one verb that takes minutes.
pub open spec fn takes_minutes(args: Seq<Seq<char>>) -> bool {
    verb_of(args) == Some("transcribe"@)
}

/// Whether this invocation is one the user should be warned about before it
/// starts.
pub fn is_slow(args: &[String]) -> (r: bool)
    ensures
        r == takes_minutes(text::texts(args@)),
{
    match verb_in(args) {
        Some(verb) => text::same(verb, "transcribe"),
        None => false,
    }
}

pub const WAITING: &'static str = "Downloading and transcribing — this takes a few minutes, longer for a long video.";

/// What to say before starting a call that will not answer for minutes.
pub fn waiting_for(args: &[String]) -> (r: Option<String>)
    ensures
        r is Some <==> takes_minutes(text::texts(args@)),
        r is Some ==> (r->0)@ == WAITING@,
{
    if is_slow(args) {
        Some(WAITING.to_owned())
    } else {
        None
    }
}


pub const FAILED_START: &'static str = "This FAILED: there is no transcript, which is what was asked for. Say that first and plainly — a download that produced no words is not a success.\n\nThen say the second half: the audio did download and is still on disk";

pub const FAILED_END: &'static str = ". Leaving that out leaves the user with a large file they do not know about.";

pub const TOOL_MISSING: &'static str = "A transcript cannot be made on this machine until what the message names is installed. Relay it — the message says which command fixes it — and do not try again until it is.";

pub const REFUSED: &'static str = "Playlists are refused rather than expanded, because transcribing forty videos is hours of CPU started by one argument. Ask the user which single video they meant.";

pub const DOWNLOAD_FAILED: &'static str = "The site refused the download. The message is Magpie's own reading of why and the hint is the remedy — relay both rather than retrying.";

pub const NOT_READY: &'static str = "Transcribing is not possible on this machine yet — `ready.missing` says what is needed and names the command that installs it. Tell the user that before offering to transcribe anything.";

pub const DONE_START: &'static str = "The transcript is finished and it is at ";

pub const DONE_MIDDLE: &'static str = ". That is the answer — say where it is and stop.\n\nDo NOT call `read_file` on it. The user asked for a transcript to be made, not for what it says, and it is ";

pub const DONE_END: &'static str = " bytes of context spent answering a question nobody asked. Read it only if they go on to ask about the contents.";

pub const SPEAKERS_START: &'static str = " Who was speaking was worked out too: ";

pub const SPEAKERS_END: &'static str = ". Say so.";

/// What is said of a download that produced no transcript: that it failed, and
/// that the audio is still there, with where it is as far as that is known.
pub open spec fn failed_text(hint: Seq<char>) -> Seq<char> {
    FAILED_START@ + text::given(hint.len() > 0, " ("@ + hint + ")"@) + FAILED_END@
}

/// What is said of a finished transcript: where it is, that it need not be
/// read, and who was speaking where that is known.
pub open spec fn done_text(path: Seq<char>, bytes: nat, speakers: Seq<char>) -> Seq<char> {
    DONE_START@ + path + DONE_MIDDLE@ + text::decimal(bytes) + DONE_END@ + text::given(
        speakers.len() > 0,
        SPEAKERS_START@ + speakers + SPEAKERS_END@,
    )
}

/// The text of a field, or another where it has none.
pub open spec fn text_or(json: JsonModel, name: Seq<char>, other: Seq<char>) -> Seq<char> {
    match text_at(json, name) {
        Some(s) => s,
        None => other,
    }
}

/// The transcript of a job, where it is ready.
pub open spec fn finished(parsed: JsonModel) -> Option<JsonModel> {
    match field(parsed, "job"@) {
        Some(job) => match field(job, "transcript"@) {
            Some(transcript) => if text_at(transcript, "state"@) == Some("ready"@) {
                Some(transcript)
            } else {
                None
            },
            None => None,
        },
        None => None,
    }
}

/// What is said of an error.
pub open spec fn error_note(parsed: JsonModel) -> Option<Seq<char>> {
    match text_at(parsed, "error"@) {
        Some(error) => if error == "transcript-failed"@ {
            Some(failed_text(text_or(parsed, "hint"@, Seq::empty())))
        } else if error == "tool-missing"@ {
            Some(TOOL_MISSING@)
        } else if error == "refused"@ {
            Some(REFUSED@)
        } else if error == "download-failed"@ {
            Some(DOWNLOAD_FAILED@)
        } else {
            None
        },
        None => None,
    }
}

/// Whether a response says that nothing can be transcribed on this machine.
pub open spec fn not_ready(parsed: JsonModel) -> bool {
    match field(parsed, "ready"@) {
        Some(ready) => truth_at(ready, "transcribe"@) == Some(false),
        None => false,
    }
}

/// What is said of a response that has been read.
pub open spec fn note(parsed: JsonModel) -> Option<Seq<char>> {
    if truth_at(parsed, "ok"@) == Some(false) {
        error_note(parsed)
    } else if not_ready(parsed) {
        Some(NOT_READY@)
    } else {
        match finished(parsed) {
            Some(transcript) => Some(
                done_text(
                    text_or(transcript, "path"@, "the path above"@),
                    match number_at(transcript, "bytes"@) {
                        Some(n) => n as nat,
                        None => 0,
                    },
                    text_or(transcript, "speakers"@, Seq::empty()),
                ),
            ),
            None => None,
        }
    }
}

/// What the model is told alongside a response.
pub open spec fn note_of(response: Seq<char>) -> Option<Seq<char>> {
    match json_of(response) {
        Some(parsed) => note(parsed),
        None => None,
    }
}

/// What the model is told alongside a response, when the response has a shape
/// that is easy to report as the opposite of what it says.
pub fn note_for(response: &str) -> (r: Option<String>)
    ensures
        match r {
            Some(s) => note_of(response@) == Some(s@),
            None => note_of(response@) is None,
        },
{
    match Json::parse(response) {
        Some(parsed) => note_about(&parsed),
        None => None,
    }
}

fn string_or(found: Option<&String>, other: &str) -> (r: String)
    ensures
        r@ == match found {
            Some(s) => s@,
            None => other@,
        },
{
    match found {
        Some(s) => s.clone(),
        None => other.to_owned(),
    }
}

fn failure(parsed: &Json) -> (r: Option<String>)
    ensures
        match r {
            Some(s) => error_note(parsed@) == Some(s@),
            None => error_note(parsed@) is None,
        },
{
    match parsed.text_at("error") {
        Some(error) => {
            if text::same(error.as_str(), "transcript-failed") {
                proof {
                    reveal_strlit("");
                }
                assert(""@ =~= Seq::<char>::empty());
                let hint = string_or(parsed.text_at("hint"), "");
                let mut aside = " (".to_owned();
                aside.append(hint.as_str());
                aside.append(")");
                let mut r = FAILED_START.to_owned();
                text::push_given(&mut r, !hint.as_str().is_empty(), aside.as_str());
                r.append(FAILED_END);
                Some(r)
            } else if text::same(error.as_str(), "tool-missing") {
                Some(TOOL_MISSING.to_owned())
            } else if text::same(error.as_str(), "refused") {
                Some(REFUSED.to_owned())
            } else if text::same(error.as_str(), "download-failed") {
                Some(DOWNLOAD_FAILED.to_owned())
            } else {
                None
            }
        },
        None => None,
    }
}

fn ready_transcript<'a>(parsed: &'a Json) -> (r: Option<&'a Json>)
    ensures
        match r {
            Some(t) => finished(parsed@) == Some(t@),
            None => finished(parsed@) is None,
        },
{
    match parsed.get("job") {
        Some(job) => match job.get("transcript") {
            Some(transcript) => match transcript.text_at("state") {
                Some(state) => if text::same(state.as_str(), "ready") {
                    Some(transcript)
                } else {
                    None
                },
                None => None,
            },
            None => None,
        },
        None => None,
    }
}

fn unready(parsed: &Json) -> (r: bool)
    ensures
        r == not_ready(parsed@),
{
    match parsed.get("ready") {
        Some(ready) => match ready.truth_at("transcribe") {
            Some(can) => !can,
            None => false,
        },
        None => false,
    }
}

fn done_note(transcript: &Json) -> (r: String)
    ensures
        r@ == done_text(
            text_or(transcript@, "path"@, "the path above"@),
            match number_at(transcript@, "bytes"@) {
                Some(n) => n as nat,
                None => 0,
            },
            text_or(transcript@, "speakers"@, Seq::empty()),
        ),
{
    proof {
        reveal_strlit("");
    }
    assert(""@ =~= Seq::<char>::empty());
    let path = string_or(transcript.text_at("path"), "the path above");
    let speakers = string_or(transcript.text_at("speakers"), "");
    let bytes: u64 = match transcript.number_at("bytes") {
        Some(n) => n,
        None => 0,
    };
    let mut who = SPEAKERS_START.to_owned();
    who.append(speakers.as_str());
    who.append(SPEAKERS_END);
    let mut r = DONE_START.to_owned();
    r.append(path.as_str());
    r.append(DONE_MIDDLE);
    text::push_decimal(&mut r, bytes as u128);
    r.append(DONE_END);
    text::push_given(&mut r, !speakers.as_str().is_empty(), who.as_str());
    r
}

/// What the model is told alongside a response that has been read.
pub fn note_about(parsed: &Json) -> (r: Option<String>)
    ensures
        match r {
            Some(s) => note(parsed@) == Some(s@),
            None => note(parsed@) is None,
        },
{
    if let Some(false) = parsed.truth_at("ok") {
        return failure(parsed);
    }
    if unready(parsed) {
        return Some(NOT_READY.to_owned());
    }
    match ready_transcript(parsed) {
        Some(transcript) => Some(done_note(transcript)),
        None => None,
    }
}

/// What only reads runs without asking, and everything else asks, whatever it is called;
/// a flag is refused, and so is a command with no verb.
pub proof fn whatever_changes_something_asks(args: Seq<Seq<char>>)
    ensures
        verb_of(args) is None ==> decided(args) is Refuse,
        has_flag(args) ==> decided(args) is Refuse,
        verb_of(args) is Some && !has_flag(args) ==> decided(args) == if seq![
            "help"@,
            "describe"@,
            "tools"@,
            "check"@,
            "list"@,
            "downloads"@,
            "show"@,
            "job"@,
        ].contains(verb_of(args)->0) {
            Verdict::Run(Gate::Never)
        } else {
            Verdict::Run(Gate::Always)
        },
{
    let reads = seq![
        "help"@,
        "describe"@,
        "tools"@,
        "check"@,
        "list"@,
        "downloads"@,
        "show"@,
        "job"@,
    ];
    if verb_of(args) is Some {
        let verb = verb_of(args)->0;
        assert(reads[0] == "help"@);
        assert(reads[1] == "describe"@);
        assert(reads[2] == "tools"@);
        assert(reads[3] == "check"@);
        assert(reads[4] == "list"@);
        assert(reads[5] == "downloads"@);
        assert(reads[6] == "show"@);
        assert(reads[7] == "job"@);
        assert(reads.contains(verb) == is_read(verb));
    }
}

/// A transcript that is ready is told of by where it is, how long it is and who speaks in
/// it.
pub proof fn a_transcript_is_told_of(
    parsed: JsonModel,
    job: JsonModel,
    transcript: JsonModel,
    path: Seq<char>,
    bytes: u64,
    speakers: Seq<char>,
)
    requires
        truth_at(parsed, "ok"@) != Some(false),
        field(parsed, "ready"@) is None,
        field(parsed, "job"@) == Some(job),
        field(job, "transcript"@) == Some(transcript),
        text_at(transcript, "state"@) == Some("ready"@),
        text_at(transcript, "path"@) == Some(path),
        number_at(transcript, "bytes"@) == Some(bytes),
        text_at(transcript, "speakers"@) == Some(speakers),
    ensures
        note(parsed) is Some,
        text::holds(note(parsed)->0, path),
        text::holds(note(parsed)->0, text::decimal(bytes as nat)),
        text::holds(note(parsed)->0, speakers),
{
    let n = text::decimal(bytes as nat);
    let tail = text::given(speakers.len() > 0, SPEAKERS_START@ + speakers + SPEAKERS_END@);
    let whole = done_text(path, bytes as nat, speakers);
    text::lemma_holds_between(DONE_START@, path, DONE_MIDDLE@ + n + DONE_END@ + tail);
    assert(whole =~= DONE_START@ + path + (DONE_MIDDLE@ + n + DONE_END@ + tail));
    text::lemma_holds_between(DONE_START@ + path + DONE_MIDDLE@, n, DONE_END@ + tail);
    assert(whole =~= DONE_START@ + path + DONE_MIDDLE@ + n + (DONE_END@ + tail));
    let front = DONE_START@ + path + DONE_MIDDLE@ + n + DONE_END@;
    if speakers.len() > 0 {
        text::lemma_holds_between(front + SPEAKERS_START@, speakers, SPEAKERS_END@);
        assert(whole =~= front + SPEAKERS_START@ + speakers + SPEAKERS_END@);
    } else {
        text::lemma_holds_between(front, speakers, tail);
        assert(whole =~= front + speakers + tail);
    }
}

/// What went wrong is told of, with the hint that there was; and nothing is said of what
/// goes by no name.
pub proof fn what_went_wrong_is_told(parsed: JsonModel, error: Seq<char>, hint: Seq<char>)
    requires
        truth_at(parsed, "ok"@) == Some(false),
        text_at(parsed, "error"@) == Some(error),
        text_at(parsed, "hint"@) == Some(hint),
    ensures
        error == "transcript-failed"@ ==> note(parsed) is Some && text::holds(
            note(parsed)->0,
            hint,
        ),
        error == "tool-missing"@ ==> note(parsed) == Some(TOOL_MISSING@),
        error == "refused"@ ==> note(parsed) == Some(REFUSED@),
        error == "download-failed"@ ==> note(parsed) == Some(DOWNLOAD_FAILED@),
        error.len() == 0 ==> note(parsed) is None,
{
    reveal_strlit("transcript-failed");
    reveal_strlit("tool-missing");
    reveal_strlit("refused");
    reveal_strlit("download-failed");
    assert("transcript-failed"@.len() == 17 && "tool-missing"@.len() == 12 && "refused"@.len() == 7
        && "download-failed"@.len() == 15);
    if error == "transcript-failed"@ {
        let whole = failed_text(hint);
        if hint.len() > 0 {
            text::lemma_holds_between(FAILED_START@ + " ("@, hint, ")"@ + FAILED_END@);
            assert(whole =~= FAILED_START@ + " ("@ + hint + (")"@ + FAILED_END@));
        } else {
            text::lemma_holds_between(FAILED_START@, hint, FAILED_END@);
            assert(whole =~= FAILED_START@ + hint + FAILED_END@);
        }
    }
}

} // verus!
