//! Reaching Planner's task list through its `planner agent` command line.
//!
//! The verb decides who is asked. One that reads runs; one that changes the
//! user's task list stops at the approval dialog, and so does an unknown one. No
//! `--flags`, ever: arguments are positional words and `key=value` pairs.

use crate::json::{
    field, json_of, number_at, text_at, truth_at, Json, JsonModel,
};
use crate::text;
use crate::tools::{any_flag, command_for, command_line, has_flag, verb_in, verb_of, Gate};
use vstd::prelude::*;

verus! {

/// What may be done with an invocation.
#[derive(Debug, Clone, PartialEq, Eq)]
pub enum Decision {
    Run(Gate),
    Refuse(String),
}

/// What a decision says.
pub enum Verdict {
    Run(Gate),
    Refuse(Seq<char>),
}

impl View for Decision {
    type V = Verdict;

    open spec fn view(&self) -> Verdict {
        match self {
            Decision::Run(gate) => Verdict::Run(*gate),
            Decision::Refuse(why) => Verdict::Refuse(why@),
        }
    }
}

/// Verbs that only read. Anything absent is gated, so that this being out of
/// date costs an approval rather than an unreviewed change.
pub open spec fn is_read(verb: Seq<char>) -> bool {
    verb == "help"@ || verb == "describe"@ || verb == "overview"@ || verb == "projects"@ || verb == "list"@ || verb == "tasks"@ || verb == "show"@ || verb == "task"@ || verb == "search"@ || verb == "find"@
}

fn reads(verb: &str) -> (r: bool)
    ensures
        r == is_read(verb@),
{
    let chars = text::chars_of(verb);
    let v = chars.as_slice();
    text::spells(v, "help") || text::spells(v, "describe") || text::spells(v, "overview") || text::spells(v, "projects") || text::spells(v, "list") || text::spells(v, "tasks") || text::spells(v, "show") || text::spells(v, "task") || text::spells(v, "search") || text::spells(v, "find")
}

/// How much of a response is kept.
pub const MAX_OUTPUT: usize = 12_000;

pub const NEEDS_A_VERB: &'static str = "`planner` needs a verb. `overview` lists the projects and labels that exist, `list` takes a filter query, `add` takes a quick-add line.";

pub const NO_FLAGS_START: &'static str = "`";

pub const NO_FLAGS_END: &'static str = "` takes no `--flags` — Planner's launcher rejects an option it was not told about before the verb ever runs. Use positional words and key=value pairs, like `list 'due: today' limit=10`.";

/// What is decided of an invocation: one without a verb, or with a flag, is
/// refused; one that only reads runs without asking; any other asks first.
pub open spec fn decided(args: Seq<Seq<char>>) -> Verdict {
    match verb_of(args) {
        None => Verdict::Refuse(NEEDS_A_VERB@),
        Some(verb) => if has_flag(args) {
            Verdict::Refuse(NO_FLAGS_START@ + verb + NO_FLAGS_END@)
        } else if is_read(verb) {
            Verdict::Run(Gate::Never)
        } else {
            Verdict::Run(Gate::Always)
        },
    }
}

/// The verb, with a leading `agent` tolerated.
pub fn verb<'a>(args: &'a [String]) -> (r: Option<&'a str>)
    ensures
        match r {
            Some(v) => verb_of(text::texts(args@)) == Some(v@),
            None => verb_of(text::texts(args@)) is None,
        },
{
    verb_in(args)
}

/// Decides what to do with an invocation.
pub fn classify(args: &[String]) -> (r: Decision)
    ensures
        r@ == decided(text::texts(args@)),
{
    match verb_in(args) {
        None => Decision::Refuse(NEEDS_A_VERB.to_owned()),
        Some(verb) => {
            if any_flag(args) {
                let mut why = NO_FLAGS_START.to_owned();
                why.append(verb);
                why.append(NO_FLAGS_END);
                Decision::Refuse(why)
            } else if reads(verb) {
                Decision::Run(Gate::Never)
            } else {
                Decision::Run(Gate::Always)
            }
        },
    }
}

/// Nothing runs without asking but a verb that only reads, and nothing with a
/// flag runs at all.
pub proof fn only_reads_run_unasked(args: Seq<Seq<char>>)
    ensures
        decided(args) == Verdict::Run(Gate::Never) ==> verb_of(args) is Some && is_read(
            verb_of(args)->0,
        ) && !has_flag(args),
        has_flag(args) ==> decided(args) is Refuse,
{
}

/// The argument vector to spawn, with the fixed prefix put back on.
pub fn command(args: &[String]) -> (r: Vec<String>)
    ensures
        text::texts(r@) == command_line("planner"@, text::texts(args@)),
{
    command_for("planner", args)
}

/// What the system prompt says.
pub const GUIDANCE: &'static str = "`planner` is the user's own task list. Call it with the arguments after `planner agent`: `overview`, `list <query>`, `show <task>`, `search <text>` read it; `add`, `subtask`, `complete`, `reopen`, `update` and `delete` change it and will ask them first.\n\nStart with `overview` before adding anything. It is the only call that says which projects and labels exist, and a `#Project` that does not exist is not created — the task lands in the Inbox instead.\n\nTwo small languages, both the app's own. A task is created from a quick-add line, where the tokens are stripped out of the title: `#Project` `/Section` `@label` `p1`–`p4` `!30m`, dates like `tomorrow`, `next friday`, `27th`, `9am`, and repeats like `every other monday`. A list is filtered with a query: `due: today`, `overdue`, `no date`, `p1`, `#Work`, `@errand`, joined by `&`, `|` and `!`.\n\nEvery task comes back with an id. Pass the id you were given rather than the title again — a title matching two open tasks is an error, not a guess. There are no `--flags`: arguments are positional words and `key=value` pairs.";

/// What the system prompt says.
pub fn guidance() -> (r: String)
    ensures
        r@ == GUIDANCE@,
{
    GUIDANCE.to_owned()
}


pub const AMBIGUOUS: &'static str = "More than one open task matches, so this is a question for the user rather than a guess. Stop here: list the candidates by title and ask which they meant. Do not call `planner` again this turn — you cannot resolve it without them, and the id to pass is the one they give you next turn.";

pub const BAD_QUERY: &'static str = "That filter query did not parse. The terms are things like `due: today`, `overdue`, `#Project`, `@label`, `p1`, `no date`, combined with `&`, `|`, `!` and parentheses.";

pub const REPEATS_START: &'static str = "That task repeats, so completing it succeeded *and* it is back on ";

pub const REPEATS_MIDDLE: &'static str = ". Say both. Calling it done leaves the user thinking it is finished; calling it a reschedule tells them the opposite of what they asked for. Give the date as ";

pub const REPEATS_END: &'static str = " — copy it, do not work it out. Naming the weekday is fine, but the number is the one above and not one you calculate from today.";

pub const TRUNCATED_START: &'static str = "This is a page, not the whole list — ";

pub const TRUNCATED_END: &'static str = " tasks matched. Say so rather than implying it is everything, and pass `limit=N` if the rest genuinely matter.";

pub const TO_INBOX: &'static str = "It went to the Inbox, which is where a task goes when its `#Project` does not exist — Planner does not create one. If a project was meant, check the name with `overview` and move it with `update`.";

pub const ADDED: &'static str = "The date and project above are what Planner actually parsed out of the line. Report those rather than restating what you asked for.";

/// What is said of a task that was ticked off and is open again on a later
/// date: both halves.
pub open spec fn repeats_text(next: Seq<char>) -> Seq<char> {
    REPEATS_START@ + next + REPEATS_MIDDLE@ + next + REPEATS_END@
}

/// What is said of a response that has been read.
pub open spec fn note(parsed: JsonModel) -> Option<Seq<char>> {
    if truth_at(parsed, "ok"@) == Some(false) {
        if text_at(parsed, "error"@) == Some("ambiguous"@) {
            Some(AMBIGUOUS@)
        } else if text_at(parsed, "error"@) == Some("bad-query"@) {
            Some(BAD_QUERY@)
        } else {
            None
        }
    } else if text_at(parsed, "outcome"@) == Some("completed-and-repeats"@) {
        Some(
            repeats_text(
                match text_at(parsed, "next_due"@) {
                    Some(next) => next,
                    None => "a later date"@,
                },
            ),
        )
    } else if truth_at(parsed, "truncated"@) == Some(true) {
        let matched = match number_at(parsed, "matched"@) {
            Some(n) => n as nat,
            None => 0,
        };
        Some(TRUNCATED_START@ + text::decimal(matched) + TRUNCATED_END@)
    } else if text_at(parsed, "action"@) == Some("added"@) {
        if went_to_inbox(parsed) {
            Some(TO_INBOX@)
        } else {
            Some(ADDED@)
        }
    } else {
        None
    }
}

/// Whether the project of the task in a response is the Inbox.
pub open spec fn went_to_inbox(parsed: JsonModel) -> bool {
    match field(parsed, "task"@) {
        Some(task) => match text_at(task, "project"@) {
            Some(project) => text::ascii_lowercase(project) == "inbox"@,
            None => false,
        },
        None => false,
    }
}

/// What the model is told alongside a response.
pub open spec fn note_of(response: Seq<char>) -> Option<Seq<char>> {
    match json_of(response) {
        Some(parsed) => note(parsed),
        None => None,
    }
}

/// What the model is told alongside a response, when the response has a shape
/// that is easy to report as the opposite of what it says.
pub fn note_for(response: &str) -> (r: Option<String>)
    ensures
        match r {
            Some(s) => note_of(response@) == Some(s@),
            None => note_of(response@) is None,
        },
{
    match Json::parse(response) {
        Some(parsed) => note_about(&parsed),
        None => None,
    }
}

fn in_inbox(parsed: &Json) -> (r: bool)
    ensures
        r == went_to_inbox(parsed@),
{
    match parsed.get("task") {
        Some(task) => match task.text_at("project") {
            Some(project) => {
                let chars = text::chars_of(project.as_str());
                let lowered = text::lowered(chars.as_slice());
                text::spells(lowered.as_slice(), "inbox")
            },
            None => false,
        },
        None => false,
    }
}

fn says(found: Option<&String>, expected: &str) -> (r: bool)
    ensures
        r == match found {
            Some(s) => s@ == expected@,
            None => false,
        },
{
    match found {
        Some(s) => text::same(s.as_str(), expected),
        None => false,
    }
}

/// What the model is told alongside a response that has been read.
pub fn note_about(parsed: &Json) -> (r: Option<String>)
    ensures
        match r {
            Some(s) => note(parsed@) == Some(s@),
            None => note(parsed@) is None,
        },
{
    if let Some(false) = parsed.truth_at("ok") {
        return if says(parsed.text_at("error"), "ambiguous") {
            Some(AMBIGUOUS.to_owned())
        } else if says(parsed.text_at("error"), "bad-query") {
            Some(BAD_QUERY.to_owned())
        } else {
            None
        };
    }
    // Both halves are true and reporting either alone tells the user the
    // opposite of what happened.
    if says(parsed.text_at("outcome"), "completed-and-repeats") {
        let next = match parsed.text_at("next_due") {
            Some(next) => next.as_str(),
            None => "a later date",
        };
        let mut r = REPEATS_START.to_owned();
        r.append(next);
        r.append(REPEATS_MIDDLE);
        r.append(next);
        r.append(REPEATS_END);
        return Some(r);
    }
    if let Some(true) = parsed.truth_at("truncated") {
        let matched: u64 = match parsed.number_at("matched") {
            Some(n) => n,
            None => 0,
        };
        let mut r = TRUNCATED_START.to_owned();
        text::push_decimal(&mut r, matched as u128);
        r.append(TRUNCATED_END);
        return Some(r);
    }
    // A project that does not exist is not created: the task lands in the
    // Inbox, and only the response knows.
    if says(parsed.text_at("action"), "added") {
        return if in_inbox(parsed) {
            Some(TO_INBOX.to_owned())
        } else {
            Some(ADDED.to_owned())
        };
    }
    None
}

/// What only reads runs without asking, and everything else asks, whatever it is called;
/// a flag is refused, and so is a command with no verb.
pub proof fn whatever_changes_something_asks(args: Seq<Seq<char>>)
    ensures
        verb_of(args) is None ==> decided(args) is Refuse,
        has_flag(args) ==> decided(args) is Refuse,
        verb_of(args) is Some && !has_flag(args) ==> decided(args) == if seq![
            "help"@,
            "describe"@,
            "overview"@,
            "projects"@,
            "list"@,
            "tasks"@,
            "show"@,
            "task"@,
            "search"@,
            "find"@,
        ].contains(verb_of(args)->0) {
            Verdict::Run(Gate::Never)
        } else {
            Verdict::Run(Gate::Always)
        },
{
    let reads = seq![
        "help"@,
        "describe"@,
        "overview"@,
        "projects"@,
        "list"@,
        "tasks"@,
        "show"@,
        "task"@,
        "search"@,
        "find"@,
    ];
    if verb_of(args) is Some {
        let verb = verb_of(args)->0;
        assert(reads[0] == "help"@);
        assert(reads[1] == "describe"@);
        assert(reads[2] == "overview"@);
        assert(reads[3] == "projects"@);
        assert(reads[4] == "list"@);
        assert(reads[5] == "tasks"@);
        assert(reads[6] == "show"@);
        assert(reads[7] == "task"@);
        assert(reads[8] == "search"@);
        assert(reads[9] == "find"@);
        assert(reads.contains(verb) == is_read(verb));
    }
}

/// A task that comes up again is told of by when it does, a list that was cut by how many
/// there are, and one that was added by where it went.
pub proof fn what_was_done_is_told(parsed: JsonModel, next: Seq<char>, matched: u64)
    requires
        truth_at(parsed, "ok"@) != Some(false),
    ensures
        text_at(parsed, "outcome"@) == Some("completed-and-repeats"@) && text_at(
            parsed,
            "next_due"@,
        ) == Some(next) ==> note(parsed) is Some && text::holds(note(parsed)->0, next),
        text_at(parsed, "outcome"@) is None && truth_at(parsed, "truncated"@) == Some(true)
            && number_at(parsed, "matched"@) == Some(matched) ==> note(parsed) is Some
            && text::holds(note(parsed)->0, text::decimal(matched as nat)),
        text_at(parsed, "outcome"@) is None && truth_at(parsed, "truncated"@) is None && text_at(
            parsed,
            "action"@,
        ) == Some("added"@) ==> note(parsed) == Some(
            if went_to_inbox(parsed) {
                TO_INBOX@
            } else {
                ADDED@
            },
        ),
        text_at(parsed, "outcome"@) is None && truth_at(parsed, "truncated"@) is None && text_at(
            parsed,
            "action"@,
        ) is None ==> note(parsed) is None,
{
    text::lemma_holds_between(REPEATS_START@, next, REPEATS_MIDDLE@ + next + REPEATS_END@);
    assert(repeats_text(next) =~= REPEATS_START@ + next + (REPEATS_MIDDLE@ + next + REPEATS_END@));
    text::lemma_holds_between(TRUNCATED_START@, text::decimal(matched as nat), TRUNCATED_END@);
}

/// What could not be done is told of, and is never taken for what was.
pub proof fn what_was_not_done_is_told(parsed: JsonModel, error: Seq<char>)
    requires
        truth_at(parsed, "ok"@) == Some(false),
        text_at(parsed, "error"@) == Some(error),
    ensures
        error == "ambiguous"@ ==> note(parsed) == Some(AMBIGUOUS@),
        error == "bad-query"@ ==> note(parsed) == Some(BAD_QUERY@),
        error != "ambiguous"@ && error != "bad-query"@ ==> note(parsed) is None,
{
    reveal_strlit("ambiguous");
    reveal_strlit("bad-query");
    assert("ambiguous"@[0] == 'a' && "bad-query"@[0] == 'b');
}

} // verus!
