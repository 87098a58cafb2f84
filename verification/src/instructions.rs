//! Composing the system prompt, in the order that keeps the cache warm.
//!
//! The server reuses its cache for the longest stable prefix of a prompt. The
//! date is the only part that changes from day to day, so it goes last. The
//! user's own instructions add to the persona rather than replace it.

use crate::text;
use crate::time::{strftime, written, Moment};
use vstd::prelude::*;

verus! {

/// Turns the model's thinking off for one request: a control token that the
/// chat template reads.
pub const THINK_OFF: &'static str = "<|think_off|>";

pub const DEFAULT_PERSONA: &'static str = "You are Familiar, a personal assistant running on the user's own machine.

Be direct and concrete, and match the depth of the question. A question with one answer gets one answer; a question about a design, a trade-off or something you are unsure of deserves the reasoning that goes with it. Think it through properly before answering — the user can see how long you thought and would rather you took the time. Say when you do not know something rather than guessing, and say when a tool would settle it.

Your answer is rendered as Markdown in a desktop window: headings, lists, tables and code blocks display properly. Use them when structure helps, and prose when it does not.";

/// The parts of the prompt, in the only order they are allowed to appear.
#[derive(Debug, Clone, Copy, Default, PartialEq, Eq)]
pub struct Prompt<'a> {
    /// Who the assistant is.
    pub persona: &'a str,
    /// What the user asked for on top. Added to the persona, never in place of
    /// it.
    pub instructions: Option<&'a str>,
    /// What it can do, one note per enabled capability.
    pub capabilities: &'a [String],
    /// The memory block, already framed as untrusted data.
    pub ambient: Option<&'a str>,
    /// The one part that changes from day to day.
    pub volatile: &'a str,
}

pub const ASKED_HEADING: &'static str = "## What the user asked you to do\n\n";

pub const CAPABILITIES_HEADING: &'static str = "## What you can do\n";

/// A text as a section, where it is not blank.
pub open spec fn section(s: Seq<char>) -> Seq<Seq<char>> {
    if text::trim(s).len() > 0 {
        seq![text::trim(s)]
    } else {
        Seq::empty()
    }
}

/// What the user asked for, as a section under its heading.
pub open spec fn asked_section(asked: Option<&str>) -> Seq<Seq<char>> {
    match asked {
        Some(s) => if text::trim(s@).len() > 0 {
            seq![ASKED_HEADING@ + text::trim(s@)]
        } else {
            Seq::empty()
        },
        None => Seq::empty(),
    }
}

/// One note on a capability, on lines of its own.
pub open spec fn note_lines(note: Seq<char>) -> Seq<char> {
    "\n"@ + text::trim(note) + "\n"@
}

/// The notes on the capabilities.
pub open spec fn notes(capabilities: Seq<Seq<char>>) -> Seq<Seq<char>> {
    capabilities.map_values(|note: Seq<char>| note_lines(note))
}

/// The capabilities, as a section under their heading.
pub open spec fn capabilities_section(capabilities: Seq<Seq<char>>) -> Seq<Seq<char>> {
    if capabilities.len() == 0 {
        Seq::empty()
    } else {
        seq![text::trim_end(CAPABILITIES_HEADING@ + text::concat(notes(capabilities)))]
    }
}

/// The memory block, as a section.
pub open spec fn ambient_section(ambient: Option<&str>) -> Seq<Seq<char>> {
    match ambient {
        Some(s) => section(s@),
        None => Seq::empty(),
    }
}

impl<'a> Prompt<'a> {
    /// The sections that do not change from day to day.
    pub open spec fn stable_sections(self) -> Seq<Seq<char>> {
        section(self.persona@) + asked_section(self.instructions) + capabilities_section(
            text::texts(self.capabilities@),
        ) + ambient_section(self.ambient)
    }

    /// All the sections, in order: what changes is last.
    pub open spec fn sections(self) -> Seq<Seq<char>> {
        self.stable_sections() + section(self.volatile@)
    }

    /// The prompt.
    pub open spec fn composed(self) -> Seq<char> {
        text::join(self.sections(), "\n\n"@)
    }

    /// What of the prompt may be kept in the cache.
    pub open spec fn stable(self) -> Seq<char> {
        text::join(self.stable_sections(), "\n\n"@)
    }

    pub fn compose(&self) -> (r: String)
        ensures
            r@ == self.composed(),
    {
        let mut sections = self.lasting();
        let ghost before = text::texts(sections@);
        push_section(&mut sections, self.volatile);
        assert(text::texts(sections@) =~= self.sections());
        text::joined(&sections, "\n\n")
    }

    fn lasting(&self) -> (r: Vec<String>)
        ensures
            text::texts(r@) == self.stable_sections(),
    {
        let mut sections: Vec<String> = Vec::new();
        push_section(&mut sections, self.persona);
        assert(text::texts(sections@) =~= section(self.persona@));
        let ghost first = text::texts(sections@);
        if let Some(asked) = self.instructions {
            let chars = text::chars_of(asked);
            let trimmed = text::trimmed(chars.as_slice());
            if trimmed.len() > 0 {
                // Headed, because it is the user talking and the paragraph
                // above is the application talking.
                let mut block = ASKED_HEADING.to_owned();
                text::push_chars(&mut block, trimmed);
                sections.push(block);
            }
        }
        assert(text::texts(sections@) =~= first + asked_section(self.instructions));
        let ghost second = text::texts(sections@);
        if self.capabilities.len() > 0 {
            sections.push(capability_block(self.capabilities));
        }
        assert(text::texts(sections@) =~= second + capabilities_section(
            text::texts(self.capabilities@),
        ));
        let ghost third = text::texts(sections@);
        if let Some(ambient) = self.ambient {
            push_section(&mut sections, ambient);
        }
        assert(text::texts(sections@) =~= third + ambient_section(self.ambient));
        sections
    }

    /// Everything above the volatile line: the part that may be kept in the
    /// cache between turns.
    pub fn stable_prefix(&self) -> (r: String)
        ensures
            r@ == self.stable(),
    {
        let sections = self.lasting();
        text::joined(&sections, "\n\n")
    }
}

fn push_section(sections: &mut Vec<String>, s: &str)
    ensures
        text::texts(final(sections)@) == text::texts(old(sections)@) + section(s@),
{
    let chars = text::chars_of(s);
    let trimmed = text::trimmed(chars.as_slice());
    if trimmed.len() > 0 {
        sections.push(text::string_of(trimmed));
    }
    assert(text::texts(sections@) =~= text::texts(old(sections)@) + section(s@));
}

fn capability_block(capabilities: &[String]) -> (r: String)
    ensures
        r@ == text::trim_end(
            CAPABILITIES_HEADING@ + text::concat(notes(text::texts(capabilities@))),
        ),
{
    let ghost all = notes(text::texts(capabilities@));
    let ghost start = CAPABILITIES_HEADING@;
    let mut block = CAPABILITIES_HEADING.to_owned();
    let mut i: usize = 0;
    assert(start + text::concat(all.take(0)) =~= start);
    while i < capabilities.len()
        invariant
            0 <= i <= capabilities.len(),
            all == notes(text::texts(capabilities@)),
            block@ == start + text::concat(all.take(i as int)),
        decreases capabilities.len() - i,
    {
        let chars = text::chars_of(capabilities[i].as_str());
        let mut one = "\n".to_owned();
        text::push_chars(&mut one, text::trimmed(chars.as_slice()));
        one.append("\n");
        let ghost before = text::concat(all.take(i as int));
        block.append(one.as_str());
        proof {
            text::lemma_concat_take(all, i as int);
            assert(start + before + all[i as int] =~= start + (before + all[i as int]));
        }
        i = i + 1;
    }
    assert(all.take(all.len() as int) =~= all);
    let chars = text::chars_of(block.as_str());
    text::string_of(text::trimmed_end(chars.as_slice()))
}

/// What does not change stands before what does: the prompt is the stable part,
/// and behind it the volatile line, if that is not blank.
pub proof fn the_volatile_line_is_last(prompt: Prompt<'_>)
    ensures
        text::trim(prompt.volatile@).len() == 0 ==> prompt.composed() == prompt.stable(),
        text::trim(prompt.volatile@).len() > 0 && prompt.stable_sections().len() == 0
            ==> prompt.composed() == text::trim(prompt.volatile@),
        text::trim(prompt.volatile@).len() > 0 && prompt.stable_sections().len() > 0
            ==> prompt.composed() == prompt.stable() + "\n\n"@ + text::trim(prompt.volatile@),
        text::starts(prompt.composed(), prompt.stable()),
{
    let kept = prompt.stable_sections();
    if text::trim(prompt.volatile@).len() == 0 {
        assert(prompt.sections() =~= kept);
        assert(prompt.composed().take(prompt.stable().len() as int) =~= prompt.stable());
    } else {
        assert(prompt.sections() =~= kept.push(text::trim(prompt.volatile@)));
        assert(prompt.sections().drop_last() =~= kept);
        assert(prompt.composed().take(prompt.stable().len() as int) =~= prompt.stable());
    }
}

/// Two prompts that differ in the volatile line alone share their stable part,
/// character for character.
pub proof fn the_stable_part_ignores_the_volatile_line(a: Prompt<'_>, b: Prompt<'_>)
    requires
        a.persona@ == b.persona@,
        a.instructions == b.instructions,
        a.capabilities@ == b.capabilities@,
        a.ambient == b.ambient,
    ensures
        a.stable() == b.stable(),
        text::starts(a.composed(), b.stable()),
{
    the_volatile_line_is_last(a);
}

/// The volatile line, given how the date is written out.
pub open spec fn date_text(date: Seq<char>) -> Seq<char> {
    "Today is "@ + date + "."@
}

/// The volatile line, on the clock that `now` was read from.
pub fn date_line(now: Moment) -> (r: String)
    requires
        now.wf(),
    ensures
        r@ == date_text(strftime(now.wall(), "%A %-d %B %Y"@)),
{
    let date = written(now.reading(), "%A %-d %B %Y");
    let mut r = "Today is ".to_owned();
    r.append(date.as_str());
    r.append(".");
    r
}

/// A prompt says who the assistant is, what the user asked for, what it can do, what it
/// remembers and what is true today, in this order, each behind an empty line.
pub proof fn a_prompt_says_everything_in_its_order(prompt: Prompt<'_>, note: Seq<char>)
    requires
        text::trim(prompt.persona@).len() > 0,
        prompt.instructions is Some && text::trim((prompt.instructions->0)@).len() > 0,
        text::texts(prompt.capabilities@) == seq![note],
        text::trim(note).len() > 0,
        prompt.ambient is Some && text::trim((prompt.ambient->0)@).len() > 0,
        text::trim(prompt.volatile@).len() > 0,
    ensures
        prompt.composed() == text::trim(prompt.persona@) + "\n\n"@
            + "## What the user asked you to do\n\n"@ + text::trim((prompt.instructions->0)@)
            + "\n\n"@ + "## What you can do\n"@ + "\n"@ + text::trim(note) + "\n\n"@ + text::trim(
            (prompt.ambient->0)@,
        ) + "\n\n"@ + text::trim(prompt.volatile@),
{
    reveal_strlit("\n");
    let persona = text::trim(prompt.persona@);
    let asked = "## What the user asked you to do\n\n"@ + text::trim((prompt.instructions->0)@);
    let front = "## What you can do\n"@ + "\n"@ + text::trim(note);
    let all = seq![note].map_values(|note: Seq<char>| note_lines(note));
    assert(all.drop_last() =~= Seq::empty());
    assert(text::concat(all.drop_last()) =~= Seq::empty());
    assert(text::concat(all) =~= note_lines(note));
    let listed = "## What you can do\n"@ + text::concat(notes(seq![note]));
    assert(listed =~= front + "\n"@);
    text::lemma_trim(note);
    assert(front.last() == text::trim(note).last());
    text::lemma_trim_end_tail(front, "\n"@);
    assert(text::trim_end(front) == front);
    let ambient = text::trim((prompt.ambient->0)@);
    let today = text::trim(prompt.volatile@);
    let parts = seq![persona, asked, front, ambient, today];
    assert(prompt.sections() =~= parts);
    let gap = "\n\n"@;
    let d = parts.drop_last();
    let c = d.drop_last();
    let b = c.drop_last();
    let a = b.drop_last();
    assert(text::join(a, gap) == persona);
    assert(text::join(b, gap) == persona + gap + asked);
    assert(text::join(c, gap) == text::join(b, gap) + gap + front);
    assert(text::join(d, gap) == text::join(c, gap) + gap + ambient);
    assert(text::join(parts, gap) == text::join(d, gap) + gap + today);
    assert(prompt.composed() =~= persona + gap + "## What the user asked you to do\n\n"@
        + text::trim((prompt.instructions->0)@) + gap + "## What you can do\n"@ + "\n"@
        + text::trim(note) + gap + ambient + gap + today);
}

} // verus!
