//! Noticing something before being asked.
//!
//! A run with no prompt at all, which gathers what can be gathered cheaply and
//! decides whether any of it is worth interrupting a person for. Almost always
//! it is not: the reply format makes silence the shortest thing to write, and
//! [`read`] throws away anything vague enough to have been produced without
//! looking.

use crate::instructions::THINK_OFF;
use crate::json::{field, items_of, json_of, models, text_at, Json, JsonModel};
use crate::text;
use crate::time::{strftime, written, Moment};
use crate::wire::{ChatRequest, Message, Role};
use vstd::prelude::*;
use vstd::slice::slice_subrange;

verus! {

/// How long a headline may be. It has to fit a notification.
pub const MAX_HEADLINE: usize = 90;

/// How many lines of one kind a check is given.
pub const MAX_LINES: usize = 12;

/// What could be found out without asking anybody.
#[derive(Debug, Clone, Default, PartialEq, Eq)]
pub struct Signals {
    /// Tasks due today or overdue.
    pub tasks: Vec<String>,
    /// Unread mail, subject and sender only, never the body.
    pub mail: Vec<String>,
    /// Active weather warnings, not the forecast.
    pub alerts: Vec<String>,
    /// What the user has been working on lately, from their own notes.
    pub context: Vec<String>,
}

/// A line of a list.
pub open spec fn bullet(line: Seq<char>) -> Seq<char> {
    "- "@ + line + "\n"@
}

/// The lines of a list.
pub open spec fn bullets(lines: Seq<Seq<char>>) -> Seq<Seq<char>> {
    lines.map_values(|line: Seq<char>| bullet(line))
}

/// A list under its title, where there is anything in it.
pub open spec fn titled(title: Seq<char>, lines: Seq<Seq<char>>) -> Seq<char> {
    text::given(
        lines.len() > 0,
        title + "\n"@ + text::concat(bullets(lines)) + "\n"@,
    )
}

impl Signals {
    /// Whether there is anything at all to reason about. An empty check is not
    /// sent: asking a model to find something in nothing is how a model invents
    /// something.
    pub fn worth_asking(&self) -> (r: bool)
        ensures
            r == (self.tasks.len() > 0 || self.mail.len() > 0 || self.alerts.len() > 0),
    {
        self.tasks.len() > 0 || self.mail.len() > 0 || self.alerts.len() > 0
    }

    /// The signals as text.
    pub open spec fn rendered(self) -> Seq<char> {
        text::trim_end(
            titled("Tasks due or overdue:"@, text::texts(self.tasks@)) + titled(
                "Unread mail (subjects only):"@,
                text::texts(self.mail@),
            ) + titled("Active weather warnings:"@, text::texts(self.alerts@)) + titled(
                "What they have been working on:"@,
                text::texts(self.context@),
            ),
        )
    }

    fn render(&self) -> (r: String)
        ensures
            r@ == self.rendered(),
    {
        let mut out = list("Tasks due or overdue:", &self.tasks);
        let mail = list("Unread mail (subjects only):", &self.mail);
        out.append(mail.as_str());
        let alerts = list("Active weather warnings:", &self.alerts);
        out.append(alerts.as_str());
        let context = list("What they have been working on:", &self.context);
        out.append(context.as_str());
        let chars = text::chars_of(out.as_str());
        text::string_of(text::trimmed_end(chars.as_slice()))
    }
}

fn list(title: &str, lines: &Vec<String>) -> (r: String)
    ensures
        r@ == titled(title@, text::texts(lines@)),
{
    if lines.len() == 0 {
        return String::new();
    }
    let mut r = title.to_owned();
    r.append("\n");
    let ghost start = r@;
    let ghost all = bullets(text::texts(lines@));
    let mut i: usize = 0;
    assert(start + text::concat(all.take(0)) =~= start);
    while i < lines.len()
        invariant
            0 <= i <= lines.len(),
            all == bullets(text::texts(lines@)),
            r@ == start + text::concat(all.take(i as int)),
        decreases lines.len() - i,
    {
        let mut one = "- ".to_owned();
        one.append(lines[i].as_str());
        one.append("\n");
        let ghost before = text::concat(all.take(i as int));
        r.append(one.as_str());
        proof {
            text::lemma_concat_take(all, i as int);
            assert(start + before + all[i as int] =~= start + (before + all[i as int]));
        }
        i = i + 1;
    }
    assert(all.take(all.len() as int) =~= all);
    r.append("\n");
    r
}

/// What the model is asked to do, and mostly not to.
pub const INSTRUCTIONS: &'static str = "You are looking over someone's day, to decide whether one thing in it is worth a short notification right now. They did not ask, and nobody is necessarily at the keyboard.

Speak when there is something that is **due today, happening today, already overdue, or about to stop being possible** — and that goes wrong if they do nothing about it today. A warning or an event that collides with something they have planned counts: the clash is the reason.

Otherwise answer QUIET. Things that are NOT a reason to speak, however many of them there are: mail existing; a lot of mail existing; tasks existing; something looking interesting; a deadline still comfortably far off; not having said anything for a while; wanting to be helpful.

Name the single most important thing. One notice, never a digest.

Three worked examples, which are examples of the *form* — do not reuse their words.

Signals:
- Tasks: \"Reply to Sam about lunch — due no due date\"
- Mail: \"A newsletter — issue 12\"
Answer:
QUIET

Signals:
- Tasks: \"Car MOT — expires today\"
- Mail: \"A newsletter — issue 12\"
Answer:
NOTICE: The car's MOT expires today
After midnight it is not legal to drive, and booking a retest takes days.

Signals:
- Tasks: \"Drive to the airport — today at 05:00\"
- Warnings: \"Freezing Rain Advisory until 08:00\"
Answer:
NOTICE: Freezing rain is forecast through the airport run at 05:00
The advisory covers the whole drive, so it is worth leaving earlier than planned.

Answer in exactly one of those two forms. To stay quiet the whole reply is the word QUIET. To speak, the first line is NOTICE: followed by one line under 90 characters naming the specific thing, then one or two sentences saying why it matters today. No questions — they cannot reply. No other text and no markdown.";

/// What the model is asked, given how the time is written out.
pub open spec fn question(when: Seq<char>, signals: Signals) -> Seq<char> {
    "It is "@ + when + ".\n\n"@ + signals.rendered()
}

/// The request the application sends. Low temperature: this is a judgement
/// against a rubric, not a piece of writing.
pub fn request(signals: &Signals, now: Moment) -> (r: ChatRequest)
    requires
        now.wf(),
    ensures
        r.tools@ == Seq::<String>::empty(),
        r.messages.len() == 2,
        r.messages[0].role == Role::System,
        r.messages[0].content@ == THINK_OFF@ + "\n"@ + INSTRUCTIONS@,
        r.messages[1].role == Role::User,
        r.messages[1].content@ == question(
            strftime(now.wall(), "%A %-d %B, %H:%M"@),
            *signals,
        ),
        r.temperature == Some(20u32),
        r.top_p == None::<u32>,
        r.max_tokens == Some(300u32),
{
    let when = written(now.reading(), "%A %-d %B, %H:%M");
    let mut asked = "It is ".to_owned();
    asked.append(when.as_str());
    asked.append(".\n\n");
    let shown = signals.render();
    asked.append(shown.as_str());
    let mut told = THINK_OFF.to_owned();
    told.append("\n");
    told.append(INSTRUCTIONS);
    let mut messages: Vec<Message> = Vec::new();
    messages.push(Message::system(told));
    messages.push(Message::user(asked));
    ChatRequest {
        messages,
        temperature: Some(20),
        top_p: None,
        max_tokens: Some(300),
        tools: Vec::new(),
    }
}

/// What came back, once it has been vetted.
#[derive(Debug, Clone, PartialEq, Eq)]
pub enum Outcome {
    /// Nothing worth saying: the ordinary answer.
    Quiet,
    Notice { headline: String, detail: String },
}

/// What an outcome says.
#[verifier::ext_equal]
pub enum OutcomeModel {
    Quiet,
    Notice { headline: Seq<char>, detail: Seq<char> },
}

impl View for Outcome {
    type V = OutcomeModel;

    open spec fn view(&self) -> OutcomeModel {
        match self {
            Outcome::Quiet => OutcomeModel::Quiet,
            Outcome::Notice { headline, detail } => OutcomeModel::Notice {
                headline: headline@,
                detail: detail@,
            },
        }
    }
}

impl Outcome {
    pub fn is_quiet(&self) -> (r: bool)
        ensures
            r == (self@ is Quiet),
    {
        match self {
            Outcome::Quiet => true,
            _ => false,
        }
    }
}

/// Phrases that mean the model found nothing and said so in prose.
pub open spec fn is_quiet_enough(lowered: Seq<char>) -> bool {
    text::holds(lowered, "quiet"@) || text::holds(lowered, "nothing worth"@) || text::holds(lowered, "nothing urgent"@) || text::holds(lowered, "nothing to report"@) || text::holds(lowered, "nothing that needs"@) || text::holds(lowered, "no notice"@) || text::holds(lowered, "nothing pressing"@)
}

/// Words that make a headline empty however specific it looks.
pub open spec fn is_vague(lowered: Seq<char>) -> bool {
    text::holds(lowered, "you have some"@) || text::holds(lowered, "a few things"@) || text::holds(lowered, "several items"@) || text::holds(lowered, "some tasks"@) || text::holds(lowered, "some emails"@) || text::holds(lowered, "some mail"@) || text::holds(lowered, "your inbox"@) || text::holds(lowered, "keep an eye"@) || text::holds(lowered, "might want to"@) || text::holds(lowered, "you may want"@) || text::holds(lowered, "just checking"@) || text::holds(lowered, "checking in"@) || text::holds(lowered, "don't forget to stay"@) || text::holds(lowered, "have a productive"@)
}

fn quiet_enough(l: &[char]) -> (r: bool)
    ensures
        r == is_quiet_enough(l@),
{
    text::contains(l, "quiet") || text::contains(l, "nothing worth") || text::contains(l, "nothing urgent") || text::contains(l, "nothing to report") || text::contains(l, "nothing that needs") || text::contains(l, "no notice") || text::contains(l, "nothing pressing")
}

fn vague(l: &[char]) -> (r: bool)
    ensures
        r == is_vague(l@),
{
    text::contains(l, "you have some") || text::contains(l, "a few things") || text::contains(l, "several items") || text::contains(l, "some tasks") || text::contains(l, "some emails") || text::contains(l, "some mail") || text::contains(l, "your inbox") || text::contains(l, "keep an eye") || text::contains(l, "might want to") || text::contains(l, "you may want") || text::contains(l, "just checking") || text::contains(l, "checking in") || text::contains(l, "don't forget to stay") || text::contains(l, "have a productive")
}

/// Where the marker of a notice first stands, whatever its case: -1 where it
/// does not.
pub open spec fn marker_at(s: Seq<char>, from: int) -> int
    decreases s.len() - from,
{
    if from < 0 || from + 7 > s.len() {
        -1
    } else if text::ascii_lowercase(s.subrange(from, from + 7)) == "notice:"@ {
        from
    } else {
        marker_at(s, from + 1)
    }
}

/// Marks that a model puts around a headline.
pub open spec fn is_decoration(c: char) -> bool {
    c == '*' || c == '#' || c == '"'
}

/// A text without such marks in front of it.
pub open spec fn bare_front(s: Seq<char>) -> Seq<char>
    decreases s.len(),
{
    if s.len() > 0 && is_decoration(s[0]) {
        bare_front(s.drop_first())
    } else {
        s
    }
}

/// A text without such marks behind it.
pub open spec fn bare_back(s: Seq<char>) -> Seq<char>
    decreases s.len(),
{
    if s.len() > 0 && is_decoration(s.last()) {
        bare_back(s.drop_last())
    } else {
        s
    }
}

/// The headline of what stands behind the marker: its first line.
pub open spec fn headline_of(body: Seq<char>) -> Seq<char> {
    text::trim(bare_back(bare_front(text::trim(body.take(text::next(body, '\n', 0))))))
}

/// The detail of what stands behind the marker: all but its first line.
pub open spec fn detail_of(body: Seq<char>) -> Seq<char> {
    let n = text::next(body, '\n', 0);
    if n < body.len() {
        text::trim(body.skip(n + 1))
    } else {
        Seq::empty()
    }
}

/// A headline and its detail, vetted: a notice has to name a thing, in a line,
/// say why, and ask nothing. `lowered` is the headline in lower case.
pub open spec fn vetted(headline: Seq<char>, lowered: Seq<char>, detail: Seq<char>) -> OutcomeModel {
    if headline.len() == 0 || headline.len() > MAX_HEADLINE || is_quiet_enough(lowered)
        || is_vague(lowered) || detail.len() == 0 || detail.contains('?') {
        OutcomeModel::Quiet
    } else {
        OutcomeModel::Notice { headline, detail }
    }
}

/// What a reply comes to.
pub open spec fn outcome_of(reply: Seq<char>) -> OutcomeModel {
    let t = text::trim(reply);
    let at = marker_at(t, 0);
    if at < 0 {
        OutcomeModel::Quiet
    } else {
        let body = t.skip(at + 7);
        vetted(headline_of(body), text::lowercase(headline_of(body)), detail_of(body))
    }
}

fn find_marker(s: &[char]) -> (r: Option<usize>)
    ensures
        match r {
            Some(at) => marker_at(s@, 0) == at && at + 7 <= s.len(),
            None => marker_at(s@, 0) == -1,
        },
{
    let mut i: usize = 0;
    while i <= s.len() && s.len() - i >= 7
        invariant
            0 <= i <= s.len(),
            marker_at(s@, 0) == marker_at(s@, i as int),
        decreases s.len() - i,
    {
        let lowered = text::lowered(slice_subrange(s, i, i + 7));
        if text::spells(lowered.as_slice(), "notice:") {
            return Some(i);
        }
        i = i + 1;
    }
    None
}

fn bare<'a>(s: &'a [char]) -> (r: &'a [char])
    ensures
        r@ == bare_back(bare_front(s@)),
{
    let mut i: usize = 0;
    assert(s@.skip(0) =~= s@);
    while i < s.len() && (s[i] == '*' || s[i] == '#' || s[i] == '"')
        invariant
            0 <= i <= s.len(),
            bare_front(s@) == bare_front(s@.skip(i as int)),
        decreases s.len() - i,
    {
        assert(s@.skip(i as int).drop_first() =~= s@.skip(i + 1));
        i = i + 1;
    }
    let t = slice_subrange(s, i, s.len());
    let mut j: usize = t.len();
    assert(t@.take(t@.len() as int) =~= t@);
    while j > 0 && (t[j - 1] == '*' || t[j - 1] == '#' || t[j - 1] == '"')
        invariant
            0 <= j <= t.len(),
            bare_back(t@) == bare_back(t@.take(j as int)),
        decreases j,
    {
        assert(t@.take(j as int).drop_last() =~= t@.take(j - 1));
        j = j - 1;
    }
    slice_subrange(t, 0, j)
}

fn asks(detail: &[char]) -> (r: bool)
    ensures
        r == detail@.contains('?'),
{
    let at = text::next_of(detail, '?', 0);
    proof {
        text::lemma_next(detail@, '?', 0);
    }
    at < detail.len()
}

/// Vets a headline and its detail, given the headline in lower case.
pub fn vet(headline: &str, lowered: &str, detail: &str) -> (r: Outcome)
    ensures
        r@ == vetted(headline@, lowered@, detail@),
{
    let h = text::chars_of(headline);
    let l = text::chars_of(lowered);
    let d = text::chars_of(detail);
    if h.len() == 0 || h.len() > MAX_HEADLINE || quiet_enough(l.as_slice()) || vague(l.as_slice())
        || d.len() == 0 || asks(d.as_slice()) {
        Outcome::Quiet
    } else {
        Outcome::Notice { headline: headline.to_owned(), detail: detail.to_owned() }
    }
}

/// Reads the reply, and throws away anything that is not a real notice.
pub fn read(reply: &str) -> (r: Outcome)
    ensures
        r@ == outcome_of(reply@),
{
    let chars = text::chars_of(reply);
    let t = text::trimmed(chars.as_slice());
    match find_marker(t) {
        Some(at) => {
            // Anything before the marker is preamble the format asked for none
            // of.
            let body = slice_subrange(t, at + 7, t.len());
            assert(body@ =~= t@.skip(at + 7));
            let n = text::next_of(body, '\n', 0);
            let first = slice_subrange(body, 0, n);
            assert(first@ =~= body@.take(n as int));
            let headline = text::string_of(text::trimmed(bare(text::trimmed(first))));
            let detail = if n < body.len() {
                let rest = slice_subrange(body, n + 1, body.len());
                assert(rest@ =~= body@.skip(n + 1));
                text::string_of(text::trimmed(rest))
            } else {
                String::new()
            };
            let lowered = headline.as_str().to_lowercase();
            vet(headline.as_str(), lowered.as_str(), detail.as_str())
        },
        None => Outcome::Quiet,
    }
}

/// Whatever comes through is a headline that fits and a reason that asks
/// nothing.
pub proof fn notices_are_short_and_ask_nothing(reply: Seq<char>)
    ensures
        match outcome_of(reply) {
            OutcomeModel::Notice { headline, detail } => {
                &&& 0 < headline.len() <= MAX_HEADLINE
                &&& detail.len() > 0
                &&& !detail.contains('?')
                &&& marker_at(text::trim(reply), 0) >= 0
            },
            OutcomeModel::Quiet => true,
        },
{
}

// ---------------------------------------------------------------------------
// What the signals are read from
// ---------------------------------------------------------------------------

/// A task as a line: its title and when it is due; none where it has no title.
pub open spec fn task_line(task: JsonModel) -> Option<Seq<char>> {
    match text_at(task, "title"@) {
        Some(title) => Some(
            title + " — due "@ + match text_at(task, "due"@) {
                Some(due) => due,
                None => "no due date"@,
            },
        ),
        None => None,
    }
}

/// The lines of some tasks.
pub open spec fn task_lines(tasks: Seq<JsonModel>) -> Seq<Seq<char>>
    decreases tasks.len(),
{
    if tasks.len() == 0 {
        Seq::empty()
    } else {
        match task_line(tasks.last()) {
            Some(line) => task_lines(tasks.drop_last()).push(line),
            None => task_lines(tasks.drop_last()),
        }
    }
}

/// The tasks of a listing that has been read: the first of them.
pub open spec fn tasks_of(parsed: JsonModel) -> Seq<Seq<char>> {
    match field(parsed, "tasks"@) {
        Some(tasks) => match items_of(tasks) {
            Some(items) => task_lines(
                items.take(
                    if items.len() < MAX_LINES {
                        items.len() as int
                    } else {
                        MAX_LINES as int
                    },
                ),
            ),
            None => Seq::empty(),
        },
        None => Seq::empty(),
    }
}

/// The tasks of a listing that has been read, reduced to the lines a check
/// reasons about.
pub fn tasks_from(parsed: &Json) -> (r: Vec<String>)
    ensures
        text::texts(r@) == tasks_of(parsed@),
{
    let mut r: Vec<String> = Vec::new();
    assert(text::texts(r@) =~= Seq::empty());
    if let Some(tasks) = parsed.get("tasks") {
        if let Some(items) = tasks.items() {
            let ghost all = models(items@);
            let most: usize = if items.len() < MAX_LINES {
                items.len()
            } else {
                MAX_LINES
            };
            let mut i: usize = 0;
            while i < most
                invariant
                    0 <= i <= most <= items.len(),
                    all == models(items@),
                    text::texts(r@) == task_lines(all.take(i as int)),
                decreases most - i,
            {
                let task = &items[i];
                assert(all[i as int] == task@);
                assert(all.take(i + 1).drop_last() =~= all.take(i as int));
                if let Some(title) = task.text_at("title") {
                    let mut line = title.clone();
                    line.append(" — due ");
                    match task.text_at("due") {
                        Some(due) => line.append(due.as_str()),
                        None => line.append("no due date"),
                    }
                    let ghost before = text::texts(r@);
                    r.push(line);
                    assert(text::texts(r@) =~= before.push(line@));
                }
                i = i + 1;
            }
        }
    }
    r
}

/// The tasks of a listing.
pub open spec fn tasks_said(listed: Seq<char>) -> Seq<Seq<char>> {
    match json_of(listed) {
        Some(parsed) => tasks_of(parsed),
        None => Seq::empty(),
    }
}

/// A task list, reduced to the lines a check reasons about: titles and due
/// dates, nothing else.
pub fn tasks_in(listed: &str) -> (r: Vec<String>)
    ensures
        text::texts(r@) == tasks_said(listed@),
{
    match Json::parse(listed) {
        Some(parsed) => tasks_from(&parsed),
        None => {
            let r: Vec<String> = Vec::new();
            assert(text::texts(r@) =~= Seq::empty());
            r
        },
    }
}

/// Where `p` last stands in `s` at or before `from`: -1 where it does not.
pub open spec fn last_at(s: Seq<char>, p: Seq<char>, from: int) -> int
    decreases from + 1,
{
    if from < 0 {
        -1
    } else if text::stands_at(s, p, from) {
        from
    } else {
        last_at(s, p, from - 1)
    }
}

/// What stands behind the last dash of a header: the sender.
pub open spec fn sender_of(after: Seq<char>) -> Seq<char> {
    let at = last_at(after, " — "@, after.len() as int);
    text::trim(
        if at < 0 {
            after
        } else {
            after.skip(at + " — "@.len())
        },
    )
}

/// Where a header's bracket closes: -1 where it does not.
pub open spec fn bracket_end(rest: Seq<char>, from: int) -> int
    decreases rest.len() - from,
{
    if from < 0 || from + 2 > rest.len() {
        -1
    } else if rest[from] == ']' && rest[from + 1] == ' ' {
        from
    } else {
        bracket_end(rest, from + 1)
    }
}

/// The sender of a header line, where a line is one: it begins with something
/// in brackets. The lines under a header are indented, so none of them is one,
/// whatever stands in it.
pub open spec fn header_sender(line: Seq<char>) -> Option<Seq<char>> {
    if line.len() > 0 && line[0] == '[' {
        let rest = text::trim(line).skip(1);
        let end = bracket_end(rest, 0);
        if end < 0 {
            None
        } else {
            Some(sender_of(rest.skip(end + 2)))
        }
    } else {
        None
    }
}

/// The mail of a listing from a line on, of which `n` were found before: each
/// header's sender, and the subject on the line behind it.
pub open spec fn mail_from(lines: Seq<Seq<char>>, i: int, n: int) -> Seq<Seq<char>>
    decreases lines.len() - i,
{
    if i < 0 || i >= lines.len() || n >= MAX_LINES {
        Seq::empty()
    } else {
        match header_sender(lines[i]) {
            Some(sender) => if i + 1 >= lines.len() {
                Seq::empty()
            } else {
                seq![sender + " — "@ + text::trim(lines[i + 1])] + mail_from(lines, i + 2, n + 1)
            },
            None => mail_from(lines, i + 1, n),
        }
    }
}

fn last_dash(s: &[char]) -> (r: Option<usize>)
    ensures
        match r {
            Some(at) => last_at(s@, " — "@, s@.len() as int) == at && at + " — "@.len() <= s.len(),
            None => last_at(s@, " — "@, s@.len() as int) == -1,
        },
{
    let dash = text::chars_of(" — ");
    let mut i: usize = s.len();
    loop
        invariant
            0 <= i <= s.len(),
            dash@ == " — "@,
            last_at(s@, " — "@, s@.len() as int) == last_at(s@, " — "@, i as int),
        decreases i,
    {
        if text::stands(s, dash.as_slice(), i) {
            return Some(i);
        }
        if i == 0 {
            assert(last_at(s@, " — "@, -1) == -1);
            return None;
        }
        i = i - 1;
    }
}

fn sender_in(line: &[char]) -> (r: Option<String>)
    ensures
        match r {
            Some(s) => header_sender(line@) == Some(s@),
            None => header_sender(line@) is None,
        },
{
    if line.len() == 0 || line[0] != '[' {
        return None;
    }
    let t = text::trimmed(line);
    proof {
        text::lemma_trim_end(line@);
    }
    let rest = slice_subrange(t, 1, t.len());
    assert(rest@ =~= t@.skip(1));
    let mut i: usize = 0;
    while i < rest.len() && rest.len() - i >= 2 && !(rest[i] == ']' && rest[i + 1] == ' ')
        invariant
            0 <= i <= rest.len(),
            bracket_end(rest@, 0) == bracket_end(rest@, i as int),
        decreases rest.len() - i,
    {
        i = i + 1;
    }
    if i >= rest.len() || rest.len() - i < 2 {
        return None;
    }
    let after = slice_subrange(rest, i + 2, rest.len());
    assert(after@ =~= rest@.skip(i + 2));
    let dash = text::chars_of(" — ").len();
    let tail = match last_dash(after) {
        Some(at) => slice_subrange(after, at + dash, after.len()),
        None => after,
    };
    Some(text::string_of(text::trimmed(tail)))
}

/// Subjects and senders out of a mail listing. Never the body.
pub fn subjects_in(listing: &str) -> (r: Vec<String>)
    ensures
        text::texts(r@) == mail_from(text::lines(listing@), 0, 0),
        r.len() <= MAX_LINES,
{
    let chars = text::chars_of(listing);
    let lines = text::lines_of(chars.as_slice());
    let ghost all = text::runs(lines@);
    let mut r: Vec<String> = Vec::new();
    let mut i: usize = 0;
    assert(text::texts(r@) + mail_from(all, 0, 0) =~= mail_from(all, 0, 0));
    while i < lines.len() && r.len() < MAX_LINES
        invariant
            0 <= i <= lines.len(),
            r.len() <= MAX_LINES,
            all == text::runs(lines@),
            all == text::lines(listing@),
            mail_from(all, 0, 0) == text::texts(r@) + mail_from(all, i as int, r.len() as int),
        decreases lines.len() - i,
    {
        assert(all[i as int] == lines@[i as int]@);
        let ghost done = text::texts(r@);
        match sender_in(lines[i]) {
            Some(sender) => {
                if i + 1 >= lines.len() {
                    assert(mail_from(all, i as int, r.len() as int) =~= Seq::empty());
                    assert(done + Seq::<Seq<char>>::empty() =~= done);
                    return r;
                }
                assert(all[i + 1] == lines@[i + 1]@);
                let mut line = sender;
                line.append(" — ");
                text::push_chars(&mut line, text::trimmed(lines[i + 1]));
                r.push(line);
                proof {
                    assert(text::texts(r@) =~= done.push(line@));
                    let tail = mail_from(all, i + 2, r.len() as int);
                    assert(done + (seq![line@] + tail) =~= done.push(line@) + tail);
                }
                i = i + 2;
            },
            None => {
                i = i + 1;
            },
        }
    }
    assert(text::texts(r@) + Seq::<Seq<char>>::empty() =~= text::texts(r@));
    r
}

/// Of a message, the sender and the subject are read and never the body: whatever
/// stands in lines that are indented.
pub proof fn no_body_is_read(header: Seq<char>, subject: Seq<char>, body: Seq<Seq<char>>)
    requires
        header_sender(header) is Some,
        forall|k: int|
            0 <= k < body.len() ==> (#[trigger] body[k]).len() == 0 || text::is_space(body[k][0]),
    ensures
        mail_from(seq![header, subject] + body, 0, 0) == seq![
            header_sender(header)->0 + " — "@ + text::trim(subject),
        ],
{
    let all = seq![header, subject] + body;
    assert(all[0] == header && all[1] == subject);
    assert forall|k: int| 2 <= k < all.len() implies header_sender(#[trigger] all[k]) is None by {
        assert(all[k] == body[k - 2]);
    }
    lemma_no_header(all, 2, 1);
}

proof fn lemma_no_header(lines: Seq<Seq<char>>, i: int, n: int)
    requires
        0 <= i,
        forall|k: int| i <= k < lines.len() ==> header_sender(#[trigger] lines[k]) is None,
    ensures
        mail_from(lines, i, n) == Seq::<Seq<char>>::empty(),
    decreases lines.len() - i,
{
    if i < lines.len() && n < MAX_LINES {
        assert(header_sender(lines[i]) is None);
        lemma_no_header(lines, i + 1, n);
    }
}

// ---------------------------------------------------------------------------
// What is shown, and what is understood
// ---------------------------------------------------------------------------

/// A reply in the form that was asked for is understood as what it says: the rest
/// of the first line is the headline and what follows it the detail.
pub proof fn a_notice_is_read_as_it_is_written(headline: Seq<char>, detail: Seq<char>)
    requires
        0 < headline.len() <= 90,
        !headline.contains('\n'),
        !text::is_space(headline[0]),
        !text::is_space(headline.last()),
        headline[0] != '*' && headline[0] != '#' && headline[0] != '"',
        headline.last() != '*' && headline.last() != '#' && headline.last() != '"',
        !is_quiet_enough(text::lowercase(headline)),
        !is_vague(text::lowercase(headline)),
        detail.len() > 0,
        !text::is_space(detail[0]),
        !text::is_space(detail.last()),
        !detail.contains('?'),
    ensures
        outcome_of("NOTICE: "@ + headline + "\n"@ + detail) == (OutcomeModel::Notice {
            headline,
            detail,
        }),
{
    reveal_strlit("NOTICE: ");
    reveal_strlit("notice:");
    reveal_strlit("\n");
    let s = "NOTICE: "@ + headline + "\n"@ + detail;
    assert(s[0] == 'N');
    assert(s.last() == detail.last());
    assert(!text::is_space('N'));
    text::lemma_trim_unchanged(s);
    assert(text::ascii_lowercase(s.subrange(0, 7)) =~= "notice:"@);
    assert(marker_at(s, 0) == 0);
    let body = s.skip(7);
    assert(body =~= seq![' '] + headline + "\n"@ + detail);
    let n = headline.len() + 1;
    assert forall|i: int| 0 <= i < n implies body[i] != '\n' by {
        if i > 0 {
            assert(body[i] == headline[i - 1]);
            assert(headline.contains(headline[i - 1]));
        }
    }
    assert(body[n as int] == '\n');
    text::lemma_next_is(body, '\n', 0, n as int);
    let line = body.take(n as int);
    assert(line =~= seq![' '] + headline);
    assert(text::trim_start(line) == text::trim_start(line.drop_first()));
    assert(line.drop_first() =~= headline);
    text::lemma_trim_unchanged(headline);
    assert(text::trim(line) == headline);
    assert(bare_front(headline) == headline);
    assert(bare_back(headline) == headline);
    assert(body.skip(n as int + 1) =~= detail);
    text::lemma_trim_unchanged(detail);
}

/// A reply without the word for a notice is quiet.
pub proof fn without_a_notice_it_is_quiet(reply: Seq<char>)
    requires
        forall|i: int|
            0 <= i <= text::trim(reply).len() - 7 ==> text::ascii_lowercase(
                #[trigger] text::trim(reply).subrange(i, i + 7),
            ) != "notice:"@,
    ensures
        outcome_of(reply) == OutcomeModel::Quiet,
{
    lemma_no_marker(text::trim(reply), 0);
}

proof fn lemma_no_marker(s: Seq<char>, from: int)
    requires
        0 <= from,
        forall|i: int|
            0 <= i <= s.len() - 7 ==> text::ascii_lowercase(#[trigger] s.subrange(i, i + 7))
                != "notice:"@,
    ensures
        marker_at(s, from) < 0,
    decreases s.len() - from,
{
    if from + 7 <= s.len() {
        assert(text::ascii_lowercase(s.subrange(from, from + 7)) != "notice:"@);
        lemma_no_marker(s, from + 1);
    }
}

/// A task is shown by its title and when it is due.
pub proof fn a_task_is_shown_with_when_it_is_due(task: JsonModel, title: Seq<char>)
    requires
        text_at(task, "title"@) == Some(title),
    ensures
        text_at(task, "due"@) matches Some(due) ==> task_line(task) == Some(
            title + " — due "@ + due,
        ),
        text_at(task, "due"@) is None ==> task_line(task) == Some(
            title + " — due no due date"@,
        ),
{
    reveal_strlit(" — due ");
    reveal_strlit("no due date");
    reveal_strlit(" — due no due date");
    assert(title + " — due no due date"@ =~= title + " — due "@ + "no due date"@);
}

/// The tasks shown are the first twelve of those that are listed, in their order,
/// without those that have no title.
pub proof fn the_first_tasks_are_shown(parsed: JsonModel, list: JsonModel, items: Seq<JsonModel>)
    requires
        field(parsed, "tasks"@) == Some(list),
        items_of(list) == Some(items),
    ensures
        items.len() <= 12 ==> tasks_of(parsed) == items.filter_map(
            |task: JsonModel| task_line(task),
        ),
        items.len() > 12 ==> tasks_of(parsed) == items.take(12).filter_map(
            |task: JsonModel| task_line(task),
        ),
{
    assert(items.take(items.len() as int) =~= items);
    lemma_task_lines(items);
    lemma_task_lines(items.take(12));
}

proof fn lemma_task_lines(tasks: Seq<JsonModel>)
    ensures
        task_lines(tasks) == tasks.filter_map(|task: JsonModel| task_line(task)),
    decreases tasks.len(),
{
    reveal(Seq::filter_map);
    if tasks.len() > 0 {
        lemma_task_lines(tasks.drop_last());
    }
}

/// What ends in something other than white space stands there still once the white
/// space at the end is gone.
proof fn lemma_holds_trimmed(s: Seq<char>, p: Seq<char>)
    requires
        text::holds(s, p),
        p.len() > 0,
        !text::is_space(p.last()),
    ensures
        text::holds(text::trim_end(s), p),
{
    let at = choose|at: int| text::stands_at(s, p, at);
    text::lemma_trim_end(s);
    let end = at + p.len() - 1;
    assert(s.subrange(at, at + p.len())[p.len() - 1] == s[end]);
    assert(!text::is_space(s[end]));
    let t = text::trim_end(s);
    assert(t.subrange(at, at + p.len()) =~= s.subrange(at, at + p.len()));
    assert(text::stands_at(t, p, at));
}

proof fn lemma_titled(
    before: Seq<char>,
    title: Seq<char>,
    lines: Seq<Seq<char>>,
    behind: Seq<char>,
    i: int,
)
    requires
        0 <= i < lines.len(),
        is_said(lines[i]),
    ensures
        text::holds(text::trim_end(before + titled(title, lines) + behind), "- "@ + lines[i]),
        i == 0 ==> text::holds(
            text::trim_end(before + titled(title, lines) + behind),
            title + "\n- "@ + lines[i],
        ),
{
    let s = before + titled(title, lines) + behind;
    let parts = bullets(lines);
    let line = "- "@ + lines[i];
    let rows = text::concat(parts);
    assert(s =~= before + title + "\n"@ + rows + ("\n"@ + behind));
    assert(text::holds(s, line)) by {
        text::lemma_concat_holds(before + title + "\n"@, parts, i, "\n"@ + behind);
        let none = Seq::<char>::empty();
        text::lemma_holds_between(none, line, "\n"@);
        assert(none + line + "\n"@ =~= parts[i]);
        text::lemma_holds_within(s, parts[i], line);
    }
    assert(line.last() == lines[i].last());
    lemma_holds_trimmed(s, line);
    if i == 0 {
        let shown = title + "\n- "@ + lines[0];
        assert(text::holds(s, shown)) by {
            assert("\n- "@ =~= "\n"@ + "- "@) by {
                reveal_strlit("\n- ");
                reveal_strlit("\n");
                reveal_strlit("- ");
            }
            text::lemma_concat_first(parts);
            let more = text::concat(parts.skip(1));
            assert(rows == "- "@ + lines[0] + "\n"@ + more);
            let rest = "\n"@ + more + "\n"@ + behind;
            lemma_regrouped(before, title, "\n"@, "- "@, lines[0], more, behind);
            text::lemma_holds_between(before, shown, rest);
        }
        assert(shown.last() == lines[0].last());
        lemma_holds_trimmed(s, shown);
    }
}

proof fn lemma_regrouped(
    before: Seq<char>,
    title: Seq<char>,
    end: Seq<char>,
    dash: Seq<char>,
    line: Seq<char>,
    more: Seq<char>,
    behind: Seq<char>,
)
    ensures
        before + title + end + (dash + line + end + more) + (end + behind) == before + (title + (end
            + dash) + line) + (end + more + end + behind),
{
    assert(before + title + end + (dash + line + end + more) + (end + behind) =~= before + (title
        + (end + dash) + line) + (end + more + end + behind));
}

/// Each signal is shown on a line of its own, and each kind of signal under what it
/// is called.
pub proof fn signals_are_shown_as_what_they_are(signals: Signals, i: int)
    ensures
        0 <= i < signals.tasks.len() && is_said(signals.tasks[i]@) ==> text::holds(
            signals.rendered(),
            "- "@ + signals.tasks[i]@,
        ) && (i == 0 ==> text::holds(
            signals.rendered(),
            "Tasks due or overdue:"@ + "\n- "@ + signals.tasks[0]@,
        )),
        0 <= i < signals.mail.len() && is_said(signals.mail[i]@) ==> text::holds(
            signals.rendered(),
            "- "@ + signals.mail[i]@,
        ) && (i == 0 ==> text::holds(
            signals.rendered(),
            "Unread mail (subjects only):"@ + "\n- "@ + signals.mail[0]@,
        )),
        0 <= i < signals.alerts.len() && is_said(signals.alerts[i]@) ==> text::holds(
            signals.rendered(),
            "- "@ + signals.alerts[i]@,
        ) && (i == 0 ==> text::holds(
            signals.rendered(),
            "Active weather warnings:"@ + "\n- "@ + signals.alerts[0]@,
        )),
        0 <= i < signals.context.len() && is_said(signals.context[i]@) ==> text::holds(
            signals.rendered(),
            "- "@ + signals.context[i]@,
        ) && (i == 0 ==> text::holds(
            signals.rendered(),
            "What they have been working on:"@ + "\n- "@ + signals.context[0]@,
        )),
{
    let a = titled("Tasks due or overdue:"@, text::texts(signals.tasks@));
    let b = titled("Unread mail (subjects only):"@, text::texts(signals.mail@));
    let c = titled("Active weather warnings:"@, text::texts(signals.alerts@));
    let d = titled("What they have been working on:"@, text::texts(signals.context@));
    let none = Seq::<char>::empty();
    assert(a + b + c + d =~= none + a + (b + c + d));
    assert(a + b + c + d =~= a + b + (c + d));
    assert(a + b + c + d =~= (a + b) + c + d);
    assert(a + b + c + d =~= (a + b + c) + d + none);
    if 0 <= i < signals.tasks.len() && is_said(signals.tasks[i]@) {
        lemma_titled(none, "Tasks due or overdue:"@, text::texts(signals.tasks@), b + c + d, i);
    }
    if 0 <= i < signals.mail.len() && is_said(signals.mail[i]@) {
        lemma_titled(a, "Unread mail (subjects only):"@, text::texts(signals.mail@), c + d, i);
    }
    if 0 <= i < signals.alerts.len() && is_said(signals.alerts[i]@) {
        lemma_titled(a + b, "Active weather warnings:"@, text::texts(signals.alerts@), d, i);
    }
    if 0 <= i < signals.context.len() && is_said(signals.context[i]@) {
        lemma_titled(
            a + b + c,
            "What they have been working on:"@,
            text::texts(signals.context@),
            none,
            i,
        );
    }
}

/// Whether a line says something and ends with it.
pub open spec fn is_said(line: Seq<char>) -> bool {
    line.len() > 0 && !text::is_space(line.last())
}

proof fn lemma_last_at_is(s: Seq<char>, p: Seq<char>, from: int, at: int)
    requires
        0 <= at <= from,
        text::stands_at(s, p, at),
        forall|j: int| at < j <= from ==> !#[trigger] text::stands_at(s, p, j),
    ensures
        last_at(s, p, from) == at,
    decreases from - at,
{
    if at < from {
        assert(!text::stands_at(s, p, from));
        lemma_last_at_is(s, p, from - 1, at);
    }
}

proof fn lemma_bracket_end_is(rest: Seq<char>, from: int, at: int)
    requires
        0 <= from <= at,
        at + 2 <= rest.len(),
        rest[at] == ']',
        rest[at + 1] == ' ',
        forall|j: int| from <= j < at ==> rest[j] != ']',
    ensures
        bracket_end(rest, from) == at,
    decreases at - from,
{
    if from < at {
        lemma_bracket_end_is(rest, from + 1, at);
    }
}

/// The sender of a mail is what stands behind the last dash of its header, without
/// the white space around it.
pub proof fn the_sender_stands_behind_the_dash(
    id: Seq<char>,
    when: Seq<char>,
    sender: Seq<char>,
)
    requires
        !id.contains(']'),
        sender.len() > 0,
        !sender.contains('—'),
        !text::is_space(sender[0]),
        !text::is_space(sender.last()),
    ensures
        header_sender("["@ + id + "] "@ + when + " — "@ + sender) == Some(sender),
{
    reveal_strlit("[");
    reveal_strlit("] ");
    reveal_strlit(" — ");
    let line = "["@ + id + "] "@ + when + " — "@ + sender;
    assert(line[0] == '[');
    assert(line.last() == sender.last());
    assert(!text::is_space('['));
    text::lemma_trim_unchanged(line);
    let rest = line.skip(1);
    assert(rest =~= id + "] "@ + when + " — "@ + sender);
    assert forall|j: int| 0 <= j < id.len() implies rest[j] != ']' by {
        assert(id.contains(id[j]));
        assert(rest[j] == id[j]);
    }
    lemma_bracket_end_is(rest, 0, id.len() as int);
    let after = rest.skip(id.len() as int + 2);
    assert(after =~= when + " — "@ + sender);
    let at = when.len() as int;
    assert(after.subrange(at, at + 3) =~= " — "@);
    assert forall|j: int| at < j <= after.len() implies !#[trigger] text::stands_at(
        after,
        " — "@,
        j,
    ) by {
        if text::stands_at(after, " — "@, j) {
            assert(after.subrange(j, j + 3)[1] == after[j + 1]);
            if j + 1 < at + 3 {
                assert(after[at + 2] == ' ');
            } else {
                assert(after[j + 1] == sender[j + 1 - at - 3]);
                assert(sender.contains(after[j + 1]));
            }
        }
    }
    lemma_last_at_is(after, " — "@, after.len() as int, at);
    assert(after.skip(at + 3) =~= sender);
    text::lemma_trim_unchanged(sender);
}

} // verus!
