//! What runs on its own, as a list.
//!
//! The schedule owns the chat: a [`Job`] names where its answer lands, and a
//! chat may be the destination of several, or of none. The user's jobs are
//! editable and the system's are not, which is what [`Source`] says.

use crate::heartbeat::{hour_step, is_due, is_next, Due, Recovery, Schedule};
use crate::lists;
use crate::text;
use crate::thread::Heartbeat;
use crate::time::{strftime, written, Moment, Stamp};
use vstd::prelude::*;
use vstd::slice::slice_subrange;

verus! {

/// Who asked for this job, which decides what may edit it.
#[derive(Debug, Clone, Copy, PartialEq, Eq, Structural)]
pub enum Source {
    /// Set up in the app by the person using it.
    User,
    /// The model set it up mid-conversation. Still the user's to edit.
    Agent,
    /// The application's own upkeep. Not editable.
    System,
}

impl Default for Source {
    fn default() -> (r: Self)
        ensures
            r == Source::User,
    {
        Source::User
    }
}

impl Source {
    /// Whether a person may change this job's schedule and prompt.
    pub fn editable(&self) -> (r: bool)
        ensures
            r == (*self != Source::System),
    {
        match self {
            Source::System => false,
            _ => true,
        }
    }
}

/// Where a job's answer goes.
#[derive(Debug, Clone, PartialEq, Eq)]
pub enum Destination {
    /// Append to one chat, run after run.
    Chat { slug: String, thread: String },
    /// A fresh chat each time, reported by notification.
    FreshChat { slug: String },
    /// No chat at all: the job is its own thing and reports by notification.
    Nothing,
}

impl Destination {
    /// The project this job belongs to, if it belongs to one.
    pub open spec fn project(self) -> Option<Seq<char>> {
        match self {
            Destination::Chat { slug, thread } => Some(slug@),
            Destination::FreshChat { slug } => Some(slug@),
            Destination::Nothing => None,
        }
    }

    /// The chat it appends to, if it appends to one.
    pub open spec fn chat(self) -> Option<Seq<char>> {
        match self {
            Destination::Chat { slug, thread } => Some(thread@),
            _ => None,
        }
    }

    /// The project this job belongs to, if it belongs to one.
    pub fn slug(&self) -> (r: Option<&str>)
        ensures
            match r {
                Some(s) => self.project() == Some(s@),
                None => self.project() is None,
            },
    {
        match self {
            Destination::Chat { slug, thread: _ } => Some(slug.as_str()),
            Destination::FreshChat { slug } => Some(slug.as_str()),
            Destination::Nothing => None,
        }
    }

    /// The chat it appends to, if it appends to one.
    pub fn thread(&self) -> (r: Option<&str>)
        ensures
            match r {
                Some(s) => self.chat() == Some(s@),
                None => self.chat() is None,
            },
    {
        match self {
            Destination::Chat { slug: _, thread } => Some(thread.as_str()),
            _ => None,
        }
    }

    fn is_in(&self, slug: &str) -> (r: bool)
        ensures
            r == (self.project() == Some(slug@)),
    {
        match self.slug() {
            Some(s) => text::same(s, slug),
            None => false,
        }
    }

    fn is_chat(&self, slug: &str, thread: &str) -> (r: bool)
        ensures
            r == (self.project() == Some(slug@) && self.chat() == Some(thread@)),
    {
        self.is_in(slug) && match self.thread() {
            Some(s) => text::same(s, thread),
            None => false,
        }
    }
}

/// One thing that runs on its own.
#[derive(Debug, Clone, PartialEq, Eq)]
pub struct Job {
    /// Stable across edits, because every surface needs to name one job and
    /// have it still mean the same job tomorrow.
    pub id: String,
    /// What it is called in a list. Empty is read as the prompt's first line.
    pub name: String,
    pub source: Source,
    pub schedule: Schedule,
    /// The instruction to run each time, written as if the user had typed it.
    pub prompt: String,
    pub destination: Destination,
    /// Off without being forgotten.
    pub enabled: bool,
    pub recovery: Recovery,
    pub last_run: Option<Stamp>,
    pub last_outcome: Option<String>,
}

/// The id of each job.
pub open spec fn ids(jobs: Seq<Job>) -> Seq<Seq<char>> {
    Seq::new(jobs.len(), |i: int| jobs[i].id@)
}

impl Job {
    pub fn new(id: &str, schedule: Schedule, prompt: &str, into: Destination) -> (r: Self)
        ensures
            r.id@ == id@,
            r.name@ == Seq::<char>::empty(),
            r.source == Source::User,
            r.schedule == schedule,
            r.prompt@ == text::trim(prompt@),
            r.destination == into,
            r.enabled,
            r.recovery == Recovery::OnTime,
            r.last_run is None,
            r.last_outcome is None,
    {
        let chars = text::chars_of(prompt);
        Job {
            id: id.to_owned(),
            name: String::new(),
            source: Source::User,
            schedule,
            prompt: text::string_of(text::trimmed(chars.as_slice())),
            destination: into,
            enabled: true,
            recovery: Recovery::OnTime,
            last_run: None,
            last_outcome: None,
        }
    }

    /// An id nothing else has, from the one that is wanted.
    pub fn mint_from(base: &str, taken: &Vec<String>) -> (r: String)
        ensures
            lists::is_free_name(base@, text::texts(taken@), r@),
    {
        lists::free_name(base, taken)
    }

    /// An id nothing else will have: the clock to the second, and a number
    /// where that is taken.
    pub fn mint(now: Stamp, taken: &Vec<String>) -> (r: String)
        requires
            now.dated(),
        ensures
            lists::is_free_name(
                strftime(now.seconds as int, "job-%Y%m%d-%H%M%S"@),
                text::texts(taken@),
                r@,
            ),
    {
        let base = written(now.seconds, "job-%Y%m%d-%H%M%S");
        Job::mint_from(base.as_str(), taken)
    }
}

/// The first line, from the `i`th on, that is not blank.
pub open spec fn first_line(lines: Seq<Seq<char>>, i: int) -> Option<Seq<char>>
    decreases lines.len() - i,
{
    if i < 0 || i >= lines.len() {
        None
    } else if text::trim(lines[i]).len() > 0 {
        Some(text::trim(lines[i]))
    } else {
        first_line(lines, i + 1)
    }
}

/// A line of a title: cut where it is over sixty characters long.
pub open spec fn shortened(line: Seq<char>) -> Seq<char> {
    if line.len() > 60 {
        line.take(59) + "…"@
    } else {
        line
    }
}

/// What a job is called in a list: its name, or else the first line of its
/// prompt.
pub open spec fn title_of(name: Seq<char>, prompt: Seq<char>) -> Seq<char> {
    if text::trim(name).len() > 0 {
        text::trim(name)
    } else {
        match first_line(text::lines(prompt), 0) {
            Some(line) => shortened(line),
            None => "Untitled job"@,
        }
    }
}

/// What running a job now comes to, for some answer of the local clock.
pub open spec fn job_due(job: Job, now: Moment, r: Option<(Due, Moment)>) -> bool {
    if !job.enabled || text::trim(job.prompt@).len() == 0 || job.last_run is None {
        r is None
    } else {
        exists|last: Moment, scheduled: Option<Moment>|
            last.instant() == (job.last_run->0).instant() && #[trigger] is_due(
                job.schedule,
                last,
                now,
                job.recovery,
                scheduled,
                r,
            )
    }
}

/// What the next run of a schedule is, for some answer of the local clock.
pub open spec fn next_is(schedule: Schedule, after: Moment, r: Moment) -> bool {
    match schedule {
        Schedule::Hours { hours } => r.instant() == after.instant() + hour_step(hours)
            * 3_600_000_000_000,
        _ => exists|days: Seq<Moment>, present: Moment|
            #[trigger] is_next(schedule, after, days, present, r),
    }
}

impl Job {
    /// What this is called in a list.
    pub fn title(&self) -> (r: String)
        ensures
            r@ == title_of(self.name@, self.prompt@),
    {
        let name = text::chars_of(self.name.as_str());
        let trimmed = text::trimmed(name.as_slice());
        if trimmed.len() > 0 {
            return text::string_of(trimmed);
        }
        let prompt = text::chars_of(self.prompt.as_str());
        let lines = text::lines_of(prompt.as_slice());
        let ghost all = text::lines(self.prompt@);
        let mut i: usize = 0;
        while i < lines.len()
            invariant
                0 <= i <= lines.len(),
                text::runs(lines@) == all,
                all == text::lines(self.prompt@),
                text::trim(self.name@).len() == 0,
                first_line(all, 0) == first_line(all, i as int),
            decreases lines.len() - i,
        {
            assert(all[i as int] == lines@[i as int]@);
            let line = text::trimmed(lines[i]);
            if line.len() > 0 {
                return if line.len() > 60 {
                    let mut r = text::string_of(slice_subrange(line, 0, 59));
                    r.append("…");
                    r
                } else {
                    text::string_of(line)
                };
            }
            i = i + 1;
        }
        "Untitled job".to_owned()
    }

    fn blank(&self) -> (r: bool)
        ensures
            r == (text::trim(self.prompt@).len() == 0),
    {
        let prompt = text::chars_of(self.prompt.as_str());
        text::trimmed(prompt.as_slice()).len() == 0
    }

    /// Whether to run now, why, and which occurrence it is for. A job that is
    /// paused, or has nothing to ask, never runs.
    pub fn due(&self, now: Moment) -> (r: Option<(Due, Moment)>)
        requires
            now.wf(),
            self.last_run is Some ==> (self.last_run->0).wf(),
        ensures
            job_due(*self, now, r),
            r is Some ==> (r->0).1.loose() && self.last_run is Some && (
            self.last_run->0).instant() < (r->0).1.instant() <= now.instant(),
            !self.enabled || text::trim(self.prompt@).len() == 0 ==> r is None,
    {
        if !self.enabled || self.blank() {
            return None;
        }
        match self.last_run {
            Some(last) => {
                let local = last.local();
                let r = self.schedule.due(Some(local), now, self.recovery);
                assert(exists|scheduled: Option<Moment>|
                    #[trigger] is_due(self.schedule, local, now, self.recovery, scheduled, r));
                r
            },
            None => None,
        }
    }

    /// The next time this is expected to run, for a list that says so.
    pub fn next_run(&self, now: Moment) -> (r: Option<Moment>)
        requires
            now.wf(),
            self.last_run is Some ==> (self.last_run->0).wf(),
        ensures
            r is Some <==> self.enabled,
            r is Some ==> exists|after: Moment|
                #[trigger] next_is(self.schedule, after, r->0) && match self.last_run {
                    Some(last) => after.instant() == last.instant(),
                    None => after == now,
                },
            r is Some ==> (r->0).instant() > match self.last_run {
                Some(last) => last.instant(),
                None => now.instant(),
            },
    {
        if !self.enabled {
            return None;
        }
        let after = match self.last_run {
            Some(last) => last.local(),
            None => now,
        };
        let next = self.schedule.next_after(after);
        assert(match self.last_run {
            Some(last) => after.instant() == last.instant(),
            None => after == now,
        });
        let r = Some(next);
        assert(next_is(self.schedule, after, r->0));
        r
    }
}

/// Every job, as one list.
#[derive(Debug, Clone, PartialEq, Eq)]
pub struct Jobs {
    pub jobs: Vec<Job>,
}

impl Default for Jobs {
    fn default() -> (r: Self)
        ensures
            r.jobs@ == Seq::<Job>::empty(),
    {
        Jobs { jobs: Vec::new() }
    }
}

/// Where the first job with an id stands: the number of jobs where there is
/// none.
pub open spec fn position(jobs: Seq<Job>, id: Seq<char>, i: int) -> int
    decreases jobs.len() - i,
{
    if i >= jobs.len() {
        jobs.len() as int
    } else if jobs[i].id@ == id {
        i
    } else {
        position(jobs, id, i + 1)
    }
}

/// Whether a job lands in a chat.
pub open spec fn lands_in(job: Job, slug: Seq<char>, thread: Seq<char>) -> bool {
    job.destination.project() == Some(slug) && job.destination.chat() == Some(thread)
}

/// Which of some jobs runs first: the most overdue, and the first of those
/// that are equally so.
pub open spec fn first_due(dues: Seq<Option<(Due, Moment)>>) -> Option<int>
    decreases dues.len(),
{
    if dues.len() == 0 {
        None
    } else {
        let before = first_due(dues.drop_last());
        match dues.last() {
            Some((why, at)) => match before {
                Some(i) => if at.instant() < (dues[i]->0).1.instant() {
                    Some(dues.len() - 1)
                } else {
                    Some(i)
                },
                None => Some(dues.len() - 1),
            },
            None => before,
        }
    }
}

/// The one that runs first is due, and none is more overdue; where none runs,
/// none is due.
pub proof fn the_most_overdue_goes_first(dues: Seq<Option<(Due, Moment)>>)
    ensures
        match first_due(dues) {
            Some(i) => 0 <= i < dues.len() && dues[i] is Some && forall|j: int|
                0 <= j < dues.len() && (#[trigger] dues[j]) is Some ==> (dues[i]->0).1.instant()
                    <= (dues[j]->0).1.instant(),
            None => forall|j: int| 0 <= j < dues.len() ==> (#[trigger] dues[j]) is None,
        },
    decreases dues.len(),
{
    if dues.len() > 0 {
        let rest = dues.drop_last();
        the_most_overdue_goes_first(rest);
        assert forall|j: int| 0 <= j < rest.len() implies #[trigger] dues[j] == rest[j] by {}
    }
}

/// Which of some jobs runs first.
pub fn pick(dues: &Vec<Option<(Due, Moment)>>) -> (r: Option<usize>)
    requires
        forall|i: int|
            0 <= i < dues.len() ==> ((#[trigger] dues[i]) is Some ==> (dues[i]->0).1.loose()),
    ensures
        match r {
            Some(i) => first_due(dues@) == Some(i as int),
            None => first_due(dues@) is None,
        },
{
    let mut best: Option<usize> = None;
    let mut i: usize = 0;
    while i < dues.len()
        invariant
            0 <= i <= dues.len(),
            forall|j: int|
                0 <= j < dues.len() ==> ((#[trigger] dues[j]) is Some ==> (
                dues[j]->0).1.loose()),
            match best {
                Some(b) => first_due(dues@.take(i as int)) == Some(b as int) && b < i && dues[
                    b as int
                ] is Some,
                None => first_due(dues@.take(i as int)) is None,
            },
        decreases dues.len() - i,
    {
        assert(dues@.take(i + 1).drop_last() =~= dues@.take(i as int));
        if let Some((_, at)) = &dues[i] {
            match best {
                Some(b) => {
                    assert(dues@.take(i + 1)[b as int] == dues@[b as int]);
                    if let Some((_, other)) = &dues[b] {
                        if at.before(other) {
                            best = Some(i);
                        }
                    }
                },
                None => {
                    best = Some(i);
                },
            }
        }
        i = i + 1;
    }
    assert(dues@.take(dues@.len() as int) =~= dues@);
    best
}

/// The verdicts on all the jobs, for some answers of the local clock.
pub open spec fn all_due(jobs: Seq<Job>, now: Moment, dues: Seq<Option<(Due, Moment)>>) -> bool {
    &&& dues.len() == jobs.len()
    &&& forall|i: int| 0 <= i < jobs.len() ==> job_due(jobs[i], now, #[trigger] dues[i])
}

/// Whether a job belongs to a project, or to one chat of it.
spec fn belongs(job: Job, slug: Seq<char>, thread: Option<&str>) -> bool {
    match thread {
        Some(thread) => lands_in(job, slug, thread@),
        None => job.destination.project() == Some(slug),
    }
}

impl Jobs {
    /// No two jobs share an id.
    pub open spec fn distinct(self) -> bool {
        ids(self.jobs@).no_duplicates()
    }

    fn find(&self, id: &str) -> (r: usize)
        ensures
            r == position(self.jobs@, id@, 0),
            r <= self.jobs.len(),
            r < self.jobs.len() ==> self.jobs[r as int].id@ == id@,
    {
        let mut i: usize = 0;
        while i < self.jobs.len()
            invariant
                0 <= i <= self.jobs.len(),
                position(self.jobs@, id@, 0) == position(self.jobs@, id@, i as int),
            decreases self.jobs.len() - i,
        {
            if text::same(self.jobs[i].id.as_str(), id) {
                return i;
            }
            i = i + 1;
        }
        i
    }

    pub fn get(&self, id: &str) -> (r: Option<&Job>)
        ensures
            match r {
                Some(job) => position(self.jobs@, id@, 0) < self.jobs.len() && *job
                    == self.jobs[position(self.jobs@, id@, 0)],
                None => position(self.jobs@, id@, 0) == self.jobs.len(),
            },
    {
        let at = self.find(id);
        if at < self.jobs.len() {
            Some(&self.jobs[at])
        } else {
            None
        }
    }

    pub fn get_mut(&mut self, id: &str) -> (r: Option<&mut Job>)
        ensures
            match r {
                Some(job) => {
                    let at = position(old(self).jobs@, id@, 0);
                    &&& at < old(self).jobs.len()
                    &&& *job == old(self).jobs@[at]
                    &&& final(self).jobs@ == old(self).jobs@.update(at, *final(job))
                },
                None => position(old(self).jobs@, id@, 0) == old(self).jobs.len()
                    && final(self).jobs@ == old(self).jobs@,
            },
    {
        let at = self.find(id);
        if at < self.jobs.len() {
            Some(&mut self.jobs[at])
        } else {
            None
        }
    }

    /// Adds a job, with an id of its own: the one it has, unless that is blank
    /// or taken.
    pub fn add(&mut self, job: Job, now: Stamp) -> (r: String)
        requires
            now.dated(),
        ensures
            ({
                let taken = ids(old(self).jobs@);
                let added = final(self).jobs@.last();
                &&& final(self).jobs@ == old(self).jobs@.push(added)
                &&& added == (Job { id: added.id, ..job })
                &&& added.id@ == r@
                &&& if text::trim(job.id@).len() == 0 || taken.contains(job.id@) {
                    lists::is_free_name(
                        strftime(now.seconds as int, "job-%Y%m%d-%H%M%S"@),
                        taken,
                        r@,
                    )
                } else {
                    r@ == job.id@
                }
            }),
            old(self).distinct() ==> final(self).distinct(),
    {
        let mut taken: Vec<String> = Vec::new();
        let mut i: usize = 0;
        while i < self.jobs.len()
            invariant
                0 <= i <= self.jobs.len(),
                self.jobs@ == old(self).jobs@,
                text::texts(taken@) == ids(self.jobs@).take(i as int),
            decreases self.jobs.len() - i,
        {
            let ghost before = text::texts(taken@);
            taken.push(self.jobs[i].id.clone());
            assert(text::texts(taken@) =~= before.push(self.jobs@[i as int].id@));
            assert(text::texts(taken@) =~= ids(self.jobs@).take(i + 1));
            i = i + 1;
        }
        assert(ids(self.jobs@).take(self.jobs.len() as int) =~= ids(self.jobs@));
        let chars = text::chars_of(job.id.as_str());
        let mut job = job;
        if text::trimmed(chars.as_slice()).len() == 0 || lists::any(&taken, job.id.as_str()) {
            job.id = Job::mint(now, &taken);
        }
        let id = job.id.clone();
        self.jobs.push(job);
        proof {
            let all = ids(old(self).jobs@);
            assert(ids(self.jobs@) =~= all.push(id@));
            assert(!all.contains(id@));
            if old(self).distinct() {
                assert forall|a: int, b: int|
                    0 <= a < ids(self.jobs@).len() && 0 <= b < ids(self.jobs@).len() && a
                        != b implies ids(self.jobs@)[a] != ids(self.jobs@)[b] by {
                    if a == all.len() {
                        assert(all[b] == ids(self.jobs@)[b]);
                        assert(all.contains(all[b]));
                    } else if b == all.len() {
                        assert(all[a] == ids(self.jobs@)[a]);
                        assert(all.contains(all[a]));
                    }
                }
            }
        }
        id
    }

    pub fn remove(&mut self, id: &str) -> (r: Option<Job>)
        ensures
            ({
                let at = position(old(self).jobs@, id@, 0);
                match r {
                    Some(job) => at < old(self).jobs.len() && job == old(self).jobs@[at]
                        && final(self).jobs@ == old(self).jobs@.remove(at),
                    None => at == old(self).jobs.len() && final(self).jobs@ == old(self).jobs@,
                }
            }),
    {
        let at = self.find(id);
        if at < self.jobs.len() {
            Some(self.jobs.remove(at))
        } else {
            None
        }
    }

    /// The job that should run now, if any.
    ///
    /// One at a time. The most overdue goes first, so that a backlog drains in
    /// the order it accumulated.
    pub fn next_due(&self, now: Moment) -> (r: Option<(&Job, Due, Moment)>)
        requires
            now.wf(),
            forall|i: int|
                0 <= i < self.jobs.len() ==> ((#[trigger] self.jobs[i]).last_run is Some ==> (
                self.jobs[i].last_run->0).wf()),
        ensures
            exists|dues: Seq<Option<(Due, Moment)>>|
                #[trigger] all_due(self.jobs@, now, dues) && match r {
                    Some((job, why, at)) => first_due(dues) is Some && {
                        let i = first_due(dues)->0;
                        *job == self.jobs@[i] && dues[i] == Some((why, at))
                    },
                    None => first_due(dues) is None,
                },
            match r {
                Some((job, _, at)) => job.last_run is Some && (job.last_run->0).instant()
                    < at.instant() <= now.instant(),
                None => true,
            },
    {
        let mut dues: Vec<Option<(Due, Moment)>> = Vec::new();
        let mut i: usize = 0;
        while i < self.jobs.len()
            invariant
                0 <= i <= self.jobs.len(),
                now.wf(),
                dues.len() == i,
                forall|j: int|
                    0 <= j < self.jobs.len() ==> ((#[trigger] self.jobs[j]).last_run is Some ==> (
                    self.jobs[j].last_run->0).wf()),
                forall|j: int| 0 <= j < i ==> job_due(self.jobs@[j], now, #[trigger] dues@[j]),
                forall|j: int|
                    0 <= j < i ==> ((#[trigger] dues@[j]) is Some ==> (dues@[j]->0).1.loose()
                        && self.jobs@[j].last_run is Some && (self.jobs@[j].last_run->0).instant()
                        < (dues@[j]->0).1.instant() <= now.instant()),
            decreases self.jobs.len() - i,
        {
            let one = self.jobs[i].due(now);
            dues.push(one);
            i = i + 1;
        }
        assert(all_due(self.jobs@, now, dues@));
        match pick(&dues) {
            Some(at) => {
                proof {
                    the_most_overdue_goes_first(dues@);
                }
                match &dues[at] {
                    Some((why, when)) => Some((&self.jobs[at], *why, *when)),
                    None => None,
                }
            },
            None => None,
        }
    }

    /// Every job that lands in this chat. Several may.
    pub fn for_chat<'a>(&'a self, slug: &str, thread: &str) -> (r: Vec<&'a Job>)
        ensures
            lists::deref(r@) == lists::kept(
                self.jobs@,
                |job: Job| lands_in(job, slug@, thread@),
            ),
    {
        let ghost keep = |job: Job| lands_in(job, slug@, thread@);
        let mut r: Vec<&'a Job> = Vec::new();
        let mut i: usize = 0;
        assert(lists::deref(r@) =~= lists::kept(self.jobs@.take(0), keep));
        while i < self.jobs.len()
            invariant
                0 <= i <= self.jobs.len(),
                keep == (|job: Job| lands_in(job, slug@, thread@)),
                lists::deref(r@) == lists::kept(self.jobs@.take(i as int), keep),
            decreases self.jobs.len() - i,
        {
            proof {
                lists::lemma_kept_take(self.jobs@, keep, i as int);
            }
            let ghost before = lists::deref(r@);
            if self.jobs[i].destination.is_chat(slug, thread) {
                r.push(&self.jobs[i]);
                assert(lists::deref(r@) =~= before.push(self.jobs@[i as int]));
            }
            i = i + 1;
        }
        assert(self.jobs@.take(self.jobs@.len() as int) =~= self.jobs@);
        r
    }

    /// Drops every job whose chat is gone, and says how many there were. A job
    /// pointing at a deleted chat would run forever against nothing.
    pub fn forget_chat(&mut self, slug: &str, thread: &str) -> (r: usize)
        ensures
            final(self).jobs@ == lists::kept(
                old(self).jobs@,
                |job: Job| !lands_in(job, slug@, thread@),
            ),
            r == old(self).jobs.len() - final(self).jobs.len(),
    {
        let r = self.forget(slug, Some(thread));
        proof {
            let a = |job: Job| !lands_in(job, slug@, thread@);
            let b = |job: Job| !belongs(job, slug@, Some(thread));
            assert(a =~= b);
        }
        r
    }

    /// Drops every job belonging to a project that is gone, and says how many
    /// there were.
    pub fn forget_project(&mut self, slug: &str) -> (r: usize)
        ensures
            final(self).jobs@ == lists::kept(
                old(self).jobs@,
                |job: Job| job.destination.project() != Some(slug@),
            ),
            r == old(self).jobs.len() - final(self).jobs.len(),
    {
        let r = self.forget(slug, None);
        proof {
            let a = |job: Job| job.destination.project() != Some(slug@);
            let b = |job: Job| !belongs(job, slug@, None);
            assert(a =~= b);
        }
        r
    }

    fn forget(&mut self, slug: &str, thread: Option<&str>) -> (r: usize)
        ensures
            final(self).jobs@ == lists::kept(
                old(self).jobs@,
                |job: Job| !belongs(job, slug@, thread),
            ),
            r == old(self).jobs.len() - final(self).jobs.len(),
    {
        let ghost all = self.jobs@;
        let ghost keep = |job: Job| !belongs(job, slug@, thread);
        let ghost mut seen: int = 0;
        let total: usize = self.jobs.len();
        let mut i: usize = 0;
        assert(self.jobs@.take(0) =~= lists::kept(all.take(0), keep));
        while i < self.jobs.len()
            invariant
                0 <= i <= self.jobs.len(),
                keep == (|job: Job| !belongs(job, slug@, thread)),
                0 <= seen <= all.len(),
                self.jobs@.take(i as int) == lists::kept(all.take(seen), keep),
                self.jobs@.skip(i as int) =~= all.skip(seen),
                total == all.len(),
                self.jobs.len() <= total,
            decreases self.jobs.len() - i,
        {
            let ghost before = self.jobs@;
            assert(before.skip(i as int).len() == all.skip(seen).len());
            assert(before.skip(i as int)[0] == all.skip(seen)[0]);
            proof {
                lists::lemma_kept_take(all, keep, seen);
            }
            let gone = match thread {
                Some(thread) => self.jobs[i].destination.is_chat(slug, thread),
                None => self.jobs[i].destination.is_in(slug),
            };
            if gone {
                self.jobs.remove(i);
                assert(self.jobs@.take(i as int) =~= before.take(i as int));
                assert(self.jobs@.skip(i as int) =~= before.skip(i as int).skip(1));
                assert(all.skip(seen).skip(1) =~= all.skip(seen + 1));
            } else {
                assert(self.jobs@.take(i + 1) =~= before.take(i as int).push(all[seen]));
                assert(before.skip(i + 1) =~= before.skip(i as int).skip(1));
                assert(all.skip(seen).skip(1) =~= all.skip(seen + 1));
                i = i + 1;
            }
            proof {
                seen = seen + 1;
            }
        }
        proof {
            assert(all.skip(seen).len() == 0);
            assert(all.take(seen) =~= all);
            assert(self.jobs@.take(i as int) =~= self.jobs@);
        }
        total - self.jobs.len()
    }

    /// Builds a list from the schedules that conversations carry themselves:
    /// the project, the conversation and the schedule of each.
    ///
    /// Every field carries over, the last run among them: forgetting when each
    /// last ran would make every schedule fire at once.
    pub fn migrated(found: &Vec<(String, String, Heartbeat)>) -> (r: Self)
        ensures
            r.jobs.len() == found.len(),
            forall|i: int|
                0 <= i < found.len() ==> carries(#[trigger] r.jobs[i], found[i]),
    {
        let mut jobs: Vec<Job> = Vec::new();
        let mut i: usize = 0;
        while i < found.len()
            invariant
                0 <= i <= found.len(),
                jobs.len() == i,
                forall|j: int| 0 <= j < i ==> carries(#[trigger] jobs[j], found[j]),
            decreases found.len() - i,
        {
            let (slug, thread, beat) = &found[i];
            let mut id = "job-".to_owned();
            id.append(thread.as_str());
            jobs.push(
                Job {
                    id,
                    name: String::new(),
                    source: Source::User,
                    schedule: beat.schedule,
                    prompt: beat.prompt.clone(),
                    destination: Destination::Chat { slug: slug.clone(), thread: thread.clone() },
                    enabled: beat.enabled,
                    recovery: beat.recovery,
                    last_run: beat.last_run,
                    last_outcome: beat.last_outcome.clone(),
                },
            );
            i = i + 1;
        }
        Jobs { jobs }
    }
}

/// Whether a job carries over a conversation's own schedule.
pub open spec fn carries(job: Job, found: (String, String, Heartbeat)) -> bool {
    let beat = found.2;
    &&& job.id@ == "job-"@ + found.1@
    &&& job.name@ == Seq::<char>::empty()
    &&& job.source == Source::User
    &&& job.schedule == beat.schedule
    &&& job.prompt@ == beat.prompt@
    &&& job.destination.project() == Some(found.0@)
    &&& job.destination.chat() == Some(found.1@)
    &&& job.enabled == beat.enabled
    &&& job.recovery == beat.recovery
    &&& job.last_run == beat.last_run
    &&& crate::office::markup::optional(job.last_outcome) == crate::office::markup::optional(
        beat.last_outcome,
    )
}

/// Forgetting a chat removes exactly the jobs that land in it.
pub proof fn forgetting_a_chat_removes_its_jobs_only(
    jobs: Seq<Job>,
    slug: Seq<char>,
    thread: Seq<char>,
    job: Job,
)
    ensures
        lists::kept(jobs, |job: Job| !lands_in(job, slug, thread)).contains(job)
            <==> jobs.contains(job) && !lands_in(job, slug, thread),
{
    lists::lemma_kept(jobs, |job: Job| !lands_in(job, slug, thread));
}

/// Forgetting a project removes exactly the jobs that belong to it.
pub proof fn forgetting_a_project_removes_its_jobs_only(
    jobs: Seq<Job>,
    slug: Seq<char>,
    job: Job,
)
    ensures
        lists::kept(jobs, |job: Job| job.destination.project() != Some(slug)).contains(job)
            <==> jobs.contains(job) && job.destination.project() != Some(slug),
{
    lists::lemma_kept(jobs, |job: Job| job.destination.project() != Some(slug));
}

/// A job is found by its id: what is found is the first that has it, and nothing is found
/// only where none has it.
pub proof fn a_job_is_found_by_its_id(jobs: Seq<Job>, id: Seq<char>)
    ensures
        0 <= position(jobs, id, 0) <= jobs.len(),
        position(jobs, id, 0) < jobs.len() ==> jobs[position(jobs, id, 0)].id@ == id,
        forall|j: int| 0 <= j < position(jobs, id, 0) ==> (#[trigger] jobs[j]).id@ != id,
{
    lemma_position(jobs, id, 0);
}

proof fn lemma_position(jobs: Seq<Job>, id: Seq<char>, i: int)
    requires
        0 <= i <= jobs.len(),
    ensures
        i <= position(jobs, id, i) <= jobs.len(),
        position(jobs, id, i) < jobs.len() ==> jobs[position(jobs, id, i)].id@ == id,
        forall|j: int| i <= j < position(jobs, id, i) ==> (#[trigger] jobs[j]).id@ != id,
    decreases jobs.len() - i,
{
    if i < jobs.len() && jobs[i].id@ != id {
        lemma_position(jobs, id, i + 1);
    }
}

/// A job goes where its destination says: to that chat of that project, to a fresh chat of
/// the project, or to none.
pub proof fn a_job_goes_where_it_is_sent(job: Job, slug: Seq<char>, thread: Seq<char>)
    ensures
        match job.destination {
            Destination::Chat { slug: s, thread: t } => {
                &&& job.destination.project() == Some(s@)
                &&& lands_in(job, slug, thread) <==> s@ == slug && t@ == thread
            },
            Destination::FreshChat { slug: s } => {
                &&& job.destination.project() == Some(s@)
                &&& !lands_in(job, slug, thread)
            },
            Destination::Nothing => {
                &&& job.destination.project() is None
                &&& !lands_in(job, slug, thread)
            },
        },
{
}

/// A job is called by its name, and without one by the first line of its prompt that says
/// anything, as far as sixty characters go.
pub proof fn a_job_is_called_by_its_name_or_its_prompt(name: Seq<char>, prompt: Seq<char>)
    ensures
        text::trim(name).len() > 0 ==> title_of(name, prompt) == text::trim(name),
        text::trim(name).len() == 0 ==> match title_of(name, prompt) {
            title => {
                ||| title == "Untitled job"@ && forall|j: int|
                    0 <= j < text::lines(prompt).len() ==> text::trim(
                        #[trigger] text::lines(prompt)[j],
                    ).len() == 0
                ||| exists|i: int|
                    0 <= i < text::lines(prompt).len() && is_title(
                        text::trim(#[trigger] text::lines(prompt)[i]),
                        title,
                    ) && forall|j: int|
                        0 <= j < i ==> text::trim(#[trigger] text::lines(prompt)[j]).len() == 0
            },
        },
{
    lemma_first_line(text::lines(prompt), 0);
}

/// Whether a title is a line, or what fits of one with a mark that there is more.
pub open spec fn is_title(line: Seq<char>, title: Seq<char>) -> bool {
    &&& line.len() > 0
    &&& line.len() <= 60 ==> title == line
    &&& line.len() > 60 ==> title == line.take(59) + "…"@
}

proof fn lemma_first_line(lines: Seq<Seq<char>>, i: int)
    requires
        0 <= i,
    ensures
        match first_line(lines, i) {
            Some(line) => exists|k: int|
                i <= k < lines.len() && text::trim(#[trigger] lines[k]) == line && line.len() > 0
                    && forall|j: int|
                    i <= j < k ==> text::trim(#[trigger] lines[j]).len() == 0,
            None => forall|j: int|
                i <= j < lines.len() ==> text::trim(#[trigger] lines[j]).len() == 0,
        },
    decreases lines.len() - i,
{
    if i < lines.len() {
        if text::trim(lines[i]).len() > 0 {
            assert(text::trim(lines[i]) == first_line(lines, i)->0);
        } else {
            lemma_first_line(lines, i + 1);
            if let Some(line) = first_line(lines, i) {
                let k = choose|k: int|
                    i + 1 <= k < lines.len() && text::trim(#[trigger] lines[k]) == line
                        && line.len() > 0 && forall|j: int|
                        i + 1 <= j < k ==> text::trim(#[trigger] lines[j]).len() == 0;
                assert(text::trim(lines[k]) == line);
            }
        }
    }
}

} // verus!
