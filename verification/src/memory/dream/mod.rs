//! Consolidation, at night.
//!
//! Everything else only ever adds. This takes things out, with no one watching,
//! which is why almost all of it is about the conditions under which it is
//! allowed to do anything.

pub mod asking;
pub mod journal;
pub mod reckoning;

pub use self::asking::{parse, request, BATCH, INSTRUCTIONS};
pub use self::journal::{Applied, Journal, Night, Removed};
pub use self::reckoning::{arithmetic, mentions, Mention};

use super::observation::{normal, normalise, Kind, Observation, Seen};
use crate::lists::any;
use crate::text;
use crate::time::Stamp;
use vstd::prelude::*;

verus! {

/// One observation, with everything known about it by the time this runs.
#[derive(Debug, Clone, PartialEq, Eq)]
pub struct Held {
    pub observation: Observation,
    /// Times a search has returned the note it lives in.
    pub uses: u32,
    /// The day that last happened.
    pub last_used: Option<i64>,
    /// Times its subject has come up in a recent conversation.
    pub mentions: u32,
}

/// What is known about an observation.
#[verifier::ext_equal]
pub struct Known {
    pub seen: Seen,
    pub uses: u32,
    pub last_used: Option<i64>,
    pub mentions: u32,
}

impl View for Held {
    type V = Known;

    open spec fn view(&self) -> Known {
        Known {
            seen: self.observation@,
            uses: self.uses,
            last_used: self.last_used,
            mentions: self.mentions,
        }
    }
}

/// What is known about the observations of a list.
pub open spec fn known(held: Seq<Held>) -> Seq<Known> {
    Seq::new(held.len(), |i: int| held[i]@)
}

impl Known {
    pub open spec fn key(self) -> Seq<char> {
        self.seen.key()
    }

    /// Whether the rails allow this to be dropped at all: not who the user is,
    /// not what is too young, not what was wanted too recently.
    pub open spec fn droppable(self, policy: Policy, today: int) -> bool {
        &&& self.seen.kind != Kind::Profile
        &&& match self.seen.saved {
            Some(saved) => policy.min_age_days == 0 || today - saved >= policy.min_age_days,
            None => true,
        }
        &&& match self.last_used {
            Some(last) => today - last >= policy.protect_used_days,
            None => true,
        }
    }
}

impl Held {
    pub fn key(&self) -> (r: String)
        ensures
            r@ == self@.key(),
    {
        self.observation.key()
    }

    /// Whether the rails allow this to be dropped at all, whatever either pass
    /// thinks of it.
    pub fn is_droppable(&self, policy: &Policy, now: Stamp) -> (r: bool)
        requires
            now.dated(),
        ensures
            r == self@.droppable(*policy, now.day()),
    {
        if self.observation.kind == Kind::Profile {
            return false;
        }
        let old_enough = match self.observation.age_days(now) {
            Some(age) => age >= policy.min_age_days,
            None => true,
        };
        let cooled = match self.last_used {
            Some(last) => {
                let since: i128 = now.date() as i128 - last as i128;
                since >= policy.protect_used_days as i128
            },
            None => true,
        };
        old_enough && cooled
    }
}

/// The rails. Constants with names, so that a change to how forgetful this is
/// has to be a change someone made on purpose.
#[derive(Debug, Clone, Copy, PartialEq, Eq, Structural)]
pub struct Policy {
    /// Nothing younger than this is ever dropped.
    pub min_age_days: u64,
    /// Nor anything reached for inside this many days.
    pub protect_used_days: i64,
    /// The score below which an old, unused, unmentioned observation is a
    /// candidate, as the bits of a 32-bit float.
    pub drop_below: u32,
    /// The most one night may remove, in lines.
    pub most_drops: usize,
    /// And as a share of everything held, in hundredths.
    pub most_share: u32,
    /// The most one note may have dropped from it in a night, as a share of what
    /// it holds, in hundredths, but always one line.
    pub most_of_a_note: u32,
}

/// The rails as they usually are. A score of a tenth is what a fact is worth
/// after about three half-lives.
pub open spec fn is_usual(policy: Policy) -> bool {
    &&& policy.min_age_days == 30
    &&& policy.protect_used_days == 60
    &&& policy.drop_below == 0x3dcc_cccd
    &&& policy.most_drops == 20
    &&& policy.most_share == 25
    &&& policy.most_of_a_note == 50
}

impl Default for Policy {
    fn default() -> (r: Self)
        ensures
            is_usual(r),
    {
        Policy {
            min_age_days: 30,
            protect_used_days: 60,
            drop_below: 0x3dcc_cccd,
            most_drops: 20,
            most_share: 25,
            most_of_a_note: 50,
        }
    }
}

/// Why something is going.
#[derive(Debug, Clone, Copy, PartialEq, Eq, Structural)]
pub enum Why {
    /// Old, unused, and nobody has mentioned it.
    Stale,
    /// Another observation says the same thing.
    Duplicate,
    /// Something later contradicts or replaces it.
    Superseded,
    /// It was never worth a line.
    Trivial,
}

impl Why {
    /// The reason that a word in lower case stands for.
    pub open spec fn named(word: Seq<char>) -> Option<Why> {
        if word == "stale"@ || word == "old"@ || word == "unused"@ {
            Some(Why::Stale)
        } else if word == "duplicate"@ || word == "repeat"@ {
            Some(Why::Duplicate)
        } else if word == "superseded"@ || word == "outdated"@ || word == "replaced"@ {
            Some(Why::Superseded)
        } else if word == "trivial"@ || word == "noise"@ {
            Some(Why::Trivial)
        } else {
            None
        }
    }

    /// The reason that a text says.
    pub open spec fn said(text: Seq<char>) -> Option<Why> {
        Why::named(text::lowercase(text::trim(text)))
    }

    pub fn label(self) -> (r: &'static str)
        ensures
            r@ == match self {
                Why::Stale => "stale"@,
                Why::Duplicate => "duplicate"@,
                Why::Superseded => "superseded"@,
                Why::Trivial => "trivial"@,
            },
    {
        match self {
            Why::Stale => "stale",
            Why::Duplicate => "duplicate",
            Why::Superseded => "superseded",
            Why::Trivial => "trivial",
        }
    }

    /// The reason that a word in lower case stands for.
    pub fn from_lowercase(word: &str) -> (r: Option<Why>)
        ensures
            r == Why::named(word@),
    {
        if text::same(word, "stale") || text::same(word, "old") || text::same(word, "unused") {
            Some(Why::Stale)
        } else if text::same(word, "duplicate") || text::same(word, "repeat") {
            Some(Why::Duplicate)
        } else if text::same(word, "superseded") || text::same(word, "outdated") || text::same(
            word,
            "replaced",
        ) {
            Some(Why::Superseded)
        } else if text::same(word, "trivial") || text::same(word, "noise") {
            Some(Why::Trivial)
        } else {
            None
        }
    }

    pub fn parse(text: &str) -> (r: Option<Why>)
        ensures
            r == Why::said(text@),
    {
        let chars = text::chars_of(text);
        let word = text::string_of(text::trimmed(chars.as_slice()));
        let lowered = word.as_str().to_lowercase();
        Why::from_lowercase(lowered.as_str())
    }
}

/// One thing the night wants to do.
#[derive(Debug, Clone, PartialEq, Eq)]
pub enum Operation {
    /// Take this line out.
    Drop { key: String, note: String, subject: String, text: String, why: Why },
    /// Replace several lines in one note with one sentence that covers them.
    Merge {
        note: String,
        subject: String,
        kind: Kind,
        /// The sentence to write.
        into: String,
        /// What it replaces.
        keys: Vec<String>,
        texts: Vec<String>,
    },
    /// The same sentence, filed differently. The one operation that never loses
    /// anything.
    Reclassify { key: String, note: String, subject: String, text: String, from: Kind, to: Kind },
}

/// What an operation says.
#[verifier::ext_equal]
pub enum Step {
    Drop { key: Seq<char>, note: Seq<char>, subject: Seq<char>, text: Seq<char>, why: Why },
    Merge {
        note: Seq<char>,
        subject: Seq<char>,
        kind: Kind,
        into: Seq<char>,
        keys: Seq<Seq<char>>,
        texts: Seq<Seq<char>>,
    },
    Reclassify {
        key: Seq<char>,
        note: Seq<char>,
        subject: Seq<char>,
        text: Seq<char>,
        from: Kind,
        to: Kind,
    },
}

impl View for Operation {
    type V = Step;

    open spec fn view(&self) -> Step {
        match self {
            Operation::Drop { key, note, subject, text, why } => Step::Drop {
                key: key@,
                note: note@,
                subject: subject@,
                text: text@,
                why: *why,
            },
            Operation::Merge { note, subject, kind, into, keys, texts } => Step::Merge {
                note: note@,
                subject: subject@,
                kind: *kind,
                into: into@,
                keys: text::texts(keys@),
                texts: text::texts(texts@),
            },
            Operation::Reclassify { key, note, subject, text, from, to } => Step::Reclassify {
                key: key@,
                note: note@,
                subject: subject@,
                text: text@,
                from: *from,
                to: *to,
            },
        }
    }
}

/// What the operations of a list say.
pub open spec fn steps(operations: Seq<Operation>) -> Seq<Step> {
    Seq::new(operations.len(), |i: int| operations[i]@)
}

impl Step {
    /// Every line that the step would remove.
    pub open spec fn removed(self) -> Seq<Seq<char>> {
        match self {
            Step::Drop { key, .. } => seq![key],
            Step::Merge { keys, .. } => keys,
            Step::Reclassify { .. } => Seq::empty(),
        }
    }

    /// Every line that the step is about.
    pub open spec fn touched(self) -> Seq<Seq<char>> {
        match self {
            Step::Drop { key, .. } => seq![key],
            Step::Merge { keys, .. } => keys,
            Step::Reclassify { key, .. } => seq![key],
        }
    }

    /// Whether nothing that a person wrote down can be lost: refiling, and a
    /// merge whose members all say what replaces them.
    pub open spec fn lossless(self) -> bool {
        match self {
            Step::Drop { .. } => false,
            Step::Reclassify { .. } => true,
            Step::Merge { into, texts, .. } => forall|i: int|
                0 <= i < texts.len() ==> normal(#[trigger] texts[i]) == normal(into),
        }
    }

    /// How many lines this costs against the night's budget.
    pub open spec fn cost(self) -> nat {
        if self.lossless() {
            0
        } else {
            match self {
                Step::Drop { .. } => 1,
                Step::Merge { keys, .. } => if keys.len() > 0 {
                    (keys.len() - 1) as nat
                } else {
                    0
                },
                Step::Reclassify { .. } => 0,
            }
        }
    }
}

fn copied(list: &Vec<String>) -> (r: Vec<String>)
    ensures
        text::texts(r@) == text::texts(list@),
{
    let mut r: Vec<String> = Vec::new();
    let mut i: usize = 0;
    while i < list.len()
        invariant
            0 <= i <= list.len(),
            r.len() == i,
            forall|j: int| 0 <= j < i ==> (#[trigger] r[j])@ == list[j]@,
        decreases list.len() - i,
    {
        r.push(list[i].as_str().to_owned());
        i = i + 1;
    }
    assert(text::texts(r@) =~= text::texts(list@));
    r
}

/// Whether all texts of a list come to the same, normalised.
fn all_say(texts: &Vec<String>, replacement: &str) -> (r: bool)
    ensures
        r == forall|i: int|
            0 <= i < texts.len() ==> normal(#[trigger] text::texts(texts@)[i]) == replacement@,
{
    let ghost all = text::texts(texts@);
    let mut i: usize = 0;
    while i < texts.len()
        invariant
            0 <= i <= texts.len(),
            all == text::texts(texts@),
            forall|j: int| 0 <= j < i ==> normal(#[trigger] all[j]) == replacement@,
        decreases texts.len() - i,
    {
        let said = normalise(texts[i].as_str());
        if !text::same(said.as_str(), replacement) {
            assert(normal(all[i as int]) != replacement@);
            return false;
        }
        i = i + 1;
    }
    true
}

impl Operation {
    /// A copy that says the same.
    pub fn copy(&self) -> (r: Operation)
        ensures
            r@ == self@,
    {
        match self {
            Operation::Drop { key, note, subject, text, why } => Operation::Drop {
                key: key.as_str().to_owned(),
                note: note.as_str().to_owned(),
                subject: subject.as_str().to_owned(),
                text: text.as_str().to_owned(),
                why: *why,
            },
            Operation::Merge { note, subject, kind, into, keys, texts } => Operation::Merge {
                note: note.as_str().to_owned(),
                subject: subject.as_str().to_owned(),
                kind: *kind,
                into: into.as_str().to_owned(),
                keys: copied(keys),
                texts: copied(texts),
            },
            Operation::Reclassify { key, note, subject, text, from, to } => Operation::Reclassify {
                key: key.as_str().to_owned(),
                note: note.as_str().to_owned(),
                subject: subject.as_str().to_owned(),
                text: text.as_str().to_owned(),
                from: *from,
                to: *to,
            },
        }
    }

    /// Every line this operation would remove.
    pub fn removes(&self) -> (r: Vec<String>)
        ensures
            text::texts(r@) == self@.removed(),
    {
        match self {
            Operation::Drop { key, .. } => {
                let mut r: Vec<String> = Vec::new();
                r.push(key.as_str().to_owned());
                assert(text::texts(r@) =~= seq![key@]);
                r
            },
            Operation::Merge { keys, .. } => copied(keys),
            Operation::Reclassify { .. } => {
                let r: Vec<String> = Vec::new();
                assert(text::texts(r@) =~= Seq::empty());
                r
            },
        }
    }

    fn touches(&self) -> (r: Vec<String>)
        ensures
            text::texts(r@) == self@.touched(),
    {
        match self {
            Operation::Reclassify { key, .. } => {
                let mut r: Vec<String> = Vec::new();
                r.push(key.as_str().to_owned());
                assert(text::texts(r@) =~= seq![key@]);
                r
            },
            _ => self.removes(),
        }
    }

    /// Whether this operation can lose nothing that a person wrote down.
    pub fn is_lossless(&self) -> (r: bool)
        ensures
            r == self@.lossless(),
    {
        match self {
            Operation::Drop { .. } => false,
            Operation::Reclassify { .. } => true,
            Operation::Merge { into, texts, .. } => {
                let replacement = normalise(into.as_str());
                all_say(texts, replacement.as_str())
            },
        }
    }

    /// How many lines this costs against the night's budget. A merge that
    /// rewrites three different sentences into one has removed two.
    pub fn drops(&self) -> (r: usize)
        ensures
            r == self@.cost(),
    {
        if self.is_lossless() {
            return 0;
        }
        match self {
            Operation::Drop { .. } => 1,
            Operation::Merge { keys, .. } => if keys.len() > 0 {
                keys.len() - 1
            } else {
                0
            },
            Operation::Reclassify { .. } => 0,
        }
    }
}

// ---------------------------------------------------------------------------
// The rails
// ---------------------------------------------------------------------------

/// What steps cost between them.
pub open spec fn cost_of(plan: Seq<Step>) -> nat
    decreases plan.len(),
{
    if plan.len() == 0 {
        0
    } else {
        cost_of(plan.drop_last()) + plan.last().cost()
    }
}

/// How many lines of a note are dropped.
pub open spec fn dropped_from(plan: Seq<Step>, note: Seq<char>) -> nat
    decreases plan.len(),
{
    if plan.len() == 0 {
        0
    } else {
        dropped_from(plan.drop_last(), note) + match plan.last() {
            Step::Drop { note: n, .. } => if n == note {
                1nat
            } else {
                0
            },
            _ => 0,
        }
    }
}

/// Whether a step of the plan is about a line.
pub open spec fn spoken_for(plan: Seq<Step>, key: Seq<char>) -> bool {
    exists|i: int| 0 <= i < plan.len() && (#[trigger] plan[i]).touched().contains(key)
}

/// Whether a line is held.
pub open spec fn is_held(held: Seq<Known>, key: Seq<char>) -> bool {
    exists|i: int| 0 <= i < held.len() && (#[trigger] held[i]).key() == key
}

/// Whether a line is held that may be dropped.
pub open spec fn may_drop(held: Seq<Known>, policy: Policy, today: int, key: Seq<char>) -> bool {
    exists|i: int|
        0 <= i < held.len() && (#[trigger] held[i]).key() == key && held[i].droppable(policy, today)
}

/// Whether a line is held that says who the user is.
pub open spec fn is_profile(held: Seq<Known>, key: Seq<char>) -> bool {
    exists|i: int|
        0 <= i < held.len() && (#[trigger] held[i]).key() == key && held[i].seen.kind
            == Kind::Profile
}

/// How many lines a note holds.
pub open spec fn lines_in(held: Seq<Known>, note: Seq<char>) -> nat
    decreases held.len(),
{
    if held.len() == 0 {
        0
    } else {
        lines_in(held.drop_last(), note) + if held.last().seen.note == note {
            1nat
        } else {
            0
        }
    }
}

/// The most lines that a night may remove.
pub open spec fn ceiling(held: Seq<Known>, policy: Policy) -> nat {
    let share = held.len() * policy.most_share as nat / 100;
    if policy.most_drops < share {
        policy.most_drops as nat
    } else {
        share
    }
}

/// The most lines that may be dropped from a note.
pub open spec fn note_ceiling(held: Seq<Known>, policy: Policy, note: Seq<char>) -> nat {
    let lines = lines_in(held, note);
    if lines == 0 {
        0
    } else if lines * policy.most_of_a_note as nat / 100 < 1 {
        1
    } else {
        lines * policy.most_of_a_note as nat / 100
    }
}

/// Whether a step may be taken after those that are kept: it is about lines that
/// are held and that no other step is about; what it drops may be dropped, and
/// what it merges does not say who the user is; it fits what is left of the
/// night's budget, and what it drops fits what is left of the note's.
pub open spec fn allowed(
    step: Step,
    kept: Seq<Step>,
    held: Seq<Known>,
    policy: Policy,
    today: int,
) -> bool {
    &&& forall|i: int|
        0 <= i < step.touched().len() ==> is_held(held, #[trigger] step.touched()[i])
            && !spoken_for(kept, step.touched()[i])
    &&& match step {
        Step::Drop { key, .. } => may_drop(held, policy, today, key),
        Step::Merge { keys, .. } => forall|i: int|
            0 <= i < keys.len() ==> !is_profile(held, #[trigger] keys[i]),
        Step::Reclassify { .. } => true,
    }
    &&& cost_of(kept) + step.cost() <= ceiling(held, policy)
    &&& match step {
        Step::Drop { note, .. } => dropped_from(kept, note) < note_ceiling(held, policy, note),
        _ => true,
    }
}

/// What is kept of a plan, its steps taken in order.
pub open spec fn railed(
    plan: Seq<Step>,
    held: Seq<Known>,
    policy: Policy,
    today: int,
) -> Seq<Step>
    decreases plan.len(),
{
    if plan.len() == 0 {
        Seq::empty()
    } else {
        let before = railed(plan.drop_last(), held, policy, today);
        if allowed(plan.last(), before, held, policy, today) {
            before.push(plan.last())
        } else {
            before
        }
    }
}

/// What the night intends.
#[derive(Debug, Clone, PartialEq, Eq)]
pub struct Plan {
    pub operations: Vec<Operation>,
}

impl View for Plan {
    type V = Seq<Step>;

    open spec fn view(&self) -> Seq<Step> {
        steps(self.operations@)
    }
}

impl Default for Plan {
    fn default() -> (r: Self)
        ensures
            r@ == Seq::<Step>::empty(),
    {
        let r = Plan { operations: Vec::new() };
        assert(r@ =~= Seq::empty());
        r
    }
}

fn keys_of(held: &[Held]) -> (r: Vec<String>)
    ensures
        r.len() == held.len(),
        forall|i: int| 0 <= i < r.len() ==> (#[trigger] r[i])@ == held[i]@.key(),
{
    let mut r: Vec<String> = Vec::new();
    let mut i: usize = 0;
    while i < held.len()
        invariant
            0 <= i <= held.len(),
            r.len() == i,
            forall|j: int| 0 <= j < i ==> (#[trigger] r[j])@ == held[j]@.key(),
        decreases held.len() - i,
    {
        r.push(held[i].key());
        i = i + 1;
    }
    r
}

/// What is asked of the lines that are held, with their keys worked out.
struct Rails<'a> {
    held: &'a [Held],
    keys: Vec<String>,
    policy: Policy,
    now: Stamp,
}

impl<'a> Rails<'a> {
    spec fn wf(self) -> bool {
        &&& self.now.dated()
        &&& self.keys.len() == self.held@.len()
        &&& forall|i: int|
            0 <= i < self.keys.len() ==> (#[trigger] self.keys[i])@ == known(self.held@)[i].key()
    }

    fn holds(&self, key: &str) -> (r: bool)
        requires
            self.wf(),
        ensures
            r == is_held(known(self.held@), key@),
    {
        let ghost all = known(self.held@);
        let mut i: usize = 0;
        while i < self.keys.len()
            invariant
                0 <= i <= self.keys.len(),
                self.wf(),
                all == known(self.held@),
                forall|j: int| 0 <= j < i ==> (#[trigger] all[j]).key() != key@,
            decreases self.keys.len() - i,
        {
            assert(self.keys[i as int]@ == all[i as int].key());
            if text::same(self.keys[i].as_str(), key) {
                return true;
            }
            i = i + 1;
        }
        false
    }

    fn may_drop(&self, key: &str) -> (r: bool)
        requires
            self.wf(),
        ensures
            r == may_drop(known(self.held@), self.policy, self.now.day(), key@),
    {
        let ghost all = known(self.held@);
        let ghost today = self.now.day();
        let mut i: usize = 0;
        while i < self.keys.len()
            invariant
                0 <= i <= self.keys.len(),
                self.wf(),
                all == known(self.held@),
                today == self.now.day(),
                forall|j: int|
                    0 <= j < i ==> !((#[trigger] all[j]).key() == key@ && all[j].droppable(
                        self.policy,
                        today,
                    )),
            decreases self.keys.len() - i,
        {
            assert(self.keys[i as int]@ == all[i as int].key());
            if text::same(self.keys[i].as_str(), key) && self.held[i].is_droppable(
                &self.policy,
                self.now,
            ) {
                assert(all[i as int] == self.held@[i as int]@);
                return true;
            }
            assert(all[i as int] == self.held@[i as int]@);
            i = i + 1;
        }
        false
    }

    fn is_profile(&self, key: &str) -> (r: bool)
        requires
            self.wf(),
        ensures
            r == is_profile(known(self.held@), key@),
    {
        let ghost all = known(self.held@);
        let mut i: usize = 0;
        while i < self.keys.len()
            invariant
                0 <= i <= self.keys.len(),
                self.wf(),
                all == known(self.held@),
                forall|j: int|
                    0 <= j < i ==> !((#[trigger] all[j]).key() == key@ && all[j].seen.kind
                        == Kind::Profile),
            decreases self.keys.len() - i,
        {
            assert(self.keys[i as int]@ == all[i as int].key());
            assert(all[i as int] == self.held@[i as int]@);
            if self.held[i].observation.kind == Kind::Profile && text::same(
                self.keys[i].as_str(),
                key,
            ) {
                return true;
            }
            i = i + 1;
        }
        false
    }

    fn any_profile(&self, keys: &Vec<String>) -> (r: bool)
        requires
            self.wf(),
        ensures
            !r == forall|i: int|
                0 <= i < keys.len() ==> !is_profile(
                    known(self.held@),
                    #[trigger] text::texts(keys@)[i],
                ),
    {
        let ghost all = known(self.held@);
        let ghost those = text::texts(keys@);
        let mut k: usize = 0;
        while k < keys.len()
            invariant
                0 <= k <= keys.len(),
                self.wf(),
                all == known(self.held@),
                those == text::texts(keys@),
                forall|j: int| 0 <= j < k ==> !is_profile(all, #[trigger] those[j]),
            decreases keys.len() - k,
        {
            if self.is_profile(keys[k].as_str()) {
                assert(is_profile(all, those[k as int]));
                return true;
            }
            k = k + 1;
        }
        false
    }

    fn lines(&self, note: &str) -> (r: usize)
        ensures
            r == lines_in(known(self.held@), note@),
            r <= self.held@.len(),
    {
        let ghost all = known(self.held@);
        let mut n: usize = 0;
        let mut i: usize = 0;
        while i < self.held.len()
            invariant
                0 <= i <= self.held.len(),
                n <= i,
                all == known(self.held@),
                n == lines_in(all.take(i as int), note@),
            decreases self.held.len() - i,
        {
            assert(all.take(i + 1).drop_last() =~= all.take(i as int));
            assert(all[i as int] == self.held@[i as int]@);
            if text::same(self.held[i].observation.note.as_str(), note) {
                n = n + 1;
            }
            i = i + 1;
        }
        assert(all.take(all.len() as int) =~= all);
        n
    }

    fn ceiling(&self) -> (r: usize)
        ensures
            r == ceiling(known(self.held@), self.policy),
    {
        let n: usize = self.held.len();
        let p: u32 = self.policy.most_share;
        let share: u128 = share_of(n, p);
        if (self.policy.most_drops as u128) < share {
            self.policy.most_drops
        } else {
            share as usize
        }
    }

    /// Whether one more line may be dropped from a note.
    fn room_in(&self, note: &str, dropped: usize) -> (r: bool)
        ensures
            r == (dropped < note_ceiling(known(self.held@), self.policy, note@)),
    {
        let lines: usize = self.lines(note);
        if lines == 0 {
            return false;
        }
        let allowed: u128 = share_of(lines, self.policy.most_of_a_note);
        if allowed < 1 {
            dropped < 1
        } else {
            (dropped as u128) < allowed
        }
    }
}

fn share_of(n: usize, percent: u32) -> (r: u128)
    ensures
        r == n as nat * percent as nat / 100,
{
    assert(0 <= n * percent <= 0xffff_ffff_ffff_ffff * 0xffff_ffff) by (nonlinear_arith)
        requires
            0 <= n <= 0xffff_ffff_ffff_ffff,
            0 <= percent <= 0xffff_ffff,
    ;
    (n as u128) * (percent as u128) / 100
}

fn spoken(kept: &Vec<Operation>, key: &str) -> (r: bool)
    ensures
        r == spoken_for(steps(kept@), key@),
{
    let ghost all = steps(kept@);
    let mut i: usize = 0;
    while i < kept.len()
        invariant
            0 <= i <= kept.len(),
            all == steps(kept@),
            forall|j: int| 0 <= j < i ==> !(#[trigger] all[j]).touched().contains(key@),
        decreases kept.len() - i,
    {
        let touched = kept[i].touches();
        assert(all[i as int] == kept@[i as int]@);
        if any(&touched, key) {
            return true;
        }
        i = i + 1;
    }
    false
}

fn drops_from(kept: &Vec<Operation>, note: &str) -> (r: usize)
    ensures
        r == dropped_from(steps(kept@), note@),
{
    let ghost all = steps(kept@);
    let mut n: usize = 0;
    let mut i: usize = 0;
    while i < kept.len()
        invariant
            0 <= i <= kept.len(),
            n <= i,
            all == steps(kept@),
            n == dropped_from(all.take(i as int), note@),
        decreases kept.len() - i,
    {
        assert(all.take(i + 1).drop_last() =~= all.take(i as int));
        assert(all.take(i + 1).last() == kept@[i as int]@);
        if let Operation::Drop { note: other, .. } = &kept[i] {
            if text::same(other.as_str(), note) {
                n = n + 1;
            }
        }
        i = i + 1;
    }
    assert(all.take(all.len() as int) =~= all);
    n
}

fn is_allowed(operation: &Operation, kept: &Vec<Operation>, rails: &Rails<'_>, spent: usize) -> (r:
    bool)
    requires
        rails.wf(),
        spent == cost_of(steps(kept@)),
        spent <= ceiling(known(rails.held@), rails.policy),
    ensures
        r == allowed(
            operation@,
            steps(kept@),
            known(rails.held@),
            rails.policy,
            rails.now.day(),
        ),
{
    let ghost all = known(rails.held@);
    let ghost step = operation@;
    let ghost so_far = steps(kept@);
    let touched = operation.touches();
    let mut i: usize = 0;
    while i < touched.len()
        invariant
            0 <= i <= touched.len(),
            rails.wf(),
            all == known(rails.held@),
            step == operation@,
            so_far == steps(kept@),
            text::texts(touched@) == step.touched(),
            forall|j: int|
                0 <= j < i ==> is_held(all, #[trigger] step.touched()[j]) && !spoken_for(
                    so_far,
                    step.touched()[j],
                ),
        decreases touched.len() - i,
    {
        assert(text::texts(touched@)[i as int] == touched@[i as int]@);
        if !rails.holds(touched[i].as_str()) || spoken(kept, touched[i].as_str()) {
            assert(!(is_held(all, step.touched()[i as int]) && !spoken_for(
                so_far,
                step.touched()[i as int],
            )));
            return false;
        }
        i = i + 1;
    }
    match operation {
        Operation::Drop { key, note, .. } => {
            if !rails.may_drop(key.as_str()) {
                return false;
            }
            let dropped: usize = drops_from(kept, note.as_str());
            if !rails.room_in(note.as_str(), dropped) {
                return false;
            }
        },
        Operation::Merge { keys, .. } => {
            if rails.any_profile(keys) {
                return false;
            }
        },
        Operation::Reclassify { .. } => {},
    }
    operation.drops() <= rails.ceiling() - spent
}

impl Plan {
    pub fn is_empty(&self) -> (r: bool)
        ensures
            r == (self@ == Seq::<Step>::empty()),
    {
        let r = self.operations.len() == 0;
        proof {
            if r {
                assert(self@ =~= Seq::empty());
            } else {
                assert(self@.len() > 0);
            }
        }
        r
    }

    /// How many lines it would remove in total.
    pub fn drops(&self) -> (r: usize)
        requires
            cost_of(self@) <= usize::MAX,
        ensures
            r == cost_of(self@),
    {
        let ghost all = self@;
        let mut n: usize = 0;
        let mut i: usize = 0;
        while i < self.operations.len()
            invariant
                0 <= i <= self.operations.len(),
                all == self@,
                cost_of(all) <= usize::MAX,
                n == cost_of(all.take(i as int)),
            decreases self.operations.len() - i,
        {
            proof {
                assert(all.take(i + 1).drop_last() =~= all.take(i as int));
                assert(all.take(i + 1).last() == self.operations@[i as int]@);
                lemma_cost_grows(all, i + 1);
            }
            n = n + self.operations[i].drops();
            i = i + 1;
        }
        assert(all.take(all.len() as int) =~= all);
        n
    }

    /// Hold it to the rails, and to one step per observation. Steps are taken in
    /// order, and one that would touch a line already spoken for is discarded.
    pub fn bounded(self, held: &[Held], policy: &Policy, now: Stamp) -> (r: Plan)
        requires
            now.dated(),
        ensures
            r@ == railed(self@, known(held@), *policy, now.day()),
    {
        let ghost all = self@;
        let ghost lines = known(held@);
        let ghost today = now.day();
        let rails = Rails { held, keys: keys_of(held), policy: *policy, now };
        assert(rails.wf()) by {
            assert forall|i: int| 0 <= i < rails.keys.len() implies (#[trigger] rails.keys[i])@
                == known(rails.held@)[i].key() by {
                assert(known(rails.held@)[i] == held@[i]@);
            }
        }
        let mut kept: Vec<Operation> = Vec::new();
        let mut spent: usize = 0;
        let mut i: usize = 0;
        assert(steps(kept@) =~= Seq::empty());
        while i < self.operations.len()
            invariant
                0 <= i <= self.operations.len(),
                rails.wf(),
                rails.held@ == held@,
                rails.policy == *policy,
                rails.now.day() == today,
                all == self@,
                lines == known(held@),
                steps(kept@) == railed(all.take(i as int), lines, *policy, today),
                spent == cost_of(steps(kept@)),
                spent <= ceiling(lines, *policy),
            decreases self.operations.len() - i,
        {
            let ghost before = steps(kept@);
            proof {
                assert(all.take(i + 1).drop_last() =~= all.take(i as int));
                assert(all.take(i + 1).last() == self.operations@[i as int]@);
            }
            if is_allowed(&self.operations[i], &kept, &rails, spent) {
                spent = spent + self.operations[i].drops();
                let one = self.operations[i].copy();
                kept.push(one);
                proof {
                    assert(steps(kept@) =~= before.push(one@));
                    assert(before.push(one@).drop_last() =~= before);
                }
            }
            i = i + 1;
        }
        assert(all.take(all.len() as int) =~= all);
        Plan { operations: kept }
    }
}

proof fn lemma_cost_grows(plan: Seq<Step>, i: int)
    requires
        0 <= i <= plan.len(),
    ensures
        cost_of(plan.take(i)) <= cost_of(plan),
    decreases plan.len(),
{
    if i < plan.len() {
        lemma_cost_grows(plan.drop_last(), i);
        assert(plan.drop_last().take(i) =~= plan.take(i));
    } else {
        assert(plan.take(i) =~= plan);
    }
}

/// What holds of everything that the rails keep: whatever was proposed, the
/// night stays inside its budget and each note inside its own; what is dropped
/// is held, and may be dropped; what is merged does not say who the user is; and
/// no line is touched twice.
pub proof fn the_rails_hold(plan: Seq<Step>, held: Seq<Known>, policy: Policy, today: int)
    ensures
        ({
            let kept = railed(plan, held, policy, today);
            &&& cost_of(kept) <= policy.most_drops
            &&& cost_of(kept) * 100 <= held.len() * policy.most_share
            &&& forall|note: Seq<char>|
                #[trigger] dropped_from(kept, note) <= note_ceiling(held, policy, note)
            &&& forall|i: int|
                0 <= i < kept.len() ==> plan.contains(#[trigger] kept[i]) && match kept[i] {
                    Step::Drop { key, .. } => may_drop(held, policy, today, key),
                    Step::Merge { keys, .. } => forall|j: int|
                        0 <= j < keys.len() ==> is_held(held, #[trigger] keys[j]) && !is_profile(
                            held,
                            keys[j],
                        ),
                    Step::Reclassify { key, .. } => is_held(held, key),
                }
            &&& forall|i: int, j: int, key: Seq<char>|
                0 <= i < j < kept.len() && #[trigger] kept[i].touched().contains(key)
                    ==> !#[trigger] kept[j].touched().contains(key)
        }),
    decreases plan.len(),
{
    let kept = railed(plan, held, policy, today);
    if plan.len() > 0 {
        let rest = plan.drop_last();
        the_rails_hold(rest, held, policy, today);
        let before = railed(rest, held, policy, today);
        let step = plan.last();
        assert forall|s: Step| #[trigger] rest.contains(s) implies plan.contains(s) by {
            let i = choose|i: int| 0 <= i < rest.len() && rest[i] == s;
            assert(plan[i] == s);
        }
        if allowed(step, before, held, policy, today) {
            assert(kept == before.push(step));
            assert(kept.drop_last() =~= before);
            assert(kept.last() == step);
            assert(plan[plan.len() - 1] == step);
            assert forall|note: Seq<char>| #[trigger] dropped_from(kept, note) <= note_ceiling(
                held,
                policy,
                note,
            ) by {
                assert(dropped_from(before, note) <= note_ceiling(held, policy, note));
            }
            assert forall|i: int| 0 <= i < kept.len() implies plan.contains(#[trigger] kept[i])
                && match kept[i] {
                Step::Drop { key, .. } => may_drop(held, policy, today, key),
                Step::Merge { keys, .. } => forall|j: int|
                    0 <= j < keys.len() ==> is_held(held, #[trigger] keys[j]) && !is_profile(
                        held,
                        keys[j],
                    ),
                Step::Reclassify { key, .. } => is_held(held, key),
            } by {
                if i < before.len() {
                    assert(kept[i] == before[i]);
                } else {
                    match step {
                        Step::Merge { keys, .. } => {
                            assert forall|j: int| 0 <= j < keys.len() implies is_held(
                                held,
                                #[trigger] keys[j],
                            ) && !is_profile(held, keys[j]) by {
                                assert(step.touched()[j] == keys[j]);
                            }
                        },
                        Step::Reclassify { key, .. } => {
                            assert(step.touched()[0] == key);
                        },
                        _ => {},
                    }
                }
            }
            assert forall|i: int, j: int, key: Seq<char>|
                0 <= i < j < kept.len() && #[trigger] kept[i].touched().contains(
                    key,
                ) implies !#[trigger] kept[j].touched().contains(key) by {
                assert(kept[i] == before[i]);
                if j < before.len() {
                    assert(kept[j] == before[j]);
                } else if step.touched().contains(key) {
                    let n = choose|n: int|
                        0 <= n < step.touched().len() && step.touched()[n] == key;
                    assert(!spoken_for(before, step.touched()[n]));
                    assert(before[i].touched().contains(key));
                }
            }
        }
    } else {
        assert forall|note: Seq<char>| #[trigger] dropped_from(kept, note) <= note_ceiling(
            held,
            policy,
            note,
        ) by {}
    }
}

/// Where no note may lose more than half of its lines, as is the rule, no note
/// with more than one line is emptied by what is dropped.
pub proof fn no_subject_is_emptied(
    plan: Seq<Step>,
    held: Seq<Known>,
    policy: Policy,
    today: int,
    note: Seq<char>,
)
    requires
        policy.most_of_a_note <= 50,
        lines_in(held, note) >= 2,
    ensures
        dropped_from(railed(plan, held, policy, today), note) < lines_in(held, note),
{
    the_rails_hold(plan, held, policy, today);
    let lines = lines_in(held, note);
    assert(lines * policy.most_of_a_note <= lines * 50) by (nonlinear_arith)
        requires
            policy.most_of_a_note <= 50,
            lines >= 0,
    ;
    assert(dropped_from(railed(plan, held, policy, today), note) <= note_ceiling(
        held,
        policy,
        note,
    ));
}

/// A reason goes by its name, and by what else the model may call it.
pub proof fn reasons_read_back(why: Why)
    ensures
        Why::said(
            match why {
                Why::Stale => "stale"@,
                Why::Duplicate => "duplicate"@,
                Why::Superseded => "superseded"@,
                Why::Trivial => "trivial"@,
            },
        ) == Some(why),
        Why::said("old"@) == Some(Why::Stale),
        Why::said("unused"@) == Some(Why::Stale),
        Why::said("repeat"@) == Some(Why::Duplicate),
        Why::said("outdated"@) == Some(Why::Superseded),
        Why::said("replaced"@) == Some(Why::Superseded),
        Why::said("noise"@) == Some(Why::Trivial),
{
    reveal_strlit("stale");
    reveal_strlit("old");
    reveal_strlit("unused");
    reveal_strlit("duplicate");
    reveal_strlit("repeat");
    reveal_strlit("superseded");
    reveal_strlit("outdated");
    reveal_strlit("replaced");
    reveal_strlit("trivial");
    reveal_strlit("noise");
    lemma_small_word("stale"@);
    lemma_small_word("old"@);
    lemma_small_word("unused"@);
    lemma_small_word("duplicate"@);
    lemma_small_word("repeat"@);
    lemma_small_word("superseded"@);
    lemma_small_word("outdated"@);
    lemma_small_word("replaced"@);
    lemma_small_word("trivial"@);
    lemma_small_word("noise"@);
    assert("superseded"@[0] == 's' && "outdated"@[0] == 'o' && "replaced"@[0] == 'r');
    assert("stale"@[0] == 's' && "stale"@[1] == 't' && "superseded"@[1] == 'u');
    assert("repeat"@[2] == 'p' && "replaced"@[2] == 'p' && "repeat"@[3] == 'e' && "replaced"@[3]
        == 'l');
    assert("trivial"@[0] == 't' && "noise"@[0] == 'n' && "duplicate"@[0] == 'd' && "unused"@[0]
        == 'u' && "old"@[1] == 'l' && "outdated"@[1] == 'u');
}

proof fn lemma_small_word(w: Seq<char>)
    requires
        w.len() > 0,
        forall|i: int| 0 <= i < w.len() ==> 'a' <= #[trigger] w[i] && w[i] <= 'z',
    ensures
        text::lowercase(text::trim(w)) == w,
{
    text::lemma_trim_unchanged(w);
    assert(text::lowercase(w) =~= w);
}

/// Under the usual rails nothing is dropped that says who the user is, that is not yet
/// thirty days old, or that was wanted in the last sixty; everything else may be.
pub proof fn the_usual_rails_protect_what_is_young_or_wanted(
    item: Known,
    policy: Policy,
    today: int,
)
    requires
        is_usual(policy),
    ensures
        item.seen.kind == Kind::Profile ==> !item.droppable(policy, today),
        item.seen.saved is Some && today - item.seen.saved->0 < 30 ==> !item.droppable(
            policy,
            today,
        ),
        item.last_used is Some && today - item.last_used->0 < 60 ==> !item.droppable(policy, today),
        item.seen.kind != Kind::Profile && (item.seen.saved is None || today - item.seen.saved->0
            >= 30) && (item.last_used is None || today - item.last_used->0 >= 60)
            ==> item.droppable(policy, today),
{
}

/// What the rails allow goes through: a plan of one step on lines that are held is kept as
/// it is where the step is no loss, or drops a line that may go and that there is room to
/// lose.
pub proof fn what_the_rails_allow_goes_through(
    step: Step,
    held: Seq<Known>,
    policy: Policy,
    today: int,
    i: int,
)
    requires
        0 <= i < held.len(),
        match step {
            Step::Drop { key, note, .. } => key == held[i].key() && note == held[i].seen.note
                && held[i].droppable(policy, today) && policy.most_drops >= 1 && held.len()
                * policy.most_share >= 100,
            Step::Reclassify { key, .. } => key == held[i].key(),
            Step::Merge { .. } => false,
        },
    ensures
        railed(seq![step], held, policy, today) == seq![step],
{
    let none = Seq::<Step>::empty();
    assert(seq![step].drop_last() =~= none);
    assert(railed(none, held, policy, today) =~= none);
    assert(is_held(held, held[i].key()));
    assert(step.touched() =~= seq![held[i].key()]);
    assert(seq![step].last() == step);
    if let Step::Drop { key, note, .. } = step {
        assert(may_drop(held, policy, today, key));
        lemma_line_counted(held, i);
        let share = held.len() * policy.most_share as nat;
        assert(share / 100 >= 1) by (nonlinear_arith)
            requires
                share >= 100,
        ;
        assert(step.cost() == 1);
        assert(cost_of(none) == 0);
        assert(dropped_from(none, note) == 0);
    } else {
        assert(step.cost() == 0);
        assert(cost_of(none) == 0);
    }
    assert(railed(seq![step], held, policy, today) =~= none.push(step));
}

proof fn lemma_line_counted(held: Seq<Known>, i: int)
    requires
        0 <= i < held.len(),
    ensures
        lines_in(held, held[i].seen.note) >= 1,
    decreases held.len(),
{
    if i < held.len() - 1 {
        lemma_line_counted(held.drop_last(), i);
    }
}

/// The rails take the steps in their order: what is kept of the first steps is kept
/// whatever follows them.
pub proof fn earlier_steps_come_first(
    plan: Seq<Step>,
    held: Seq<Known>,
    policy: Policy,
    today: int,
    n: int,
)
    requires
        0 <= n <= plan.len(),
    ensures
        railed(plan.take(n), held, policy, today).is_prefix_of(
            railed(plan, held, policy, today),
        ),
    decreases plan.len(),
{
    if n == plan.len() {
        assert(plan.take(n) =~= plan);
    } else {
        let front = plan.drop_last();
        earlier_steps_come_first(front, held, policy, today, n);
        assert(front.take(n) =~= plan.take(n));
    }
}

/// A step touches the lines it names: a drop and a merge remove them, and filing one anew
/// removes none.
pub proof fn a_step_removes_what_it_names(step: Step)
    ensures
        match step {
            Step::Drop { key, .. } => step.removed() == seq![key] && step.touched() == seq![key]
                && step.cost() == 1 && !step.lossless(),
            Step::Reclassify { key, .. } => step.removed().len() == 0 && step.touched()
                == seq![key] && step.cost() == 0 && step.lossless(),
            Step::Merge { into, keys, texts, .. } => {
                &&& step.removed() == keys
                &&& step.touched() == keys
                &&& step.lossless() ==> step.cost() == 0
                &&& !step.lossless() && keys.len() > 0 ==> step.cost() == keys.len() - 1
                &&& step.lossless() <==> forall|i: int|
                    0 <= i < texts.len() ==> normal(#[trigger] texts[i]) == normal(into)
            },
        },
{
}

} // verus!
