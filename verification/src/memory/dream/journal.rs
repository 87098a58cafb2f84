//! What the nights did.

use super::{Operation, Step, Why};
use crate::text;
use crate::time::Stamp;
use vstd::prelude::*;

verus! {

/// One sentence that is no longer in the vault, and where it was.
#[derive(Debug, Clone, PartialEq, Eq)]
pub struct Removed {
    pub note: String,
    pub subject: String,
    pub text: String,
    pub why: Why,
    /// The day.
    pub on: i64,
}

/// What one night did, and every sentence it removed.
#[derive(Debug, Clone, PartialEq, Eq)]
pub struct Applied {
    pub dropped: Vec<Removed>,
    pub merged: usize,
    pub reclassified: usize,
    /// Operations that could not be carried out, most often because a note had
    /// changed under the plan.
    pub failed: usize,
}

impl Default for Applied {
    fn default() -> (r: Self)
        ensures
            r.quiet(),
    {
        Applied { dropped: Vec::new(), merged: 0, reclassified: 0, failed: 0 }
    }
}

/// A count of something that was done, where there was any.
pub open spec fn count_part(
    count: nat,
    before: Seq<char>,
    one: Seq<char>,
    many: Seq<char>,
) -> Seq<Seq<char>> {
    if count == 0 {
        Seq::empty()
    } else {
        seq![
            before + text::decimal(count) + if count == 1 {
                one
            } else {
                many
            },
        ]
    }
}

fn push_count(out: &mut Vec<String>, count: usize, before: &str, one: &str, many: &str)
    ensures
        text::texts(final(out)@) == text::texts(old(out)@) + count_part(
            count as nat,
            before@,
            one@,
            many@,
        ),
{
    let ghost start = text::texts(out@);
    if count > 0 {
        let mut part = before.to_owned();
        text::push_decimal(&mut part, count as u128);
        if count == 1 {
            part.append(one);
        } else {
            part.append(many);
        }
        out.push(part);
    }
    assert(text::texts(out@) =~= start + count_part(count as nat, before@, one@, many@));
}

impl Applied {
    /// Whether nothing happened.
    pub open spec fn quiet(self) -> bool {
        self.dropped.len() == 0 && self.merged == 0 && self.reclassified == 0 && self.failed == 0
    }

    /// What happened, in words.
    pub open spec fn described(self) -> Seq<char> {
        text::join(
            count_part(self.dropped@.len(), "dropped "@, " observation"@, " observations"@)
                + count_part(self.merged as nat, "merged "@, ""@, ""@) + count_part(
                self.reclassified as nat,
                "refiled "@,
                ""@,
                ""@,
            ),
            ", "@,
        )
    }

    pub fn is_quiet(&self) -> (r: bool)
        ensures
            r == self.quiet(),
    {
        self.dropped.len() == 0 && self.merged == 0 && self.reclassified == 0 && self.failed == 0
    }

    /// How it reads in a notification, or `None` when nothing happened.
    pub fn describe(&self) -> (r: Option<String>)
        ensures
            r is None <==> self.quiet(),
            r is Some ==> (r->0)@ == self.described(),
    {
        if self.is_quiet() {
            return None;
        }
        let mut parts: Vec<String> = Vec::new();
        assert(text::texts(parts@) =~= Seq::empty());
        push_count(&mut parts, self.dropped.len(), "dropped ", " observation", " observations");
        assert(text::texts(parts@) =~= count_part(
            self.dropped@.len(),
            "dropped "@,
            " observation"@,
            " observations"@,
        ));
        push_count(&mut parts, self.merged, "merged ", "", "");
        push_count(&mut parts, self.reclassified, "refiled ", "", "");
        Some(text::joined(&parts, ", "))
    }

    /// One operation is over: it is counted, and what it dropped is kept.
    pub fn settle(&mut self, operation: &Operation, done: bool, now: Stamp)
        requires
            now.dated(),
            old(self).merged < usize::MAX,
            old(self).reclassified < usize::MAX,
            old(self).failed < usize::MAX,
        ensures
            final(self).failed == old(self).failed + if done {
                0int
            } else {
                1
            },
            final(self).merged == old(self).merged + if done && operation@ is Merge {
                1int
            } else {
                0
            },
            final(self).reclassified == old(self).reclassified + if done
                && operation@ is Reclassify {
                1int
            } else {
                0
            },
            done && operation@ is Drop ==> final(self).dropped.len() == old(self).dropped.len() + 1
                && final(self).dropped@.drop_last() == old(self).dropped@ && ({
                let last = final(self).dropped@.last();
                operation@ == (Step::Drop {
                    key: operation@->Drop_key,
                    note: last.note@,
                    subject: last.subject@,
                    text: last.text@,
                    why: last.why,
                }) && last.on == now.day()
            }),
            !(done && operation@ is Drop) ==> final(self).dropped@ == old(self).dropped@,
    {
        if !done {
            self.failed = self.failed + 1;
            return;
        }
        match operation {
            Operation::Drop { note, subject, text, why, .. } => {
                self.dropped.push(
                    Removed {
                        note: note.as_str().to_owned(),
                        subject: subject.as_str().to_owned(),
                        text: text.as_str().to_owned(),
                        why: *why,
                        on: now.date(),
                    },
                );
                assert(self.dropped@.drop_last() =~= old(self).dropped@);
            },
            Operation::Merge { .. } => {
                self.merged = self.merged + 1;
            },
            Operation::Reclassify { .. } => {
                self.reclassified = self.reclassified + 1;
            },
        }
    }
}

#[derive(Debug, Clone, PartialEq, Eq)]
pub struct Night {
    /// The day.
    pub on: i64,
    pub applied: Applied,
}

/// The last few nights, so that nothing that was removed is unrecoverable.
#[derive(Debug, Clone, PartialEq, Eq)]
pub struct Journal {
    pub nights: Vec<Night>,
}

/// How many nights are kept.
pub const NIGHTS: usize = 30;

impl Default for Journal {
    fn default() -> (r: Self)
        ensures
            r.nights.len() == 0,
    {
        Journal { nights: Vec::new() }
    }
}

/// The last of some nights.
pub open spec fn recent(nights: Seq<Night>) -> Seq<Night> {
    if nights.len() > NIGHTS {
        nights.skip(nights.len() - NIGHTS)
    } else {
        nights
    }
}

impl Journal {
    /// Writes a night down, unless nothing happened, and forgets those that are
    /// too long ago.
    pub fn record(&mut self, applied: Applied, now: Stamp)
        requires
            now.dated(),
        ensures
            applied.quiet() ==> final(self).nights@ == old(self).nights@,
            !applied.quiet() ==> final(self).nights@ == recent(
                old(self).nights@.push((Night { on: now.day() as i64, applied })),
            ),
            !applied.quiet() ==> final(self).nights.len() <= NIGHTS,
    {
        if applied.is_quiet() {
            return;
        }
        self.nights.push(Night { on: now.date(), applied });
        let ghost all = self.nights@;
        assert(all.skip(0) =~= all);
        let ghost mut gone: int = 0;
        while self.nights.len() > NIGHTS
            invariant
                0 <= gone <= all.len(),
                self.nights@ == all.skip(gone),
                gone > 0 ==> self.nights.len() >= NIGHTS,
            decreases self.nights.len(),
        {
            self.nights.remove(0);
            proof {
                assert(all.skip(gone).remove(0) =~= all.skip(gone + 1));
                gone = gone + 1;
            }
        }
    }
}

/// How a night reads says how many observations were dropped, how many were merged and how
/// many were refiled, whichever of these happened, in this order.
pub proof fn a_night_reads_as_what_was_done(night: Applied)
    ensures
        night.dropped.len() == 0 && night.merged > 0 && night.reclassified > 0
            ==> night.described() == "merged "@ + text::decimal(night.merged as nat) + ", refiled "@
            + text::decimal(night.reclassified as nat),
        night.dropped.len() == 1 && night.merged == 0 && night.reclassified == 0
            ==> night.described() == "dropped "@ + text::decimal(1) + " observation"@,
        night.dropped.len() > 1 && night.merged == 0 && night.reclassified == 0
            ==> night.described() == "dropped "@ + text::decimal(night.dropped@.len())
            + " observations"@,
        night.dropped.len() > 1 && night.merged > 0 && night.reclassified > 0
            ==> night.described() == "dropped "@ + text::decimal(night.dropped@.len())
            + " observations, merged "@ + text::decimal(night.merged as nat) + ", refiled "@
            + text::decimal(night.reclassified as nat),
{
    reveal_strlit("");
    reveal_strlit(", ");
    reveal_strlit("merged ");
    reveal_strlit("refiled ");
    reveal_strlit(", refiled ");
    reveal_strlit(" observations");
    reveal_strlit(" observations, merged ");
    let d = "dropped "@ + text::decimal(night.dropped@.len()) + if night.dropped.len() == 1 {
        " observation"@
    } else {
        " observations"@
    };
    let m = "merged "@ + text::decimal(night.merged as nat);
    let f = "refiled "@ + text::decimal(night.reclassified as nat);
    let parts = count_part(night.dropped@.len(), "dropped "@, " observation"@, " observations"@)
        + count_part(night.merged as nat, "merged "@, ""@, ""@) + count_part(
        night.reclassified as nat,
        "refiled "@,
        ""@,
        ""@,
    );
    assert(m + ""@ =~= m);
    assert(f + ""@ =~= f);
    if night.dropped.len() == 0 && night.merged > 0 && night.reclassified > 0 {
        assert(parts =~= seq![m, f]);
        assert(parts.drop_last() =~= seq![m]);
        assert(text::join(seq![m], ", "@) == m);
        assert(night.described() =~= m + ", "@ + f);
    } else if night.dropped.len() > 0 && night.merged == 0 && night.reclassified == 0 {
        assert(parts =~= seq![d]);
    } else if night.dropped.len() > 1 && night.merged > 0 && night.reclassified > 0 {
        assert(parts =~= seq![d, m, f]);
        assert(parts.drop_last() =~= seq![d, m]);
        assert(seq![d, m].drop_last() =~= seq![d]);
        assert(text::join(seq![d], ", "@) == d);
        assert(text::join(seq![d, m], ", "@) == d + ", "@ + m);
        assert(night.described() =~= d + ", "@ + m + ", "@ + f);
    }
}

} // verus!
