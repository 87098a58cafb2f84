//! A conversation that wakes up on a schedule.
//!
//! A heartbeat wakes an existing conversation with its whole context intact:
//! the standing prompt is submitted as an ordinary turn, and lands where it can
//! be read. The schedules are a short list of presets. The hard part is
//! [`Schedule::due`]: given the last run, the time now, and a machine that was
//! asleep in between, should this fire?
//!
//! A missed run is coalesced: only the most recent missed occurrence is ever a
//! candidate ([`Schedule::latest_due`]), so a fortnight away produces one run
//! and not fourteen. How stale is too stale is then the job's own choice, its
//! [`Recovery`].

use crate::text;
use crate::time::{
    at_local, is_workday, later, lemma_settled, located, present, settled, strftime, weekday,
    weekday_of, written, Clock, Moment, Weekday, DAY, LAST_DAY,
};
use vstd::prelude::*;
use vstd::slice::slice_subrange;

verus! {

/// How late a run may be and still count as merely late: twenty minutes, in
/// nanoseconds.
pub const GRACE: i128 = 1_200_000_000_000;

/// How late a run may be and still count as on time: two minutes.
pub const PROMPT: i128 = 120_000_000_000;

/// How many days are looked at for the next occurrence.
pub const AHEAD: usize = 11;

/// How many days are looked at for the newest occurrence. Eight rather than
/// seven: when today matches but its time of day is still ahead, the answer is
/// the same weekday a week ago.
pub const BEHIND: usize = 8;

/// When a conversation wakes.
#[derive(Debug, Clone, Copy, PartialEq, Eq, Structural)]
pub enum Schedule {
    /// Every `hours` hours, on the hour it first ran.
    Hours { hours: u32 },
    Daily { at: Clock },
    /// Monday to Friday.
    Weekdays { at: Clock },
    Weekly { day: Weekday, at: Clock },
}

/// Why a run is happening, which the prompt is allowed to know.
#[derive(Debug, Clone, Copy, PartialEq, Eq, Structural)]
pub enum Due {
    /// On time.
    Regular,
    /// Within the grace window but not on the minute.
    Late,
    /// The occurrence passed while nothing was running, and the job's
    /// [`Recovery`] says it is still worth doing.
    Recovered,
}

/// How late a missed occurrence may be and still be worth running.
#[derive(Debug, Clone, Copy, PartialEq, Eq, Structural)]
pub enum Recovery {
    /// Only if it is essentially on time: [`GRACE`], and no more.
    OnTime,
    /// Later the same calendar day still counts. Literally the same date rather
    /// than a window of hours, because that is what the label promises.
    SameDay,
    /// Whenever the machine is next on. For work that does not go stale.
    Whenever,
}

impl Default for Recovery {
    fn default() -> (r: Self)
        ensures
            r == Recovery::OnTime,
    {
        Recovery::OnTime
    }
}

impl Recovery {
    /// Whether an occurrence is still worth running.
    pub open spec fn permits(self, scheduled: Moment, now: Moment) -> bool {
        match self {
            Recovery::OnTime => now.instant() - scheduled.instant() <= GRACE,
            Recovery::SameDay => now.day() == scheduled.day(),
            Recovery::Whenever => true,
        }
    }

    /// Whether an occurrence at `scheduled` is still worth running at `now`.
    pub fn allows(&self, scheduled: Moment, now: Moment) -> (r: bool)
        requires
            scheduled.loose(),
            now.loose(),
        ensures
            r == self.permits(scheduled, now),
    {
        match self {
            Recovery::OnTime => now.since(&scheduled) <= GRACE,
            Recovery::SameDay => now.date() == scheduled.date(),
            Recovery::Whenever => true,
        }
    }

    /// How this reads in the editor.
    pub open spec fn label(self) -> Seq<char> {
        match self {
            Recovery::OnTime => "Only if on time"@,
            Recovery::SameDay => "Later the same day"@,
            Recovery::Whenever => "Whenever the computer is next on"@,
        }
    }

    /// How this reads in the editor.
    pub fn describe(&self) -> (r: &'static str)
        ensures
            r@ == self.label(),
    {
        match self {
            Recovery::OnTime => "Only if on time",
            Recovery::SameDay => "Later the same day",
            Recovery::Whenever => "Whenever the computer is next on",
        }
    }
}

/// A job that runs later the same day when it is not too late runs on the same
/// day or not at all; one that runs whenever it can never refuses. Whatever the
/// policy, an occurrence that is on time is run, unless midnight has come in
/// between.
pub proof fn policies_are_ordered(scheduled: Moment, now: Moment)
    ensures
        Recovery::Whenever.permits(scheduled, now),
        Recovery::OnTime.permits(scheduled, now) && now.day() == scheduled.day()
            ==> Recovery::SameDay.permits(scheduled, now),
{
}

/// The step of an hourly schedule, in hours: at least one, at most twenty-four.
pub open spec fn hour_step(hours: u32) -> int {
    if hours < 1 {
        1
    } else if hours > 24 {
        24
    } else {
        hours as int
    }
}

fn hours_of(hours: u32) -> (r: i64)
    ensures
        r == hour_step(hours),
        1 <= r <= 24,
{
    if hours < 1 {
        1
    } else if hours > 24 {
        24
    } else {
        hours as i64
    }
}

/// The first of some days, from the `i`th on, on which the schedule runs at a
/// time after `after`.
pub open spec fn first_after_on(
    schedule: Schedule,
    after: Moment,
    days: Seq<Moment>,
    i: int,
) -> Option<Moment>
    decreases days.len() - i,
{
    if i < 0 || i >= days.len() {
        None
    } else if days[i].instant() > after.instant() && schedule.runs_on(after.day() + i) {
        Some(days[i])
    } else {
        first_after_on(schedule, after, days, i + 1)
    }
}

/// The first of some days, going back from the `i`th, on which the schedule
/// runs at a time that is not after `now`.
pub open spec fn newest_on(schedule: Schedule, now: Moment, days: Seq<Moment>, i: int) -> Option<
    Moment,
>
    decreases days.len() - i,
{
    if i < 0 || i >= days.len() {
        None
    } else if days[i].instant() <= now.instant() && schedule.runs_on(now.day() - i) {
        Some(days[i])
    } else {
        newest_on(schedule, now, days, i + 1)
    }
}

impl Schedule {
    /// Whether the schedule runs on a date.
    pub open spec fn runs_on(self, day: int) -> bool {
        match self {
            Schedule::Hours { hours } => false,
            Schedule::Daily { at } => true,
            Schedule::Weekdays { at } => is_workday(weekday(day)),
            Schedule::Weekly { day: wanted, at } => weekday(day) == wanted,
        }
    }

    /// The second of the day at which the schedule runs.
    pub open spec fn second(self) -> int {
        match self {
            Schedule::Hours { hours } => 0,
            Schedule::Daily { at } => at.second(),
            Schedule::Weekdays { at } => at.second(),
            Schedule::Weekly { day, at } => at.second(),
        }
    }

    /// The next occurrence after `after`, where `days` holds the moments of the
    /// schedule's time of day on the date of `after` and on those that follow.
    pub open spec fn next_on(self, after: Moment, days: Seq<Moment>) -> Option<Moment> {
        first_after_on(self, after, days, 0)
    }

    /// The newest occurrence at or before `now`, where `days` holds the moments
    /// of the schedule's time of day on the date of `now` and on those before
    /// it, going back.
    pub open spec fn newest_by(self, now: Moment, days: Seq<Moment>) -> Option<Moment> {
        newest_on(self, now, days, 0)
    }

    /// The newest occurrence at or before `now` that `last` has not covered.
    pub open spec fn latest_on(self, last: Moment, now: Moment, days: Seq<Moment>) -> Option<
        Moment,
    > {
        match self.newest_by(now, days) {
            Some(m) => if m.instant() > last.instant() {
                Some(m)
            } else {
                None
            },
            None => None,
        }
    }

    fn runs(&self, day: i64) -> (r: bool)
        requires
            -LAST_DAY - 100 <= day <= LAST_DAY + 100,
        ensures
            r == self.runs_on(day as int),
    {
        match self {
            Schedule::Hours { hours: _ } => false,
            Schedule::Daily { at: _ } => true,
            Schedule::Weekdays { at: _ } => {
                let d = weekday_of(day);
                d != Weekday::Sat && d != Weekday::Sun
            },
            Schedule::Weekly { day: wanted, at: _ } => weekday_of(day) == *wanted,
        }
    }

    fn clock(&self) -> (r: Option<Clock>)
        ensures
            r is None <==> self is Hours,
            r is Some ==> (r->0).second() == self.second(),
    {
        match self {
            Schedule::Hours { hours: _ } => None,
            Schedule::Daily { at } => Some(*at),
            Schedule::Weekdays { at } => Some(*at),
            Schedule::Weekly { day: _, at } => Some(*at),
        }
    }

    /// The next occurrence, given the moments of the schedule's time of day on
    /// the date of `after` and on those that follow.
    pub fn next_among(&self, after: Moment, days: &Vec<Moment>) -> (r: Option<Moment>)
        requires
            after.wf(),
            days.len() <= AHEAD,
            forall|i: int| 0 <= i < days.len() ==> (#[trigger] days[i]).nanos < 1_000_000_000,
        ensures
            r == self.next_on(after, days@),
            r is Some ==> (r->0).instant() > after.instant(),
    {
        let first = after.date();
        let mut i: usize = 0;
        while i < days.len()
            invariant
                0 <= i <= days.len() <= AHEAD,
                after.wf(),
                first == after.day(),
                forall|j: int| 0 <= j < days.len() ==> (#[trigger] days[j]).nanos < 1_000_000_000,
                self.next_on(after, days@) == first_after_on(*self, after, days@, i as int),
            decreases days.len() - i,
        {
            let day = days[i];
            if after.before(&day) && self.runs(first + i as i64) {
                return Some(day);
            }
            i = i + 1;
        }
        None
    }

    /// The newest occurrence that `last` has not covered, given the moments of
    /// the schedule's time of day on the date of `now` and on those before it.
    pub fn latest_among(&self, last: Moment, now: Moment, days: &Vec<Moment>) -> (r: Option<Moment>)
        requires
            last.wf(),
            now.wf(),
            days.len() <= BEHIND,
            forall|i: int| 0 <= i < days.len() ==> (#[trigger] days[i]).loose(),
        ensures
            r == self.latest_on(last, now, days@),
            r is Some ==> (r->0).loose() && last.instant() < (r->0).instant() <= now.instant(),
    {
        let newest = self.newest_among(now, days);
        match newest {
            Some(m) => if last.before(&m) {
                Some(m)
            } else {
                None
            },
            None => None,
        }
    }

    fn newest_among(&self, now: Moment, days: &Vec<Moment>) -> (r: Option<Moment>)
        requires
            now.wf(),
            days.len() <= BEHIND,
            forall|i: int| 0 <= i < days.len() ==> (#[trigger] days[i]).loose(),
        ensures
            r == self.newest_by(now, days@),
            r is Some ==> (r->0).loose() && (r->0).instant() <= now.instant(),
    {
        let first = now.date();
        let mut i: usize = 0;
        while i < days.len()
            invariant
                0 <= i <= days.len() <= BEHIND,
                now.wf(),
                first == now.day(),
                forall|j: int| 0 <= j < days.len() ==> (#[trigger] days[j]).loose(),
                self.newest_by(now, days@) == newest_on(*self, now, days@, i as int),
            decreases days.len() - i,
        {
            let day = days[i];
            if !now.before(&day) && self.runs(first - i as i64) {
                return Some(day);
            }
            i = i + 1;
        }
        None
    }
}

/// Moments of a time of day on the dates from `first` on, or going back from
/// it: what the local clock has for each, or the present where it has nothing.
pub open spec fn are_days(
    days: Seq<Moment>,
    first: int,
    back: bool,
    second: int,
    present: Moment,
) -> bool {
    forall|i: int|
        0 <= i < days.len() ==> {
            let day = if back {
                first - i
            } else {
                first + i
            };
            located(day, second, present, #[trigger] days[i])
        }
}

fn days_of(first: i64, count: usize, back: bool, at: Clock) -> (r: (Vec<Moment>, Moment))
    requires
        -LAST_DAY <= first <= LAST_DAY,
        count <= 20,
    ensures
        r.0.len() == count,
        are_days(r.0@, first as int, back, at.second(), r.1),
        forall|i: int| 0 <= i < r.0.len() ==> (#[trigger] r.0[i]).loose(),
{
    let fallback = present();
    let second = at.seconds();
    let mut days: Vec<Moment> = Vec::new();
    let mut i: usize = 0;
    while i < count
        invariant
            0 <= i <= count <= 20,
            -LAST_DAY <= first <= LAST_DAY,
            fallback.loose(),
            days.len() == i,
            0 <= at.second() < DAY,
            are_days(days@, first as int, back, at.second(), fallback),
            forall|j: int| 0 <= j < days.len() ==> (#[trigger] days[j]).loose(),
        decreases count - i,
    {
        let day: i64 = if back {
            first - i as i64
        } else {
            first + i as i64
        };
        let m = at_local(day, at, fallback);
        proof {
            if settled(day as int, at.second(), m) {
                lemma_settled(day as int, at.second(), m);
            }
        }
        days.push(m);
        i = i + 1;
    }
    (days, fallback)
}

/// What the next occurrence after `after` is, whatever the local clock says of
/// the days that are looked at.
pub open spec fn is_next(
    schedule: Schedule,
    after: Moment,
    days: Seq<Moment>,
    present: Moment,
    r: Moment,
) -> bool {
    &&& days.len() == AHEAD
    &&& are_days(days, after.day(), false, schedule.second(), present)
    &&& match schedule.next_on(after, days) {
        Some(m) => r == m,
        None => r.instant() == after.instant() + DAY * 1_000_000_000,
    }
}

/// What the newest occurrence is that `last` has not covered, whatever the
/// local clock says of the days that are looked at.
pub open spec fn is_latest(
    schedule: Schedule,
    last: Moment,
    now: Moment,
    days: Seq<Moment>,
    present: Moment,
    r: Option<Moment>,
) -> bool {
    &&& days.len() == BEHIND
    &&& are_days(days, now.day(), true, schedule.second(), present)
    &&& r == schedule.latest_on(last, now, days)
}

fn gap_seconds(steps: i128, step: i128, gap: Ghost<int>) -> (r: i128)
    requires
        1 <= steps,
        1 <= step <= 24,
        steps * (step * 3_600_000_000_000) <= gap@,
        gap@ < 0x1_0000_0000_0000_0000_0000_0000,
    ensures
        r == steps * step * 3600,
{
    assert(steps * step * 3600 <= gap@) by (nonlinear_arith)
        requires
            1 <= steps,
            1 <= step,
            steps * (step * 3_600_000_000_000) <= gap@,
    ;
    assert(0 <= steps * step <= steps * step * 3600) by (nonlinear_arith)
        requires
            1 <= steps,
            1 <= step,
    ;
    steps * step * 3600
}

/// The newest step of an hourly schedule that is not after `now`: the number of
/// whole steps since `last`.
pub open spec fn steps_since(hours: u32, last: Moment, now: Moment) -> int {
    (now.instant() - last.instant()) / (hour_step(hours) * 3_600_000_000_000)
}

impl Schedule {
    /// The next time this fires, strictly after `after`.
    ///
    /// Local time throughout, because "7am" means the user's 7am. If none of
    /// the days looked at has an occurrence, which takes a clock on which times
    /// of day do not exist, it is a day later.
    pub fn next_after(&self, after: Moment) -> (r: Moment)
        requires
            after.wf(),
        ensures
            match self {
                Schedule::Hours { hours } => r.instant() == after.instant() + hour_step(*hours)
                    * 3_600_000_000_000,
                _ => exists|days: Seq<Moment>, present: Moment|
                    #[trigger] is_next(*self, after, days, present, r),
            },
            r.instant() > after.instant(),
    {
        match self.clock() {
            Some(at) => {
                let (days, fallback) = days_of(after.date(), AHEAD, false, at);
                let r = match self.next_among(after, &days) {
                    Some(m) => m,
                    None => later(after, DAY),
                };
                assert(is_next(*self, after, days@, fallback, r));
                r
            },
            None => {
                if let Schedule::Hours { hours } = self {
                    let step = hours_of(*hours);
                    later(after, step * 3600)
                } else {
                    after
                }
            },
        }
    }

    /// The most recent occurrence at or before `now` that `last` has not
    /// already covered.
    ///
    /// However many firings were missed, only the newest is ever a candidate.
    /// `None` when nothing has come round since `last`.
    pub fn latest_due(&self, last: Moment, now: Moment) -> (r: Option<Moment>)
        requires
            last.wf(),
            now.wf(),
        ensures
            r is Some ==> (r->0).loose() && last.instant() < (r->0).instant() <= now.instant(),
            match self {
                Schedule::Hours { hours } => {
                    let steps = steps_since(*hours, last, now);
                    &&& r is Some <==> steps >= 1
                    &&& r is Some ==> (r->0).instant() == last.instant() + steps * hour_step(
                        *hours,
                    ) * 3_600_000_000_000
                },
                _ => exists|days: Seq<Moment>, present: Moment|
                    #[trigger] is_latest(*self, last, now, days, present, r),
            },
    {
        match self.clock() {
            Some(at) => {
                let (days, fallback) = days_of(now.date(), BEHIND, true, at);
                let r = self.latest_among(last, now, &days);
                assert(is_latest(*self, last, now, days@, fallback, r));
                r
            },
            None => {
                if let Schedule::Hours { hours } = self {
                    proof {
                        if steps_since(*hours, last, now) >= 1 {
                            hourly_steps_are_the_newest(*hours, last, now);
                            let steps = steps_since(*hours, last, now);
                            let step = hour_step(*hours);
                            assert(steps * step * 3_600_000_000_000 == steps * (step
                                * 3_600_000_000_000)) by (nonlinear_arith);
                        }
                    }
                    self.latest_step(*hours, last, now)
                } else {
                    None
                }
            },
        }
    }

    /// Relative to the last run rather than to the clock: the largest whole
    /// number of steps that still fits before `now`.
    fn latest_step(&self, hours: u32, last: Moment, now: Moment) -> (r: Option<Moment>)
        requires
            last.wf(),
            now.wf(),
        ensures
            r is Some ==> (r->0).loose(),
            r is Some <==> steps_since(hours, last, now) >= 1,
            r is Some ==> (r->0).instant() == last.instant() + steps_since(hours, last, now)
                * hour_step(hours) * 3_600_000_000_000,
    {
        let step = hours_of(hours);
        let gap: i128 = now.since(&last);
        let unit: i128 = step as i128 * 3_600_000_000_000;
        if gap < unit {
            assert(steps_since(hours, last, now) < 1) by (nonlinear_arith)
                requires
                    gap < unit,
                    unit > 0,
                    steps_since(hours, last, now) == gap as int / unit as int,
            ;
            return None;
        }
        let steps: i128 = gap / unit;
        assert(1 <= steps && steps * unit <= gap) by (nonlinear_arith)
            requires
                gap >= unit,
                unit > 0,
                steps == gap as int / unit as int,
        ;
        assert(steps <= gap) by (nonlinear_arith)
            requires
                steps * unit <= gap,
                unit >= 1,
                steps >= 1,
        ;
        let seconds: i128 = gap_seconds(steps, step as i128, Ghost(gap as int));
        assert(steps * step * 3_600_000_000_000 == seconds * 1_000_000_000) by (nonlinear_arith)
            requires
                seconds == steps * step * 3600,
        ;
        assert(steps * unit == steps * step * 3_600_000_000_000) by (nonlinear_arith)
            requires
                unit == step * 3_600_000_000_000,
        ;
        assert(last.seconds + seconds <= now.seconds + 1);
        let r = crate::time::moment_at((last.seconds as i128 + seconds) as i64, last.nanos);
        Some(r)
    }

    /// Whether to run, why, and which occurrence it is for, given the newest
    /// occurrence that has not been run.
    pub open spec fn verdict(
        scheduled: Option<Moment>,
        now: Moment,
        recovery: Recovery,
    ) -> Option<(Due, Moment)> {
        match scheduled {
            Some(m) => {
                let behind = now.instant() - m.instant();
                if !recovery.permits(m, now) {
                    None
                } else if behind < PROMPT {
                    Some((Due::Regular, m))
                } else if behind <= GRACE {
                    Some((Due::Late, m))
                } else {
                    Some((Due::Recovered, m))
                }
            },
            None => None,
        }
    }

    /// Whether to run now, why, and which occurrence it is for, given the
    /// newest occurrence that has not been run.
    pub fn judge(scheduled: Option<Moment>, now: Moment, recovery: Recovery) -> (r: Option<
        (Due, Moment),
    >)
        requires
            now.wf(),
            scheduled is Some ==> (scheduled->0).loose(),
        ensures
            r == Self::verdict(scheduled, now, recovery),
    {
        match scheduled {
            Some(m) => {
                if !recovery.allows(m, now) {
                    return None;
                }
                let behind: i128 = now.since(&m);
                let why = if behind < PROMPT {
                    Due::Regular
                } else if behind <= GRACE {
                    Due::Late
                } else {
                    Due::Recovered
                };
                Some((why, m))
            },
            None => None,
        }
    }
}

/// What running now comes to, given the newest occurrence that has not been
/// run, for some answer of the local clock.
pub open spec fn is_due(
    schedule: Schedule,
    last: Moment,
    now: Moment,
    recovery: Recovery,
    scheduled: Option<Moment>,
    r: Option<(Due, Moment)>,
) -> bool {
    &&& r == Schedule::verdict(scheduled, now, recovery)
    &&& match schedule {
        Schedule::Hours { hours } => {
            let steps = steps_since(hours, last, now);
            &&& scheduled is Some <==> steps >= 1
            &&& scheduled is Some ==> (scheduled->0).instant() == last.instant() + steps
                * hour_step(hours) * 3_600_000_000_000
        },
        _ => exists|days: Seq<Moment>, present: Moment|
            #[trigger] is_latest(schedule, last, now, days, present, scheduled),
    }
}

impl Schedule {
    /// Whether to run now, why, and which occurrence it is for.
    ///
    /// `last` is when this last woke, `None` if it never has: the first
    /// occurrence is then scheduled from now, so that setting up a 7am daily at
    /// 9am does not fire for a 7am that was already gone.
    pub fn due(&self, last: Option<Moment>, now: Moment, recovery: Recovery) -> (r: Option<
        (Due, Moment),
    >)
        requires
            now.wf(),
            last is Some ==> (last->0).wf(),
        ensures
            last is None ==> r is None,
            r is Some ==> (r->0).1.loose() && (last->0).instant() < (r->0).1.instant()
                <= now.instant(),
            last is Some ==> exists|scheduled: Option<Moment>|
                #[trigger] is_due(*self, last->0, now, recovery, scheduled, r),
    {
        match last {
            Some(before) => {
                let scheduled = self.latest_due(before, now);
                let r = Schedule::judge(scheduled, now, recovery);
                assert(is_due(*self, before, now, recovery, scheduled, r));
                r
            },
            None => None,
        }
    }

    /// The first run after a schedule is set, so that `due` has somewhere to
    /// start.
    pub fn first_after(&self, set_up: Moment) -> (r: Moment)
        requires
            set_up.wf(),
        ensures
            match self {
                Schedule::Hours { hours } => r.instant() == set_up.instant() + hour_step(*hours)
                    * 3_600_000_000_000,
                _ => exists|days: Seq<Moment>, present: Moment|
                    #[trigger] is_next(*self, set_up, days, present, r),
            },
            r.instant() > set_up.instant(),
    {
        self.next_after(set_up)
    }
}

// ---------------------------------------------------------------------------
// What holds of every schedule
// ---------------------------------------------------------------------------

/// The dates that laws speak of: those that are looked at from any moment, and
/// some more on both sides.
pub open spec fn in_reach(day: int) -> bool {
    -LAST_DAY - 100 <= day <= LAST_DAY + 100
}

/// Whether the moments that a clock has for a time of day stand in order: those
/// of later dates are later, and around `m` those of the dates before its own are
/// not after it and those of the dates behind its own are.
pub open spec fn in_step(at: spec_fn(int) -> Moment, m: Moment) -> bool {
    &&& nearly_in_step(at, m)
    &&& forall|d: int| in_reach(d) && d > m.day() ==> (#[trigger] at(d)).instant() > m.instant()
}

/// The same, but for the date right behind that of `m`, whose moment may lie on
/// either side of `m`: so it is where the clock is put back over midnight.
pub open spec fn nearly_in_step(at: spec_fn(int) -> Moment, m: Moment) -> bool {
    &&& forall|d: int, e: int|
        in_reach(d) && in_reach(e) && d < e ==> (#[trigger] at(d)).instant() < (#[trigger] at(
            e,
        )).instant()
    &&& forall|d: int|
        in_reach(d) && d < m.day() ==> (#[trigger] at(d)).instant() <= m.instant()
    &&& forall|d: int|
        in_reach(d) && d > m.day() + 1 ==> (#[trigger] at(d)).instant() > m.instant()
}

/// The moments of a time of day from a date on.
pub open spec fn days_ahead(at: spec_fn(int) -> Moment, first: int) -> Seq<Moment> {
    Seq::new(AHEAD as nat, |i: int| at(first + i))
}

/// The moments of a time of day going back from a date.
pub open spec fn days_behind(at: spec_fn(int) -> Moment, first: int) -> Seq<Moment> {
    Seq::new(BEHIND as nat, |i: int| at(first - i))
}

/// The moment of a time of day on a date, on a clock that is `offset` seconds
/// ahead of UTC and is not changed.
pub open spec fn steady(second: int, offset: i32) -> spec_fn(int) -> Moment {
    |day: int| Moment { seconds: (day * DAY + second - offset) as i64, nanos: 0, offset }
}

/// On a clock that is not changed, days stand in order.
pub proof fn an_unchanged_clock_is_in_step(m: Moment, second: int)
    requires
        m.wf(),
        0 <= second < DAY,
    ensures
        in_step(steady(second, m.offset), m),
{
    let at = steady(second, m.offset);
    assert forall|d: int| in_reach(d) implies #[trigger] at(d).instant() == (d * DAY + second
        - m.offset) * 1_000_000_000 by {}
    assert(m.day() * DAY <= m.wall() < (m.day() + 1) * DAY);
}

/// Among seven dates in a row there is one on which a schedule runs.
proof fn lemma_runs_within_a_week(schedule: Schedule, day: int) -> (i: int)
    requires
        !(schedule is Hours),
    ensures
        0 <= i < 7,
        schedule.runs_on(day + i),
{
    let n = (day + 3) % 7;
    match schedule {
        Schedule::Weekdays { at } => {
            if n < 5 {
                0
            } else {
                7 - n
            }
        },
        Schedule::Weekly { day: wanted, at } => {
            let k: int = match wanted {
                Weekday::Mon => 0,
                Weekday::Tue => 1,
                Weekday::Wed => 2,
                Weekday::Thu => 3,
                Weekday::Fri => 4,
                Weekday::Sat => 5,
                Weekday::Sun => 6,
            };
            let i = if k >= n {
                k - n
            } else {
                k - n + 7
            };
            assert((day + i + 3) % 7 == k);
            i
        },
        _ => 0,
    }
}

/// Whether a run on the date `day` is the first that comes after `after`.
pub open spec fn is_first_run(
    schedule: Schedule,
    at: spec_fn(int) -> Moment,
    after: Moment,
    day: int,
) -> bool {
    &&& in_reach(day)
    &&& schedule.runs_on(day)
    &&& at(day).instant() > after.instant()
    &&& forall|e: int|
        in_reach(e) && schedule.runs_on(e) && (#[trigger] at(e)).instant() > after.instant() ==> at(
            day,
        ).instant() <= at(e).instant()
}

/// Whether a run on the date `day` is the last that has come by `now`.
pub open spec fn is_last_run(
    schedule: Schedule,
    at: spec_fn(int) -> Moment,
    now: Moment,
    day: int,
) -> bool {
    &&& in_reach(day)
    &&& schedule.runs_on(day)
    &&& at(day).instant() <= now.instant()
    &&& forall|e: int|
        in_reach(e) && schedule.runs_on(e) && (#[trigger] at(e)).instant() <= now.instant() ==> at(
            e,
        ).instant() <= at(day).instant()
}

/// Whatever the clock does, where its days stand in order the next occurrence is
/// a run on a date on which the schedule runs, and the first that comes after
/// `after`; on a night on which the clock is put back over midnight too.
pub proof fn the_next_occurrence_is_the_first_after(
    schedule: Schedule,
    at: spec_fn(int) -> Moment,
    after: Moment,
) -> (day: int)
    requires
        -LAST_DAY - 50 <= after.day() <= LAST_DAY + 50,
        !(schedule is Hours),
        nearly_in_step(at, after),
    ensures
        is_first_run(schedule, at, after, day),
        schedule.next_on(after, days_ahead(at, after.day())) == Some(at(day)),
{
    let i = lemma_runs_within_a_week(schedule, after.day() + 2);
    lemma_first_after_on(schedule, at, after, 0, i + 2)
}

proof fn lemma_first_after_on(
    schedule: Schedule,
    at: spec_fn(int) -> Moment,
    after: Moment,
    i: int,
    known: int,
) -> (day: int)
    requires
        -LAST_DAY - 50 <= after.day() <= LAST_DAY + 50,
        nearly_in_step(at, after),
        0 <= i <= known < AHEAD,
        known >= 2,
        schedule.runs_on(after.day() + known),
        forall|d: int|
            in_reach(d) && d < after.day() + i && #[trigger] schedule.runs_on(d) ==> at(d).instant()
                <= after.instant(),
    ensures
        is_first_run(schedule, at, after, day),
        first_after_on(schedule, after, days_ahead(at, after.day()), i) == Some(at(day)),
    decreases known - i,
{
    let days = days_ahead(at, after.day());
    let here = after.day() + i;
    assert(days[i] == at(here));
    if at(here).instant() > after.instant() && schedule.runs_on(here) {
        here
    } else {
        lemma_first_after_on(schedule, at, after, i + 1, known)
    }
}

/// Whatever the clock does, where its days stand in order the newest occurrence is
/// the last run that has come by `now`, where that is after `last`; where it is
/// not, there is none.
pub proof fn the_latest_due_is_the_newest(
    schedule: Schedule,
    at: spec_fn(int) -> Moment,
    last: Moment,
    now: Moment,
) -> (day: int)
    requires
        now.wf(),
        !(schedule is Hours),
        in_step(at, now),
    ensures
        is_last_run(schedule, at, now, day),
        schedule.latest_on(last, now, days_behind(at, now.day())) == if at(day).instant()
            > last.instant() {
            Some(at(day))
        } else {
            None
        },
{
    let i = lemma_runs_within_a_week(schedule, now.day() - 7);
    lemma_newest_on(schedule, at, now, 0, 7 - i)
}

proof fn lemma_newest_on(
    schedule: Schedule,
    at: spec_fn(int) -> Moment,
    now: Moment,
    i: int,
    known: int,
) -> (day: int)
    requires
        now.wf(),
        in_step(at, now),
        0 <= i <= known < BEHIND,
        known >= 1,
        schedule.runs_on(now.day() - known),
        forall|d: int|
            in_reach(d) && d > now.day() - i && #[trigger] schedule.runs_on(d) ==> at(d).instant()
                > now.instant(),
    ensures
        is_last_run(schedule, at, now, day),
        newest_on(schedule, now, days_behind(at, now.day()), i) == Some(at(day)),
    decreases known - i,
{
    let days = days_behind(at, now.day());
    let here = now.day() - i;
    assert(days[i] == at(here));
    if at(here).instant() <= now.instant() && schedule.runs_on(here) {
        here
    } else {
        lemma_newest_on(schedule, at, now, i + 1, known)
    }
}

/// Where a walk from `last` along the next occurrences is after some steps.
pub open spec fn walked(
    schedule: Schedule,
    at: spec_fn(int) -> Moment,
    last: Moment,
    steps: nat,
) -> Moment
    decreases steps,
{
    if steps == 0 {
        last
    } else {
        let from = walked(schedule, at, last, (steps - 1) as nat);
        schedule.next_on(from, days_ahead(at, from.day()))->0
    }
}

/// Where a walk stays at `now` or before it, each of its steps is a run, after
/// `last`.
proof fn lemma_walked(
    schedule: Schedule,
    at: spec_fn(int) -> Moment,
    last: Moment,
    now: Moment,
    steps: nat,
) -> (day: int)
    requires
        now.wf(),
        last.wf(),
        !(schedule is Hours),
        nearly_in_step(at, last),
        in_step(at, now),
        forall|d: int| in_reach(d) ==> nearly_in_step(at, #[trigger] at(d)),
        forall|i: nat|
            1 <= i <= steps ==> (#[trigger] walked(schedule, at, last, i)).instant()
                <= now.instant(),
    ensures
        -LAST_DAY - 50 <= walked(schedule, at, last, steps).day() <= LAST_DAY + 50,
        nearly_in_step(at, walked(schedule, at, last, steps)),
        steps > 0 ==> in_reach(day) && walked(schedule, at, last, steps) == at(day)
            && schedule.runs_on(day) && at(day).instant() > last.instant(),
    decreases steps,
{
    if steps == 0 {
        0
    } else {
        let before = (steps - 1) as nat;
        lemma_walked(schedule, at, last, now, before);
        let from = walked(schedule, at, last, before);
        let day = the_next_occurrence_is_the_first_after(schedule, at, from);
        let here = at(day);
        assert(here == walked(schedule, at, last, steps));
        assert(nearly_in_step(at, here));
        assert(here.instant() <= now.instant());
        // The date of the moment is the one that it was asked for, or the next.
        assert(day <= now.day());
        assert(last.day() <= day) by {
            if day < last.day() {
                assert(at(day).instant() <= last.instant());
            }
        }
        if here.day() > day + 1 {
            assert(at(day + 1).instant() <= here.instant());
        }
        if here.day() < day - 1 {
            assert(at(day).instant() > here.instant());
        }
        day
    }
}

/// Whatever the clock does, where its days stand in order the newest occurrence is
/// where a walk along the next ones ends: after as many steps as there are by
/// `now`. Where the first step is already after `now`, there is none.
pub proof fn walking_forwards_ends_at_the_latest(
    schedule: Schedule,
    at: spec_fn(int) -> Moment,
    last: Moment,
    now: Moment,
    steps: nat,
)
    requires
        now.wf(),
        last.wf(),
        !(schedule is Hours),
        nearly_in_step(at, last),
        in_step(at, now),
        forall|d: int| in_reach(d) ==> nearly_in_step(at, #[trigger] at(d)),
        forall|i: nat|
            1 <= i <= steps ==> (#[trigger] walked(schedule, at, last, i)).instant()
                <= now.instant(),
        walked(schedule, at, last, steps + 1).instant() > now.instant(),
    ensures
        schedule.latest_on(last, now, days_behind(at, now.day())) == if steps == 0 {
            None
        } else {
            Some(walked(schedule, at, last, steps))
        },
{
    let here = lemma_walked(schedule, at, last, now, steps);
    let from = walked(schedule, at, last, steps);
    let next = the_next_occurrence_is_the_first_after(schedule, at, from);
    let newest = the_latest_due_is_the_newest(schedule, at, last, now);
    assert(walked(schedule, at, last, steps + 1) == at(next));
    if steps > 0 {
        assert(at(here).instant() <= at(newest).instant());
        if here < newest {
            assert(at(newest).instant() > from.instant());
        }
        assert(here == newest) by {
            if newest < here {
                assert(at(newest).instant() < at(here).instant());
            }
        }
    } else if at(newest).instant() > last.instant() {
        assert(at(next).instant() <= at(newest).instant());
    }
}

/// However many occurrences were missed, what a run is for is not after the
/// present and has not been run: once a run is recorded at `now`, nothing more
/// is owed at `now`.
pub proof fn nothing_is_owed_right_after_a_run(
    schedule: Schedule,
    at: spec_fn(int) -> Moment,
    now: Moment,
    recovery: Recovery,
)
    requires
        now.wf(),
        !(schedule is Hours),
        in_step(at, now),
    ensures
        Schedule::verdict(
            schedule.latest_on(now, now, days_behind(at, now.day())),
            now,
            recovery,
        ) is None,
{
    the_latest_due_is_the_newest(schedule, at, now, now);
}

/// An hourly schedule's newest step is not after `now`, is after `last`, and the
/// step behind it is after `now`.
pub proof fn hourly_steps_are_the_newest(hours: u32, last: Moment, now: Moment)
    requires
        steps_since(hours, last, now) >= 1,
    ensures
        ({
            let unit = hour_step(hours) * 3_600_000_000_000;
            let steps = steps_since(hours, last, now);
            &&& last.instant() < last.instant() + steps * unit <= now.instant()
            &&& last.instant() + (steps + 1) * unit > now.instant()
        }),
{
    let unit = hour_step(hours) * 3_600_000_000_000;
    let gap = now.instant() - last.instant();
    let steps = gap / unit;
    assert(steps * unit <= gap && gap < (steps + 1) * unit && steps * unit > 0) by (nonlinear_arith)
        requires
            unit > 0,
            steps == gap / unit,
            steps >= 1,
    ;
}

/// For an hourly schedule too the newest occurrence is where a walk along the next
/// ones ends: after as many steps as there are by `now`.
pub proof fn walking_by_hours_ends_at_the_latest(hours: u32, last: Moment, now: Moment, steps: nat)
    requires
        last.instant() + steps * (hour_step(hours) * 3_600_000_000_000) <= now.instant(),
        last.instant() + (steps + 1) * (hour_step(hours) * 3_600_000_000_000) > now.instant(),
    ensures
        steps_since(hours, last, now) == steps,
{
    let unit = hour_step(hours) * 3_600_000_000_000;
    let gap = now.instant() - last.instant();
    assert(gap / unit == steps) by (nonlinear_arith)
        requires
            unit > 0,
            steps * unit <= gap,
            gap < (steps + 1) * unit,
    ;
}

// ---------------------------------------------------------------------------
// Words
// ---------------------------------------------------------------------------

/// A number below a hundred with two digits.
pub open spec fn two_digits(n: int) -> Seq<char> {
    seq![text::digit_char(n / 10), text::digit_char(n % 10)]
}

/// A time of day as hours and minutes.
pub open spec fn face(second: int) -> Seq<char> {
    two_digits(second / 3600) + ":"@ + two_digits(second / 60 % 60)
}

fn push_two_digits(out: &mut String, n: u32)
    requires
        n < 100,
    ensures
        final(out)@ == old(out)@ + two_digits(n as int),
{
    out.push(((n / 10) as u8 + 0x30u8) as char);
    out.push(((n % 10) as u8 + 0x30u8) as char);
    assert(out@ =~= old(out)@ + two_digits(n as int));
}

/// A time of day as `HH:MM`.
pub fn clock_face(at: Clock) -> (r: String)
    ensures
        r@ == face(at.second()),
{
    let seconds = at.seconds();
    let mut r = String::new();
    push_two_digits(&mut r, seconds / 3600);
    assert(r@ =~= two_digits(at.second() / 3600));
    r.append(":");
    push_two_digits(&mut r, seconds / 60 % 60);
    r
}

impl Schedule {
    /// How this reads in a sentence.
    pub open spec fn sentence(self) -> Seq<char> {
        match self {
            Schedule::Hours { hours } => if hours == 1 {
                "Every hour"@
            } else {
                "Every "@ + text::decimal(hours as nat) + " hours"@
            },
            Schedule::Daily { at } => "Daily at "@ + face(at.second()),
            Schedule::Weekdays { at } => "Weekdays at "@ + face(at.second()),
            Schedule::Weekly { day, at } => day.short() + "s at "@ + face(at.second()),
        }
    }

    /// How this reads in a sentence.
    pub fn describe(&self) -> (r: String)
        ensures
            r@ == self.sentence(),
    {
        match self {
            Schedule::Hours { hours } => if *hours == 1 {
                "Every hour".to_owned()
            } else {
                let mut r = "Every ".to_owned();
                text::push_decimal(&mut r, *hours as u128);
                r.append(" hours");
                r
            },
            Schedule::Daily { at } => {
                let mut r = "Daily at ".to_owned();
                r.append(clock_face(*at).as_str());
                r
            },
            Schedule::Weekdays { at } => {
                let mut r = "Weekdays at ".to_owned();
                r.append(clock_face(*at).as_str());
                r
            },
            Schedule::Weekly { day, at } => {
                let mut r = day.name().to_owned();
                r.append("s at ");
                r.append(clock_face(*at).as_str());
                r
            },
        }
    }
}

/// A character that is no part of a clock time at the edge of a word.
pub open spec fn is_edge(c: char) -> bool {
    !text::is_ascii_alphanumeric(c) && c != ':'
}

/// A word without such characters in front of it.
pub open spec fn bare_front(s: Seq<char>) -> Seq<char>
    decreases s.len(),
{
    if s.len() > 0 && is_edge(s[0]) {
        bare_front(s.drop_first())
    } else {
        s
    }
}

/// A word without such characters behind it.
pub open spec fn bare_back(s: Seq<char>) -> Seq<char>
    decreases s.len(),
{
    if s.len() > 0 && is_edge(s.last()) {
        bare_back(s.drop_last())
    } else {
        s
    }
}

/// Where the first `a` or `p` of a word stands: its length where there is none.
pub open spec fn meridiem(s: Seq<char>, from: int) -> int
    decreases s.len() - from,
{
    if from >= s.len() {
        s.len() as int
    } else if s[from] == 'a' || s[from] == 'p' {
        from
    } else {
        meridiem(s, from + 1)
    }
}

/// What a word says of the time.
pub enum Word {
    /// A time of day.
    Time(int),
    /// Nothing.
    Nothing,
    /// Something with a colon that is no time: the phrase is not understood.
    Nonsense,
}

/// The time of day of an hour, a minute and what stands behind them, where it
/// is one.
pub open spec fn hour_and_minute(hour: nat, minute: nat, suffix: Seq<char>, colon: bool) -> Word {
    let h = if suffix.len() > 0 && suffix[0] == 'p' && hour < 12 {
        (hour + 12) as nat
    } else if suffix.len() > 0 && suffix[0] == 'a' && hour == 12 {
        0
    } else {
        hour
    };
    if suffix.len() == 0 && !colon && hour > 23 {
        Word::Nothing
    } else if h > 23 || minute > 59 {
        Word::Nothing
    } else {
        Word::Time((h * 3600 + minute * 60) as int)
    }
}

/// A word without what is no part of a clock time at its edges.
pub open spec fn bare_word(token: Seq<char>) -> Seq<char> {
    bare_back(bare_front(token))
}

/// Whether a word only says which half of the day a time is in.
pub open spec fn is_half(t: Seq<char>) -> bool {
    t == "am"@ || t == "pm"@
}

/// What a word says of the time, given the word behind it: `07:00`, `7am`,
/// `7 am`, `19:30`, or a bare hour.
pub open spec fn word_says(token: Seq<char>, following: Seq<char>) -> Word {
    let t = bare_word(token);
    let at = meridiem(t, 0);
    let digits = t.take(at);
    let suffix = if at == t.len() && is_half(bare_word(following)) {
        bare_word(following)
    } else {
        t.skip(at)
    };
    let colon = text::next(digits, ':', 0);
    let most = u32::MAX as nat;
    if t.len() == 0 {
        Word::Nothing
    } else if colon < digits.len() {
        match (text::number(digits.take(colon), most), text::number(digits.skip(colon + 1), most)) {
            (Some(hour), Some(minute)) => hour_and_minute(hour, minute, suffix, true),
            _ => Word::Nonsense,
        }
    } else {
        match text::number(digits, most) {
            Some(hour) => hour_and_minute(hour, 0, suffix, false),
            None => Word::Nothing,
        }
    }
}

/// What stands between two words.
pub open spec fn is_gap(c: char) -> bool {
    text::is_space(c) || c == ','
}

/// Where the next gap is: the length of the text where there is none.
pub open spec fn next_gap(s: Seq<char>, from: int) -> int
    decreases s.len() - from,
{
    if from >= s.len() {
        s.len() as int
    } else if is_gap(s[from]) {
        from
    } else {
        next_gap(s, from + 1)
    }
}

/// The word of a phrase that begins at a place: nothing where the phrase is over.
pub open spec fn word_from(s: Seq<char>, from: int) -> Seq<char> {
    if 0 <= from <= next_gap(s, from) <= s.len() {
        s.subrange(from, next_gap(s, from))
    } else {
        Seq::empty()
    }
}

/// The first clock time in a phrase, from a place on.
pub open spec fn clock_from(s: Seq<char>, from: int) -> Option<int>
    decreases s.len() - from,
{
    if from < 0 || from > s.len() {
        None
    } else {
        let end = next_gap(s, from);
        proof {
            lemma_next_gap(s, from);
        }
        match word_says(s.subrange(from, end), word_from(s, end + 1)) {
            Word::Time(second) => Some(second),
            Word::Nonsense => None,
            Word::Nothing => if end >= s.len() {
                None
            } else {
                clock_from(s, end + 1)
            },
        }
    }
}

pub proof fn lemma_next_gap(s: Seq<char>, from: int)
    requires
        0 <= from <= s.len(),
    ensures
        from <= next_gap(s, from) <= s.len(),
    decreases s.len() - from,
{
    if from < s.len() && !is_gap(s[from]) {
        lemma_next_gap(s, from + 1);
    }
}

/// A phrase with the halves of the day written in one way.
pub open spec fn halves_joined(s: Seq<char>) -> Seq<char> {
    text::replace(text::replace(s, "a.m."@, "am"@), "p.m."@, "pm"@)
}

/// The first clock time in a phrase.
pub open spec fn clock_said(s: Seq<char>) -> Option<int> {
    clock_from(halves_joined(s), 0)
}

/// Whether a word of a phrase is a time or goes with one.
pub open spec fn is_time_word(token: Seq<char>) -> bool {
    let t = bare_word(token);
    t.len() == 0 || t == "at"@ || is_half(t) || word_says(token, Seq::empty()) is Time
}

/// Whether a phrase has nothing in it but a time, from a place on.
pub open spec fn bare_time_from(s: Seq<char>, from: int) -> bool
    decreases s.len() - from,
{
    if from < 0 || from > s.len() {
        true
    } else {
        let end = next_gap(s, from);
        proof {
            lemma_next_gap(s, from);
        }
        is_time_word(s.subrange(from, end)) && (end >= s.len() || bare_time_from(s, end + 1))
    }
}

/// Whether a phrase asks for every day, in words or by naming a time and nothing
/// else.
pub open spec fn says_daily(t: Seq<char>) -> bool {
    text::holds(t, "daily"@) || text::holds(t, "every day"@) || text::holds(t, "each day"@)
        || bare_time_from(halves_joined(t), 0)
}

fn edge(c: char) -> (r: bool)
    ensures
        r == is_edge(c),
{
    !(('0' <= c && c <= '9') || ('A' <= c && c <= 'Z') || ('a' <= c && c <= 'z')) && c != ':'
}

fn bare<'a>(s: &'a [char]) -> (r: &'a [char])
    ensures
        r@ == bare_back(bare_front(s@)),
{
    let mut i: usize = 0;
    assert(s@.skip(0) =~= s@);
    while i < s.len() && edge(s[i])
        invariant
            0 <= i <= s.len(),
            bare_front(s@) == bare_front(s@.skip(i as int)),
        decreases s.len() - i,
    {
        assert(s@.skip(i as int).drop_first() =~= s@.skip(i + 1));
        i = i + 1;
    }
    let t = slice_subrange(s, i, s.len());
    let mut j: usize = t.len();
    assert(t@.take(t@.len() as int) =~= t@);
    while j > 0 && edge(t[j - 1])
        invariant
            0 <= j <= t.len(),
            bare_back(t@) == bare_back(t@.take(j as int)),
        decreases j,
    {
        assert(t@.take(j as int).drop_last() =~= t@.take(j - 1));
        j = j - 1;
    }
    slice_subrange(t, 0, j)
}

/// What a word says, when it has been read.
enum Said {
    Time(Clock),
    Nothing,
    Nonsense,
}

fn say_time(hour: u32, minute: u32, suffix: &[char], colon: bool) -> (r: Said)
    ensures
        match r {
            Said::Time(at) => hour_and_minute(hour as nat, minute as nat, suffix@, colon)
                == Word::Time(at.second()),
            Said::Nothing => hour_and_minute(hour as nat, minute as nat, suffix@, colon)
                is Nothing,
            Said::Nonsense => false,
        },
{
    if suffix.len() == 0 && !colon && hour > 23 {
        return Said::Nothing;
    }
    let h: u32 = if suffix.len() > 0 && suffix[0] == 'p' && hour < 12 {
        hour + 12
    } else if suffix.len() > 0 && suffix[0] == 'a' && hour == 12 {
        0
    } else {
        hour
    };
    match Clock::at(h, minute) {
        Some(at) => Said::Time(at),
        None => Said::Nothing,
    }
}

fn half(t: &[char]) -> (r: bool)
    ensures
        r == is_half(t@),
{
    text::spells(t, "am") || text::spells(t, "pm")
}

fn say(token: &[char], following: &[char]) -> (r: Said)
    ensures
        match r {
            Said::Time(at) => word_says(token@, following@) == Word::Time(at.second()),
            Said::Nothing => word_says(token@, following@) is Nothing,
            Said::Nonsense => word_says(token@, following@) is Nonsense,
        },
{
    let t = bare(token);
    if t.len() == 0 {
        return Said::Nothing;
    }
    let mut at: usize = 0;
    while at < t.len() && t[at] != 'a' && t[at] != 'p'
        invariant
            0 <= at <= t.len(),
            meridiem(t@, 0) == meridiem(t@, at as int),
        decreases t.len() - at,
    {
        at = at + 1;
    }
    let digits = slice_subrange(t, 0, at);
    let next_word = bare(following);
    let suffix = if at == t.len() && half(next_word) {
        next_word
    } else {
        slice_subrange(t, at, t.len())
    };
    assert(digits@ =~= t@.take(at as int));
    assert(t@.subrange(at as int, t@.len() as int) =~= t@.skip(at as int));
    let colon = text::next_of(digits, ':', 0);
    if colon < digits.len() {
        let front = slice_subrange(digits, 0, colon);
        let back = slice_subrange(digits, colon + 1, digits.len());
        assert(front@ =~= digits@.take(colon as int));
        assert(back@ =~= digits@.skip(colon + 1));
        let hour = text::number_of(front, u32::MAX as u64);
        let minute = text::number_of(back, u32::MAX as u64);
        match (hour, minute) {
            (Some(h), Some(m)) => {
                proof {
                    text::lemma_number_bound(front@, u32::MAX as nat);
                    text::lemma_number_bound(back@, u32::MAX as nat);
                }
                say_time(h as u32, m as u32, suffix, true)
            },
            _ => Said::Nonsense,
        }
    } else {
        match text::number_of(digits, u32::MAX as u64) {
            Some(h) => {
                proof {
                    text::lemma_number_bound(digits@, u32::MAX as nat);
                }
                say_time(h as u32, 0, suffix, false)
            },
            None => Said::Nothing,
        }
    }
}

fn gap_after(s: &[char], from: usize) -> (r: usize)
    requires
        from <= s.len(),
    ensures
        r == next_gap(s@, from as int),
        from <= r <= s.len(),
{
    let mut i: usize = from;
    while i < s.len() && !(text::space(s[i]) || s[i] == ',')
        invariant
            from <= i <= s.len(),
            next_gap(s@, from as int) == next_gap(s@, i as int),
        decreases s.len() - i,
    {
        i = i + 1;
    }
    i
}

/// The word behind the one that ends at a gap.
fn word_behind<'a>(s: &'a [char], end: usize) -> (r: &'a [char])
    requires
        end <= s.len(),
    ensures
        r@ == word_from(s@, end + 1),
{
    if end == s.len() {
        assert(word_from(s@, end + 1) =~= s@.subrange(0, 0));
        return slice_subrange(s, 0, 0);
    }
    let last = gap_after(s, end + 1);
    slice_subrange(s, end + 1, last)
}

fn time_word(token: &[char]) -> (r: bool)
    ensures
        r == is_time_word(token@),
{
    let t = bare(token);
    if t.len() == 0 || text::spells(t, "at") || half(t) {
        return true;
    }
    let nothing = slice_subrange(token, 0, 0);
    assert(nothing@ =~= Seq::empty());
    match say(token, nothing) {
        Said::Time(_) => true,
        _ => false,
    }
}

fn bare_time(c: &[char]) -> (r: bool)
    ensures
        r == bare_time_from(c@, 0),
{
    let mut from: usize = 0;
    loop
        invariant
            from <= c.len(),
            bare_time_from(c@, 0) == bare_time_from(c@, from as int),
        decreases c.len() - from,
    {
        let end = gap_after(c, from);
        if !time_word(slice_subrange(c, from, end)) {
            return false;
        }
        if end == c.len() {
            return true;
        }
        from = end + 1;
    }
}

fn joined_halves(s: &[char]) -> (r: Vec<char>)
    ensures
        r@ == halves_joined(s@),
{
    let once = text::replaced(s, "a.m.", "am");
    text::replaced(once.as_slice(), "p.m.", "pm")
}

fn daily(t: &[char]) -> (r: bool)
    ensures
        r == says_daily(t@),
{
    let c = joined_halves(t);
    text::contains(t, "daily") || text::contains(t, "every day") || text::contains(t, "each day")
        || bare_time(c.as_slice())
}

/// The first clock time in a phrase: `07:00`, `7am`, `7 am`, `19:30`.
fn clock_in(s: &[char]) -> (r: Option<Clock>)
    ensures
        match r {
            Some(at) => clock_said(s@) == Some(at.second()),
            None => clock_said(s@) is None,
        },
{
    let twice = joined_halves(s);
    let c = twice.as_slice();
    let mut from: usize = 0;
    loop
        invariant
            from <= c.len(),
            clock_said(s@) == clock_from(c@, from as int),
        decreases c.len() - from,
    {
        let end = gap_after(c, from);
        let following = word_behind(c, end);
        match say(slice_subrange(c, from, end), following) {
            Said::Time(at) => {
                return Some(at);
            },
            Said::Nonsense => {
                return None;
            },
            Said::Nothing => {
                if end == c.len() {
                    return None;
                }
                from = end + 1;
            },
        }
    }
}

/// Whether what is counted out is hours: the word behind the number says so.
pub open spec fn of_hours(rest: Seq<char>) -> bool {
    text::starts(text::trim_start(rest.skip(text::next_space(rest, 0))), "hour"@)
}

/// The number of hours in a phrase such as "every 4 hours", where it is one.
pub open spec fn every_hours(t: Seq<char>) -> Option<nat> {
    match text::after(t, "every "@) {
        Some(behind) => {
            let rest = text::trim(behind);
            let word = rest.take(text::next_space(rest, 0));
            if text::starts(rest, "hour"@) {
                Some(1)
            } else {
                match text::number(word, u32::MAX as nat) {
                    Some(n) => if of_hours(rest) {
                        Some(
                            if n < 1 {
                                1
                            } else if n > 24 {
                                24
                            } else {
                                n
                            },
                        )
                    } else {
                        None
                    },
                    None => None,
                }
            }
        },
        None => None,
    }
}

/// Whether a phrase counts out something that is not hours: "every 15 minutes".
pub open spec fn counts_otherwise(t: Seq<char>) -> bool {
    match text::after(t, "every "@) {
        Some(behind) => {
            let rest = text::trim(behind);
            let word = rest.take(text::next_space(rest, 0));
            text::number(word, u32::MAX as nat) is Some && !of_hours(rest)
        },
        None => false,
    }
}

/// The day of the week that a phrase names first in the order of the week.
pub open spec fn day_named(t: Seq<char>) -> Option<Weekday> {
    if text::holds(t, "monday"@) {
        Some(Weekday::Mon)
    } else if text::holds(t, "tuesday"@) {
        Some(Weekday::Tue)
    } else if text::holds(t, "wednesday"@) {
        Some(Weekday::Wed)
    } else if text::holds(t, "thursday"@) {
        Some(Weekday::Thu)
    } else if text::holds(t, "friday"@) {
        Some(Weekday::Fri)
    } else if text::holds(t, "saturday"@) {
        Some(Weekday::Sat)
    } else if text::holds(t, "sunday"@) {
        Some(Weekday::Sun)
    } else {
        None
    }
}

/// The schedule that a phrase in lower case asks for. One with no time in it is
/// refused, and so is one that says how often in a way that is not understood; a
/// bare time is a daily one.
pub open spec fn asked(t: Seq<char>) -> Option<Schedule> {
    if t.len() == 0 {
        None
    } else if text::starts(t, "hourly"@) {
        Some(Schedule::Hours { hours: 1 })
    } else if let Some(n) = every_hours(t) {
        Some(Schedule::Hours { hours: n as u32 })
    } else if counts_otherwise(t) {
        None
    } else {
        match clock_said(t) {
            Some(second) => if text::holds(t, "weekday"@) {
                Some(Schedule::Weekdays { at: Clock::of(second) })
            } else if let Some(day) = day_named(t) {
                Some(Schedule::Weekly { day, at: Clock::of(second) })
            } else if says_daily(t) {
                Some(Schedule::Daily { at: Clock::of(second) })
            } else {
                None
            },
            None => None,
        }
    }
}

fn in_hours(rest: &[char]) -> (r: bool)
    ensures
        r == of_hours(rest@),
{
    let end = text::next_space_of(rest, 0);
    let behind = slice_subrange(rest, end, rest.len());
    assert(behind@ =~= rest@.skip(end as int));
    text::begins(text::trimmed_start(behind), "hour")
}

fn every_hours_in(t: &[char]) -> (r: Option<u32>)
    ensures
        match r {
            Some(n) => every_hours(t@) == Some(n as nat),
            None => every_hours(t@) is None,
        },
{
    match text::past(t, "every ") {
        Some(behind) => {
            let rest = text::trimmed(behind);
            if text::begins(rest, "hour") {
                return Some(1);
            }
            let end = text::next_space_of(rest, 0);
            let word = slice_subrange(rest, 0, end);
            assert(word@ =~= rest@.take(end as int));
            match text::number_of(word, u32::MAX as u64) {
                Some(n) => {
                    if in_hours(rest) {
                        let hours: u32 = if n < 1 {
                            1
                        } else if n > 24 {
                            24
                        } else {
                            n as u32
                        };
                        Some(hours)
                    } else {
                        None
                    }
                },
                None => None,
            }
        },
        None => None,
    }
}

fn counted_otherwise(t: &[char]) -> (r: bool)
    ensures
        r == counts_otherwise(t@),
{
    match text::past(t, "every ") {
        Some(behind) => {
            let rest = text::trimmed(behind);
            let end = text::next_space_of(rest, 0);
            let word = slice_subrange(rest, 0, end);
            assert(word@ =~= rest@.take(end as int));
            text::number_of(word, u32::MAX as u64).is_some() && !in_hours(rest)
        },
        None => false,
    }
}

fn day_in(t: &[char]) -> (r: Option<Weekday>)
    ensures
        r == day_named(t@),
{
    if text::contains(t, "monday") {
        Some(Weekday::Mon)
    } else if text::contains(t, "tuesday") {
        Some(Weekday::Tue)
    } else if text::contains(t, "wednesday") {
        Some(Weekday::Wed)
    } else if text::contains(t, "thursday") {
        Some(Weekday::Thu)
    } else if text::contains(t, "friday") {
        Some(Weekday::Fri)
    } else if text::contains(t, "saturday") {
        Some(Weekday::Sat)
    } else if text::contains(t, "sunday") {
        Some(Weekday::Sun)
    } else {
        None
    }
}

/// A schedule from words that are already in lower case, without white space
/// around them.
pub fn parse_lowercase(words: &str) -> (r: Option<Schedule>)
    ensures
        r == asked(words@),
{
    let chars = text::chars_of(words);
    let t = chars.as_slice();
    if t.len() == 0 {
        return None;
    }
    if text::begins(t, "hourly") {
        return Some(Schedule::Hours { hours: 1 });
    }
    if let Some(hours) = every_hours_in(t) {
        return Some(Schedule::Hours { hours });
    }
    if counted_otherwise(t) {
        return None;
    }
    match clock_in(t) {
        Some(at) => {
            proof {
                at.lemma_of();
            }
            if text::contains(t, "weekday") {
                Some(Schedule::Weekdays { at })
            } else if let Some(day) = day_in(t) {
                Some(Schedule::Weekly { day, at })
            } else if daily(t) {
                Some(Schedule::Daily { at })
            } else {
                None
            }
        },
        None => None,
    }
}

/// A schedule from the words the model wrote.
///
/// What has to be understood is "daily at 07:00", "weekdays at 8am", "every 4
/// hours" and "Mondays at 9". A phrasing that is not one of those is refused
/// rather than guessed at.
pub fn parse(when: &str) -> (r: Option<Schedule>)
    ensures
        r == asked(text::lowercase(text::trim(when@))),
{
    let chars = text::chars_of(when);
    let bare_words = text::string_of(text::trimmed(chars.as_slice()));
    let words = bare_words.as_str().to_lowercase();
    parse_lowercase(words.as_str())
}

/// What the model is told about scheduling a conversation.
pub const GUIDANCE: &'static str = "`schedule` makes *this conversation* wake up and run on its own. It is not a reminder for the user and not a task in a task list: the standing prompt is submitted as an ordinary turn at the time you set, with the tools this conversation has, and the answer lands here where they can read it back. That is what somebody means by \"a morning briefing\" or \"check this every Monday\".\n\n`schedule set` takes `when` and `prompt`. `when` is one of: `daily at 07:00`, `weekdays at 08:30`, `Mondays at 09:00`, or `every 4 hours`. Write the standing prompt as the instruction you want to be given each time, not as a description of it — it arrives as if the user had typed it. `schedule show` says what this conversation is set to do; `schedule clear` stops it.\n\nReach for it when the user asks for something *recurring that you would do*. A one-off nudge for the user to do something themselves is a task, not this. A missed run is skipped rather than delivered stale, and the user can pause or remove any of them.";

/// What the model is told about scheduling a conversation.
pub fn guidance() -> (r: String)
    ensures
        r@ == GUIDANCE@,
{
    GUIDANCE.to_owned()
}

pub const RUN_START: &'static str = "This is a scheduled run for ";

pub const RUN_LATE: &'static str = ", running a little late. Nobody is necessarily at the keyboard. Do the work and report it plainly; if anything you found is time-sensitive, say what time it is true as of.";

pub const RUN_RECOVERED: &'static str = ", recovered late — the computer was off or asleep when it came round, and this is the first chance to do it. Only this one is being run; any earlier occurrences were let go. Nobody is necessarily at the keyboard. Do the work against the time it is *now*, not the time it was due: greet the hour it actually is, refetch anything that moves, and say what each time-sensitive thing is true as of.";

pub const RUN_REGULAR: &'static str = ". Nobody is necessarily at the keyboard, so do the work and report it plainly rather than asking a follow-up question. If there is nothing worth reporting, say so in one line.";

/// What the model is told about why a turn came up.
pub open spec fn preamble_text(due: Due, when: Seq<char>) -> Seq<char> {
    RUN_START@ + when + match due {
        Due::Late => RUN_LATE@,
        Due::Recovered => RUN_RECOVERED@,
        Due::Regular => RUN_REGULAR@,
    }
}

/// What the model is told about why a turn came up, given how its time is
/// written out.
pub fn preamble_for(due: Due, when: &str) -> (r: String)
    ensures
        r@ == preamble_text(due, when@),
{
    let mut r = RUN_START.to_owned();
    r.append(when);
    match due {
        Due::Late => r.append(RUN_LATE),
        Due::Recovered => r.append(RUN_RECOVERED),
        Due::Regular => r.append(RUN_REGULAR),
    }
    r
}

/// What the model is told about why a turn came up.
pub fn preamble(due: Due, scheduled_for: Moment) -> (r: String)
    requires
        scheduled_for.wf(),
    ensures
        r@ == preamble_text(due, strftime(scheduled_for.wall(), "%A %-d %B at %H:%M"@)),
{
    let when = written(scheduled_for.reading(), "%A %-d %B at %H:%M");
    preamble_for(due, when.as_str())
}

// ---------------------------------------------------------------------------
// What is said is what is understood
// ---------------------------------------------------------------------------

/// An hour and a minute as `HH:MM`.
pub open spec fn as_written(hour: int, minute: int) -> Seq<char> {
    seq![
        (0x30 + hour / 10) as char,
        (0x30 + hour % 10) as char,
        ':',
        (0x30 + minute / 10) as char,
        (0x30 + minute % 10) as char,
    ]
}

/// The hour of the day of an hour of its half: the twelfth comes first.
pub open spec fn hour_of_day(hour: int, afternoon: bool) -> int {
    hour % 12 + if afternoon {
        12int
    } else {
        0
    }
}

/// Whether a phrase is understood as every week on a day, at an hour and a minute.
pub open spec fn means_weekly(r: Option<Schedule>, on: Weekday, hour: int, minute: int) -> bool {
    match r {
        Some(Schedule::Weekly { day, at }) => day == on && at.second() == hour * 3600 + minute * 60,
        _ => false,
    }
}

/// Whether a phrase is understood as every day, at an hour and a minute.
pub open spec fn means_daily(r: Option<Schedule>, hour: int, minute: int) -> bool {
    match r {
        Some(Schedule::Daily { at }) => at.second() == hour * 3600 + minute * 60,
        _ => false,
    }
}

/// Whether a phrase is understood as every day of the working week.
pub open spec fn means_weekdays(r: Option<Schedule>, hour: int, minute: int) -> bool {
    match r {
        Some(Schedule::Weekdays { at }) => at.second() == hour * 3600 + minute * 60,
        _ => false,
    }
}

/// What a phrase is understood as, whatever its case and the white space around it.
pub open spec fn understood(when: Seq<char>) -> Option<Schedule> {
    asked(text::lowercase(text::trim(when)))
}

/// A small letter.
spec fn is_small(c: char) -> bool {
    'a' <= c && c <= 'z'
}

/// A word of small letters.
spec fn is_small_word(w: Seq<char>) -> bool {
    w.len() > 0 && forall|i: int| 0 <= i < w.len() ==> is_small(#[trigger] w[i])
}

/// Whether a character is nowhere in a text.
spec fn lacks(s: Seq<char>, c: char) -> bool {
    forall|i: int| 0 <= i < s.len() ==> #[trigger] s[i] != c
}

proof fn lemma_lacks(s: Seq<char>, p: Seq<char>, c: char)
    requires
        lacks(s, c),
        p.contains(c),
    ensures
        !text::holds(s, p),
{
    let k = choose|k: int| 0 <= k < p.len() && p[k] == c;
    assert forall|at: int| !text::stands_at(s, p, at) by {
        if text::stands_at(s, p, at) {
            assert(s.subrange(at, at + p.len())[k] == s[at + k]);
        }
    }
}

proof fn lemma_meridiem(s: Seq<char>, from: int, at: int)
    requires
        0 <= from <= at <= s.len(),
        forall|i: int| from <= i < at ==> #[trigger] s[i] != 'a' && s[i] != 'p',
        at < s.len() ==> s[at] == 'a' || s[at] == 'p',
    ensures
        meridiem(s, from) == at,
    decreases at - from,
{
    if from < at {
        lemma_meridiem(s, from + 1, at);
    }
}

proof fn lemma_meridiem_range(s: Seq<char>, from: int)
    requires
        0 <= from <= s.len(),
    ensures
        from <= meridiem(s, from) <= s.len(),
    decreases s.len() - from,
{
    if from < s.len() && !(s[from] == 'a' || s[from] == 'p') {
        lemma_meridiem_range(s, from + 1);
    }
}

proof fn lemma_gap(s: Seq<char>, from: int, at: int)
    requires
        0 <= from <= at <= s.len(),
        forall|i: int| from <= i < at ==> !is_gap(#[trigger] s[i]),
        at < s.len() ==> is_gap(s[at]),
    ensures
        next_gap(s, from) == at,
    decreases at - from,
{
    if from < at {
        lemma_gap(s, from + 1, at);
    }
}

/// A word says nothing of the time.
proof fn lemma_word_says_nothing(w: Seq<char>, following: Seq<char>)
    requires
        is_small_word(w),
    ensures
        word_says(w, following) is Nothing,
{
    assert(is_small(w[0]) && is_small(w.last()));
    assert(bare_word(w) == w);
    lemma_meridiem_range(w, 0);
    let digits = w.take(meridiem(w, 0));
    assert forall|i: int| 0 <= i < digits.len() implies #[trigger] digits[i] != ':' by {
        assert(is_small(w[i]));
    }
    text::lemma_next(digits, ':', 0);
    if digits.len() > 0 {
        assert(digits[0] == w[0]);
        assert(!text::is_digit(digits[0]));
    }
}

/// A phrase of a word, `at`, and a time: the time is what its last word says.
proof fn lemma_time_behind_at(w: Seq<char>, clock: Seq<char>)
    requires
        is_small_word(w),
        clock.len() > 0,
        lacks(clock, '.'),
        forall|i: int| 0 <= i < clock.len() ==> !is_gap(#[trigger] clock[i]),
        word_says(clock, Seq::empty()) is Time,
    ensures
        clock_said(w + " at "@ + clock) == Some(word_says(clock, Seq::empty())->Time_0),
{
    reveal_strlit(" at ");
    let t = w + " at "@ + clock;
    let n = w.len() as int;
    assert(lacks(t, '.')) by {
        assert forall|i: int| 0 <= i < t.len() implies #[trigger] t[i] != '.' by {
            if i < n {
                assert(is_small(w[i]));
            } else if i >= n + 4 {
                assert(t[i] == clock[i - n - 4]);
            }
        }
    }
    lemma_no_halves(t);
    assert forall|i: int| 0 <= i < n implies !is_gap(#[trigger] t[i]) by {
        assert(is_small(w[i]));
    }
    lemma_gap(t, 0, n);
    assert(t.subrange(0, n) =~= w);
    lemma_word_says_nothing(w, word_from(t, n + 1));
    lemma_gap(t, n + 1, n + 3);
    let at = t.subrange(n + 1, n + 3);
    assert(at =~= seq!['a', 't']);
    lemma_word_says_nothing(at, word_from(t, n + 4));
    assert forall|i: int| n + 4 <= i < t.len() implies !is_gap(#[trigger] t[i]) by {
        assert(t[i] == clock[i - n - 4]);
    }
    lemma_gap(t, n + 4, t.len() as int);
    assert(t.subrange(n + 4, t.len() as int) =~= clock);
    assert(word_from(t, t.len() as int + 1) =~= Seq::empty());
    assert(clock_from(t, n + 4) == Some(word_says(clock, Seq::empty())->Time_0));
    assert(clock_from(t, n + 1) == clock_from(t, n + 4));
    assert(clock_from(t, 0) == clock_from(t, n + 1));
}

proof fn lemma_no_halves(t: Seq<char>)
    requires
        lacks(t, '.'),
    ensures
        halves_joined(t) == t,
{
    reveal_strlit("a.m.");
    reveal_strlit("p.m.");
    assert("a.m."@[1] == '.' && "p.m."@[1] == '.');
    lemma_not_replaced(t, "a.m."@, "am"@);
    lemma_not_replaced(t, "p.m."@, "pm"@);
}

proof fn lemma_not_replaced(t: Seq<char>, p: Seq<char>, q: Seq<char>)
    requires
        lacks(t, '.'),
        p.len() > 1,
        p[1] == '.',
    ensures
        text::replace(t, p, q) == t,
    decreases t.len(),
{
    if t.len() > 0 {
        if text::starts(t, p) {
            assert(t.take(p.len() as int)[1] == t[1]);
        }
        assert forall|i: int| 0 <= i < t.skip(1).len() implies #[trigger] t.skip(1)[i] != '.' by {
            assert(t.skip(1)[i] == t[i + 1]);
        }
        lemma_not_replaced(t.skip(1), p, q);
        assert(seq![t[0]] + t.skip(1) =~= t);
    }
}

/// `HH:MM` is that hour and that minute.
proof fn lemma_as_written(hour: int, minute: int, following: Seq<char>)
    requires
        0 <= hour < 24,
        0 <= minute < 60,
        !is_half(bare_word(following)),
    ensures
        word_says(as_written(hour, minute), following) == Word::Time(hour * 3600 + minute * 60),
        lacks(as_written(hour, minute), '.'),
        forall|i: int|
            0 <= i < as_written(hour, minute).len() ==> !is_gap(
                #[trigger] as_written(hour, minute)[i],
            ),
{
    let t = as_written(hour, minute);
    assert(t[0] as int == 0x30 + hour / 10 && t[1] as int == 0x30 + hour % 10);
    assert(t[3] as int == 0x30 + minute / 10 && t[4] as int == 0x30 + minute % 10);
    assert(text::is_digit(t[0]) && text::is_digit(t[1]) && text::is_digit(t[3]) && text::is_digit(
        t[4],
    ));
    assert(bare_word(t) == t);
    lemma_meridiem(t, 0, 5);
    assert(t.take(5) =~= t);
    text::lemma_next_is(t, ':', 0, 2);
    let h = t.take(2);
    let m = t.skip(3);
    assert(h =~= seq![t[0], t[1]]);
    assert(m =~= seq![t[3], t[4]]);
    lemma_two_digits_value(t[0], t[1]);
    lemma_two_digits_value(t[3], t[4]);
}

proof fn lemma_two_digits_value(a: char, b: char)
    requires
        text::is_digit(a),
        text::is_digit(b),
    ensures
        text::number(seq![a, b], u32::MAX as nat) == Some(
            ((a as int - 0x30) * 10 + (b as int - 0x30)) as nat,
        ),
{
    let s = seq![a, b];
    assert(s.drop_last() =~= seq![a]);
    assert(seq![a].drop_last() =~= Seq::empty());
    reveal_with_fuel(text::digits_value, 3);
    assert(text::is_digits(s));
}

/// A time of the twelve-hour clock is the hour of that half of the day.
proof fn lemma_half_day(hour: nat, afternoon: bool)
    requires
        1 <= hour <= 12,
    ensures
        ({
            let clock = text::decimal(hour) + (if afternoon {
                "pm"@
            } else {
                "am"@
            });
            let of_day = hour_of_day(hour as int, afternoon);
            &&& word_says(clock, Seq::empty()) == Word::Time(of_day * 3600)
            &&& lacks(clock, '.')
            &&& clock.len() > 0
            &&& forall|i: int| 0 <= i < clock.len() ==> !is_gap(#[trigger] clock[i])
        }),
{
    reveal_strlit("am");
    reveal_strlit("pm");
    let d = text::decimal(hour);
    let suffix = if afternoon {
        "pm"@
    } else {
        "am"@
    };
    let t = d + suffix;
    text::a_decimal_reads_back(hour);
    assert(text::is_digit(d[0]));
    assert(t[0] == d[0] && t.last() == 'm');
    assert(bare_word(t) == t);
    assert forall|i: int| 0 <= i < d.len() implies #[trigger] t[i] != 'a' && t[i] != 'p' by {
        assert(text::is_digit(d[i]));
    }
    lemma_meridiem(t, 0, d.len() as int);
    assert(t.take(d.len() as int) =~= d);
    assert(t.skip(d.len() as int) =~= suffix);
    assert forall|i: int| 0 <= i < d.len() implies #[trigger] d[i] != ':' by {
        assert(text::is_digit(d[i]));
    }
    text::lemma_next(d, ':', 0);
    assert(text::number(d, u32::MAX as nat) == Some(hour));
    assert forall|i: int| 0 <= i < t.len() implies !is_gap(#[trigger] t[i]) && t[i] != '.' by {
        if i < d.len() {
            assert(text::is_digit(d[i]));
        }
    }
}

/// What a phrase of a word, `at` and a time may hold besides the word.
spec fn is_tail(c: char) -> bool {
    c == 'a' || c == 't' || c == 'p' || c == 'm' || c == ' ' || c == ':' || text::is_digit(c)
}

proof fn lemma_phrase_lacks(w: Seq<char>, tail: Seq<char>, c: char)
    requires
        lacks(w, c),
        !is_tail(c),
        forall|i: int| 0 <= i < tail.len() ==> is_tail(#[trigger] tail[i]),
    ensures
        lacks(w + tail, c),
{
    let t = w + tail;
    assert forall|i: int| 0 <= i < t.len() implies #[trigger] t[i] != c by {
        if i < w.len() {
            assert(t[i] == w[i]);
        } else {
            assert(t[i] == tail[i - w.len()]);
        }
    }
}

/// A phrase that begins with a word and not with `every` or `hourly` counts no hours.
proof fn lemma_counts_no_hours(t: Seq<char>)
    requires
        t.len() > 0,
        t[0] != 'e',
        t[0] != 'h',
    ensures
        asked(t) == match clock_said(t) {
            Some(second) => if text::holds(t, "weekday"@) {
                Some(Schedule::Weekdays { at: Clock::of(second) })
            } else if let Some(day) = day_named(t) {
                Some(Schedule::Weekly { day, at: Clock::of(second) })
            } else if says_daily(t) {
                Some(Schedule::Daily { at: Clock::of(second) })
            } else {
                None
            },
            None => None,
        },
{
    reveal_strlit("every ");
    reveal_strlit("hourly");
    if text::starts(t, "every "@) {
        assert(t.take(6)[0] == t[0]);
    }
    if text::starts(t, "hourly"@) {
        assert(t.take(6)[0] == t[0]);
    }
}

/// A phrase with a capital in front is read as the same in small letters.
proof fn lemma_capital(capital: Seq<char>, small: Seq<char>, tail: Seq<char>)
    requires
        capital.len() == small.len(),
        capital.len() > 0,
        'A' <= capital[0] <= 'Z',
        forall|i: int|
            0 <= i < capital.len() ==> text::ascii_lower(#[trigger] capital[i]) == small[i]
                && (capital[i] as int) < 0x80,
        tail.len() > 0,
        !text::is_space(tail.last()),
        forall|i: int| 0 <= i < tail.len() ==> is_tail(#[trigger] tail[i]),
    ensures
        text::lowercase(text::trim(capital + tail)) == small + tail,
{
    let t = capital + tail;
    assert(t[0] == capital[0] && t.last() == tail.last());
    text::lemma_trim_unchanged(t);
    assert forall|i: int| 0 <= i < t.len() implies (#[trigger] t[i] as int) < 0x80
        && text::ascii_lower(t[i]) == (small + tail)[i] by {
        if i < capital.len() {
            assert(t[i] == capital[i]);
        } else {
            assert(t[i] == tail[i - capital.len()]);
        }
    }
    assert(vstd::utf8::is_ascii_chars(t));
    assert(text::lowercase(t) =~= small + tail);
}

/// Behind ` at ` stands a time, and nothing that could be taken for a day.
spec fn is_time(tail: Seq<char>, second: int) -> bool {
    &&& tail.len() > 4
    &&& tail.take(4) == " at "@
    &&& !text::is_space(tail.last())
    &&& forall|i: int| 0 <= i < tail.len() ==> is_tail(#[trigger] tail[i])
    &&& lacks(tail.skip(4), '.')
    &&& forall|i: int| 0 <= i < tail.skip(4).len() ==> !is_gap(#[trigger] tail.skip(4)[i])
    &&& word_says(tail.skip(4), Seq::empty()) == Word::Time(second)
    &&& 0 <= second < 86_400
}

proof fn lemma_said_at(w: Seq<char>, tail: Seq<char>, second: int)
    requires
        is_small_word(w),
        is_time(tail, second),
    ensures
        clock_said(w + tail) == Some(second),
        Clock::of(second).second() == second,
{
    lemma_time_behind_at(w, tail.skip(4));
    assert(tail =~= " at "@ + tail.skip(4));
    assert(w + tail =~= w + " at "@ + tail.skip(4));
    Clock::lemma_second(second);
}

proof fn lemma_tail_as_written(hour: int, minute: int)
    requires
        0 <= hour < 24,
        0 <= minute < 60,
    ensures
        is_time(" at "@ + as_written(hour, minute), hour * 3600 + minute * 60),
{
    reveal_strlit(" at ");
    reveal_strlit("am");
    reveal_strlit("pm");
    let none = Seq::<char>::empty();
    assert(bare_word(none) =~= none);
    lemma_as_written(hour, minute, none);
    let clock = as_written(hour, minute);
    let tail = " at "@ + clock;
    assert(tail.take(4) =~= " at "@);
    assert(tail.skip(4) =~= clock);
    assert(clock[0] as int == 0x30 + hour / 10 && clock[1] as int == 0x30 + hour % 10);
    assert(clock[3] as int == 0x30 + minute / 10 && clock[4] as int == 0x30 + minute % 10);
}

proof fn lemma_tail_half_day(hour: nat, afternoon: bool)
    requires
        1 <= hour <= 12,
    ensures
        !afternoon ==> is_time(
            " at "@ + text::decimal(hour) + "am"@,
            hour_of_day(hour as int, false) * 3600,
        ),
        afternoon ==> is_time(
            " at "@ + text::decimal(hour) + "pm"@,
            hour_of_day(hour as int, true) * 3600,
        ),
{
    reveal_strlit(" at ");
    reveal_strlit("am");
    reveal_strlit("pm");
    lemma_half_day(hour, afternoon);
    let d = text::decimal(hour);
    let suffix = if afternoon {
        "pm"@
    } else {
        "am"@
    };
    let tail = " at "@ + d + suffix;
    text::lemma_decimal(hour);
    assert(tail.take(4) =~= " at "@);
    assert(tail.skip(4) =~= d + suffix);
    assert(tail.last() == 'm');
    assert forall|i: int| 0 <= i < tail.len() implies is_tail(#[trigger] tail[i]) by {
        if 4 <= i < 4 + d.len() {
            assert(tail[i] == d[i - 4]);
        }
    }
}

proof fn lemma_monday(tail: Seq<char>, second: int)
    requires
        is_time(tail, second),
    ensures
        understood("Mondays"@ + tail) == Some(
            Schedule::Weekly { day: Weekday::Mon, at: Clock::of(second) },
        ),
{
    reveal_strlit("monday");
    reveal_strlit("mondays");
    reveal_strlit("Mondays");
    let w = seq!['m', 'o', 'n', 'd', 'a', 'y', 's'];
    assert("mondays"@ =~= w);
    let t = w + tail;
    lemma_said_at(w, tail, second);
    lemma_capital("Mondays"@, w, tail);
    lemma_counts_no_hours(t);
    assert(!text::holds(t, "weekday"@)) by {
        reveal_strlit("weekday");
        assert("weekday"@[0] == 'w');
        lemma_phrase_lacks(w, tail, 'w');
        lemma_lacks(t, "weekday"@, 'w');
    }
    assert(t.subrange(0, 6) =~= "monday"@);
    assert(text::stands_at(t, "monday"@, 0));
}

proof fn lemma_tuesday(tail: Seq<char>, second: int)
    requires
        is_time(tail, second),
    ensures
        understood("Tuesdays"@ + tail) == Some(
            Schedule::Weekly { day: Weekday::Tue, at: Clock::of(second) },
        ),
{
    reveal_strlit("tuesday");
    reveal_strlit("tuesdays");
    reveal_strlit("Tuesdays");
    let w = seq!['t', 'u', 'e', 's', 'd', 'a', 'y', 's'];
    assert("tuesdays"@ =~= w);
    let t = w + tail;
    lemma_said_at(w, tail, second);
    lemma_capital("Tuesdays"@, w, tail);
    lemma_counts_no_hours(t);
    assert(!text::holds(t, "weekday"@)) by {
        reveal_strlit("weekday");
        assert("weekday"@[0] == 'w');
        lemma_phrase_lacks(w, tail, 'w');
        lemma_lacks(t, "weekday"@, 'w');
    }
    assert(!text::holds(t, "monday"@)) by {
        reveal_strlit("monday");
        assert("monday"@[1] == 'o');
        lemma_phrase_lacks(w, tail, 'o');
        lemma_lacks(t, "monday"@, 'o');
    }
    assert(t.subrange(0, 7) =~= "tuesday"@);
    assert(text::stands_at(t, "tuesday"@, 0));
}

proof fn lemma_wednesday(tail: Seq<char>, second: int)
    requires
        is_time(tail, second),
    ensures
        understood("Wednesdays"@ + tail) == Some(
            Schedule::Weekly { day: Weekday::Wed, at: Clock::of(second) },
        ),
{
    reveal_strlit("wednesday");
    reveal_strlit("wednesdays");
    reveal_strlit("Wednesdays");
    let w = seq!['w', 'e', 'd', 'n', 'e', 's', 'd', 'a', 'y', 's'];
    assert("wednesdays"@ =~= w);
    let t = w + tail;
    lemma_said_at(w, tail, second);
    lemma_capital("Wednesdays"@, w, tail);
    lemma_counts_no_hours(t);
    assert(!text::holds(t, "weekday"@)) by {
        reveal_strlit("weekday");
        assert("weekday"@[3] == 'k');
        lemma_phrase_lacks(w, tail, 'k');
        lemma_lacks(t, "weekday"@, 'k');
    }
    assert(!text::holds(t, "monday"@)) by {
        reveal_strlit("monday");
        assert("monday"@[1] == 'o');
        lemma_phrase_lacks(w, tail, 'o');
        lemma_lacks(t, "monday"@, 'o');
    }
    assert(!text::holds(t, "tuesday"@)) by {
        reveal_strlit("tuesday");
        assert("tuesday"@[1] == 'u');
        lemma_phrase_lacks(w, tail, 'u');
        lemma_lacks(t, "tuesday"@, 'u');
    }
    assert(t.subrange(0, 9) =~= "wednesday"@);
    assert(text::stands_at(t, "wednesday"@, 0));
}

proof fn lemma_thursday(tail: Seq<char>, second: int)
    requires
        is_time(tail, second),
    ensures
        understood("Thursdays"@ + tail) == Some(
            Schedule::Weekly { day: Weekday::Thu, at: Clock::of(second) },
        ),
{
    reveal_strlit("thursday");
    reveal_strlit("thursdays");
    reveal_strlit("Thursdays");
    let w = seq!['t', 'h', 'u', 'r', 's', 'd', 'a', 'y', 's'];
    assert("thursdays"@ =~= w);
    let t = w + tail;
    lemma_said_at(w, tail, second);
    lemma_capital("Thursdays"@, w, tail);
    lemma_counts_no_hours(t);
    assert(!text::holds(t, "weekday"@)) by {
        reveal_strlit("weekday");
        assert("weekday"@[0] == 'w');
        lemma_phrase_lacks(w, tail, 'w');
        lemma_lacks(t, "weekday"@, 'w');
    }
    assert(!text::holds(t, "monday"@)) by {
        reveal_strlit("monday");
        assert("monday"@[1] == 'o');
        lemma_phrase_lacks(w, tail, 'o');
        lemma_lacks(t, "monday"@, 'o');
    }
    assert(!text::holds(t, "tuesday"@)) by {
        reveal_strlit("tuesday");
        assert("tuesday"@[2] == 'e');
        lemma_phrase_lacks(w, tail, 'e');
        lemma_lacks(t, "tuesday"@, 'e');
    }
    assert(!text::holds(t, "wednesday"@)) by {
        reveal_strlit("wednesday");
        assert("wednesday"@[0] == 'w');
        lemma_phrase_lacks(w, tail, 'w');
        lemma_lacks(t, "wednesday"@, 'w');
    }
    assert(t.subrange(0, 8) =~= "thursday"@);
    assert(text::stands_at(t, "thursday"@, 0));
}

proof fn lemma_friday(tail: Seq<char>, second: int)
    requires
        is_time(tail, second),
    ensures
        understood("Fridays"@ + tail) == Some(
            Schedule::Weekly { day: Weekday::Fri, at: Clock::of(second) },
        ),
{
    reveal_strlit("friday");
    reveal_strlit("fridays");
    reveal_strlit("Fridays");
    let w = seq!['f', 'r', 'i', 'd', 'a', 'y', 's'];
    assert("fridays"@ =~= w);
    let t = w + tail;
    lemma_said_at(w, tail, second);
    lemma_capital("Fridays"@, w, tail);
    lemma_counts_no_hours(t);
    assert(!text::holds(t, "weekday"@)) by {
        reveal_strlit("weekday");
        assert("weekday"@[0] == 'w');
        lemma_phrase_lacks(w, tail, 'w');
        lemma_lacks(t, "weekday"@, 'w');
    }
    assert(!text::holds(t, "monday"@)) by {
        reveal_strlit("monday");
        assert("monday"@[1] == 'o');
        lemma_phrase_lacks(w, tail, 'o');
        lemma_lacks(t, "monday"@, 'o');
    }
    assert(!text::holds(t, "tuesday"@)) by {
        reveal_strlit("tuesday");
        assert("tuesday"@[1] == 'u');
        lemma_phrase_lacks(w, tail, 'u');
        lemma_lacks(t, "tuesday"@, 'u');
    }
    assert(!text::holds(t, "wednesday"@)) by {
        reveal_strlit("wednesday");
        assert("wednesday"@[0] == 'w');
        lemma_phrase_lacks(w, tail, 'w');
        lemma_lacks(t, "wednesday"@, 'w');
    }
    assert(!text::holds(t, "thursday"@)) by {
        reveal_strlit("thursday");
        assert("thursday"@[1] == 'h');
        lemma_phrase_lacks(w, tail, 'h');
        lemma_lacks(t, "thursday"@, 'h');
    }
    assert(t.subrange(0, 6) =~= "friday"@);
    assert(text::stands_at(t, "friday"@, 0));
}

proof fn lemma_saturday(tail: Seq<char>, second: int)
    requires
        is_time(tail, second),
    ensures
        understood("Saturdays"@ + tail) == Some(
            Schedule::Weekly { day: Weekday::Sat, at: Clock::of(second) },
        ),
{
    reveal_strlit("saturday");
    reveal_strlit("saturdays");
    reveal_strlit("Saturdays");
    let w = seq!['s', 'a', 't', 'u', 'r', 'd', 'a', 'y', 's'];
    assert("saturdays"@ =~= w);
    let t = w + tail;
    lemma_said_at(w, tail, second);
    lemma_capital("Saturdays"@, w, tail);
    lemma_counts_no_hours(t);
    assert(!text::holds(t, "weekday"@)) by {
        reveal_strlit("weekday");
        assert("weekday"@[0] == 'w');
        lemma_phrase_lacks(w, tail, 'w');
        lemma_lacks(t, "weekday"@, 'w');
    }
    assert(!text::holds(t, "monday"@)) by {
        reveal_strlit("monday");
        assert("monday"@[1] == 'o');
        lemma_phrase_lacks(w, tail, 'o');
        lemma_lacks(t, "monday"@, 'o');
    }
    assert(!text::holds(t, "tuesday"@)) by {
        reveal_strlit("tuesday");
        assert("tuesday"@[2] == 'e');
        lemma_phrase_lacks(w, tail, 'e');
        lemma_lacks(t, "tuesday"@, 'e');
    }
    assert(!text::holds(t, "wednesday"@)) by {
        reveal_strlit("wednesday");
        assert("wednesday"@[0] == 'w');
        lemma_phrase_lacks(w, tail, 'w');
        lemma_lacks(t, "wednesday"@, 'w');
    }
    assert(!text::holds(t, "thursday"@)) by {
        reveal_strlit("thursday");
        assert("thursday"@[1] == 'h');
        lemma_phrase_lacks(w, tail, 'h');
        lemma_lacks(t, "thursday"@, 'h');
    }
    assert(!text::holds(t, "friday"@)) by {
        reveal_strlit("friday");
        assert("friday"@[0] == 'f');
        lemma_phrase_lacks(w, tail, 'f');
        lemma_lacks(t, "friday"@, 'f');
    }
    assert(t.subrange(0, 8) =~= "saturday"@);
    assert(text::stands_at(t, "saturday"@, 0));
}

proof fn lemma_sunday(tail: Seq<char>, second: int)
    requires
        is_time(tail, second),
    ensures
        understood("Sundays"@ + tail) == Some(
            Schedule::Weekly { day: Weekday::Sun, at: Clock::of(second) },
        ),
{
    reveal_strlit("sunday");
    reveal_strlit("sundays");
    reveal_strlit("Sundays");
    let w = seq!['s', 'u', 'n', 'd', 'a', 'y', 's'];
    assert("sundays"@ =~= w);
    let t = w + tail;
    lemma_said_at(w, tail, second);
    lemma_capital("Sundays"@, w, tail);
    lemma_counts_no_hours(t);
    assert(!text::holds(t, "weekday"@)) by {
        reveal_strlit("weekday");
        assert("weekday"@[0] == 'w');
        lemma_phrase_lacks(w, tail, 'w');
        lemma_lacks(t, "weekday"@, 'w');
    }
    assert(!text::holds(t, "monday"@)) by {
        reveal_strlit("monday");
        assert("monday"@[1] == 'o');
        lemma_phrase_lacks(w, tail, 'o');
        lemma_lacks(t, "monday"@, 'o');
    }
    assert(!text::holds(t, "tuesday"@)) by {
        reveal_strlit("tuesday");
        assert("tuesday"@[2] == 'e');
        lemma_phrase_lacks(w, tail, 'e');
        lemma_lacks(t, "tuesday"@, 'e');
    }
    assert(!text::holds(t, "wednesday"@)) by {
        reveal_strlit("wednesday");
        assert("wednesday"@[0] == 'w');
        lemma_phrase_lacks(w, tail, 'w');
        lemma_lacks(t, "wednesday"@, 'w');
    }
    assert(!text::holds(t, "thursday"@)) by {
        reveal_strlit("thursday");
        assert("thursday"@[1] == 'h');
        lemma_phrase_lacks(w, tail, 'h');
        lemma_lacks(t, "thursday"@, 'h');
    }
    assert(!text::holds(t, "friday"@)) by {
        reveal_strlit("friday");
        assert("friday"@[0] == 'f');
        lemma_phrase_lacks(w, tail, 'f');
        lemma_lacks(t, "friday"@, 'f');
    }
    assert(!text::holds(t, "saturday"@)) by {
        reveal_strlit("saturday");
        assert("saturday"@[4] == 'r');
        lemma_phrase_lacks(w, tail, 'r');
        lemma_lacks(t, "saturday"@, 'r');
    }
    assert(t.subrange(0, 6) =~= "sunday"@);
    assert(text::stands_at(t, "sunday"@, 0));
}

/// A day by its English name, and a time: every week on that day, at that time.
pub proof fn a_day_by_its_name_is_that_day(hour: int, minute: int)
    requires
        0 <= hour < 24,
        0 <= minute < 60,
    ensures
        means_weekly(
            understood("Mondays"@ + (" at "@ + as_written(hour, minute))),
            Weekday::Mon,
            hour,
            minute,
        ),
        means_weekly(
            understood("Tuesdays"@ + (" at "@ + as_written(hour, minute))),
            Weekday::Tue,
            hour,
            minute,
        ),
        means_weekly(
            understood("Wednesdays"@ + (" at "@ + as_written(hour, minute))),
            Weekday::Wed,
            hour,
            minute,
        ),
        means_weekly(
            understood("Thursdays"@ + (" at "@ + as_written(hour, minute))),
            Weekday::Thu,
            hour,
            minute,
        ),
        means_weekly(
            understood("Fridays"@ + (" at "@ + as_written(hour, minute))),
            Weekday::Fri,
            hour,
            minute,
        ),
        means_weekly(
            understood("Saturdays"@ + (" at "@ + as_written(hour, minute))),
            Weekday::Sat,
            hour,
            minute,
        ),
        means_weekly(
            understood("Sundays"@ + (" at "@ + as_written(hour, minute))),
            Weekday::Sun,
            hour,
            minute,
        ),
{
    let tail = " at "@ + as_written(hour, minute);
    let second = hour * 3600 + minute * 60;
    lemma_tail_as_written(hour, minute);
    lemma_monday(tail, second);
    lemma_tuesday(tail, second);
    lemma_wednesday(tail, second);
    lemma_thursday(tail, second);
    lemma_friday(tail, second);
    lemma_saturday(tail, second);
    lemma_sunday(tail, second);
    Clock::lemma_second(second);
}

/// A day by its name, and an hour of the morning: the twelfth is midnight.
pub proof fn a_morning_hour_is_before_noon(hour: nat)
    requires
        1 <= hour <= 12,
    ensures
        means_weekly(
            understood("Mondays"@ + (" at "@ + text::decimal(hour) + "am"@)),
            Weekday::Mon,
            hour_of_day(hour as int, false),
            0,
        ),
        means_weekly(
            understood("Tuesdays"@ + (" at "@ + text::decimal(hour) + "am"@)),
            Weekday::Tue,
            hour_of_day(hour as int, false),
            0,
        ),
        means_weekly(
            understood("Wednesdays"@ + (" at "@ + text::decimal(hour) + "am"@)),
            Weekday::Wed,
            hour_of_day(hour as int, false),
            0,
        ),
        means_weekly(
            understood("Thursdays"@ + (" at "@ + text::decimal(hour) + "am"@)),
            Weekday::Thu,
            hour_of_day(hour as int, false),
            0,
        ),
        means_weekly(
            understood("Fridays"@ + (" at "@ + text::decimal(hour) + "am"@)),
            Weekday::Fri,
            hour_of_day(hour as int, false),
            0,
        ),
        means_weekly(
            understood("Saturdays"@ + (" at "@ + text::decimal(hour) + "am"@)),
            Weekday::Sat,
            hour_of_day(hour as int, false),
            0,
        ),
        means_weekly(
            understood("Sundays"@ + (" at "@ + text::decimal(hour) + "am"@)),
            Weekday::Sun,
            hour_of_day(hour as int, false),
            0,
        ),
{
    let tail = " at "@ + text::decimal(hour) + "am"@;
    let second = hour_of_day(hour as int, false) * 3600;
    lemma_tail_half_day(hour, false);
    lemma_monday(tail, second);
    lemma_tuesday(tail, second);
    lemma_wednesday(tail, second);
    lemma_thursday(tail, second);
    lemma_friday(tail, second);
    lemma_saturday(tail, second);
    lemma_sunday(tail, second);
    Clock::lemma_second(second);
}

/// A day by its name, and an hour of the afternoon: the twelfth is noon.
pub proof fn an_afternoon_hour_is_after_noon(hour: nat)
    requires
        1 <= hour <= 12,
    ensures
        means_weekly(
            understood("Mondays"@ + (" at "@ + text::decimal(hour) + "pm"@)),
            Weekday::Mon,
            hour_of_day(hour as int, true),
            0,
        ),
        means_weekly(
            understood("Tuesdays"@ + (" at "@ + text::decimal(hour) + "pm"@)),
            Weekday::Tue,
            hour_of_day(hour as int, true),
            0,
        ),
        means_weekly(
            understood("Wednesdays"@ + (" at "@ + text::decimal(hour) + "pm"@)),
            Weekday::Wed,
            hour_of_day(hour as int, true),
            0,
        ),
        means_weekly(
            understood("Thursdays"@ + (" at "@ + text::decimal(hour) + "pm"@)),
            Weekday::Thu,
            hour_of_day(hour as int, true),
            0,
        ),
        means_weekly(
            understood("Fridays"@ + (" at "@ + text::decimal(hour) + "pm"@)),
            Weekday::Fri,
            hour_of_day(hour as int, true),
            0,
        ),
        means_weekly(
            understood("Saturdays"@ + (" at "@ + text::decimal(hour) + "pm"@)),
            Weekday::Sat,
            hour_of_day(hour as int, true),
            0,
        ),
        means_weekly(
            understood("Sundays"@ + (" at "@ + text::decimal(hour) + "pm"@)),
            Weekday::Sun,
            hour_of_day(hour as int, true),
            0,
        ),
{
    let tail = " at "@ + text::decimal(hour) + "pm"@;
    let second = hour_of_day(hour as int, true) * 3600;
    lemma_tail_half_day(hour, true);
    lemma_monday(tail, second);
    lemma_tuesday(tail, second);
    lemma_wednesday(tail, second);
    lemma_thursday(tail, second);
    lemma_friday(tail, second);
    lemma_saturday(tail, second);
    lemma_sunday(tail, second);
    Clock::lemma_second(second);
}

proof fn lemma_daily(tail: Seq<char>, second: int)
    requires
        is_time(tail, second),
    ensures
        understood("Daily"@ + tail) == Some(Schedule::Daily { at: Clock::of(second) }),
{
    reveal_strlit("Daily");
    reveal_strlit("daily");
    let w = seq!['d', 'a', 'i', 'l', 'y'];
    let t = w + tail;
    lemma_said_at(w, tail, second);
    lemma_capital("Daily"@, w, tail);
    lemma_counts_no_hours(t);
    assert(!text::holds(t, "weekday"@)) by {
        reveal_strlit("weekday");
        assert("weekday"@[0] == 'w');
        lemma_phrase_lacks(w, tail, 'w');
        lemma_lacks(t, "weekday"@, 'w');
    }
    assert(!text::holds(t, "monday"@)) by {
        reveal_strlit("monday");
        assert("monday"@[1] == 'o');
        lemma_phrase_lacks(w, tail, 'o');
        lemma_lacks(t, "monday"@, 'o');
    }
    assert(!text::holds(t, "tuesday"@)) by {
        reveal_strlit("tuesday");
        assert("tuesday"@[1] == 'u');
        lemma_phrase_lacks(w, tail, 'u');
        lemma_lacks(t, "tuesday"@, 'u');
    }
    assert(!text::holds(t, "wednesday"@)) by {
        reveal_strlit("wednesday");
        assert("wednesday"@[0] == 'w');
        lemma_phrase_lacks(w, tail, 'w');
        lemma_lacks(t, "wednesday"@, 'w');
    }
    assert(!text::holds(t, "thursday"@)) by {
        reveal_strlit("thursday");
        assert("thursday"@[1] == 'h');
        lemma_phrase_lacks(w, tail, 'h');
        lemma_lacks(t, "thursday"@, 'h');
    }
    assert(!text::holds(t, "friday"@)) by {
        reveal_strlit("friday");
        assert("friday"@[0] == 'f');
        lemma_phrase_lacks(w, tail, 'f');
        lemma_lacks(t, "friday"@, 'f');
    }
    assert(!text::holds(t, "saturday"@)) by {
        reveal_strlit("saturday");
        assert("saturday"@[0] == 's');
        lemma_phrase_lacks(w, tail, 's');
        lemma_lacks(t, "saturday"@, 's');
    }
    assert(!text::holds(t, "sunday"@)) by {
        reveal_strlit("sunday");
        assert("sunday"@[0] == 's');
        lemma_phrase_lacks(w, tail, 's');
        lemma_lacks(t, "sunday"@, 's');
    }
    assert(t.subrange(0, 5) =~= "daily"@);
    assert(text::stands_at(t, "daily"@, 0));
}

proof fn lemma_weekdays(tail: Seq<char>, second: int)
    requires
        is_time(tail, second),
    ensures
        understood("Weekdays"@ + tail) == Some(Schedule::Weekdays { at: Clock::of(second) }),
{
    reveal_strlit("weekday");
    reveal_strlit("Weekdays");
    let w = seq!['w', 'e', 'e', 'k', 'd', 'a', 'y', 's'];
    let t = w + tail;
    lemma_said_at(w, tail, second);
    lemma_capital("Weekdays"@, w, tail);
    lemma_counts_no_hours(t);
    assert(t.subrange(0, 7) =~= "weekday"@);
    assert(text::stands_at(t, "weekday"@, 0));
}

/// `Daily` and `Weekdays` are what they say, at the time that they say.
pub proof fn every_day_and_weekdays_are_what_they_say(hour: int, minute: int)
    requires
        0 <= hour < 24,
        0 <= minute < 60,
    ensures
        means_daily(understood("Daily"@ + (" at "@ + as_written(hour, minute))), hour, minute),
        means_weekdays(
            understood("Weekdays"@ + (" at "@ + as_written(hour, minute))),
            hour,
            minute,
        ),
{
    let tail = " at "@ + as_written(hour, minute);
    let second = hour * 3600 + minute * 60;
    lemma_tail_as_written(hour, minute);
    Clock::lemma_second(second);
    lemma_daily(tail, second);
    lemma_weekdays(tail, second);
}

/// A number of hours is that number, from one hour to a day.
pub proof fn hours_are_counted_as_said(n: nat)
    requires
        n <= u32::MAX,
    ensures
        understood("every "@ + text::decimal(n) + " hours"@) == Some(
            Schedule::Hours {
                hours: if n < 1 {
                    1
                } else if n > 24 {
                    24
                } else {
                    n as u32
                },
            },
        ),
{
    reveal_strlit("every ");
    reveal_strlit(" hours");
    reveal_strlit("hour");
    reveal_strlit("hourly");
    let d = text::decimal(n);
    let t = "every "@ + d + " hours"@;
    text::a_decimal_reads_back(n);
    assert(text::is_digit(d[0]));
    assert(t[0] == 'e' && t.last() == 's');
    text::lemma_trim_unchanged(t);
    assert forall|i: int| 0 <= i < t.len() implies (#[trigger] t[i] as int) < 0x80
        && text::ascii_lower(t[i]) == t[i] by {
        if 6 <= i < 6 + d.len() {
            assert(t[i] == d[i - 6]);
            assert(text::is_digit(d[i - 6]));
        }
    }
    assert(vstd::utf8::is_ascii_chars(t));
    assert(text::lowercase(t) =~= t);
    if text::starts(t, "hourly"@) {
        assert(t.take(6)[0] == t[0]);
    }
    assert(t.take(6) =~= "every "@);
    let rest = d + " hours"@;
    assert(t.skip(6) =~= rest);
    assert(rest[0] == d[0] && rest.last() == 's');
    text::lemma_trim_unchanged(rest);
    if text::starts(rest, "hour"@) {
        assert(rest.take(4)[0] == rest[0]);
    }
    let k = d.len() as int;
    assert forall|i: int| 0 <= i < k implies !text::is_space(#[trigger] rest[i]) by {
        assert(rest[i] == d[i]);
        assert(text::is_digit(d[i]));
    }
    lemma_next_space_is(rest, 0, k);
    assert(rest.take(k) =~= d);
    let behind = rest.skip(k);
    assert(behind =~= " hours"@);
    let word = behind.drop_first();
    assert(word[0] == 'h');
    assert(text::trim_start(behind) == word) by {
        assert(text::trim_start(word) == word);
    }
    assert(word.take(4) =~= "hour"@);
}

proof fn lemma_next_space_is(s: Seq<char>, from: int, at: int)
    requires
        0 <= from <= at < s.len(),
        forall|i: int| from <= i < at ==> !text::is_space(#[trigger] s[i]),
        text::is_space(s[at]),
    ensures
        text::next_space(s, from) == at,
    decreases at - from,
{
    if from < at {
        lemma_next_space_is(s, from + 1, at);
    }
}

/// A schedule by the week runs on its day, and one by the working week from Monday to
/// Friday, where the first day of the calendar is a Thursday.
pub proof fn a_schedule_runs_on_its_days(at: Clock, day: int)
    ensures
        (Schedule::Daily { at }).runs_on(day),
        (Schedule::Weekdays { at }).runs_on(day) <==> (day + 3) % 7 < 5,
        (Schedule::Weekly { day: Weekday::Mon, at }).runs_on(day) <==> (day + 3) % 7 == 0,
        (Schedule::Weekly { day: Weekday::Tue, at }).runs_on(day) <==> (day + 3) % 7 == 1,
        (Schedule::Weekly { day: Weekday::Wed, at }).runs_on(day) <==> (day + 3) % 7 == 2,
        (Schedule::Weekly { day: Weekday::Thu, at }).runs_on(day) <==> (day + 3) % 7 == 3,
        (Schedule::Weekly { day: Weekday::Fri, at }).runs_on(day) <==> (day + 3) % 7 == 4,
        (Schedule::Weekly { day: Weekday::Sat, at }).runs_on(day) <==> (day + 3) % 7 == 5,
        (Schedule::Weekly { day: Weekday::Sun, at }).runs_on(day) <==> (day + 3) % 7 == 6,
{
}

/// A schedule by the day runs at its time of day, and one by the hour every so many hours,
/// at least one and at most a day.
pub proof fn a_schedule_runs_at_its_time(day: Weekday, at: Clock, hours: u32)
    ensures
        (Schedule::Daily { at }).second() == at.second(),
        (Schedule::Weekdays { at }).second() == at.second(),
        (Schedule::Weekly { day, at }).second() == at.second(),
        1 <= hours <= 24 ==> hour_step(hours) == hours,
        hours == 0 ==> hour_step(hours) == 1,
        hours > 24 ==> hour_step(hours) == 24,
{
}

/// How late an occurrence is decides what it is: a regular one for two minutes, a late one
/// for twenty, a recovered one behind that. An owner that wants it on time does not get a
/// recovered one, one that wants it the same day gets it on its date alone, and one that
/// wants it whenever always gets it.
pub proof fn lateness_decides(m: Moment, now: Moment, recovery: Recovery)
    ensures
        ({
            let behind = now.instant() - m.instant();
            let runs = match recovery {
                Recovery::OnTime => behind <= 1_200_000_000_000,
                Recovery::SameDay => now.day() == m.day(),
                Recovery::Whenever => true,
            };
            let why = if behind < 120_000_000_000 {
                Due::Regular
            } else if behind <= 1_200_000_000_000 {
                Due::Late
            } else {
                Due::Recovered
            };
            &&& runs ==> Schedule::verdict(Some(m), now, recovery) == Some((why, m))
            &&& !runs ==> Schedule::verdict(Some(m), now, recovery) is None
            &&& Schedule::verdict(None, now, recovery) is None
        }),
{
}

/// A time of day reads as its hour and its minute.
proof fn lemma_face(hour: int, minute: int)
    requires
        0 <= hour < 24,
        0 <= minute < 60,
    ensures
        face(hour * 3600 + minute * 60) == as_written(hour, minute),
{
    reveal_strlit(":");
    let second = hour * 3600 + minute * 60;
    assert(second / 3600 == hour);
    assert(second / 60 % 60 == minute);
    assert(face(second) =~= as_written(hour, minute));
}

/// A schedule reads as what it is: its days, and its time to the minute. What a schedule
/// by the day or the hour reads as is understood as that schedule.
pub proof fn a_schedule_reads_as_what_it_is(at: Clock, hour: int, minute: int, hours: u32)
    requires
        0 <= hour < 24,
        0 <= minute < 60,
        at.second() == hour * 3600 + minute * 60,
        1 <= hours <= 24,
    ensures
        means_daily(understood((Schedule::Daily { at }).sentence()), hour, minute),
        means_weekdays(understood((Schedule::Weekdays { at }).sentence()), hour, minute),
        (Schedule::Weekly { day: Weekday::Mon, at }).sentence() == "Mon"@ + "s at "@ + as_written(
            hour,
            minute,
        ),
        (Schedule::Weekly { day: Weekday::Tue, at }).sentence() == "Tue"@ + "s at "@ + as_written(
            hour,
            minute,
        ),
        (Schedule::Weekly { day: Weekday::Wed, at }).sentence() == "Wed"@ + "s at "@ + as_written(
            hour,
            minute,
        ),
        (Schedule::Weekly { day: Weekday::Thu, at }).sentence() == "Thu"@ + "s at "@ + as_written(
            hour,
            minute,
        ),
        (Schedule::Weekly { day: Weekday::Fri, at }).sentence() == "Fri"@ + "s at "@ + as_written(
            hour,
            minute,
        ),
        (Schedule::Weekly { day: Weekday::Sat, at }).sentence() == "Sat"@ + "s at "@ + as_written(
            hour,
            minute,
        ),
        (Schedule::Weekly { day: Weekday::Sun, at }).sentence() == "Sun"@ + "s at "@ + as_written(
            hour,
            minute,
        ),
        (Schedule::Hours { hours: 1 }).sentence() == "Every hour"@,
        hours > 1 ==> (Schedule::Hours { hours }).sentence() == "Every "@ + text::decimal(
            hours as nat,
        ) + " hours"@,
{
    lemma_face(hour, minute);
    let clock = as_written(hour, minute);
    assert("Daily at "@ + clock == "Daily"@ + (" at "@ + clock)) by {
        lemma_behind_at(clock);
    }
    assert("Weekdays at "@ + clock == "Weekdays"@ + (" at "@ + clock)) by {
        lemma_behind_at(clock);
    }
    every_day_and_weekdays_are_what_they_say(hour, minute);
}

proof fn lemma_behind_at(clock: Seq<char>)
    ensures
        "Daily at "@ + clock == "Daily"@ + (" at "@ + clock),
        "Weekdays at "@ + clock == "Weekdays"@ + (" at "@ + clock),
{
    reveal_strlit("Daily at ");
    reveal_strlit("Daily");
    reveal_strlit(" at ");
    reveal_strlit("Weekdays at ");
    reveal_strlit("Weekdays");
    assert("Daily at "@ =~= "Daily"@ + " at "@);
    assert("Weekdays at "@ =~= "Weekdays"@ + " at "@);
    assert("Daily at "@ + clock =~= "Daily"@ + (" at "@ + clock));
    assert("Weekdays at "@ + clock =~= "Weekdays"@ + (" at "@ + clock));
}

/// A run is told when it was for, and that it is late only where it is.
pub proof fn a_run_is_told_when_it_was_for(when: Seq<char>)
    ensures
        preamble_text(Due::Regular, when) == "This is a scheduled run for "@ + when
            + RUN_REGULAR@,
        preamble_text(Due::Late, when) == "This is a scheduled run for "@ + when + RUN_LATE@,
        preamble_text(Due::Recovered, when) == "This is a scheduled run for "@ + when
            + RUN_RECOVERED@,
{
}

proof fn lemma_meridiem_is(s: Seq<char>, from: int, at: int)
    requires
        0 <= from <= at <= s.len(),
        forall|i: int| from <= i < at ==> s[i] != 'a' && s[i] != 'p',
        at < s.len() ==> s[at] == 'a' || s[at] == 'p',
    ensures
        meridiem(s, from) == at,
    decreases at - from,
{
    if from < at {
        lemma_meridiem_is(s, from + 1, at);
    }
}

/// An hour and a minute in a half of the day is that time: the minutes are counted in
/// either half, and the twelfth hour comes first. Without a half, the hours run through the
/// day; and there is no hour nor minute beyond the last.
pub proof fn minutes_count_in_either_half(hour: nat, minute: nat)
    ensures
        1 <= hour <= 12 && minute < 60 ==> {
            &&& hour_and_minute(hour, minute, "am"@, true) == Word::Time(
                (hour % 12) as int * 3600 + minute * 60,
            )
            &&& hour_and_minute(hour, minute, "pm"@, true) == Word::Time(
                (hour % 12 + 12) as int * 3600 + minute * 60,
            )
        },
        hour < 24 && minute < 60 ==> hour_and_minute(hour, minute, Seq::empty(), true)
            == Word::Time(hour as int * 3600 + minute * 60),
        hour >= 24 || minute >= 60 ==> hour_and_minute(hour, minute, Seq::empty(), true)
            == Word::Nothing,
{
    reveal_strlit("am");
    reveal_strlit("pm");
}

/// A word is the time that its digits say: the hour in front of the colon, the minute behind
/// it, and the half of the day at its end or in the next word.
pub proof fn a_word_is_the_time_its_digits_say(
    hour: Seq<char>,
    minute: Seq<char>,
    h: nat,
    m: nat,
)
    requires
        text::number(hour, u32::MAX as nat) == Some(h),
        text::number(minute, u32::MAX as nat) == Some(m),
        hour.len() > 0,
        minute.len() > 0,
        forall|i: int| 0 <= i < hour.len() ==> text::is_digit(#[trigger] hour[i]),
        forall|i: int| 0 <= i < minute.len() ==> text::is_digit(#[trigger] minute[i]),
    ensures
        word_says(hour + ":"@ + minute + "pm"@, Seq::empty()) == hour_and_minute(
            h,
            m,
            "pm"@,
            true,
        ),
        word_says(hour + ":"@ + minute + "am"@, Seq::empty()) == hour_and_minute(
            h,
            m,
            "am"@,
            true,
        ),
        word_says(hour + ":"@ + minute, "pm"@) == hour_and_minute(h, m, "pm"@, true),
        word_says(hour + ":"@ + minute, "am"@) == hour_and_minute(h, m, "am"@, true),
{
    reveal_strlit(":");
    reveal_strlit("am");
    reveal_strlit("pm");
    let digits = hour + ":"@ + minute;
    lemma_digits_with_half(hour, minute, "pm"@);
    lemma_digits_with_half(hour, minute, "am"@);
    lemma_digits_with_half(hour, minute, Seq::empty());
    assert(digits + Seq::<char>::empty() =~= digits);
    assert(bare_word("pm"@) == "pm"@) by {
        assert("pm"@[0] == 'p' && "pm"@.last() == 'm');
    }
    assert(bare_word("am"@) == "am"@) by {
        assert("am"@[0] == 'a' && "am"@.last() == 'm');
    }
}

proof fn lemma_digits_with_half(hour: Seq<char>, minute: Seq<char>, half: Seq<char>)
    requires
        hour.len() > 0,
        minute.len() > 0,
        forall|i: int| 0 <= i < hour.len() ==> text::is_digit(#[trigger] hour[i]),
        forall|i: int| 0 <= i < minute.len() ==> text::is_digit(#[trigger] minute[i]),
        half.len() == 0 || (half.len() == 2 && (half[0] == 'a' || half[0] == 'p') && half[1]
            == 'm'),
    ensures
        ({
            let digits = hour + ":"@ + minute;
            let t = digits + half;
            &&& bare_word(t) == t
            &&& meridiem(t, 0) == digits.len()
            &&& t.take(digits.len() as int) == digits
            &&& t.skip(digits.len() as int) == half
            &&& text::next(digits, ':', 0) == hour.len()
            &&& digits.take(hour.len() as int) == hour
            &&& digits.skip(hour.len() as int + 1) == minute
        }),
{
    reveal_strlit(":");
    let digits = hour + ":"@ + minute;
    let t = digits + half;
    assert(t[0] == hour[0]);
    assert(t.last() == if half.len() == 0 {
        minute[minute.len() - 1]
    } else {
        'm'
    });
    assert(bare_front(t) == t);
    assert(bare_back(t) == t);
    assert forall|i: int| 0 <= i < digits.len() implies t[i] != 'a' && t[i] != 'p' by {
        if i < hour.len() {
            assert(t[i] == hour[i]);
        } else if i > hour.len() {
            assert(t[i] == minute[i - hour.len() - 1]);
        }
    }
    assert(half.len() > 0 ==> t[digits.len() as int] == half[0]);
    lemma_meridiem_is(t, 0, digits.len() as int);
    assert(t.take(digits.len() as int) =~= digits);
    assert(t.skip(digits.len() as int) =~= half);
    assert forall|i: int| 0 <= i < hour.len() implies digits[i] != ':' by {
        assert(digits[i] == hour[i]);
    }
    text::lemma_next_is(digits, ':', 0, hour.len() as int);
    assert(digits.take(hour.len() as int) =~= hour);
    assert(digits.skip(hour.len() as int + 1) =~= minute);
}

} // verus!
