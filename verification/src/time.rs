//! Moments, days and times of day, and what the machine's clock and calendar
//! say of them.

use chrono::{DateTime, Local, LocalResult, NaiveDate, NaiveTime, TimeZone};
use vstd::prelude::*;

verus! {

pub const DAY: i64 = 86_400;

/// How far from the epoch a day may be, in either direction.
pub const LAST_DAY: i64 = 95_000_000;

/// The first and the last day that the calendar has, about 262,000 years before
/// and after the first.
pub const FIRST_DAY: i64 = -96_465_292;

pub const FINAL_DAY: i64 = 95_026_236;

/// An instant, and the offset from UTC, in seconds, that the local clock has at
/// it.
#[derive(Debug, Clone, Copy, PartialEq, Eq, Structural)]
pub struct Moment {
    /// Whole seconds since the start of 1970, UTC.
    pub seconds: i64,
    /// Nanoseconds into the second.
    pub nanos: u32,
    pub offset: i32,
}

impl Moment {
    /// Nanoseconds since the start of 1970, UTC.
    pub open spec fn instant(self) -> int {
        self.seconds * 1_000_000_000 + self.nanos
    }

    /// What the local clock reads, as whole seconds since the start of 1970.
    pub open spec fn wall(self) -> int {
        self.seconds + self.offset
    }

    /// The local date, as the number of days since the start of 1970.
    pub open spec fn day(self) -> int {
        self.wall() / DAY as int
    }

    /// The nanoseconds make no second, the offset is less than a day, and the
    /// date is one that the calendar has.
    pub open spec fn wf(self) -> bool {
        &&& self.nanos < 1_000_000_000
        &&& -DAY < self.offset < DAY
        &&& -LAST_DAY <= self.day() <= LAST_DAY
    }

    /// The same, for any date that the calendar has.
    pub open spec fn loose(self) -> bool {
        &&& self.nanos < 1_000_000_000
        &&& -DAY < self.offset < DAY
        &&& -98_000_000 <= self.day() <= 98_000_000
    }

    /// Whether this is before another.
    pub fn before(&self, other: &Moment) -> (r: bool)
        requires
            self.nanos < 1_000_000_000,
            other.nanos < 1_000_000_000,
        ensures
            r == (self.instant() < other.instant()),
    {
        self.seconds < other.seconds || (self.seconds == other.seconds && self.nanos < other.nanos)
    }

    /// What the local clock reads, in whole seconds.
    pub fn reading(&self) -> (r: i64)
        requires
            self.wf(),
        ensures
            r == self.wall(),
            -(LAST_DAY + 200) * DAY <= r <= (LAST_DAY + 200) * DAY,
    {
        self.seconds + self.offset as i64
    }

    /// The local date.
    pub fn date(&self) -> (r: i64)
        requires
            self.loose(),
        ensures
            r == self.day(),
    {
        // Moved up so that the division is of a number that is not negative.
        let wall: i128 = self.seconds as i128 + self.offset as i128 + 8_640_000_000_000;
        assert(wall == self.wall() + 100_000_000 * DAY);
        let days: i128 = wall / 86_400;
        (days - 100_000_000) as i64
    }

    /// How many nanoseconds have passed since an earlier moment.
    pub fn since(&self, other: &Moment) -> (r: i128)
        ensures
            r == self.instant() - other.instant(),
    {
        let seconds: i128 = self.seconds as i128 - other.seconds as i128;
        let nanos: i128 = self.nanos as i128 - other.nanos as i128;
        seconds * 1_000_000_000 + nanos
    }
}

/// An instant, apart from any clock.
#[derive(Debug, Clone, Copy, PartialEq, Eq, Structural)]
pub struct Stamp {
    /// Whole seconds since the start of 1970, UTC.
    pub seconds: i64,
    /// Nanoseconds into the second.
    pub nanos: u32,
}

impl Stamp {
    /// Nanoseconds since the start of 1970, UTC.
    pub open spec fn instant(self) -> int {
        self.seconds * 1_000_000_000 + self.nanos
    }

    /// The nanoseconds make no second, and the date is one that the calendar
    /// has on every clock.
    pub open spec fn wf(self) -> bool {
        &&& self.nanos < 1_000_000_000
        &&& -(LAST_DAY - 1) * DAY <= self.seconds <= (LAST_DAY - 1) * DAY
    }

    /// The date is one that the calendar has. In a leap second the nanoseconds
    /// run on to a second more.
    pub open spec fn dated(self) -> bool {
        &&& self.nanos < 2_000_000_000
        &&& FIRST_DAY * DAY <= self.seconds < (FINAL_DAY + 1) * DAY
    }

    /// Whether this is not after another, by the clock.
    pub open spec fn up_to(self, other: Stamp) -> bool {
        self.seconds < other.seconds || (self.seconds == other.seconds && self.nanos <= other.nanos)
    }

    pub fn not_after(&self, other: &Stamp) -> (r: bool)
        ensures
            r == self.up_to(*other),
    {
        self.seconds < other.seconds || (self.seconds == other.seconds && self.nanos <= other.nanos)
    }

    /// The date, as the number of days since the start of 1970.
    pub open spec fn day(self) -> int {
        self.seconds as int / DAY as int
    }

    pub fn date(&self) -> (r: i64)
        requires
            self.dated(),
        ensures
            r == self.day(),
            FIRST_DAY <= r <= FINAL_DAY,
    {
        // Moved up so that the division is of a number that is not negative.
        (self.seconds + 8_640_000_000_000) / 86_400 - 100_000_000
    }

    /// Whether this is before another.
    pub fn before(&self, other: &Stamp) -> (r: bool)
        requires
            self.nanos < 1_000_000_000,
            other.nanos < 1_000_000_000,
        ensures
            r == (self.instant() < other.instant()),
    {
        self.seconds < other.seconds || (self.seconds == other.seconds && self.nanos < other.nanos)
    }

    /// The moment on the local clock.
    pub fn local(&self) -> (r: Moment)
        requires
            self.wf(),
        ensures
            r.instant() == self.instant(),
            r.wf(),
    {
        to_local(self.seconds, self.nanos)
    }
}

/// A day of the week.
#[derive(Debug, Clone, Copy, PartialEq, Eq, Structural)]
pub enum Weekday {
    Mon,
    Tue,
    Wed,
    Thu,
    Fri,
    Sat,
    Sun,
}

/// The day of the week that a date falls on: the first of January 1970 was a
/// Thursday.
pub open spec fn weekday(day: int) -> Weekday {
    let n = (day + 3) % 7;
    if n == 0 {
        Weekday::Mon
    } else if n == 1 {
        Weekday::Tue
    } else if n == 2 {
        Weekday::Wed
    } else if n == 3 {
        Weekday::Thu
    } else if n == 4 {
        Weekday::Fri
    } else if n == 5 {
        Weekday::Sat
    } else {
        Weekday::Sun
    }
}

pub fn weekday_of(day: i64) -> (r: Weekday)
    requires
        -LAST_DAY - 100 <= day <= LAST_DAY + 100,
    ensures
        r == weekday(day as int),
{
    // Moved up by a whole number of weeks.
    let n: i64 = (day + 3 + 700_000_000) % 7;
    if n == 0 {
        Weekday::Mon
    } else if n == 1 {
        Weekday::Tue
    } else if n == 2 {
        Weekday::Wed
    } else if n == 3 {
        Weekday::Thu
    } else if n == 4 {
        Weekday::Fri
    } else if n == 5 {
        Weekday::Sat
    } else {
        Weekday::Sun
    }
}

/// Monday to Friday.
pub open spec fn is_workday(day: Weekday) -> bool {
    day != Weekday::Sat && day != Weekday::Sun
}

impl Weekday {
    /// The day's short name.
    pub open spec fn short(self) -> Seq<char> {
        match self {
            Weekday::Mon => "Mon"@,
            Weekday::Tue => "Tue"@,
            Weekday::Wed => "Wed"@,
            Weekday::Thu => "Thu"@,
            Weekday::Fri => "Fri"@,
            Weekday::Sat => "Sat"@,
            Weekday::Sun => "Sun"@,
        }
    }

    pub fn name(&self) -> (r: &'static str)
        ensures
            r@ == self.short(),
    {
        match self {
            Weekday::Mon => "Mon",
            Weekday::Tue => "Tue",
            Weekday::Wed => "Wed",
            Weekday::Thu => "Thu",
            Weekday::Fri => "Fri",
            Weekday::Sat => "Sat",
            Weekday::Sun => "Sun",
        }
    }
}

/// A time of day, to the second.
#[derive(Debug, Clone, Copy, PartialEq, Eq, Structural)]
pub struct Clock {
    seconds: u32,
}

impl Clock {
    #[verifier::type_invariant]
    pub closed spec fn inv(self) -> bool {
        self.seconds < DAY
    }

    /// Seconds since midnight.
    pub closed spec fn second(self) -> int {
        self.seconds as int
    }

    /// The time of day that many seconds after midnight.
    pub closed spec fn of(second: int) -> Clock {
        Clock { seconds: second as u32 }
    }

    /// A time of day is given by its second.
    pub proof fn lemma_of(self)
        ensures
            Clock::of(self.second()) == self,
    {
    }

    /// The second of a time of day is the one it was given by.
    pub proof fn lemma_second(second: int)
        requires
            0 <= second < DAY,
        ensures
            Clock::of(second).second() == second,
    {
    }

    /// The time of day with the given hour and minute, if there is one.
    pub fn at(hour: u32, minute: u32) -> (r: Option<Clock>)
        ensures
            r is Some <==> hour < 24 && minute < 60,
            r is Some ==> (r->0).second() == hour * 3600 + minute * 60 && r->0 == Clock::of(
                hour * 3600 + minute * 60,
            ),
    {
        if hour < 24 && minute < 60 {
            Some(Clock { seconds: hour * 3600 + minute * 60 })
        } else {
            None
        }
    }

    /// The time of day that many seconds after midnight, if there is one.
    pub fn after_midnight(seconds: u32) -> (r: Option<Clock>)
        ensures
            r is Some <==> seconds < DAY,
            r is Some ==> (r->0).second() == seconds,
    {
        if seconds < 86_400 {
            Some(Clock { seconds })
        } else {
            None
        }
    }

    /// Seconds since midnight.
    pub fn seconds(&self) -> (r: u32)
        ensures
            r == self.second(),
            r < DAY,
    {
        proof {
            use_type_invariant(*self);
        }
        self.seconds
    }
}

/// A moment's reading on the local clock: the date and the second of the day.
pub open spec fn reads(m: Moment, day: int, second: int) -> bool {
    &&& m.wall() == day * DAY + second
    &&& m.nanos == 0
    &&& -DAY < m.offset < DAY
}

/// The moments at which the local clock shows a date and a time: mostly one,
/// two where the clock was put back over it, none where it was put forward. Which
/// of two comes first is left open.
#[derive(Debug, Clone, Copy, PartialEq, Eq)]
pub enum Resolution {
    Single(Moment),
    Ambiguous(Moment, Moment),
    Never,
}

/// Whatever the machine's time zone is, the moments read as they were asked
/// for.
pub open spec fn resolves(r: Resolution, day: int, second: int) -> bool {
    match r {
        Resolution::Single(m) => reads(m, day, second),
        Resolution::Ambiguous(a, b) => reads(a, day, second) && reads(b, day, second),
        Resolution::Never => true,
    }
}

/// `chrono::Local.from_local_datetime`: when the local clock shows a date and a
/// time. Which moments they are is up to the machine's time zone; all that is
/// claimed is that each of them reads as that date and time, with an offset of
/// less than a day.
#[verifier::external_body]
fn from_local(day: i32, second: u32) -> (r: Resolution)
    requires
        -LAST_DAY - 100 <= day <= LAST_DAY + 100,
        second < DAY,
    ensures
        resolves(r, day as int, second as int),
{
    let time = NaiveTime::from_num_seconds_from_midnight_opt(second, 0).unwrap();
    let local = NaiveDate::from_epoch_days(day).unwrap().and_time(time);
    let plain = |m: DateTime<Local>| Moment {
        seconds: m.timestamp(),
        nanos: m.timestamp_subsec_nanos(),
        offset: m.offset().local_minus_utc(),
    };
    match Local.from_local_datetime(&local) {
        LocalResult::Single(m) => Resolution::Single(plain(m)),
        LocalResult::Ambiguous(a, b) => Resolution::Ambiguous(plain(a), plain(b)),
        LocalResult::None => Resolution::Never,
    }
}

/// `DateTime::with_timezone` to `chrono::Local`: the same instant, with the
/// offset that the machine's time zone has at it, which is less than a day.
#[verifier::external_body]
fn to_local(seconds: i64, nanos: u32) -> (r: Moment)
    requires
        -(LAST_DAY + 200) * DAY <= seconds <= (LAST_DAY + 200) * DAY,
        nanos < 1_000_000_000,
    ensures
        r.seconds == seconds,
        r.nanos == nanos,
        -DAY < r.offset < DAY,
{
    let m = DateTime::from_timestamp(seconds, nanos).unwrap().with_timezone(&Local);
    Moment { seconds, nanos, offset: m.offset().local_minus_utc() }
}

/// The ways in which a date and a time are written out.
pub open spec fn is_pattern(pattern: Seq<char>) -> bool {
    ||| pattern == "%A %-d %B at %H:%M"@
    ||| pattern == "%A %-d %B, %H:%M"@
    ||| pattern == "%A %-d %B %Y"@
    ||| pattern == "%-d %B %Y"@
    ||| pattern == "%-d %B"@
    ||| pattern == "%Y-%m-%d"@
    ||| pattern == "job-%Y%m%d-%H%M%S"@
}

/// A date and a time, given as seconds since the start of 1970 on the same
/// clock, written out after a pattern.
pub uninterp spec fn strftime(seconds: int, pattern: Seq<char>) -> Seq<char>;

/// What a date is written with: digits and hyphens, and a sign in front of a
/// year that does not have four digits.
pub open spec fn is_date_text(s: Seq<char>) -> bool {
    &&& s.len() > 0
    &&& forall|i: int|
        0 <= i < s.len() ==> ('0' <= #[trigger] s[i] && s[i] <= '9') || s[i] == '-' || s[i] == '+'
}

/// The day that a date names, if it is one.
pub uninterp spec fn date_of(s: Seq<char>) -> Option<i64>;

/// `NaiveDateTime::format`: the date and the time written out after the
/// pattern, which depends on the two alone. A year, a month and a day are written
/// as the digits and hyphens that `NaiveDate::parse_from_str` reads back.
#[verifier::external_body]
pub(crate) fn written(seconds: i64, pattern: &str) -> (r: String)
    requires
        FIRST_DAY * DAY <= seconds < (FINAL_DAY + 1) * DAY,
        is_pattern(pattern@),
    ensures
        r@ == strftime(seconds as int, pattern@),
        pattern@ == "%Y-%m-%d"@ ==> is_date_text(r@) && date_of(r@) == Some(
            (seconds as int / DAY as int) as i64,
        ),
{
    DateTime::from_timestamp(seconds, 0).unwrap().naive_utc().format(pattern).to_string()
}

/// `NaiveDate::parse_from_str`, with the pattern for a year, a month and a day:
/// the day that a text names, which depends on the text alone, and is one that
/// the calendar has.
#[verifier::external_body]
pub(crate) fn read_date(text: &str) -> (r: Option<i64>)
    ensures
        r == date_of(text@),
        r is Some ==> FIRST_DAY <= r->0 <= FINAL_DAY,
{
    NaiveDate::parse_from_str(text, "%Y-%m-%d").ok().map(|day| day.to_epoch_days() as i64)
}

/// An instant written out after RFC 3339, in UTC and with milliseconds.
pub uninterp spec fn rfc3339(seconds: int, nanos: int) -> Seq<char>;

/// `DateTime::to_rfc3339_opts`, in UTC and with milliseconds: how an instant is
/// written, which depends on it alone.
#[verifier::external_body]
pub(crate) fn iso(seconds: i64, nanos: u32) -> (r: String)
    requires
        FIRST_DAY * DAY <= seconds < (FINAL_DAY + 1) * DAY,
        nanos < 1_000_000_000,
    ensures
        r@ == rfc3339(seconds as int, nanos as int),
{
    let at = DateTime::from_timestamp(seconds, nanos).unwrap();
    at.to_rfc3339_opts(chrono::SecondsFormat::Millis, true)
}

/// The instant that a text names after RFC 3339, if it does.
pub uninterp spec fn instant_of(s: Seq<char>) -> Option<Stamp>;

/// `DateTime::parse_from_rfc3339`, taken to UTC: the instant that a text names,
/// which depends on the text alone. Its date is one that the calendar has; in a
/// leap second the nanoseconds run on to a second more.
#[verifier::external_body]
pub(crate) fn read_instant(text: &str) -> (r: Option<Stamp>)
    ensures
        r == instant_of(text@),
        r is Some ==> (r->0).dated(),
{
    let at = DateTime::parse_from_rfc3339(text).ok()?.with_timezone(&chrono::Utc);
    Some(Stamp { seconds: at.timestamp(), nanos: at.timestamp_subsec_nanos() })
}

/// `chrono::Local::now`: the machine's clock. Nothing is claimed of what it
/// shows but that the nanoseconds make no second, the offset no day, and that
/// the date is one that the calendar has, whose last years are about 262,000
/// before and after the first.
#[verifier::external_body]
fn now() -> (r: Moment)
    ensures
        r.loose(),
{
    let m = Local::now();
    Moment {
        seconds: m.timestamp(),
        nanos: m.timestamp_subsec_nanos(),
        offset: m.offset().local_minus_utc(),
    }
}

// ---------------------------------------------------------------------------
// A date and a time on the local clock
// ---------------------------------------------------------------------------

/// What to ask of the local clock, one question after the other, until one of
/// the answers will do: the time itself; then, since the clock may have skipped
/// over it, each minute behind it for two hours but not past midnight; then the
/// start of the next day.
pub open spec fn question(day: int, second: int, n: int) -> Option<(int, int)> {
    if n == 0 {
        Some((day, second))
    } else if 1 <= n <= 120 && second + 60 * n < DAY {
        Some((day, second + 60 * n))
    } else if n == 1 + minutes_left(second) {
        Some((day + 1, 0))
    } else {
        None
    }
}

/// How many whole minutes there are behind a time before midnight: no more than
/// two hours of them are tried.
pub open spec fn minutes_left(second: int) -> int {
    if second + 60 * 120 < DAY {
        120
    } else {
        (DAY - 1 - second) / 60
    }
}

/// The earlier of two moments.
pub open spec fn earlier(a: Moment, b: Moment) -> Moment {
    if b.instant() < a.instant() {
        b
    } else {
        a
    }
}

/// Whether an answer will do, and which moment it gives. Of two the earlier one
/// is taken; among the minutes behind a time that was skipped, only one that
/// there is just once.
pub open spec fn acceptable(second: int, n: int, answer: Resolution) -> Option<Moment> {
    match answer {
        Resolution::Single(m) => Some(m),
        Resolution::Ambiguous(a, b) => if n == 0 || n == 1 + minutes_left(second) {
            Some(earlier(a, b))
        } else {
            None
        },
        Resolution::Never => None,
    }
}

/// How many minutes are tried behind a time.
fn minutes_behind(second: u32) -> (r: u32)
    requires
        second < DAY,
    ensures
        r == minutes_left(second as int),
        second + 60 * r < DAY,
        r <= 120,
{
    if second + 7200 < 86_400 {
        120
    } else {
        (86_399 - second) / 60
    }
}

/// The next question, and whether an answer to it will do.
pub fn accept(at: Clock, n: u32, answer: Resolution) -> (r: Option<Moment>)
    ensures
        r == acceptable(at.second(), n as int, answer),
{
    let last: u32 = 1 + minutes_behind(at.seconds());
    match answer {
        Resolution::Single(m) => Some(m),
        Resolution::Ambiguous(a, b) => if n == 0 || n == last {
            if b.since(&a) < 0 {
                Some(b)
            } else {
                Some(a)
            }
        } else {
            None
        },
        Resolution::Never => None,
    }
}

/// The `n`th question about a date and a time.
pub fn ask(day: i64, at: Clock, n: u32) -> (r: Option<(i64, u32)>)
    requires
        -LAST_DAY - 50 <= day <= LAST_DAY + 50,
    ensures
        match r {
            Some((d, s)) => question(day as int, at.second(), n as int) == Some(
                (d as int, s as int),
            ) && s < DAY && day <= d <= day + 1,
            None => question(day as int, at.second(), n as int) is None,
        },
{
    let second: u32 = at.seconds();
    let left: u32 = minutes_behind(second);
    if n == 0 {
        Some((day, second))
    } else if n <= left {
        Some((day, second + 60 * n))
    } else if n <= 121 && n == left + 1 {
        Some((day + 1, 0))
    } else {
        proof {
            if 1 <= n <= 120 && second + 60 * n < DAY {
                assert(n <= left);
            }
        }
        None
    }
}

/// A moment that answers one of the questions about a date and a time.
pub open spec fn settled(day: int, second: int, m: Moment) -> bool {
    exists|n: int| #[trigger] settled_at(day, second, m, n)
}

pub open spec fn settled_at(day: int, second: int, m: Moment, n: int) -> bool {
    match question(day, second, n) {
        Some((d, s)) => reads(m, d, s),
        None => false,
    }
}

/// Such a moment is on that date, or at the start of the next.
pub proof fn lemma_settled(day: int, second: int, m: Moment)
    requires
        settled(day, second, m),
        0 <= second < DAY,
    ensures
        day * DAY <= m.wall() <= (day + 1) * DAY,
        m.nanos == 0,
        -DAY < m.offset < DAY,
{
    let n = choose|n: int| #[trigger] settled_at(day, second, m, n);
    assert(settled_at(day, second, m, n));
}

/// Answers of the local clock to the questions about a date and a time, from the
/// first question on. Each of their moments reads as it was asked for.
pub open spec fn answered(day: int, second: int, answers: Seq<Resolution>) -> bool {
    forall|n: int|
        0 <= n < answers.len() ==> match question(day, second, n) {
            Some((d, s)) => resolves(#[trigger] answers[n], d, s),
            None => false,
        }
}

/// What comes of the answers: questions are asked until one of the answers will
/// do, and that answer's moment is taken; there is none only if no answer will do
/// and nothing is left to ask.
pub open spec fn concluded(
    day: int,
    second: int,
    answers: Seq<Resolution>,
    r: Option<Moment>,
) -> bool {
    &&& answered(day, second, answers)
    &&& answers.len() > 0
    &&& forall|n: int|
        0 <= n < answers.len() - 1 ==> acceptable(second, n, #[trigger] answers[n]) is None
    &&& r == acceptable(second, answers.len() - 1, answers.last())
    &&& r is None ==> question(day, second, answers.len() as int) is None
}

/// The moment of a date and a time on the local clock; none if neither it nor
/// any of what is tried in its place exists. What the clock answers is up to the
/// machine's time zone.
pub fn settle(day: i64, at: Clock) -> (r: Option<Moment>)
    requires
        -LAST_DAY - 50 <= day <= LAST_DAY + 50,
    ensures
        r is Some ==> settled(day as int, at.second(), r->0),
        exists|answers: Seq<Resolution>| #[trigger]
            concluded(day as int, at.second(), answers, r),
{
    let mut n: u32 = 0;
    let ghost mut answers: Seq<Resolution> = Seq::empty();
    while n <= 121
        invariant
            0 <= n <= 122,
            -LAST_DAY - 50 <= day <= LAST_DAY + 50,
            answers.len() == n,
            answered(day as int, at.second(), answers),
            forall|i: int|
                0 <= i < n ==> acceptable(at.second(), i, #[trigger] answers[i]) is None,
        decreases 122 - n,
    {
        match ask(day, at, n) {
            Some((d, s)) => {
                let answer = from_local(d as i32, s);
                proof {
                    answers = answers.push(answer);
                }
                if let Some(m) = accept(at, n, answer) {
                    assert(settled_at(day as int, at.second(), m, n as int));
                    assert(concluded(day as int, at.second(), answers, Some(m)));
                    return Some(m);
                }
            },
            None => {
                assert(concluded(day as int, at.second(), answers, None));
                return None;
            },
        }
        n = n + 1;
    }
    assert(concluded(day as int, at.second(), answers, None));
    None
}

/// A moment found for a date and a time: what comes of the local clock's answers,
/// or the present where nothing does.
pub open spec fn located(day: int, second: int, present: Moment, m: Moment) -> bool {
    exists|answers: Seq<Resolution>, found: Option<Moment>| #[trigger]
        concluded(day, second, answers, found) && m == (match found {
            Some(moment) => moment,
            None => present,
        })
}

/// A date and a time on the local clock.
///
/// Spring forward makes some times nonexistent and autumn back makes some
/// happen twice. A nonexistent time is taken at the first minute after the gap,
/// an ambiguous one at the earlier of the two. If nothing that is tried exists,
/// which should be impossible, it is the present.
pub fn at_local(day: i64, at: Clock, present: Moment) -> (r: Moment)
    requires
        -LAST_DAY - 50 <= day <= LAST_DAY + 50,
    ensures
        settled(day as int, at.second(), r) || r == present,
        located(day as int, at.second(), present, r),
{
    let found = settle(day, at);
    proof {
        let answers = choose|answers: Seq<Resolution>| #[trigger]
            concluded(day as int, at.second(), answers, found);
        assert(concluded(day as int, at.second(), answers, found));
    }
    match found {
        Some(m) => m,
        None => present,
    }
}

/// What the machine's clock shows.
pub fn present() -> (r: Moment)
    ensures
        r.loose(),
{
    now()
}

/// A moment, with the offset that the local clock has at it.
pub fn moment_at(seconds: i64, nanos: u32) -> (r: Moment)
    requires
        -(LAST_DAY + 200) * DAY <= seconds <= (LAST_DAY + 200) * DAY,
        nanos < 1_000_000_000,
    ensures
        r.seconds == seconds,
        r.nanos == nanos,
        -DAY < r.offset < DAY,
{
    to_local(seconds, nanos)
}

/// The moment that many seconds after another.
pub fn later(m: Moment, seconds: i64) -> (r: Moment)
    requires
        m.wf(),
        -100 * DAY <= seconds <= 100 * DAY,
    ensures
        r.seconds == m.seconds + seconds,
        r.nanos == m.nanos,
        -DAY < r.offset < DAY,
        r.instant() == m.instant() + seconds * 1_000_000_000,
{
    to_local(m.seconds + seconds, m.nanos)
}

/// The calendar began on a Thursday, and every day is the one behind the day before it.
pub proof fn days_of_the_week_follow_one_another(day: int)
    ensures
        weekday(0) == Weekday::Thu,
        weekday(day + 7) == weekday(day),
        weekday(day + 1) == match weekday(day) {
            Weekday::Mon => Weekday::Tue,
            Weekday::Tue => Weekday::Wed,
            Weekday::Wed => Weekday::Thu,
            Weekday::Thu => Weekday::Fri,
            Weekday::Fri => Weekday::Sat,
            Weekday::Sat => Weekday::Sun,
            Weekday::Sun => Weekday::Mon,
        },
{
}

/// Instants are in the order of the time that has passed, and every date holds the seconds
/// of its day.
pub proof fn instants_are_in_the_order_of_time(a: Stamp, b: Stamp, m: Moment)
    requires
        a.nanos < 1_000_000_000,
        b.nanos < 1_000_000_000,
    ensures
        a.up_to(b) <==> a.instant() <= b.instant(),
        a.up_to(b) && b.up_to(a) ==> a == b,
        a.seconds < b.seconds ==> a.instant() < b.instant(),
        a.seconds == b.seconds ==> b.instant() - a.instant() == b.nanos - a.nanos,
        a.day() * 86_400 <= a.seconds < (a.day() + 1) * 86_400,
        m.day() * 86_400 <= m.seconds + m.offset < (m.day() + 1) * 86_400,
{
}

} // verus!
