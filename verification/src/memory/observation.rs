//! One thing the assistant saved, and what it is worth now.
//!
//! Every line that is written into a note is one of these: Markdown that a
//! person can read and delete, with the kind and the date in a comment that does
//! not show. Lines without a kind are facts.

use crate::text;
use crate::time::{date_of, is_date_text, read_date, strftime, written, Stamp, DAY, FINAL_DAY, FIRST_DAY};
use vstd::prelude::*;
use vstd::slice::slice_subrange;

verus! {

/// What sort of thing was saved, and therefore how long it stays true. From the
/// most durable to the least.
#[derive(Debug, Clone, Copy, PartialEq, Eq, PartialOrd, Ord, Hash, Structural)]
pub enum Kind {
    /// Who the user is.
    Profile,
    /// How they want things done.
    Preference,
    /// What they are working on.
    Project,
    /// Everything else worth keeping about a subject.
    Fact,
}

impl Kind {
    /// How it is written.
    pub open spec fn name(self) -> Seq<char> {
        match self {
            Kind::Profile => "profile"@,
            Kind::Preference => "preference"@,
            Kind::Project => "project"@,
            Kind::Fact => "fact"@,
        }
    }

    /// Its place among the kinds: the most durable is the first.
    pub open spec fn place(self) -> int {
        match self {
            Kind::Profile => 0,
            Kind::Preference => 1,
            Kind::Project => 2,
            Kind::Fact => 3,
        }
    }

    /// The kind that a word in lower case stands for.
    pub open spec fn named(word: Seq<char>) -> Option<Kind> {
        if word == "profile"@ || word == "identity"@ {
            Some(Kind::Profile)
        } else if word == "preference"@ || word == "instruction"@ {
            Some(Kind::Preference)
        } else if word == "project"@ || word == "work"@ {
            Some(Kind::Project)
        } else if word == "fact"@ || word == "observation"@ {
            Some(Kind::Fact)
        } else {
            None
        }
    }

    /// The kind that a text says.
    pub open spec fn said(text: Seq<char>) -> Option<Kind> {
        Kind::named(text::lowercase(text::trim(text)))
    }

    /// How it is written in the note's comment, and read back.
    pub fn label(self) -> (r: &'static str)
        ensures
            r@ == self.name(),
    {
        match self {
            Kind::Profile => "profile",
            Kind::Preference => "preference",
            Kind::Project => "project",
            Kind::Fact => "fact",
        }
    }

    /// The kind that a word in lower case stands for.
    pub fn from_lowercase(word: &str) -> (r: Option<Kind>)
        ensures
            r == Kind::named(word@),
    {
        if text::same(word, "profile") || text::same(word, "identity") {
            Some(Kind::Profile)
        } else if text::same(word, "preference") || text::same(word, "instruction") {
            Some(Kind::Preference)
        } else if text::same(word, "project") || text::same(word, "work") {
            Some(Kind::Project)
        } else if text::same(word, "fact") || text::same(word, "observation") {
            Some(Kind::Fact)
        } else {
            None
        }
    }

    pub fn parse(text: &str) -> (r: Option<Kind>)
        ensures
            r == Kind::said(text@),
    {
        let chars = text::chars_of(text);
        let word = text::string_of(text::trimmed(chars.as_slice()));
        let lowered = word.as_str().to_lowercase();
        Kind::from_lowercase(lowered.as_str())
    }

    /// Every kind, most durable first: the order that the ambient block fills
    /// in.
    pub fn all() -> (r: [Kind; 4])
        ensures
            r@ == seq![Kind::Profile, Kind::Preference, Kind::Project, Kind::Fact],
    {
        let r = [Kind::Profile, Kind::Preference, Kind::Project, Kind::Fact];
        assert(r@ =~= seq![Kind::Profile, Kind::Preference, Kind::Project, Kind::Fact]);
        r
    }

    /// What an observation of this kind is worth on the day it is written, in tenths.
    pub open spec fn worth(self) -> int {
        match self {
            Kind::Profile => 10,
            Kind::Preference => 9,
            Kind::Project => 7,
            Kind::Fact => 5,
        }
    }

    /// The days in which it comes to be worth half of that.
    pub open spec fn lasts(self) -> int {
        match self {
            Kind::Profile => 3650,
            Kind::Preference => 365,
            Kind::Project => 90,
            Kind::Fact => 45,
        }
    }

    /// How much this kind is worth before age is taken off it, in tenths.
    pub fn weight(self) -> (r: u32)
        ensures
            r == match self {
                Kind::Profile => 10u32,
                Kind::Preference => 9,
                Kind::Project => 7,
                Kind::Fact => 5,
            },
            r == self.worth(),
    {
        match self {
            Kind::Profile => 10,
            Kind::Preference => 9,
            Kind::Project => 7,
            Kind::Fact => 5,
        }
    }

    /// Days after which an unused observation of this kind is worth half what it
    /// was. A profile is in effect exempt.
    pub fn half_life_days(self) -> (r: u32)
        ensures
            r == match self {
                Kind::Profile => 3650u32,
                Kind::Preference => 365,
                Kind::Project => 90,
                Kind::Fact => 45,
            },
            r == self.lasts(),
    {
        match self {
            Kind::Profile => 3650,
            Kind::Preference => 365,
            Kind::Project => 90,
            Kind::Fact => 45,
        }
    }

    /// Whether this kind belongs in the prompt whether or not it was asked for.
    pub fn is_core(self) -> (r: bool)
        ensures
            r == self.rides_along(),
    {
        match self {
            Kind::Profile => true,
            Kind::Preference => true,
            _ => false,
        }
    }

    pub open spec fn rides_along(self) -> bool {
        self == Kind::Profile || self == Kind::Preference
    }

    /// Whether this kind is more durable than another.
    pub fn outranks(self, other: Kind) -> (r: bool)
        ensures
            r == (self.place() < other.place()),
    {
        let a: u8 = self.position();
        let b: u8 = other.position();
        a < b
    }

    fn position(self) -> (r: u8)
        ensures
            r == self.place(),
    {
        match self {
            Kind::Profile => 0,
            Kind::Preference => 1,
            Kind::Project => 2,
            Kind::Fact => 3,
        }
    }
}

/// One saved line, parsed.
#[derive(Debug, Clone, PartialEq, Eq)]
pub struct Observation {
    /// The note it lives in, vault-relative.
    pub note: String,
    /// The note's title, which is the subject as the user would say it.
    pub subject: String,
    /// The sentence, without the mark, the tag or the comment.
    pub text: String,
    pub kind: Kind,
    /// The day it was written, if the line still says, as the number of days
    /// since the start of 1970.
    pub saved: Option<i64>,
}

/// What an observation says.
#[verifier::ext_equal]
pub struct Seen {
    pub note: Seq<char>,
    pub subject: Seq<char>,
    pub text: Seq<char>,
    pub kind: Kind,
    pub saved: Option<i64>,
}

impl View for Observation {
    type V = Seen;

    open spec fn view(&self) -> Seen {
        Seen {
            note: self.note@,
            subject: self.subject@,
            text: self.text@,
            kind: self.kind,
            saved: self.saved,
        }
    }
}

/// What the observations of a list say.
pub open spec fn seen(list: Seq<Observation>) -> Seq<Seen> {
    Seq::new(list.len(), |i: int| list[i]@)
}

impl Seen {
    pub open spec fn key(self) -> Seq<char> {
        self.note + seq!['\u{1f}'] + normal(self.text)
    }

    pub open spec fn line(self) -> Seq<char> {
        self.subject + ": "@ + self.text
    }
}

impl Observation {
    /// A copy that says the same.
    pub fn copy(&self) -> (r: Observation)
        ensures
            r@ == self@,
    {
        Observation {
            note: self.note.as_str().to_owned(),
            subject: self.subject.as_str().to_owned(),
            text: self.text.as_str().to_owned(),
            kind: self.kind,
            saved: self.saved,
        }
    }

    /// A stable name for this line, so that a ledger kept outside the vault can
    /// find it again after the note has been edited around it: the note's path
    /// and the text, normalised.
    pub fn key(&self) -> (r: String)
        ensures
            r@ == self@.key(),
    {
        let mut r = self.note.as_str().to_owned();
        r.push('\u{1f}');
        let normal = normalise(self.text.as_str());
        let ghost before = r@;
        r.append(normal.as_str());
        assert(before =~= self.note@ + seq!['\u{1f}']);
        r
    }

    /// How old it is in days, or `None` when the line carries no date.
    pub fn age_days(&self, now: Stamp) -> (r: Option<u64>)
        requires
            now.dated(),
        ensures
            match self.saved {
                Some(saved) => r is Some && r->0 == if now.day() > saved {
                    now.day() - saved
                } else {
                    0
                },
                None => r is None,
            },
    {
        match self.saved {
            Some(saved) => {
                let today: i128 = now.date() as i128;
                let then: i128 = saved as i128;
                if today > then {
                    Some((today - then) as u64)
                } else {
                    Some(0)
                }
            },
            None => None,
        }
    }

    /// How it reads in the ambient block: the subject, then the sentence.
    pub fn line(&self) -> (r: String)
        ensures
            r@ == self@.line(),
    {
        let mut r = self.subject.as_str().to_owned();
        r.append(": ");
        r.append(self.text.as_str());
        r
    }
}

// ---------------------------------------------------------------------------
// What two texts that say the same have in common
// ---------------------------------------------------------------------------

/// A text with white space in place of all that is neither a letter nor a
/// number.
pub open spec fn bare(s: Seq<char>) -> Seq<char> {
    Seq::new(
        s.len(),
        |i: int|
            if text::is_alphanumeric(s[i]) {
                s[i]
            } else {
                ' '
            },
    )
}

/// Text as two observations that say the same thing would both write it.
pub open spec fn normal(s: Seq<char>) -> Seq<char> {
    text::squeezed(text::lowercase(bare(s)))
}

/// Text as two observations that say the same thing would both write it. Case,
/// punctuation and runs of white space go; the order of the words does not.
pub fn normalise(text: &str) -> (r: String)
    ensures
        r@ == normal(text@),
{
    let chars = text::chars_of(text);
    let mut folded = String::new();
    let mut i: usize = 0;
    assert(folded@ =~= bare(text@.take(0)));
    while i < chars.len()
        invariant
            0 <= i <= chars.len(),
            chars@ == text@,
            folded@ == bare(text@.take(i as int)),
        decreases chars.len() - i,
    {
        let c = chars[i];
        if c.is_alphanumeric() {
            folded.push(c);
        } else {
            folded.push(' ');
        }
        assert(folded@ =~= bare(text@.take(i + 1)));
        i = i + 1;
    }
    assert(text@.take(text@.len() as int) =~= text@);
    let lowered = folded.as_str().to_lowercase();
    text::squeeze(lowered.as_str())
}

/// The words of an ASCII text, in lower case and without punctuation.
pub open spec fn plain_words(s: Seq<char>) -> Seq<Seq<char>> {
    text::words(text::ascii_lowercase(bare(s)))
}

/// A small letter or a digit of ASCII.
pub open spec fn is_plain(c: char) -> bool {
    ('a' <= c && c <= 'z') || ('0' <= c && c <= '9')
}

/// Normalising an ASCII text gives its words in their order, in small letters and
/// digits, with one space between each two; so texts with the same words give the
/// same, and normalising twice is normalising once.
pub proof fn normalising_twice_is_normalising_once(s: Seq<char>)
    requires
        vstd::utf8::is_ascii_chars(s),
    ensures
        normal(s) == text::join(plain_words(s), " "@),
        forall|i: int, j: int|
            0 <= i < plain_words(s).len() && 0 <= j < plain_words(s)[i].len() ==> is_plain(
                #[trigger] plain_words(s)[i][j],
            ),
        plain_words(normal(s)) == plain_words(s),
        normal(normal(s)) == normal(s),
{
    reveal_strlit(" ");
    let b = bare(s);
    assert forall|i: int| 0 <= i < b.len() implies '\0' <= #[trigger] b[i] <= '\u{7f}' by {
        assert('\0' <= s[i] <= '\u{7f}');
    }
    let low = text::ascii_lowercase(b);
    let list = plain_words(s);
    let n = normal(s);
    text::lemma_words(low);
    assert forall|i: int, j: int| 0 <= i < list.len() && 0 <= j < list[i].len() implies is_plain(
        #[trigger] list[i][j],
    ) by {
        let word = list[i];
        assert(text::is_word_of(word, low));
        assert(low.contains(word[j]));
        let k = choose|k: int| 0 <= k < low.len() && low[k] == word[j];
        assert('\0' <= s[k] <= '\u{7f}');
        assert(!text::is_space(word[j]));
    }
    lemma_joined_plain(list);
    assert(forall|k: int| 0 <= k < n.len() ==> is_plain(#[trigger] n[k]) || n[k] == ' ');
    assert(bare(n) =~= n);
    assert(text::ascii_lowercase(n) =~= n);
    assert forall|i: int| 0 <= i < list.len() implies (#[trigger] list[i]).len() > 0
        && text::is_solid(list[i]) by {
        assert(text::is_word_of(list[i], low));
    }
    let none = Seq::<char>::empty();
    text::lemma_words_joined(list, none);
    assert(n + none =~= n);
    assert(text::words(none) =~= Seq::empty());
    assert(list + Seq::<Seq<char>>::empty() =~= list);
    assert(vstd::utf8::is_ascii_chars(n));
}

proof fn lemma_joined_plain(list: Seq<Seq<char>>)
    requires
        forall|i: int, j: int|
            0 <= i < list.len() && 0 <= j < list[i].len() ==> is_plain(#[trigger] list[i][j]),
    ensures
        forall|k: int|
            0 <= k < text::join(list, " "@).len() ==> is_plain(
                #[trigger] text::join(list, " "@)[k],
            ) || text::join(list, " "@)[k] == ' ',
    decreases list.len(),
{
    reveal_strlit(" ");
    let n = text::join(list, " "@);
    if list.len() == 1 {
        assert forall|k: int| 0 <= k < n.len() implies is_plain(#[trigger] n[k]) || n[k] == ' ' by {
            assert(n[k] == list[0][k]);
        }
    } else if list.len() > 1 {
        let before = list.drop_last();
        assert forall|i: int, j: int|
            0 <= i < before.len() && 0 <= j < before[i].len() implies is_plain(
            #[trigger] before[i][j],
        ) by {
            assert(before[i][j] == list[i][j]);
        }
        lemma_joined_plain(before);
        let front = text::join(before, " "@);
        assert forall|k: int| 0 <= k < n.len() implies is_plain(#[trigger] n[k]) || n[k] == ' ' by {
            if k < front.len() {
                assert(n[k] == front[k]);
            } else if k > front.len() {
                assert(n[k] == list[list.len() - 1][k - front.len() - 1]);
            }
        }
    }
}

// ---------------------------------------------------------------------------
// The line format
// ---------------------------------------------------------------------------

/// Every line the assistant writes starts with this.
pub const MARK: &'static str = "- ";

/// And carries this.
pub const TAG: &'static str = "#familiar";

/// What opens the trailing comment.
pub const STAMP: &'static str = "familiar";

/// A relation to another note, where there is one.
pub open spec fn relation(related: Option<&str>) -> Seq<char> {
    match related {
        Some(s) => text::given(
            text::trim(s@).len() > 0,
            " — see [["@ + text::trim(s@) + "]]"@,
        ),
        None => Seq::empty(),
    }
}

/// The trailing comment.
#[verifier::opaque]
pub open spec fn comment(kind: Kind, date: Option<Seq<char>>) -> Seq<char> {
    "<!--"@ + " "@ + STAMP@ + " "@ + kind.name() + match date {
        Some(d) => " "@ + d,
        None => Seq::empty(),
    } + " "@ + "-->"@
}

/// One line, given how the date is written.
pub open spec fn rendered(
    text: Seq<char>,
    kind: Kind,
    related: Option<&str>,
    date: Seq<char>,
) -> Seq<char> {
    MARK@ + (text::trim(text) + relation(related)) + " "@ + TAG@ + " "@ + comment(kind, Some(date))
}

fn push_comment(out: &mut String, kind: Kind, date: Option<&str>)
    ensures
        final(out)@ == old(out)@ + comment(
            kind,
            match date {
                Some(d) => Some(d@),
                None => None,
            },
        ),
{
    let mut r = "<!--".to_owned();
    r.append(" ");
    r.append(STAMP);
    r.append(" ");
    r.append(kind.label());
    match date {
        Some(d) => {
            let ghost before = r@;
            let mut tail = " ".to_owned();
            tail.append(d);
            r.append(tail.as_str());
        },
        None => {
            assert(r@ + Seq::<char>::empty() =~= r@);
        },
    }
    r.append(" ");
    r.append("-->");
    proof {
        reveal(comment);
    }
    out.append(r.as_str());
}

/// One line, ready to append under the heading.
pub fn render(text: &str, kind: Kind, related: Option<&str>, now: Stamp) -> (r: String)
    requires
        now.dated(),
    ensures
        r@ == rendered(text@, kind, related, strftime(now.seconds as int, "%Y-%m-%d"@)),
        is_date_text(strftime(now.seconds as int, "%Y-%m-%d"@)),
        date_of(strftime(now.seconds as int, "%Y-%m-%d"@)) == Some(now.day() as i64),
{
    let chars = text::chars_of(text);
    let mut body = text::string_of(text::trimmed(chars.as_slice()));
    let ghost said = body@;
    assert(said + Seq::<char>::empty() =~= said);
    if let Some(other) = related {
        let others = text::chars_of(other);
        let trimmed = text::trimmed(others.as_slice());
        if trimmed.len() > 0 {
            let mut link = " — see [[".to_owned();
            text::push_chars(&mut link, trimmed);
            link.append("]]");
            body.append(link.as_str());
        }
    }
    assert(body@ == said + relation(related));
    let mut line = MARK.to_owned();
    line.append(body.as_str());
    line.append(" ");
    line.append(TAG);
    line.append(" ");
    let date = written(now.seconds, "%Y-%m-%d");
    push_comment(&mut line, kind, Some(date.as_str()));
    line
}

/// Whether a line is one that the assistant wrote.
pub open spec fn is_marked(line: Seq<char>) -> bool {
    text::starts(text::trim_start(line), MARK@) && text::holds(text::trim_start(line), TAG@)
}

pub fn is_familiars(line: &str) -> (r: bool)
    ensures
        r == is_marked(line@),
{
    let chars = text::chars_of(line);
    let trimmed = text::trimmed_start(chars.as_slice());
    text::begins(trimmed, MARK) && text::contains(trimmed, TAG)
}

/// A text without the marks in front of it.
pub open spec fn unmarked(s: Seq<char>) -> Seq<char>
    decreases s.len(),
{
    if s.len() >= 2 && s[0] == '-' && s[1] == ' ' {
        unmarked(s.skip(2))
    } else {
        s
    }
}

/// What a line says, without its marking.
pub open spec fn said(line: Seq<char>) -> Seq<char> {
    text::trim(
        text::replace(text::front(unmarked(text::trim_start(line)), "<!--"@), TAG@, ""@),
    )
}

/// The observation without its marking.
pub fn text_of(line: &str) -> (r: String)
    ensures
        r@ == said(line@),
{
    let chars = text::chars_of(line);
    let mut rest = text::trimmed_start(chars.as_slice());
    while rest.len() >= 2 && rest[0] == '-' && rest[1] == ' '
        invariant
            unmarked(text::trim_start(line@)) == unmarked(rest@),
        decreases rest.len(),
    {
        let ghost before = rest@;
        rest = slice_subrange(rest, 2, rest.len());
        assert(rest@ =~= before.skip(2));
    }
    let body = text::front_of(rest, "<!--");
    let bare = text::replaced(body, TAG, "");
    text::string_of(text::trimmed(bare.as_slice()))
}

/// What stands in the comment of a line.
pub open spec fn remark(line: Seq<char>) -> Option<Seq<char>> {
    let start = text::index_of(line, "<!--"@, 0);
    if start < 0 {
        None
    } else {
        let rest = line.skip(start + "<!--"@.len());
        let end = text::index_of(rest, "-->"@, 0);
        if end < 0 {
            None
        } else {
            Some(rest.take(end))
        }
    }
}

/// What the words of a comment say: the last kind, and the last date.
pub open spec fn told(words: Seq<Seq<char>>) -> (Kind, Option<i64>)
    decreases words.len(),
{
    if words.len() == 0 {
        (Kind::Fact, None)
    } else {
        let before = told(words.drop_last());
        match Kind::said(words.last()) {
            Some(kind) => (kind, before.1),
            None => match date_of(words.last()) {
                Some(day) => (before.0, Some(day)),
                None => before,
            },
        }
    }
}

/// The words of a comment, without the one that opens it.
pub open spec fn stamp_words(remark: Seq<char>) -> Seq<Seq<char>> {
    let words = text::words(remark);
    if words.len() > 0 && words[0] == STAMP@ {
        words.skip(1)
    } else {
        words
    }
}

/// What the comment of a line says: the kind, and the day it was written.
pub open spec fn stamp(line: Seq<char>) -> (Kind, Option<i64>) {
    match remark(line) {
        Some(s) => told(stamp_words(s)),
        None => (Kind::Fact, None),
    }
}

fn comment_of<'a>(line: &'a [char]) -> (r: Option<&'a [char]>)
    ensures
        match r {
            Some(s) => remark(line@) == Some(s@),
            None => remark(line@) is None,
        },
{
    let open: usize = text::chars_of("<!--").len();
    match text::index(line, "<!--", 0) {
        Some(start) => {
            let rest = slice_subrange(line, start + open, line.len());
            assert(rest@ =~= line@.skip(start + open));
            match text::index(rest, "-->", 0) {
                Some(end) => {
                    let r = slice_subrange(rest, 0, end);
                    assert(r@ =~= rest@.take(end as int));
                    Some(r)
                },
                None => None,
            }
        },
        None => None,
    }
}

/// What the trailing comment says: the kind, and the day it was written. A line
/// without a comment is a fact, undated.
pub fn stamp_of(line: &str) -> (r: (Kind, Option<i64>))
    ensures
        r == stamp(line@),
        r.1 is Some ==> FIRST_DAY <= r.1->0 <= FINAL_DAY,
{
    let chars = text::chars_of(line);
    match comment_of(chars.as_slice()) {
        Some(remark) => {
            let words = text::words_of(remark);
            let ghost all = text::runs(words@);
            let first: usize = if words.len() > 0 && text::spells(words[0], STAMP) {
                1
            } else {
                0
            };
            let ghost left = all.skip(first as int);
            proof {
                if words.len() > 0 {
                    assert(all[0] == words@[0]@);
                }
                assert(left =~= stamp_words(remark@));
            }
            let mut kind = Kind::Fact;
            let mut date: Option<i64> = None;
            let mut i: usize = first;
            while i < words.len()
                invariant
                    first <= i <= words.len(),
                    all == text::runs(words@),
                    left == all.skip(first as int),
                    (kind, date) == told(left.take(i - first)),
                    date is Some ==> FIRST_DAY <= date->0 <= FINAL_DAY,
                decreases words.len() - i,
            {
                let word = text::string_of(words[i]);
                proof {
                    assert(left.take(i - first + 1).drop_last() =~= left.take(i - first));
                    assert(left.take(i - first + 1).last() == words@[i as int]@);
                }
                if let Some(parsed) = Kind::parse(word.as_str()) {
                    kind = parsed;
                } else if let Some(parsed) = read_date(word.as_str()) {
                    date = Some(parsed);
                }
                i = i + 1;
            }
            assert(left.take(left.len() as int) =~= left);
            (kind, date)
        },
        None => (Kind::Fact, None),
    }
}

/// What of a line stands in front of its comment.
pub open spec fn body(line: Seq<char>) -> Seq<char> {
    text::trim_end(text::front(line, "<!--"@))
}

/// A line, filed under a different kind, given how a date is written.
pub open spec fn restamped(line: Seq<char>, kind: Kind) -> Seq<char> {
    body(line) + " "@ + comment(
        kind,
        match stamp(line).1 {
            Some(day) => Some(strftime(day * DAY, "%Y-%m-%d"@)),
            None => None,
        },
    )
}

/// The same line, filed under a different kind. Text and date are kept: refiling
/// is not saving again.
pub fn restamp(line: &str, kind: Kind) -> (r: String)
    ensures
        r@ == restamped(line@, kind),
        match stamp(line@).1 {
            Some(day) => is_date_text(strftime(day * DAY, "%Y-%m-%d"@)) && date_of(
                strftime(day * DAY, "%Y-%m-%d"@),
            ) == Some(day),
            None => true,
        },
        unmarked(text::trim_start(body(line@))) != "-"@ ==> said(r@) == said(line@) && stamp(r@)
            == (kind, stamp(line@).1),
{
    let (_, saved) = stamp_of(line);
    let chars = text::chars_of(line);
    let front = text::trimmed_end(text::front_of(chars.as_slice(), "<!--"));
    let mut r = text::string_of(front);
    r.append(" ");
    match saved {
        Some(day) => {
            let date = written(day * DAY, "%Y-%m-%d");
            assert((day * DAY) / DAY as int == day);
            push_comment(&mut r, kind, Some(date.as_str()));
        },
        None => {
            push_comment(&mut r, kind, None);
        },
    }
    proof {
        if unmarked(text::trim_start(body(line@))) != "-"@ {
            restamping_keeps_text_and_date(line@, kind);
        }
    }
    r
}

/// A line as an observation, given the note it was found in.
pub open spec fn read(note: Seq<char>, subject: Seq<char>, line: Seq<char>) -> Option<Seen> {
    if is_marked(line) && said(line).len() > 0 {
        Some(
            Seen {
                note,
                subject,
                text: said(line),
                kind: stamp(line).0,
                saved: stamp(line).1,
            },
        )
    } else {
        None
    }
}

/// Parse a line into an observation, given the note it was found in.
pub fn parse(note: &str, subject: &str, line: &str) -> (r: Option<Observation>)
    ensures
        match r {
            Some(o) => read(note@, subject@, line@) == Some(o@),
            None => read(note@, subject@, line@) is None,
        },
{
    if !is_familiars(line) {
        return None;
    }
    let text = text_of(line);
    if text::chars_of(text.as_str()).len() == 0 {
        return None;
    }
    let (kind, saved) = stamp_of(line);
    Some(
        Observation { note: note.to_owned(), subject: subject.to_owned(), text, kind, saved },
    )
}

// ---------------------------------------------------------------------------
// What is written reads back
// ---------------------------------------------------------------------------

/// Every kind is read back from the word that it is written as.
pub proof fn kinds_read_back(kind: Kind)
    ensures
        Kind::said(kind.name()) == Some(kind),
{
    lemma_kind_word(kind);
}

proof fn lemma_kind_word(kind: Kind)
    ensures
        Kind::said(kind.name()) == Some(kind),
        text::is_solid(kind.name()),
        kind.name().len() > 0,
        !kind.name().contains('>'),
{
    reveal_strlit("profile");
    reveal_strlit("preference");
    reveal_strlit("project");
    reveal_strlit("fact");
    reveal_strlit("identity");
    reveal_strlit("instruction");
    reveal_strlit("work");
    reveal_strlit("observation");
    let w = kind.name();
    text::lemma_trim_unchanged(w);
    assert(text::lowercase(w) =~= w);
    assert("profile"@[3] == 'f' && "project"@[3] == 'j' && "preference"@[2] == 'e'
        && "instruction"@[0] == 'i');
}

proof fn lemma_date_word(date: Seq<char>)
    requires
        is_date_text(date),
    ensures
        Kind::said(date) is None,
        text::is_solid(date),
        !date.contains('>'),
{
    reveal_strlit("profile");
    reveal_strlit("preference");
    reveal_strlit("project");
    reveal_strlit("fact");
    reveal_strlit("identity");
    reveal_strlit("instruction");
    reveal_strlit("work");
    reveal_strlit("observation");
    text::lemma_trim_unchanged(date);
    assert(text::lowercase(date) =~= date);
    let c = date[0];
    assert(('0' <= c && c <= '9') || c == '-' || c == '+');
}

/// What stands in the comment.
#[verifier::opaque]
spec fn inside(kind: Kind, date: Option<Seq<char>>) -> Seq<char> {
    " "@ + STAMP@ + " "@ + kind.name() + match date {
        Some(d) => " "@ + d,
        None => Seq::empty(),
    } + " "@
}

proof fn lemma_inside(kind: Kind, date: Option<Seq<char>>)
    requires
        date is Some ==> is_date_text(date->0),
    ensures
        told(stamp_words(inside(kind, date))) == (
            kind,
            match date {
                Some(d) => date_of(d),
                None => None,
            },
        ),
        !inside(kind, date).contains('>'),
        inside(kind, date).last() == ' ',
        comment(kind, date) == "<!--"@ + inside(kind, date) + "-->"@,
{
    reveal(comment);
    reveal(inside);
    reveal_strlit(" ");
    reveal_strlit("familiar");
    lemma_kind_word(kind);
    let e = Seq::<Seq<char>>::empty();
    assert(told(e) == (Kind::Fact, None::<i64>));
    let name = kind.name();
    let gap = seq![' '];
    assert(" "@ =~= gap);
    let none = Seq::<char>::empty();
    assert(text::words(none) =~= Seq::empty());
    text::lemma_words_front(' ', none);
    assert(gap + none =~= gap);
    match date {
        Some(d) => {
            lemma_date_word(d);
            let last = d + gap;
            text::lemma_words_first(d, gap);
            text::lemma_words_front(' ', last);
            let tail = gap + last;
            text::lemma_words_first(name, tail);
            let named = name + tail;
            text::lemma_words_front(' ', named);
            text::lemma_words_first(STAMP@, gap + named);
            text::lemma_words_front(' ', STAMP@ + (gap + named));
            assert(inside(kind, date) =~= gap + (STAMP@ + (gap + named)));
            assert(text::words(inside(kind, date)) =~= seq![STAMP@, name, d]);
            let rest = stamp_words(inside(kind, date));
            assert(rest =~= seq![name, d]);
            assert(rest.drop_last() =~= seq![name]);
            assert(rest.drop_last().drop_last() =~= e);
            assert(rest.drop_last().last() == name);
            assert(told(rest.drop_last()) == (kind, None::<i64>));
        },
        None => {
            text::lemma_words_first(name, gap);
            let named = name + gap;
            text::lemma_words_front(' ', named);
            text::lemma_words_first(STAMP@, gap + named);
            text::lemma_words_front(' ', STAMP@ + (gap + named));
            assert(inside(kind, date) =~= gap + (STAMP@ + (gap + named)));
            assert(text::words(inside(kind, date)) =~= seq![STAMP@, name]);
            let rest = stamp_words(inside(kind, date));
            assert(rest =~= seq![name]);
            assert(rest.drop_last() =~= e);
        },
    }
    assert(comment(kind, date) =~= "<!--"@ + inside(kind, date) + "-->"@);
}

/// Where a comment stands behind a text that has none and ends in a space.
proof fn lemma_comment_at(s: Seq<char>, rest: Seq<char>)
    requires
        forall|j: int| !#[trigger] text::stands_at(s, "<!--"@, j),
        s.len() > 0 ==> s.last() == ' ',
    ensures
        text::index_of(s + ("<!--"@ + rest), "<!--"@, 0) == s.len(),
{
    reveal_strlit("<!--");
    let p = "<!--"@;
    let whole = s + (p + rest);
    assert(whole.subrange(s.len() as int, s.len() as int + 4) =~= p);
    assert forall|j: int| 0 <= j < s.len() implies !text::stands_at(whole, p, j) by {
        if text::stands_at(whole, p, j) {
            let found = whole.subrange(j, j + 4);
            if j + 4 <= s.len() {
                assert(s.subrange(j, j + 4) =~= found);
                assert(text::stands_at(s, p, j));
            } else {
                assert(found[s.len() - 1 - j] == ' ');
            }
        }
    }
    text::lemma_index_is(whole, p, 0, s.len() as int);
}

/// Where a comment ends.
proof fn lemma_comment_ends(middle: Seq<char>)
    requires
        !middle.contains('>'),
        middle.len() > 0 ==> middle.last() == ' ',
    ensures
        text::index_of(middle + "-->"@, "-->"@, 0) == middle.len(),
{
    reveal_strlit("-->");
    let close = "-->"@;
    let rest = middle + close;
    let n = middle.len() as int;
    assert(rest.subrange(n, n + 3) =~= close);
    assert forall|j: int| 0 <= j < n implies !text::stands_at(rest, close, j) by {
        if text::stands_at(rest, close, j) {
            let found = rest.subrange(j, j + 3);
            assert(found[2] == rest[j + 2]);
            if j + 2 < n {
                assert(middle[j + 2] == '>');
            } else {
                assert(found[n - 1 - j] == rest[n - 1]);
            }
        }
    }
    text::lemma_index_is(rest, close, 0, n);
}

/// What the comment behind a text says.
proof fn lemma_stamp(s: Seq<char>, kind: Kind, date: Option<Seq<char>>)
    requires
        forall|j: int| !#[trigger] text::stands_at(s, "<!--"@, j),
        s.len() > 0 ==> s.last() == ' ',
        date is Some ==> is_date_text(date->0),
    ensures
        stamp(s + comment(kind, date)) == (
            kind,
            match date {
                Some(d) => date_of(d),
                None => None,
            },
        ),
{
    lemma_inside(kind, date);
    let open = "<!--"@;
    let middle = inside(kind, date);
    let rest = middle + "-->"@;
    lemma_comment_at(s, rest);
    lemma_comment_ends(middle);
    let whole = s + comment(kind, date);
    assert(open + middle + "-->"@ =~= open + rest);
    let start = s.len() as int;
    assert(whole.skip(start + open.len()) =~= rest);
    assert(rest.take(middle.len() as int) =~= middle);
    assert(remark(whole) == Some(middle));
}

/// What of a line stands between the mark and the comment.
spec fn tagged(b: Seq<char>) -> Seq<char> {
    b + " "@ + TAG@ + " "@
}

proof fn lemma_tagged_opens(b: Seq<char>, j: int)
    requires
        !text::holds(b, "<!--"@),
    ensures
        !text::stands_at(tagged(b), "<!--"@, j),
{
    reveal_strlit(" ");
    reveal_strlit("#familiar");
    reveal_strlit("<!--");
    let open = "<!--"@;
    let t = tagged(b);
    if text::stands_at(t, open, j) {
        let found = t.subrange(j, j + 4);
        assert(found[0] == '<' && found[1] == '!');
        if j + 4 <= b.len() {
            assert(b.subrange(j, j + 4) =~= found);
            assert(text::stands_at(b, open, j));
        } else if j < b.len() {
            assert(found[b.len() - j] == ' ');
        } else {
            assert(t[j] != '<');
        }
    }
}

proof fn lemma_tagged_once(b: Seq<char>, j: int)
    requires
        !text::holds(b, TAG@),
        0 <= j <= b.len(),
    ensures
        !text::stands_at(tagged(b), TAG@, j),
{
    reveal_strlit(" ");
    reveal_strlit("#familiar");
    let t = tagged(b);
    if text::stands_at(t, TAG@, j) {
        let found = t.subrange(j, j + 9);
        if j + 9 <= b.len() {
            assert(b.subrange(j, j + 9) =~= found);
            assert(text::stands_at(b, TAG@, j));
        } else {
            assert(found[b.len() - j] == ' ');
        }
    }
}

proof fn lemma_tagged_bare(b: Seq<char>)
    requires
        !text::holds(b, TAG@),
        b.len() > 0,
        !text::is_space(b[0]),
        !text::is_space(b.last()),
    ensures
        text::trim(text::replace(tagged(b), TAG@, ""@)) == b,
{
    reveal_strlit(" ");
    reveal_strlit("#familiar");
    reveal_strlit("");
    let t = tagged(b);
    let k = b.len() + 1;
    assert forall|j: int| 0 <= j < k implies !#[trigger] text::stands_at(t, TAG@, j) by {
        lemma_tagged_once(b, j);
    }
    text::lemma_replace_front(t, TAG@, ""@, k as int);
    let rest = t.skip(k as int);
    assert(rest =~= TAG@ + " "@);
    assert(rest.take(9) =~= TAG@);
    assert(rest.skip(9) =~= " "@);
    let none = Seq::<char>::empty();
    text::lemma_replace_tail(none, " "@, TAG@, ""@);
    assert(none + " "@ =~= " "@);
    assert(text::replace(none, TAG@, ""@) =~= none);
    let gap = " "@ + " "@;
    assert(text::replace(t, TAG@, ""@) =~= b + gap);
    text::lemma_trim_tail(b, gap);
    text::lemma_trim_unchanged(b);
}

/// What a line says: it does not matter how much white space stands in front of
/// the comment.
proof fn lemma_said(b: Seq<char>, blank: Seq<char>, tail: Seq<char>)
    requires
        text::trim_start(b).len() > 0,
        unmarked(text::trim_start(b)) != "-"@,
        text::is_blank(blank),
        tail.len() > 0 ==> tail[0] == '<',
        text::front(b + (blank + tail), "<!--"@) == b + blank,
    ensures
        said(b + (blank + tail)) == text::trim(
            text::replace(unmarked(text::trim_start(b)), TAG@, ""@),
        ),
{
    reveal_strlit("#familiar");
    let line = b + (blank + tail);
    let x = text::trim_start(b);
    let u = unmarked(x);
    text::lemma_trim_start_front(b, blank + tail);
    text::lemma_trim_start(b);
    if blank.len() > 0 {
        assert((blank + tail)[0] == blank[0]);
    }
    lemma_unmarked_tail(x, blank + tail);
    lemma_unmarked_part(x);
    let k = b.len() - u.len();
    assert(u =~= b.skip(k));
    assert(u + (blank + tail) =~= line.skip(k));
    lemma_front_suffix(line, k);
    assert((b + blank).skip(k) =~= u + blank);
    text::lemma_replace_tail(u, blank, TAG@, ""@);
    text::lemma_trim_tail(text::replace(u, TAG@, ""@), blank);
}

/// A line that was written is read back as it was meant: the sentence, with its
/// relation, the kind, and the day. The sentence may not itself look like a
/// mark, a tag or a comment.
pub proof fn what_is_rendered_reads_back(
    note: Seq<char>,
    subject: Seq<char>,
    text: Seq<char>,
    kind: Kind,
    related: Option<&str>,
    date: Seq<char>,
)
    requires
        is_date_text(date),
        text::trim(text).len() > 0,
        !text::holds(text::trim(text) + relation(related), "<!--"@),
        !text::holds(text::trim(text) + relation(related), TAG@),
        !text::starts(text::trim(text) + relation(related) + " "@, MARK@),
    ensures
        read(note, subject, rendered(text, kind, related, date)) == Some(
            Seen {
                note,
                subject,
                text: text::trim(text) + relation(related),
                kind,
                saved: date_of(date),
            },
        ),
{
    let b = text::trim(text) + relation(related);
    text::lemma_trim(text);
    assert(b[0] == text::trim(text)[0]);
    assert(!text::is_space(b.last())) by {
        reveal_strlit("]]");
        if relation(related).len() > 0 {
            assert(b.last() == ']');
        }
    }
    lemma_reads_back(b, kind, date);
    assert(rendered(text, kind, related, date) =~= MARK@ + tagged(b) + comment(kind, Some(date)));
}

/// A sentence without a line feed makes one line, with nothing to take off its
/// end.
pub proof fn lemma_rendered_line(
    text: Seq<char>,
    kind: Kind,
    related: Option<&str>,
    date: Seq<char>,
)
    requires
        is_date_text(date),
        !(text::trim(text) + relation(related)).contains('\n'),
    ensures
        !rendered(text, kind, related, date).contains('\n'),
        text::without_return(rendered(text, kind, related, date)) == rendered(
            text,
            kind,
            related,
            date,
        ),
{
    reveal_strlit("- ");
    reveal_strlit(" ");
    reveal_strlit("#familiar");
    lemma_comment_line(kind, Some(date));
    let b = text::trim(text) + relation(related);
    let c = comment(kind, Some(date));
    let line = rendered(text, kind, related, date);
    assert(line =~= MARK@ + b + seq![' '] + TAG@ + seq![' '] + c);
    assert(line.last() == c.last());
    assert forall|i: int| 0 <= i < line.len() implies line[i] != '\n' by {
        if 2 <= i < 2 + b.len() {
            assert(line[i] == b[i - 2]);
            assert(b.contains(b[i - 2]));
        } else if i >= line.len() - c.len() {
            let j = i - (line.len() - c.len());
            assert(line[i] == c[j]);
            assert(c.contains(c[j]));
        }
    }
}

/// A comment has no line feed in it.
pub proof fn lemma_comment_line(kind: Kind, date: Option<Seq<char>>)
    requires
        date is Some ==> is_date_text(date->0),
    ensures
        !comment(kind, date).contains('\n'),
        comment(kind, date).len() > 0,
        comment(kind, date).last() == '>',
{
    reveal(comment);
    reveal_strlit("<!--");
    reveal_strlit("-->");
    reveal_strlit(" ");
    reveal_strlit("familiar");
    reveal_strlit("preference");
    reveal_strlit("profile");
    reveal_strlit("project");
    reveal_strlit("fact");
    let c = comment(kind, date);
    let n = kind.name();
    let d = match date {
        Some(d) => " "@ + d,
        None => Seq::empty(),
    };
    assert(c =~= "<!-- familiar "@ + n + d + " -->"@) by {
        reveal_strlit("<!-- familiar ");
        reveal_strlit(" -->");
    }
    reveal_strlit("<!-- familiar ");
    reveal_strlit(" -->");
    assert forall|i: int| 0 <= i < c.len() implies c[i] != '\n' by {
        if 14 <= i < 14 + n.len() {
            assert(c[i] == n[i - 14]);
        } else if 14 + n.len() <= i < 14 + n.len() + d.len() {
            let j = i - 14 - n.len();
            assert(c[i] == d[j]);
            if j > 0 {
                assert(d[j] == date->0[j - 1]);
            }
        }
    }
}

proof fn lemma_reads_back(b: Seq<char>, kind: Kind, date: Seq<char>)
    requires
        is_date_text(date),
        b.len() > 0,
        !text::is_space(b[0]),
        !text::is_space(b.last()),
        !text::holds(b, "<!--"@),
        !text::holds(b, TAG@),
        !text::starts(b + " "@, MARK@),
    ensures
        ({
            let line = MARK@ + tagged(b) + comment(kind, Some(date));
            is_marked(line) && said(line) == b && stamp(line) == (kind, date_of(date))
        }),
{
    reveal_strlit("- ");
    reveal_strlit(" ");
    reveal_strlit("#familiar");
    let t = tagged(b);
    let head = MARK@ + t;
    let c = comment(kind, Some(date));
    let line = head + c;
    assert(t.last() == ' ' && head.last() == ' ');
    lemma_inside(kind, Some(date));
    let inner = inside(kind, Some(date)) + "-->"@;
    assert(c =~= "<!--"@ + inner);
    assert forall|j: int| !#[trigger] text::stands_at(t, "<!--"@, j) by {
        lemma_tagged_opens(b, j);
    }
    assert forall|j: int| !#[trigger] text::stands_at(head, "<!--"@, j) by {
        reveal_strlit("<!--");
        if text::stands_at(head, "<!--"@, j) {
            let found = head.subrange(j, j + 4);
            assert(found[0] == head[j]);
            assert(j >= 2);
            assert(t.subrange(j - 2, j + 2) =~= found);
            assert(text::stands_at(t, "<!--"@, j - 2));
        }
    }
    lemma_stamp(head, kind, Some(date));
    // The marking.
    assert(line[0] == '-');
    assert(text::trim_start(line) == line);
    assert(line.take(2) =~= MARK@);
    assert(line.subrange(b.len() as int + 3, b.len() as int + 12) =~= TAG@);
    assert(text::stands_at(line, TAG@, b.len() as int + 3));
    // The sentence.
    let rest = t + c;
    assert(line.skip(2) =~= rest);
    assert(unmarked(rest) == rest) by {
        let near = b + " "@;
        if rest[0] == '-' && rest[1] == ' ' {
            assert(near[0] == '-' && near[1] == ' ');
            assert(near.take(2) =~= MARK@);
        }
    }
    lemma_comment_at(t, inner);
    assert(rest =~= t + ("<!--"@ + inner));
    assert(rest.take(t.len() as int) =~= t);
    lemma_tagged_bare(b);
}

proof fn lemma_unmarked_tail(s: Seq<char>, rest: Seq<char>)
    requires
        unmarked(s) == "-"@ ==> rest.len() == 0 || rest[0] != ' ',
        rest.len() > 1 && rest[0] == '-' ==> rest[1] != ' ',
    ensures
        unmarked(s + rest) == unmarked(s) + rest,
    decreases s.len(),
{
    reveal_strlit("-");
    let t = s + rest;
    if s.len() >= 2 {
        if s[0] == '-' && s[1] == ' ' {
            assert(t.skip(2) =~= s.skip(2) + rest);
            lemma_unmarked_tail(s.skip(2), rest);
        }
    } else if s.len() == 1 {
        if s[0] == '-' {
            assert(s =~= "-"@);
        }
    } else {
        assert(t =~= rest);
        assert(unmarked(s) + rest =~= rest);
    }
}

proof fn lemma_unmarked_part(s: Seq<char>)
    ensures
        unmarked(s).len() <= s.len(),
        unmarked(s) == s.skip(s.len() - unmarked(s).len()),
    decreases s.len(),
{
    if s.len() >= 2 && s[0] == '-' && s[1] == ' ' {
        lemma_unmarked_part(s.skip(2));
        assert(unmarked(s) =~= s.skip(s.len() - unmarked(s).len()));
    } else {
        assert(s.skip(0) =~= s);
    }
}

/// Taking something off a text in front of its comment takes it off what stands
/// in front of the comment.
proof fn lemma_front_suffix(s: Seq<char>, k: int)
    requires
        0 <= k <= text::front(s, "<!--"@).len(),
    ensures
        text::front(s.skip(k), "<!--"@) == text::front(s, "<!--"@).skip(k),
{
    let p = "<!--"@;
    let t = s.skip(k);
    text::lemma_index_of(s, p, 0);
    text::lemma_index_of(t, p, 0);
    let at = text::index_of(s, p, 0);
    assert forall|j: int| 0 <= j implies (#[trigger] text::stands_at(t, p, j) <==> text::stands_at(
        s,
        p,
        j + k,
    )) by {
        if j + p.len() <= t.len() {
            assert(t.subrange(j, j + p.len()) =~= s.subrange(j + k, j + k + p.len()));
        }
    }
    if at >= 0 {
        assert(text::stands_at(t, p, at - k));
        text::lemma_index_is(t, p, 0, at - k);
        assert(t.take(at - k) =~= s.take(at).skip(k));
    } else {
        let found = text::index_of(t, p, 0);
        if found >= 0 {
            assert(text::stands_at(s, p, found + k));
        }
    }
}

/// Filing a line under another kind keeps its text and its day, and changes the
/// kind; but for a line whose whole text is a hyphen, which then reads as a mark.
#[verifier::spinoff_prover]
#[verifier::rlimit(60)]
pub proof fn restamping_keeps_text_and_date(line: Seq<char>, kind: Kind)
    requires
        unmarked(text::trim_start(body(line))) != "-"@,
        match stamp(line).1 {
            Some(day) => is_date_text(strftime(day * DAY, "%Y-%m-%d"@)) && date_of(
                strftime(day * DAY, "%Y-%m-%d"@),
            ) == Some(day),
            None => true,
        },
    ensures
        said(restamped(line, kind)) == said(line),
        stamp(restamped(line, kind)) == (kind, stamp(line).1),
{
    reveal_strlit("- ");
    reveal_strlit(" ");
    reveal_strlit("#familiar");
    reveal_strlit("<!--");
    let open = "<!--"@;
    let date = match stamp(line).1 {
        Some(day) => Some(strftime(day * DAY, "%Y-%m-%d"@)),
        None => None,
    };
    lemma_inside(kind, date);
    let c = comment(kind, date);
    let inner = inside(kind, date) + "-->"@;
    assert(c =~= open + inner);
    let f = text::front(line, open);
    let b = body(line);
    let blank = f.skip(b.len() as int);
    text::lemma_trim_end(f);
    assert(f =~= b + blank);
    assert(text::is_blank(blank)) by {
        assert forall|i: int| 0 <= i < blank.len() implies text::is_space(#[trigger] blank[i]) by {
            assert(blank[i] == f[b.len() + i]);
        }
    }
    text::lemma_index_of(line, open, 0);
    let at = text::index_of(line, open, 0);
    let tail = line.skip(f.len() as int);
    assert(line =~= f + tail);
    assert forall|j: int| !#[trigger] text::stands_at(f, open, j) by {
        if text::stands_at(f, open, j) {
            assert(line.subrange(j, j + 4) =~= f.subrange(j, j + 4));
            assert(text::stands_at(line, open, j));
        }
    }
    if at >= 0 {
        assert(tail.subrange(0, 4) =~= line.subrange(at, at + 4));
        assert(tail[0] == tail.subrange(0, 4)[0]);
        assert(tail[0] == '<');
    }
    // The stamp.
    let head = b + " "@;
    assert forall|j: int| !#[trigger] text::stands_at(head, open, j) by {
        if text::stands_at(head, open, j) {
            let found = head.subrange(j, j + 4);
            if j + 4 <= b.len() {
                assert(f.subrange(j, j + 4) =~= found);
                assert(text::stands_at(f, open, j));
            } else {
                assert(found[3] == head[j + 3]);
            }
        }
    }
    lemma_stamp(head, kind, date);
    assert(restamped(line, kind) =~= head + c);
    // The text.
    let again = restamped(line, kind);
    lemma_comment_at(head, inner);
    assert(again =~= head + (open + inner));
    assert(again.take(head.len() as int) =~= head);
    assert(line =~= b + (blank + tail));
    assert(again =~= b + (" "@ + c));
    text::lemma_trim_start(b);
    if b.len() == 0 {
        lemma_nothing_said(blank, tail);
        assert(c.take(4) =~= open);
        lemma_nothing_said(" "@, c);
        assert(line =~= blank + tail);
        assert(again =~= " "@ + c);
    } else {
        if text::trim_start(b).len() == 0 {
            assert(text::is_space(b[b.len() - 1]));
        }
        lemma_said(b, blank, tail);
        lemma_said(b, " "@, c);
    }
}

/// A line with nothing but a comment in it says nothing.
proof fn lemma_nothing_said(blank: Seq<char>, tail: Seq<char>)
    requires
        text::is_blank(blank),
        tail.len() > 0 ==> text::starts(tail, "<!--"@),
    ensures
        said(blank + tail).len() == 0,
    decreases blank.len(),
{
    reveal_strlit("<!--");
    reveal_strlit("#familiar");
    reveal_strlit("");
    let line = blank + tail;
    if blank.len() > 0 {
        assert(text::is_space(blank[0]));
        lemma_nothing_said(blank.drop_first(), tail);
        assert(line.drop_first() =~= blank.drop_first() + tail);
    } else {
        assert(line =~= tail);
        if tail.len() > 0 {
            assert(tail[0] == tail.take(4)[0]);
            assert(tail.subrange(0, 4) =~= tail.take(4));
            assert(text::stands_at(tail, "<!--"@, 0));
            text::lemma_index_is(tail, "<!--"@, 0, 0);
        }
        assert(unmarked(text::trim_start(line)) == tail);
        assert(text::front(tail, "<!--"@) =~= Seq::empty()) by {
            if tail.len() == 0 {
                text::lemma_index_of(tail, "<!--"@, 0);
            }
        }
        assert(text::replace(Seq::<char>::empty(), TAG@, ""@) =~= Seq::empty());
    }
}

/// A kind goes by its name, and by what else it may be called; the most durable comes
/// first.
pub proof fn kinds_go_by_their_names()
    ensures
        Kind::said("profile"@) == Some(Kind::Profile),
        Kind::said("identity"@) == Some(Kind::Profile),
        Kind::said("preference"@) == Some(Kind::Preference),
        Kind::said("instruction"@) == Some(Kind::Preference),
        Kind::said("project"@) == Some(Kind::Project),
        Kind::said("work"@) == Some(Kind::Project),
        Kind::said("fact"@) == Some(Kind::Fact),
        Kind::said("observation"@) == Some(Kind::Fact),
        Kind::Profile.name() == "profile"@,
        Kind::Preference.name() == "preference"@,
        Kind::Project.name() == "project"@,
        Kind::Fact.name() == "fact"@,
        Kind::Profile.place() < Kind::Preference.place() < Kind::Project.place()
            < Kind::Fact.place(),
        Kind::Profile.rides_along() && Kind::Preference.rides_along(),
        !Kind::Project.rides_along() && !Kind::Fact.rides_along(),
{
    kinds_read_back(Kind::Profile);
    kinds_read_back(Kind::Preference);
    kinds_read_back(Kind::Project);
    kinds_read_back(Kind::Fact);
    reveal_strlit("profile");
    reveal_strlit("preference");
    reveal_strlit("project");
    reveal_strlit("fact");
    reveal_strlit("identity");
    reveal_strlit("instruction");
    reveal_strlit("work");
    reveal_strlit("observation");
    text::lemma_trim_unchanged("identity"@);
    text::lemma_trim_unchanged("instruction"@);
    text::lemma_trim_unchanged("work"@);
    text::lemma_trim_unchanged("observation"@);
    assert(text::lowercase("identity"@) =~= "identity"@);
    assert(text::lowercase("instruction"@) =~= "instruction"@);
    assert(text::lowercase("work"@) =~= "work"@);
    assert(text::lowercase("observation"@) =~= "observation"@);
    assert("identity"@[0] == 'i' && "instruction"@[0] == 'i' && "identity"@.len() == 8
        && "instruction"@.len() == 11);
    assert("work"@[0] == 'w' && "observation"@[0] == 'o' && "profile"@[0] == 'p'
        && "preference"@[0] == 'p' && "project"@[0] == 'p' && "fact"@[0] == 'f');
}

/// Two lines have the same key exactly where they say the same in the same note: no note
/// has the character in its name that parts the two.
pub proof fn a_key_is_a_note_and_what_it_says(a: Seen, b: Seen)
    requires
        !a.note.contains('\u{1f}'),
        !b.note.contains('\u{1f}'),
    ensures
        a.key() == b.key() <==> a.note == b.note && normal(a.text) == normal(b.text),
{
    let x = a.key();
    let y = b.key();
    if x == y {
        let m = a.note.len() as int;
        let n = b.note.len() as int;
        assert(x[m] == '\u{1f}' && y[n] == '\u{1f}');
        if m < n {
            assert(y[m] == b.note[m]);
            assert(b.note.contains(b.note[m]));
        }
        if n < m {
            assert(x[n] == a.note[n]);
            assert(a.note.contains(a.note[n]));
        }
        assert(a.note =~= x.take(m));
        assert(b.note =~= y.take(n));
        assert(normal(a.text) =~= x.skip(m + 1));
        assert(normal(b.text) =~= y.skip(n + 1));
    }
}

/// Who the user is and how they want things done goes along with everything, and so comes
/// before all else; and no two kinds rank the same.
pub proof fn kinds_are_ranked(a: Kind, b: Kind)
    ensures
        a.rides_along() <==> a.name() == "profile"@ || a.name() == "preference"@,
        a.rides_along() && !b.rides_along() ==> a.place() < b.place(),
        a != b ==> a.place() < b.place() || b.place() < a.place(),
        a.name() == "profile"@ && a != b ==> a.place() < b.place(),
        a.name() == "project"@ && b.name() == "fact"@ ==> a.place() < b.place(),
{
    reveal_strlit("profile");
    reveal_strlit("preference");
    reveal_strlit("project");
    reveal_strlit("fact");
    assert("profile"@.len() == 7 && "project"@.len() == 7 && "profile"@[3] == 'f'
        && "project"@[3] == 'j');
    assert("preference"@.len() == 10 && "fact"@.len() == 4);
}

/// Capitals do not count.
pub proof fn capitals_do_not_count(a: Seq<char>, b: Seq<char>)
    requires
        vstd::utf8::is_ascii_chars(a),
        vstd::utf8::is_ascii_chars(b),
        text::ascii_lowercase(a) == text::ascii_lowercase(b),
    ensures
        normal(a) == normal(b),
{
    normalising_twice_is_normalising_once(a);
    normalising_twice_is_normalising_once(b);
    let x = text::ascii_lowercase(bare(a));
    let y = text::ascii_lowercase(bare(b));
    assert(a.len() == text::ascii_lowercase(a).len());
    assert(b.len() == text::ascii_lowercase(b).len());
    assert forall|i: int| 0 <= i < x.len() implies x[i] == y[i] by {
        assert('\0' <= a[i] <= '\u{7f}');
        assert('\0' <= b[i] <= '\u{7f}');
        assert(text::ascii_lowercase(a)[i] == text::ascii_lower(a[i]));
        assert(text::ascii_lowercase(b)[i] == text::ascii_lower(b[i]));
        let p = bare(a)[i];
        let q = bare(b)[i];
        if text::is_alphanumeric(a[i]) {
            assert(p == a[i] && q == b[i]);
        } else {
            assert(p == ' ' && q == ' ');
        }
        assert(x[i] == text::ascii_lower(p));
        assert(y[i] == text::ascii_lower(q));
    }
    assert(x =~= y);
}

proof fn lemma_bare_join(words: Seq<Seq<char>>, gap: char)
    requires
        !text::is_alphanumeric(gap),
        forall|i: int, j: int|
            0 <= i < words.len() && 0 <= j < words[i].len() ==> is_plain(#[trigger] words[i][j]),
    ensures
        bare(text::join(words, seq![gap])) == text::join(words, " "@),
    decreases words.len(),
{
    reveal_strlit(" ");
    let s = text::join(words, seq![gap]);
    if words.len() == 0 {
        assert(bare(s) =~= text::join(words, " "@));
    } else if words.len() == 1 {
        assert forall|k: int| 0 <= k < s.len() implies bare(s)[k] == s[k] by {
            assert(is_plain(words[0][k]));
        }
        assert(bare(s) =~= s);
    } else {
        let rest = words.drop_last();
        let last = words.last();
        assert forall|i: int, j: int| 0 <= i < rest.len() && 0 <= j < rest[i].len() implies is_plain(
            #[trigger] rest[i][j],
        ) by {
            assert(rest[i][j] == words[i][j]);
        }
        lemma_bare_join(rest, gap);
        let front = text::join(rest, seq![gap]);
        assert(s == front + seq![gap] + last);
        assert forall|k: int| 0 <= k < last.len() implies bare(last)[k] == last[k] by {
            assert(is_plain(words[words.len() - 1][k]));
        }
        assert(bare(last) =~= last);
        assert(bare(s) =~= bare(front) + " "@ + bare(last));
    }
}

/// Only the words count, and not what stands between them.
pub proof fn only_the_words_count(words: Seq<Seq<char>>, gap: char)
    requires
        '\0' <= gap <= '\u{7f}',
        !text::is_alphanumeric(gap),
        forall|i: int| 0 <= i < words.len() ==> (#[trigger] words[i]).len() > 0,
        forall|i: int, j: int|
            0 <= i < words.len() && 0 <= j < words[i].len() ==> is_plain(#[trigger] words[i][j]),
    ensures
        normal(text::join(words, seq![gap])) == text::join(words, " "@),
{
    let s = text::join(words, seq![gap]);
    let n = text::join(words, " "@);
    lemma_bare_join(words, gap);
    lemma_joined_plain(words);
    assert forall|i: int| 0 <= i < s.len() implies '\0' <= #[trigger] s[i] <= '\u{7f}' by {
        assert(bare(s)[i] == n[i]);
        if text::is_alphanumeric(s[i]) {
            assert(bare(s)[i] == s[i]);
            assert(is_plain(n[i]) || n[i] == ' ');
        } else {
            lemma_join_char(words, gap, i);
        }
    }
    assert(vstd::utf8::is_ascii_chars(s));
    normalising_twice_is_normalising_once(s);
    assert(text::ascii_lowercase(n) =~= n);
    let none = Seq::<char>::empty();
    assert forall|i: int| 0 <= i < words.len() implies (#[trigger] words[i]).len() > 0
        && text::is_solid(words[i]) by {
        assert forall|j: int| 0 <= j < words[i].len() implies !text::is_space(
            #[trigger] words[i][j],
        ) by {
            assert(is_plain(words[i][j]));
        }
    }
    text::lemma_words_joined(words, none);
    assert(n + none =~= n);
    assert(text::words(none) =~= Seq::empty());
    assert(words + Seq::<Seq<char>>::empty() =~= words);
}

proof fn lemma_join_char(words: Seq<Seq<char>>, gap: char, k: int)
    requires
        0 <= k < text::join(words, seq![gap]).len(),
        forall|i: int, j: int|
            0 <= i < words.len() && 0 <= j < words[i].len() ==> is_plain(#[trigger] words[i][j]),
    ensures
        text::join(words, seq![gap])[k] == gap || is_plain(text::join(words, seq![gap])[k]),
    decreases words.len(),
{
    let s = text::join(words, seq![gap]);
    if words.len() == 1 {
        assert(is_plain(words[0][k]));
    } else if words.len() > 1 {
        let rest = words.drop_last();
        let front = text::join(rest, seq![gap]);
        assert forall|i: int, j: int| 0 <= i < rest.len() && 0 <= j < rest[i].len() implies is_plain(
            #[trigger] rest[i][j],
        ) by {
            assert(rest[i][j] == words[i][j]);
        }
        if k < front.len() {
            lemma_join_char(rest, gap, k);
        } else if k > front.len() {
            assert(is_plain(words[words.len() - 1][k - front.len() - 1]));
        }
    }
}

/// The more durable of two kinds is worth more and stays so for at least twice as long; a
/// profile, worth a whole, for ten years, a preference for one; and even a fact is worth
/// half a profile.
pub proof fn what_is_more_durable_is_worth_more(a: Kind, b: Kind)
    ensures
        a.place() < b.place() ==> a.worth() > b.worth() && a.lasts() >= 2 * b.lasts(),
        a.place() == 0 ==> a.worth() == 10 && a.lasts() == 10 * 365,
        a.place() == 0 && b.place() == 1 ==> a.lasts() == 10 * b.lasts() && a.worth() == b.worth()
            + 1,
        a.place() == 2 && b.place() == 3 ==> a.lasts() == 2 * b.lasts() && a.lasts() == 90,
        a.place() == 1 && b.place() == 2 ==> a.worth() == b.worth() + 2,
        a.place() == 0 && b.place() == 3 ==> a.worth() == 2 * b.worth(),
{
}

} // verus!
