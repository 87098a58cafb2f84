//! Finding out what has happened lately on a subject.
//!
//! Recency has to be a filter, not a hope: every search carries a window. Beyond
//! that, the same story turning up in more than one place is the evidence that
//! it matters. So several lanes run at once, what they agree on is merged, and
//! the stories are ranked by that agreement.

pub mod brief;
pub mod ranking;

pub use self::brief::{brief, guidance};
pub use self::ranking::{merge, rank, Story};

use crate::text;
use crate::time::{instant_of, iso, read_instant, rfc3339, strftime, written, Stamp, DAY};
use crate::web::{Contents, Found, SearchRequest, SearchResponse, TextOptions};
use vstd::prelude::*;
use vstd::slice::slice_subrange;

verus! {

/// Hacker News' search index.
pub const HN_SEARCH_URL: &'static str = "https://hn.algolia.com/api/v1/search";

/// How many items the brief carries.
pub const MAX_ITEMS: usize = 10;

/// Text kept per item.
pub const CHARS_PER_ITEM: usize = 700;

/// How many results to ask each lane for.
pub const PER_LANE: usize = 10;

/// Where the community lane is allowed to look.
pub open spec fn forum_names() -> Seq<Seq<char>> {
    seq!["reddit.com"@, "news.ycombinator.com"@, "lobste.rs"@, "stackoverflow.com"@]
}

pub fn forums() -> (r: Vec<String>)
    ensures
        text::texts(r@) == forum_names(),
{
    let mut r: Vec<String> = Vec::new();
    r.push("reddit.com".to_owned());
    r.push("news.ycombinator.com".to_owned());
    r.push("lobste.rs".to_owned());
    r.push("stackoverflow.com".to_owned());
    assert(text::texts(r@) =~= forum_names());
    r
}

// ---------------------------------------------------------------------------
// The window
// ---------------------------------------------------------------------------

/// The stretch of time a brief covers.
#[derive(Debug, Clone, Copy, PartialEq, Eq, Structural)]
pub struct Window {
    pub days: i64,
    pub from: Stamp,
    pub to: Stamp,
}

impl Window {
    /// A month, which is the span the question usually means.
    pub const DEFAULT_DAYS: i64 = 30;

    /// Beyond a year the word "news" has stopped applying.
    pub const MAX_DAYS: i64 = 365;

    /// Both ends are on dates that the calendar has.
    pub open spec fn wf(self) -> bool {
        &&& self.from.dated() && self.from.nanos < 1_000_000_000
        &&& self.to.dated() && self.to.nanos < 1_000_000_000
    }

    /// How many days are looked back where so many are asked for.
    pub open spec fn stretch(days: int) -> int {
        if days < 1 {
            1
        } else if days > 365 {
            365
        } else {
            days
        }
    }

    /// The last `days` days ending now: at least one, and at most a year.
    pub fn of(days: i64, now: Stamp) -> (r: Self)
        requires
            now.wf(),
        ensures
            r.wf(),
            r.days == if days < 1 {
                1
            } else if days > 365 {
                365
            } else {
                days as int
            },
            r.to == now,
            r.from.nanos == now.nanos,
            r.from.seconds == now.seconds - r.days * DAY,
            r.days == Window::stretch(days as int),
    {
        let days: i64 = if days < 1 {
            1
        } else if days > 365 {
            365
        } else {
            days
        };
        Window {
            days,
            from: Stamp { seconds: now.seconds - days * 86_400, nanos: now.nanos },
            to: now,
        }
    }

    /// ISO 8601 with milliseconds, which is the shape the search filters want.
    pub fn from_iso(&self) -> (r: String)
        requires
            self.wf(),
        ensures
            r@ == rfc3339(self.from.seconds as int, self.from.nanos as int),
    {
        iso(self.from.seconds, self.from.nanos)
    }

    pub fn to_iso(&self) -> (r: String)
        requires
            self.wf(),
        ensures
            r@ == rfc3339(self.to.seconds as int, self.to.nanos as int),
    {
        iso(self.to.seconds, self.to.nanos)
    }

    /// The start, as Unix seconds.
    pub fn from_unix(&self) -> (r: i64)
        ensures
            r == self.from.seconds,
    {
        self.from.seconds
    }

    /// Whether something published then falls inside.
    pub fn holds(&self, at: Stamp) -> (r: bool)
        ensures
            r == self.includes(at),
    {
        self.from.not_after(&at) && at.not_after(&self.to)
    }

    pub open spec fn includes(self, at: Stamp) -> bool {
        self.from.up_to(at) && at.up_to(self.to)
    }

    /// How the window is said in the brief.
    pub open spec fn said(self) -> Seq<char> {
        text::signed(self.days as int) + " days, "@ + strftime(
            self.from.seconds as int,
            "%-d %B %Y"@,
        ) + " to "@ + strftime(self.to.seconds as int, "%-d %B %Y"@)
    }

    pub fn described(&self) -> (r: String)
        requires
            self.wf(),
        ensures
            r@ == self.said(),
    {
        let mut r = text::signed_of(self.days);
        r.append(" days, ");
        let from = written(self.from.seconds, "%-d %B %Y");
        r.append(from.as_str());
        r.append(" to ");
        let to = written(self.to.seconds, "%-d %B %Y");
        r.append(to.as_str());
        r
    }
}

/// A window ends now, holds its two ends, and nothing outside them.
pub proof fn a_window_holds_what_is_between_its_ends(window: Window, at: Stamp)
    requires
        window.wf(),
        window.from.up_to(window.to),
    ensures
        window.includes(window.from),
        window.includes(window.to),
        window.includes(at) ==> window.from.seconds <= at.seconds <= window.to.seconds,
        at.seconds < window.from.seconds ==> !window.includes(at),
        at.seconds > window.to.seconds ==> !window.includes(at),
{
}

// ---------------------------------------------------------------------------
// Lanes
// ---------------------------------------------------------------------------

#[derive(Debug, Clone, Copy, PartialEq, Eq, Hash, Structural)]
pub enum Lane {
    Press,
    Community,
    Engagement,
}

impl Lane {
    pub open spec fn name(self) -> Seq<char> {
        match self {
            Lane::Press => "press"@,
            Lane::Community => "discussion"@,
            Lane::Engagement => "Hacker News"@,
        }
    }

    pub fn named(&self) -> (r: &'static str)
        ensures
            r@ == self.name(),
    {
        match self {
            Lane::Press => "press",
            Lane::Community => "discussion",
            Lane::Engagement => "Hacker News",
        }
    }
}

/// One query, and which lane it belongs to.
#[derive(Debug, Clone, PartialEq, Eq)]
pub struct Angle {
    pub lane: Lane,
    pub query: String,
}

/// What angles say.
pub open spec fn angled(list: Seq<Angle>) -> Seq<(Lane, Seq<char>)> {
    Seq::new(list.len(), |i: int| (list[i].lane, list[i].query@))
}

/// The searches a topic turns into. Fixed phrasings, which describe pages, and
/// different pages.
pub fn angles(topic: &str) -> (r: Vec<Angle>)
    ensures
        angled(r@) == seq![
            (
                Lane::Press,
                "news article reporting a recent development in "@ + text::trim(topic@),
            ),
            (
                Lane::Press,
                "announcement, release note or launch post about "@ + text::trim(topic@)
                    + ", from the people behind it"@,
            ),
            (
                Lane::Community,
                "forum thread or discussion where people give their reaction to "@ + text::trim(
                    topic@,
                ),
            ),
        ],
{
    let chars = text::chars_of(topic);
    let topic_text = text::string_of(text::trimmed(chars.as_slice()));
    let mut first = "news article reporting a recent development in ".to_owned();
    first.append(topic_text.as_str());
    let mut second = "announcement, release note or launch post about ".to_owned();
    second.append(topic_text.as_str());
    second.append(", from the people behind it");
    let mut third = "forum thread or discussion where people give their reaction to ".to_owned();
    third.append(topic_text.as_str());
    let mut r: Vec<Angle> = Vec::new();
    r.push(Angle { lane: Lane::Press, query: first });
    r.push(Angle { lane: Lane::Press, query: second });
    r.push(Angle { lane: Lane::Community, query: third });
    assert(angled(r@) =~= seq![
        (Lane::Press, first@),
        (Lane::Press, second@),
        (Lane::Community, third@),
    ]);
    r
}

/// The sweep behind a call with no topic.
pub fn trending_angles() -> (r: Vec<Angle>)
    ensures
        angled(r@) == seq![(Lane::Press, TRENDING@)],
{
    let mut r: Vec<Angle> = Vec::new();
    r.push(Angle { lane: Lane::Press, query: TRENDING.to_owned() });
    assert(angled(r@) =~= seq![(Lane::Press, TRENDING@)]);
    r
}

pub const TRENDING: &'static str = "news article about a significant story that broke this week in technology, science or world events";

/// The text of an option.
pub open spec fn opt(s: Option<String>) -> Option<Seq<char>> {
    match s {
        Some(t) => Some(t@),
        None => None,
    }
}

/// The search for one angle, windowed.
pub fn exa_request(angle: &Angle, window: &Window) -> (r: SearchRequest)
    requires
        window.wf(),
    ensures
        r.query@ == angle.query@,
        r.num_results == PER_LANE,
        r.contents == (Contents {
            text: TextOptions { max_characters: CHARS_PER_ITEM, include_html_tags: false },
        }),
        opt(r.start_published_date) == Some(
            rfc3339(window.from.seconds as int, window.from.nanos as int),
        ),
        opt(r.end_published_date) == Some(
            rfc3339(window.to.seconds as int, window.to.nanos as int),
        ),
        opt(r.category) == if angle.lane == Lane::Press {
            Some("news"@)
        } else {
            None
        },
        r.include_domains is Some <==> angle.lane == Lane::Community,
        r.include_domains is Some ==> text::texts((r.include_domains->0)@) == forum_names(),
{
    let (category, include_domains) = match angle.lane {
        Lane::Press => (Some("news".to_owned()), None),
        Lane::Community => (None, Some(forums())),
        // Never issued against this service.
        Lane::Engagement => (None, None),
    };
    SearchRequest {
        query: angle.query.as_str().to_owned(),
        num_results: PER_LANE,
        contents: Contents {
            text: TextOptions { max_characters: CHARS_PER_ITEM, include_html_tags: false },
        },
        start_published_date: Some(window.from_iso()),
        end_published_date: Some(window.to_iso()),
        category,
        include_domains,
    }
}

// ---------------------------------------------------------------------------
// Percent-encoding
// ---------------------------------------------------------------------------

/// The bytes that stand for themselves.
pub open spec fn is_unreserved(b: u8) -> bool {
    (0x41 <= b <= 0x5a) || (0x61 <= b <= 0x7a) || (0x30 <= b <= 0x39) || b == 0x2d || b == 0x5f || b
        == 0x2e || b == 0x7e
}

/// A hexadecimal digit.
pub open spec fn hex_digit(n: int) -> char {
    if n < 10 {
        (n + 0x30) as char
    } else {
        (n - 10 + 0x41) as char
    }
}

/// One byte of a query.
pub open spec fn escaped_byte(b: u8) -> Seq<char> {
    if is_unreserved(b) {
        seq![b as char]
    } else {
        seq!['%', hex_digit(b as int / 16), hex_digit(b as int % 16)]
    }
}

/// Bytes as they stand in a query.
pub open spec fn escaped(bytes: Seq<u8>) -> Seq<char>
    decreases bytes.len(),
{
    if bytes.len() == 0 {
        Seq::empty()
    } else {
        escaped_byte(bytes[0]) + escaped(bytes.skip(1))
    }
}

fn push_hex(out: &mut String, n: u8)
    requires
        n < 16,
    ensures
        final(out)@ == old(out)@.push(hex_digit(n as int)),
{
    if n < 10 {
        out.push((n + 0x30u8) as char);
    } else {
        out.push((n - 10u8 + 0x41u8) as char);
    }
}

/// Percent-encoding for a query string.
pub fn escape(text: &str) -> (r: String)
    ensures
        r@ == escaped(vstd::utf8::encode_utf8(text@)),
{
    let bytes = text.as_bytes();
    let mut r = String::new();
    let mut i: usize = 0;
    assert(bytes@.skip(0) =~= bytes@);
    assert(r@ + escaped(bytes@) =~= escaped(bytes@));
    while i < bytes.len()
        invariant
            0 <= i <= bytes.len(),
            escaped(bytes@) == r@ + escaped(bytes@.skip(i as int)),
        decreases bytes.len() - i,
    {
        let b: u8 = bytes[i];
        let ghost before = r@;
        let ghost rest = bytes@.skip(i as int);
        if (0x41 <= b && b <= 0x5a) || (0x61 <= b && b <= 0x7a) || (0x30 <= b && b <= 0x39) || b
            == 0x2d || b == 0x5f || b == 0x2e || b == 0x7e {
            r.push(b as char);
        } else {
            r.push('%');
            push_hex(&mut r, b / 16);
            push_hex(&mut r, b % 16);
        }
        proof {
            assert(r@ =~= before + escaped_byte(b));
            assert(rest.skip(1) =~= bytes@.skip(i + 1));
            assert(before + (escaped_byte(b) + escaped(rest.skip(1))) =~= before + escaped_byte(b)
                + escaped(rest.skip(1)));
        }
        i = i + 1;
    }
    assert(bytes@.skip(i as int) =~= Seq::empty());
    assert(r@ + Seq::<char>::empty() =~= r@);
    r
}

/// The value of a hexadecimal digit.
pub open spec fn hex_value(c: char) -> int {
    if '0' <= c && c <= '9' {
        c as int - 0x30
    } else {
        c as int - 0x41 + 10
    }
}

/// The bytes that a query stands for.
pub open spec fn unescaped_query(s: Seq<char>) -> Seq<u8>
    decreases s.len(),
{
    if s.len() == 0 {
        Seq::empty()
    } else if s[0] == '%' && s.len() >= 3 {
        seq![(hex_value(s[1]) * 16 + hex_value(s[2])) as u8] + unescaped_query(s.skip(3))
    } else {
        seq![s[0] as u8] + unescaped_query(s.skip(1))
    }
}

/// What is escaped reads back, byte for byte, and stands in a query without
/// ending it: it is made of the characters that are not reserved, and of percent
/// signs.
pub proof fn escaping_can_be_read_back(bytes: Seq<u8>)
    ensures
        unescaped_query(escaped(bytes)) == bytes,
        forall|i: int|
            0 <= i < escaped(bytes).len() ==> {
                let c = #[trigger] escaped(bytes)[i];
                text::is_ascii_alphanumeric(c) || c == '-' || c == '_' || c == '.' || c == '~' || c
                    == '%'
            },
    decreases bytes.len(),
{
    let s = escaped(bytes);
    if bytes.len() == 0 {
        assert(unescaped_query(s) =~= bytes);
    } else {
        let rest = bytes.skip(1);
        escaping_can_be_read_back(rest);
        let b = bytes[0];
        let first = escaped_byte(b);
        if is_unreserved(b) {
            assert(s[0] == b as char);
            assert(s.skip(1) =~= escaped(rest));
            assert((b as char) as u8 == b);
        } else {
            assert(s[0] == '%' && s[1] == first[1] && s[2] == first[2]);
            assert(s.skip(3) =~= escaped(rest));
        }
        assert(unescaped_query(s) =~= bytes);
        assert forall|i: int| 0 <= i < s.len() implies {
            let c = #[trigger] s[i];
            text::is_ascii_alphanumeric(c) || c == '-' || c == '_' || c == '.' || c == '~' || c
                == '%'
        } by {
            if i < first.len() {
                assert(s[i] == first[i]);
            } else {
                assert(s[i] == escaped(rest)[i - first.len()]);
            }
        }
    }
}

/// Hacker News, searched by relevance within the window.
pub fn hn_url(topic: &str, window: &Window) -> (r: String)
    ensures
        r@ == HN_SEARCH_URL@ + "?query="@ + escaped(
            vstd::utf8::encode_utf8(text::trim(topic@)),
        ) + "&tags=story&numericFilters=created_at_i%3E"@ + text::signed(
            window.from.seconds as int,
        ) + "&hitsPerPage="@ + text::decimal(PER_LANE as nat),
{
    let chars = text::chars_of(topic);
    let plain_topic = text::string_of(text::trimmed(chars.as_slice()));
    let query = escape(plain_topic.as_str());
    let mut r = HN_SEARCH_URL.to_owned();
    r.append("?query=");
    r.append(query.as_str());
    r.append("&tags=story&numericFilters=created_at_i%3E");
    let from = text::signed_of(window.from_unix());
    r.append(from.as_str());
    r.append("&hitsPerPage=");
    text::push_decimal(&mut r, PER_LANE as u128);
    r
}

/// Hacker News' front page, for a call with no topic.
pub fn hn_front_page_url() -> (r: String)
    ensures
        r@ == HN_SEARCH_URL@ + "?tags=front_page&hitsPerPage="@ + text::decimal(PER_LANE as nat),
{
    let mut r = HN_SEARCH_URL.to_owned();
    r.append("?tags=front_page&hitsPerPage=");
    text::push_decimal(&mut r, PER_LANE as u128);
    r
}

// ---------------------------------------------------------------------------
// What comes back
// ---------------------------------------------------------------------------

/// One story, from one lane, before merging.
#[derive(Debug, Clone, PartialEq, Eq)]
pub struct Item {
    pub title: String,
    pub url: String,
    pub published: Option<Stamp>,
    pub lane: Lane,
    /// Points and comments, where a source reports them.
    pub points: Option<u32>,
    pub comments: Option<u32>,
    /// Where the conversation is, when that is not `url`.
    pub discussion: Option<String>,
    pub text: Option<String>,
}

/// What an item says.
#[verifier::ext_equal]
pub struct ItemModel {
    pub title: Seq<char>,
    pub url: Seq<char>,
    pub published: Option<Stamp>,
    pub lane: Lane,
    pub points: Option<u32>,
    pub comments: Option<u32>,
    pub discussion: Option<Seq<char>>,
    pub text: Option<Seq<char>>,
}

impl View for Item {
    type V = ItemModel;

    open spec fn view(&self) -> ItemModel {
        ItemModel {
            title: self.title@,
            url: self.url@,
            published: self.published,
            lane: self.lane,
            points: self.points,
            comments: self.comments,
            discussion: opt(self.discussion),
            text: opt(self.text),
        }
    }
}

/// What the items of a list say.
pub open spec fn items_said(list: Seq<Item>) -> Seq<ItemModel> {
    Seq::new(list.len(), |i: int| list[i]@)
}

/// A text in one paragraph, and no more of it than an item keeps.
pub open spec fn squashed(s: Seq<char>) -> Seq<char> {
    let t = text::squeezed(s);
    if t.len() > CHARS_PER_ITEM {
        t.take(CHARS_PER_ITEM as int)
    } else {
        t
    }
}

/// Page text as one paragraph. Layout is noise and blank lines cost tokens.
pub fn squash(s: &str) -> (r: String)
    ensures
        r@ == squashed(s@),
{
    let whole = text::squeeze(s);
    let chars = text::chars_of(whole.as_str());
    if chars.len() > CHARS_PER_ITEM {
        let r = text::string_of(slice_subrange(chars.as_slice(), 0, CHARS_PER_ITEM));
        assert(r@ =~= whole@.take(CHARS_PER_ITEM as int));
        r
    } else {
        whole
    }
}

/// An address without its scheme.
pub open spec fn schemeless(url: Seq<char>) -> Seq<char> {
    text::unprefixed(
        text::unprefixed(text::unprefixed(url, "https://"@), "http://"@),
        "www."@,
    )
}

/// The host of an address.
pub open spec fn host(url: Seq<char>) -> Seq<char> {
    let s = schemeless(url);
    s.take(text::next(s, '/', 0))
}

pub(crate) fn without_scheme<'a>(url: &'a [char]) -> (r: &'a [char])
    ensures
        r@ == schemeless(url@),
{
    text::prefix_off(text::prefix_off(text::prefix_off(url, "https://"), "http://"), "www.")
}

pub fn host_of(url: &str) -> (r: String)
    ensures
        r@ == host(url@),
{
    let chars = text::chars_of(url);
    let s = without_scheme(chars.as_slice());
    let n: usize = text::next_of(s, '/', 0);
    let r = text::string_of(slice_subrange(s, 0, n));
    assert(r@ =~= s@.take(n as int));
    r
}

/// The instant that a text names, but for white space around it.
pub open spec fn date_in(s: Option<Seq<char>>) -> Option<Stamp> {
    match s {
        Some(t) => instant_of(text::trim(t)),
        None => None,
    }
}

fn parse_date(s: &Option<String>) -> (r: Option<Stamp>)
    ensures
        r == date_in(opt(*s)),
        r is Some ==> (r->0).dated(),
{
    match s {
        Some(t) => {
            let chars = text::chars_of(t.as_str());
            let trimmed = text::string_of(text::trimmed(chars.as_slice()));
            read_instant(trimmed.as_str())
        },
        None => None,
    }
}

/// A page that was found, as an item.
pub open spec fn page_item(found: Found, lane: Lane) -> ItemModel {
    ItemModel {
        title: match found.title {
            Some(t) => t@,
            None => host(found.url@),
        },
        url: text::trim(found.url@),
        published: date_in(opt(found.published)),
        lane,
        points: None,
        comments: None,
        discussion: None,
        text: match found.text {
            Some(t) => Some(squashed(t@)),
            None => None,
        },
    }
}

/// Whether a page counts: it has an address, and is not dated outside the
/// window.
pub open spec fn counts(found: Found, window: Window) -> bool {
    text::trim(found.url@).len() > 0 && match date_in(opt(found.published)) {
        Some(at) => window.includes(at),
        None => true,
    }
}

/// The pages that count, as items.
pub open spec fn page_items(results: Seq<Found>, lane: Lane, window: Window) -> Seq<ItemModel>
    decreases results.len(),
{
    if results.len() == 0 {
        Seq::empty()
    } else {
        let before = page_items(results.drop_last(), lane, window);
        if counts(results.last(), window) {
            before.push(page_item(results.last(), lane))
        } else {
            before
        }
    }
}

/// Whether an item's date is one that the calendar has, if it has any.
pub open spec fn is_dated(item: ItemModel) -> bool {
    item.published is Some ==> (item.published->0).dated()
}

/// The results of a search, as items. A page with no date at all is kept, but
/// one dated outside the window is what the window was for.
pub fn from_exa(response: &SearchResponse, lane: Lane, window: &Window) -> (r: Vec<Item>)
    ensures
        items_said(r@) == page_items(response.results@, lane, *window),
        forall|i: int| 0 <= i < r.len() ==> is_dated((#[trigger] r[i])@),
{
    let results = &response.results;
    let mut r: Vec<Item> = Vec::new();
    let mut i: usize = 0;
    assert(items_said(r@) =~= Seq::empty());
    while i < results.len()
        invariant
            0 <= i <= results.len(),
            items_said(r@) == page_items(results@.take(i as int), lane, *window),
            forall|i: int| 0 <= i < r.len() ==> is_dated((#[trigger] r[i])@),
        decreases results.len() - i,
    {
        let found = &results[i];
        let ghost before = items_said(r@);
        assert(results@.take(i + 1).drop_last() =~= results@.take(i as int));
        let url_chars = text::chars_of(found.url.as_str());
        let url = text::trimmed(url_chars.as_slice());
        let published = parse_date(&found.published);
        let inside = match published {
            Some(at) => window.holds(at),
            None => true,
        };
        if url.len() > 0 && inside {
            let title = match &found.title {
                Some(t) => t.as_str().to_owned(),
                None => host_of(found.url.as_str()),
            };
            let body = match &found.text {
                Some(t) => Some(squash(t.as_str())),
                None => None,
            };
            let one = Item {
                title,
                url: text::string_of(url),
                published,
                lane,
                points: None,
                comments: None,
                discussion: None,
                text: body,
            };
            assert(one@ =~= page_item(*found, lane));
            r.push(one);
            assert(items_said(r@) =~= before.push(one@));
        }
        i = i + 1;
    }
    assert(results@.take(results@.len() as int) =~= results@);
    r
}

/// One hit of the Hacker News index.
#[derive(Debug, Clone, PartialEq, Eq)]
pub struct HnHit {
    pub title: Option<String>,
    pub url: Option<String>,
    pub id: Option<String>,
    pub points: Option<u32>,
    pub num_comments: Option<u32>,
    pub created_at: Option<String>,
    /// A text post, where the body is the story.
    pub story_text: Option<String>,
}

/// The address of a thread.
pub open spec fn thread(id: Seq<char>) -> Seq<char> {
    "https://news.ycombinator.com/item?id="@ + id
}

/// Where a hit links, if anywhere.
pub open spec fn linked(hit: HnHit) -> Seq<char> {
    match hit.url {
        Some(u) => text::trim(u@),
        None => Seq::empty(),
    }
}

/// A hit as an item: the article is the story and the thread is where it is
/// discussed; a text post has no article, and then the thread is the story.
pub open spec fn hit_item(hit: HnHit) -> Option<ItemModel> {
    match (hit.id, hit.title) {
        (Some(id), Some(title)) => Some(
            ItemModel {
                title: title@,
                url: if linked(hit).len() > 0 {
                    linked(hit)
                } else {
                    thread(id@)
                },
                published: date_in(opt(hit.created_at)),
                lane: Lane::Engagement,
                points: hit.points,
                comments: hit.num_comments,
                discussion: if linked(hit).len() > 0 {
                    Some(thread(id@))
                } else {
                    None
                },
                text: match hit.story_text {
                    Some(t) => Some(squashed(plain_text(t@))),
                    None => None,
                },
            },
        ),
        _ => None,
    }
}

/// Hits as items.
pub open spec fn hit_items(hits: Seq<HnHit>) -> Seq<ItemModel>
    decreases hits.len(),
{
    if hits.len() == 0 {
        Seq::empty()
    } else {
        match hit_item(hits.last()) {
            Some(item) => hit_items(hits.drop_last()).push(item),
            None => hit_items(hits.drop_last()),
        }
    }
}

fn item_of(hit: &HnHit) -> (r: Option<Item>)
    ensures
        match r {
            Some(item) => hit_item(*hit) == Some(item@) && is_dated(item@),
            None => hit_item(*hit) is None,
        },
{
    match (&hit.id, &hit.title) {
        (Some(id), Some(title)) => {
            let mut page = "https://news.ycombinator.com/item?id=".to_owned();
            page.append(id.as_str());
            let link = match &hit.url {
                Some(u) => {
                    let chars = text::chars_of(u.as_str());
                    text::string_of(text::trimmed(chars.as_slice()))
                },
                None => String::new(),
            };
            let has_link = text::chars_of(link.as_str()).len() > 0;
            let body = match &hit.story_text {
                Some(t) => {
                    let words = plain(t.as_str());
                    Some(squash(words.as_str()))
                },
                None => None,
            };
            let published = parse_date(&hit.created_at);
            let (url, discussion) = if has_link {
                (link, Some(page))
            } else {
                (page, None)
            };
            let item = Item {
                title: title.as_str().to_owned(),
                url,
                published,
                lane: Lane::Engagement,
                points: hit.points,
                comments: hit.num_comments,
                discussion,
                text: body,
            };
            assert(hit_item(*hit)->0 =~= item@);
            Some(item)
        },
        _ => None,
    }
}

/// Hacker News' hits, as items.
pub fn from_hn(hits: &[HnHit]) -> (r: Vec<Item>)
    ensures
        items_said(r@) == hit_items(hits@),
        forall|i: int| 0 <= i < r.len() ==> is_dated((#[trigger] r[i])@),
{
    let mut r: Vec<Item> = Vec::new();
    let mut i: usize = 0;
    assert(items_said(r@) =~= Seq::empty());
    while i < hits.len()
        invariant
            0 <= i <= hits.len(),
            items_said(r@) == hit_items(hits@.take(i as int)),
            forall|i: int| 0 <= i < r.len() ==> is_dated((#[trigger] r[i])@),
        decreases hits.len() - i,
    {
        let ghost before = items_said(r@);
        assert(hits@.take(i + 1).drop_last() =~= hits@.take(i as int));
        if let Some(one) = item_of(&hits[i]) {
            r.push(one);
            assert(items_said(r@) =~= before.push(one@));
        }
        i = i + 1;
    }
    assert(hits@.take(hits@.len() as int) =~= hits@);
    r
}

// ---------------------------------------------------------------------------
// HTML as text
// ---------------------------------------------------------------------------

/// A text without its tags, each of which leaves a space.
pub open spec fn stripped(html: Seq<char>, i: int, inside: bool) -> Seq<char>
    decreases html.len() - i,
{
    if i < 0 || i >= html.len() {
        Seq::empty()
    } else if html[i] == '<' {
        stripped(html, i + 1, true)
    } else if html[i] == '>' {
        seq![' '] + stripped(html, i + 1, false)
    } else if !inside {
        seq![html[i]] + stripped(html, i + 1, false)
    } else {
        stripped(html, i + 1, true)
    }
}

/// Whether a character is a hexadecimal digit of either case.
pub open spec fn is_hex(c: char) -> bool {
    ('0' <= c && c <= '9') || ('a' <= c && c <= 'f') || ('A' <= c && c <= 'F')
}

/// The value of a hexadecimal digit of either case.
pub open spec fn hex_digit_value(c: char) -> nat {
    if '0' <= c && c <= '9' {
        (c as int - 0x30) as nat
    } else if 'a' <= c && c <= 'f' {
        (c as int - 0x61 + 10) as nat
    } else {
        (c as int - 0x41 + 10) as nat
    }
}

/// The value of a run of hexadecimal digits.
pub open spec fn hex_run(s: Seq<char>) -> nat
    decreases s.len(),
{
    if s.len() == 0 {
        0
    } else {
        hex_run(s.drop_last()) * 16 + hex_digit_value(s.last())
    }
}

/// The number that a text spells in hexadecimal: digits, perhaps with a plus
/// sign in front.
pub open spec fn hex_number(s: Seq<char>) -> Option<nat> {
    let digits = unsigned_part(s);
    if is_hex_run(digits) && hex_run(digits) <= u32::MAX {
        Some(hex_run(digits))
    } else {
        None
    }
}

/// A number without the plus sign in front of it.
pub open spec fn unsigned_part(s: Seq<char>) -> Seq<char> {
    if s.len() > 0 && s[0] == '+' {
        s.skip(1)
    } else {
        s
    }
}

/// Whether a text is made of hexadecimal digits, at least one.
pub open spec fn is_hex_run(s: Seq<char>) -> bool {
    s.len() > 0 && forall|i: int| 0 <= i < s.len() ==> is_hex(#[trigger] s[i])
}

/// The character with a code point, if there is a number for it.
pub open spec fn char_of(n: Option<nat>) -> Option<char> {
    match n {
        Some(i) => text::char_with(i as int),
        None => None,
    }
}

/// The character that an entity stands for: those that are emitted by name, and
/// numeric references.
pub open spec fn entity(name: Seq<char>) -> Option<char> {
    if name == "amp"@ {
        Some('&')
    } else if name == "lt"@ {
        Some('<')
    } else if name == "gt"@ {
        Some('>')
    } else if name == "quot"@ {
        Some('"')
    } else if name == "apos"@ {
        Some('\'')
    } else if name == "nbsp"@ {
        Some(' ')
    } else if name.len() >= 2 && name[0] == '#' && (name[1] == 'x' || name[1] == 'X') {
        char_of(hex_number(name.skip(2)))
    } else if name.len() >= 1 && name[0] == '#' {
        char_of(text::number(name.skip(1), u32::MAX as nat))
    } else {
        None
    }
}

/// How far behind an ampersand the semicolon of an entity may stand.
pub const ENTITY_REACH: usize = 10;

/// The entity at the start of a text, and how long it is.
pub open spec fn entity_at(s: Seq<char>) -> Option<(char, int)> {
    let end = text::next(s, ';', 0);
    if 0 < end < s.len() && end <= ENTITY_REACH {
        match entity(s.subrange(1, end)) {
            Some(c) => Some((c, end + 1)),
            None => None,
        }
    } else {
        None
    }
}

/// A text with its entities replaced. What is no entity stays as it is.
pub open spec fn decoded(s: Seq<char>) -> Seq<char>
    decreases s.len(),
{
    let at = text::next(s, '&', 0);
    proof {
        text::lemma_next(s, '&', 0);
        text::lemma_next(s.skip(at), ';', 0);
    }
    if at >= s.len() {
        s
    } else {
        let rest = s.skip(at);
        match entity_at(rest) {
            Some((c, n)) => s.take(at) + seq![c] + decoded(rest.skip(n)),
            None => s.take(at) + seq!['&'] + decoded(rest.skip(1)),
        }
    }
}

/// HTML as text.
pub open spec fn plain_text(html: Seq<char>) -> Seq<char> {
    decoded(stripped(html, 0, false))
}

fn hex_of(s: &[char]) -> (r: Option<u32>)
    requires
        s.len() <= 16,
    ensures
        match r {
            Some(n) => hex_number(s@) == Some(n as nat),
            None => hex_number(s@) is None,
        },
{
    let digits = if s.len() > 0 && s[0] == '+' {
        slice_subrange(s, 1, s.len())
    } else {
        s
    };
    let ghost d = unsigned_part(s@);
    assert(digits@ =~= d);
    if digits.len() == 0 {
        return None;
    }
    let mut n: u128 = 0;
    let mut most: u128 = 1;
    let mut i: usize = 0;
    while i < digits.len()
        invariant
            0 <= i <= digits.len() <= 16,
            digits@ == d,
            d == unsigned_part(s@),
            n == hex_run(d.take(i as int)),
            n < most,
            most <= 0x1_0000_0000_0000_0000,
            i <= 15 ==> most <= 0x1000_0000_0000_0000,
            most == pow16(i as nat),
            forall|j: int| 0 <= j < i ==> is_hex(#[trigger] d[j]),
        decreases digits.len() - i,
    {
        let c = digits[i];
        assert(d[i as int] == c);
        if !(('0' <= c && c <= '9') || ('a' <= c && c <= 'f') || ('A' <= c && c <= 'F')) {
            assert(!is_hex(d[i as int]));
            assert(!is_hex_run(d));
            return None;
        }
        let v: u8 = if '0' <= c && c <= '9' {
            c as u8 - 0x30u8
        } else if 'a' <= c && c <= 'f' {
            c as u8 - 0x61u8 + 10u8
        } else {
            c as u8 - 0x41u8 + 10u8
        };
        proof {
            assert(d.take(i + 1).drop_last() =~= d.take(i as int));
            lemma_pow16(i as nat);
        }
        n = n * 16 + v as u128;
        most = most * 16;
        i = i + 1;
    }
    assert(d.take(d.len() as int) =~= d);
    if n <= 0xffff_ffff {
        Some(n as u32)
    } else {
        None
    }
}

spec fn pow16(n: nat) -> nat
    decreases n,
{
    if n == 0 {
        1
    } else {
        pow16((n - 1) as nat) * 16
    }
}

proof fn lemma_pow16(n: nat)
    requires
        n <= 15,
    ensures
        pow16(n) <= 0x1000_0000_0000_0000,
        pow16(n + 1) == pow16(n) * 16,
        n <= 14 ==> pow16(n + 1) <= 0x1000_0000_0000_0000,
    decreases n,
{
    reveal_with_fuel(pow16, 17);
}

fn entity_of(name: &[char]) -> (r: Option<char>)
    requires
        name.len() <= 16,
    ensures
        r == entity(name@),
{
    if text::spells(name, "amp") {
        Some('&')
    } else if text::spells(name, "lt") {
        Some('<')
    } else if text::spells(name, "gt") {
        Some('>')
    } else if text::spells(name, "quot") {
        Some('"')
    } else if text::spells(name, "apos") {
        Some('\'')
    } else if text::spells(name, "nbsp") {
        Some(' ')
    } else if name.len() >= 2 && name[0] == '#' && (name[1] == 'x' || name[1] == 'X') {
        let digits = slice_subrange(name, 2, name.len());
        assert(digits@ =~= name@.skip(2));
        match hex_of(digits) {
            Some(n) => char::from_u32(n),
            None => None,
        }
    } else if name.len() >= 1 && name[0] == '#' {
        let digits = slice_subrange(name, 1, name.len());
        assert(digits@ =~= name@.skip(1));
        match text::number_of(digits, 0xffff_ffff) {
            Some(n) => {
                proof {
                    text::lemma_number_bound(digits@, 0xffff_ffff);
                }
                char::from_u32(n as u32)
            },
            None => None,
        }
    } else {
        None
    }
}

fn strip(html: &[char]) -> (r: Vec<char>)
    ensures
        r@ == stripped(html@, 0, false),
{
    let mut r: Vec<char> = Vec::new();
    let mut inside = false;
    let mut i: usize = 0;
    assert(r@ + stripped(html@, 0, false) =~= stripped(html@, 0, false));
    while i < html.len()
        invariant
            0 <= i <= html.len(),
            stripped(html@, 0, false) == r@ + stripped(html@, i as int, inside),
        decreases html.len() - i,
    {
        let c = html[i];
        let ghost before = r@;
        if c == '<' {
            inside = true;
        } else if c == '>' {
            inside = false;
            r.push(' ');
            assert(before + (seq![' '] + stripped(html@, i + 1, false)) =~= r@ + stripped(
                html@,
                i + 1,
                false,
            ));
        } else if !inside {
            r.push(c);
            assert(before + (seq![c] + stripped(html@, i + 1, false)) =~= r@ + stripped(
                html@,
                i + 1,
                false,
            ));
        }
        i = i + 1;
    }
    assert(r@ + Seq::<char>::empty() =~= r@);
    r
}

fn decode(s: &[char]) -> (r: String)
    ensures
        r@ == decoded(s@),
{
    let mut r = String::new();
    let mut rest = s;
    assert(r@ + decoded(s@) =~= decoded(s@));
    loop
        invariant
            decoded(s@) == r@ + decoded(rest@),
        decreases rest.len(),
    {
        let at: usize = text::next_of(rest, '&', 0);
        let ghost whole = rest@;
        let ghost before = r@;
        if at >= rest.len() {
            text::push_chars(&mut r, rest);
            return r;
        }
        let front = slice_subrange(rest, 0, at);
        assert(front@ =~= whole.take(at as int));
        text::push_chars(&mut r, front);
        let tail = slice_subrange(rest, at, rest.len());
        assert(tail@ =~= whole.skip(at as int));
        let end: usize = text::next_of(tail, ';', 0);
        let found = if end > 0 && end < tail.len() && end <= ENTITY_REACH {
            let name = slice_subrange(tail, 1, end);
            assert(name@ =~= tail@.subrange(1, end as int));
            entity_of(name)
        } else {
            None
        };
        match found {
            Some(c) => {
                r.push(c);
                rest = slice_subrange(tail, end + 1, tail.len());
                assert(rest@ =~= tail@.skip(end + 1));
                assert(before + (front@ + seq![c] + decoded(rest@)) =~= r@ + decoded(rest@));
            },
            None => {
                r.push('&');
                rest = slice_subrange(tail, 1, tail.len());
                assert(rest@ =~= tail@.skip(1));
                assert(before + (front@ + seq!['&'] + decoded(rest@)) =~= r@ + decoded(rest@));
            },
        }
    }
}

/// HTML as text. Only the entities that are actually emitted are named, plus
/// numeric references.
pub fn plain(html: &str) -> (r: String)
    ensures
        r@ == plain_text(html@),
{
    let chars = text::chars_of(html);
    let bare = strip(chars.as_slice());
    decode(bare.as_slice())
}

/// Text without a tag or an ampersand is left alone.
pub proof fn ordinary_text_is_left_alone(s: Seq<char>)
    requires
        !s.contains('<'),
        !s.contains('>'),
        !s.contains('&'),
    ensures
        plain_text(s) == s,
{
    lemma_stripped(s, 0);
    assert(s.skip(0) =~= s);
    text::lemma_next(s, '&', 0);
    let at = text::next(s, '&', 0);
    if at < s.len() {
        assert(s[at] == '&');
    }
}

proof fn lemma_stripped(s: Seq<char>, i: int)
    requires
        0 <= i <= s.len(),
        !s.contains('<'),
        !s.contains('>'),
    ensures
        stripped(s, i, false) == s.skip(i),
    decreases s.len() - i,
{
    if i < s.len() {
        lemma_stripped(s, i + 1);
        assert(s.contains(s[i]));
        assert(seq![s[i]] + s.skip(i + 1) =~= s.skip(i));
    } else {
        assert(s.skip(i) =~= Seq::empty());
    }
}

// ---------------------------------------------------------------------------
// What was found is what is told
// ---------------------------------------------------------------------------

/// Whether an item tells what a page is: its title, or where it is without one, its
/// address, when it was published, and what was found of its text.
pub open spec fn tells_of_page(found: Found, lane: Lane, item: ItemModel) -> bool {
    &&& match found.title {
        Some(t) => item.title == t@,
        None => item.title == host(found.url@),
    }
    &&& item.url == text::trim(found.url@)
    &&& match found.published {
        Some(s) => item.published == instant_of(text::trim(s@)),
        None => item.published is None,
    }
    &&& item.lane == lane
    &&& match found.text {
        Some(t) => item.text is Some && (item.text->0).len() <= 700 && text::starts(
            text::squeezed(t@),
            item.text->0,
        ) && (text::squeezed(t@).len() <= 700 ==> item.text->0 == text::squeezed(t@)),
        None => item.text is None,
    }
    &&& item.points is None && item.comments is None && item.discussion is None
}

/// Every page that was found is an item where it has an address and was not published
/// outside the window, in the order in which they were found; and nothing else is.
pub proof fn pages_in_the_window_are_items(results: Seq<Found>, lane: Lane, window: Window)
    ensures
        ({
            let counted = results.filter(
                |found: Found|
                    text::trim(found.url@).len() > 0 && match found.published {
                        Some(s) => instant_of(text::trim(s@)) is None || (window.from.up_to(
                            instant_of(text::trim(s@))->0,
                        ) && (instant_of(text::trim(s@))->0).up_to(window.to)),
                        None => true,
                    },
            );
            let items = page_items(results, lane, window);
            &&& items.len() == counted.len()
            &&& forall|i: int|
                0 <= i < items.len() ==> tells_of_page(counted[i], lane, #[trigger] items[i])
        }),
    decreases results.len(),
{
    reveal(Seq::filter);
    if results.len() > 0 {
        pages_in_the_window_are_items(results.drop_last(), lane, window);
        let last = results.last();
        if counts(last, window) {
            let item = page_item(last, lane);
            if let Some(t) = last.text {
                let s = text::squeezed(t@);
                assert(squashed(t@).len() <= 700);
                assert(s.take(squashed(t@).len() as int) =~= squashed(t@));
            }
            assert(tells_of_page(last, lane, item));
        }
    }
}

/// A story of Hacker News is told where it has a title and a thread: by its link, with the
/// thread beside it, or by the thread where it has none; with its points and comments.
pub proof fn a_hacker_news_story_is_told_with_its_thread(hit: HnHit)
    ensures
        hit.id is None || hit.title is None ==> hit_item(hit) is None,
        hit.id is Some && hit.title is Some ==> match hit_item(hit) {
            Some(item) => {
                let thread = "https://news.ycombinator.com/item?id="@ + (hit.id->0)@;
                &&& item.title == (hit.title->0)@
                &&& item.lane == Lane::Engagement
                &&& item.points == hit.points
                &&& item.comments == hit.num_comments
                &&& match hit.url {
                    Some(u) => if text::trim(u@).len() > 0 {
                        item.url == text::trim(u@) && item.discussion == Some(thread)
                    } else {
                        item.url == thread && item.discussion is None
                    },
                    None => item.url == thread && item.discussion is None,
                }
                &&& match hit.created_at {
                    Some(s) => item.published == instant_of(text::trim(s@)),
                    None => item.published is None,
                }
            },
            None => false,
        },
{
}

/// Every story of Hacker News that can be told is, in the order in which they came.
pub proof fn hacker_news_stories_keep_their_order(hits: Seq<HnHit>)
    ensures
        hit_items(hits) == hits.filter_map(|hit: HnHit| hit_item(hit)),
    decreases hits.len(),
{
    let f = |hit: HnHit| hit_item(hit);
    if hits.len() > 0 {
        hacker_news_stories_keep_their_order(hits.drop_last());
        if let Some(item) = hit_item(hits.last()) {
            assert(hits.drop_last().filter_map(f).push(item) =~= hits.drop_last().filter_map(f)
                + seq![item]);
        }
    }
}

/// A tag becomes a space, and what stands around it is left as it is.
pub proof fn a_tag_becomes_a_space(p: Seq<char>, tag: Seq<char>, q: Seq<char>)
    requires
        !p.contains('<') && !p.contains('>') && !p.contains('&'),
        !tag.contains('<') && !tag.contains('>'),
        !q.contains('<') && !q.contains('>') && !q.contains('&'),
    ensures
        plain_text(p + seq!['<'] + tag + seq!['>'] + q) == p + seq![' '] + q,
{
    let s = p + seq!['<'] + tag + seq!['>'] + q;
    let a = p.len() as int;
    let b = a + 1 + tag.len();
    assert forall|i: int| 0 <= i < a implies #[trigger] s[i] != '<' && s[i] != '>' by {
        assert(s[i] == p[i]);
        assert(p.contains(p[i]));
    }
    lemma_stripped_outside(s, 0, a);
    assert(s.subrange(0, a) =~= p);
    assert forall|i: int| a + 1 <= i < b implies #[trigger] s[i] != '<' && s[i] != '>' by {
        assert(s[i] == tag[i - a - 1]);
        assert(tag.contains(tag[i - a - 1]));
    }
    lemma_stripped_inside(s, a + 1, b);
    let n = s.len() as int;
    assert forall|i: int| b + 1 <= i < n implies #[trigger] s[i] != '<' && s[i] != '>' by {
        assert(s[i] == q[i - b - 1]);
        assert(q.contains(q[i - b - 1]));
    }
    lemma_stripped_outside(s, b + 1, n);
    assert(s.subrange(b + 1, n) =~= q);
    assert(stripped(s, n, false) =~= Seq::empty());
    let t = p + seq![' '] + q;
    assert(stripped(s, 0, false) =~= t);
    assert forall|i: int| 0 <= i < t.len() implies t[i] != '&' by {
        if i < a {
            assert(t[i] == p[i]);
            assert(p.contains(p[i]));
        } else if i > a {
            assert(t[i] == q[i - a - 1]);
            assert(q.contains(q[i - a - 1]));
        }
    }
    text::lemma_next_is(t, '&', 0, t.len() as int);
}

proof fn lemma_stripped_outside(s: Seq<char>, i: int, at: int)
    requires
        0 <= i <= at <= s.len(),
        forall|k: int| i <= k < at ==> #[trigger] s[k] != '<' && s[k] != '>',
    ensures
        stripped(s, i, false) == s.subrange(i, at) + stripped(s, at, false),
    decreases at - i,
{
    if i < at {
        lemma_stripped_outside(s, i + 1, at);
        assert(s[i] != '<' && s[i] != '>');
        assert(s.subrange(i, at) =~= seq![s[i]] + s.subrange(i + 1, at));
        assert(stripped(s, i, false) =~= s.subrange(i, at) + stripped(s, at, false));
    } else {
        assert(s.subrange(i, at) =~= Seq::empty());
        assert(stripped(s, i, false) =~= s.subrange(i, at) + stripped(s, at, false));
    }
}

proof fn lemma_stripped_inside(s: Seq<char>, i: int, at: int)
    requires
        0 <= i <= at <= s.len(),
        forall|k: int| i <= k < at ==> #[trigger] s[k] != '<' && s[k] != '>',
    ensures
        stripped(s, i, true) == stripped(s, at, true),
    decreases at - i,
{
    if i < at {
        assert(s[i] != '<' && s[i] != '>');
        lemma_stripped_inside(s, i + 1, at);
    }
}

/// An entity stands for its character.
pub proof fn entities_stand_for_their_characters(p: Seq<char>, q: Seq<char>)
    requires
        !p.contains('&'),
    ensures
        decoded(p + "&amp;"@ + q) == p + seq!['&'] + decoded(q),
        decoded(p + "&lt;"@ + q) == p + seq!['<'] + decoded(q),
        decoded(p + "&gt;"@ + q) == p + seq!['>'] + decoded(q),
        decoded(p + "&quot;"@ + q) == p + seq!['"'] + decoded(q),
        decoded(p + "&apos;"@ + q) == p + seq!['\''] + decoded(q),
        decoded(p + "&nbsp;"@ + q) == p + seq![' '] + decoded(q),
{
    lemma_entity(p, "amp"@, "&amp;"@, '&', q);
    lemma_entity(p, "lt"@, "&lt;"@, '<', q);
    lemma_entity(p, "gt"@, "&gt;"@, '>', q);
    lemma_entity(p, "quot"@, "&quot;"@, '"', q);
    lemma_entity(p, "apos"@, "&apos;"@, '\'', q);
    lemma_entity(p, "nbsp"@, "&nbsp;"@, ' ', q);
}

proof fn lemma_entity(p: Seq<char>, name: Seq<char>, whole: Seq<char>, c: char, q: Seq<char>)
    requires
        !p.contains('&'),
        (name == "amp"@ && whole == "&amp;"@ && c == '&') || (name == "lt"@ && whole == "&lt;"@ && c
            == '<') || (name == "gt"@ && whole == "&gt;"@ && c == '>') || (name == "quot"@ && whole
            == "&quot;"@ && c == '"') || (name == "apos"@ && whole == "&apos;"@ && c == '\'') || (
        name == "nbsp"@ && whole == "&nbsp;"@ && c == ' '),
    ensures
        decoded(p + whole + q) == p + seq![c] + decoded(q),
{
    reveal_strlit("amp");
    reveal_strlit("&amp;");
    reveal_strlit("lt");
    reveal_strlit("&lt;");
    reveal_strlit("gt");
    reveal_strlit("&gt;");
    reveal_strlit("quot");
    reveal_strlit("&quot;");
    reveal_strlit("apos");
    reveal_strlit("&apos;");
    reveal_strlit("nbsp");
    reveal_strlit("&nbsp;");
    let s = p + whole + q;
    let at = p.len() as int;
    assert(whole =~= seq!['&'] + name + seq![';']);
    assert forall|i: int| 0 <= i < at implies s[i] != '&' by {
        assert(s[i] == p[i]);
        assert(p.contains(p[i]));
    }
    text::lemma_next_is(s, '&', 0, at);
    let rest = s.skip(at);
    let end = name.len() as int + 1;
    assert forall|i: int| 0 <= i < end implies rest[i] != ';' by {
        assert(rest[i] == whole[i]);
    }
    assert(rest[end] == ';');
    text::lemma_next_is(rest, ';', 0, end);
    assert(rest.subrange(1, end) =~= name);
    assert("amp"@[0] == 'a' && "apos"@[0] == 'a' && "amp"@.len() == 3 && "apos"@.len() == 4);
    assert("lt"@[0] == 'l' && "gt"@[0] == 'g' && "quot"@[0] == 'q' && "nbsp"@[0] == 'n');
    assert(entity(name) == Some(c));
    assert(rest.skip(end + 1) =~= q);
    assert(s.take(at) =~= p);
}

/// The host of an address is what stands between its scheme and its path.
pub proof fn the_host_stands_before_the_path(name: Seq<char>, path: Seq<char>)
    requires
        !name.contains('/'),
        !name.contains(':'),
        !text::starts(name, "www."@),
    ensures
        host("https://"@ + name + "/"@ + path) == name,
        host("https://www."@ + name + "/"@ + path) == name,
{
    reveal_strlit("https://");
    reveal_strlit("http://");
    reveal_strlit("www.");
    reveal_strlit("https://www.");
    reveal_strlit("/");
    let rest = name + "/"@ + path;
    let a = "https://"@ + name + "/"@ + path;
    let b = "https://www."@ + name + "/"@ + path;
    assert(a.take(8) =~= "https://"@);
    assert(a.skip(8) =~= rest);
    assert(b.take(8) =~= "https://"@);
    let w = "www."@ + rest;
    assert(b.skip(8) =~= w);
    assert(w.take(4) =~= "www."@);
    assert(w.skip(4) =~= rest);
    assert forall|i: int| 0 <= i < name.len() implies rest[i] != '/' by {
        assert(name.contains(name[i]));
    }
    assert(rest[name.len() as int] == '/');
    text::lemma_next_is(rest, '/', 0, name.len() as int);
    assert(rest.take(name.len() as int) =~= name);
    assert(!text::starts(rest, "http://"@)) by {
        if text::starts(rest, "http://"@) {
            let t = rest.take(7);
            assert(t[0] == 'h' && t[1] == 't' && t[2] == 't' && t[3] == 'p' && t[4] == ':');
            assert(rest[0] == 'h' && rest[1] == 't' && rest[2] == 't' && rest[3] == 'p' && rest[4]
                == ':');
            if name.len() > 4 {
                assert(name[4] == ':');
                assert(name.contains(name[4]));
            } else {
                assert(rest[name.len() as int] == '/');
            }
        }
    }
    assert(!text::starts(rest, "www."@)) by {
        if text::starts(rest, "www."@) {
            let t = rest.take(4);
            assert(t[0] == 'w' && t[1] == 'w' && t[2] == 'w' && t[3] == '.');
            if name.len() >= 4 {
                assert(name.take(4) =~= t);
            } else {
                assert(rest[name.len() as int] == t[name.len() as int]);
            }
        }
    }
    assert(!text::starts(w, "http://"@)) by {
        if text::starts(w, "http://"@) {
            assert(w.take(7)[0] == w[0]);
        }
    }
    assert(!text::starts(rest, "https://"@)) by {
        if text::starts(rest, "https://"@) {
            let t = rest.take(8);
            assert(t[0] == 'h' && t[1] == 't' && t[2] == 't' && t[3] == 'p' && t[4] == 's' && t[5]
                == ':');
            assert(rest[0] == 'h' && rest[1] == 't' && rest[2] == 't' && rest[3] == 'p' && rest[4]
                == 's' && rest[5] == ':');
            if name.len() > 5 {
                assert(name[5] == ':');
                assert(name.contains(name[5]));
            } else {
                assert(rest[name.len() as int] == '/');
            }
        }
    }
    assert(!text::starts(w, "https://"@)) by {
        if text::starts(w, "https://"@) {
            assert(w.take(8)[0] == w[0]);
        }
    }
    assert(text::unprefixed(rest, "https://"@) == rest);
    assert(text::unprefixed(w, "https://"@) == w);
    assert(text::unprefixed(a, "https://"@) == rest);
    assert(text::unprefixed(rest, "http://"@) == rest);
    assert(text::unprefixed(rest, "www."@) == rest);
    assert(text::unprefixed(b, "https://"@) == w);
    assert(text::unprefixed(w, "http://"@) == w);
    assert(text::unprefixed(w, "www."@) == rest);
}

/// As many days are looked back as are asked for, from one to a year: never fewer nor more,
/// and more where more are asked for.
pub proof fn as_many_days_are_looked_back_as_asked(days: int, more: int)
    requires
        days <= more,
    ensures
        1 <= Window::stretch(days) <= Window::stretch(more) <= 365,
        1 <= days <= 365 ==> Window::stretch(days) == days,
        days <= 1 ==> Window::stretch(days) == 1,
        more >= 365 ==> Window::stretch(more) == 365,
{
}

} // verus!
