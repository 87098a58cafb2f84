//! Merging what the lanes agree on, and putting the important things first.

use super::{opt, schemeless, without_scheme, Item, ItemModel, Lane, MAX_ITEMS};
use crate::lists::{kept, lemma_kept_take, order, order_of, places, ranks, Key, Rank};
use crate::text;
use vstd::prelude::*;
use vstd::slice::slice_subrange;
use vstd::utf8::encode_utf8;

verus! {

/// One story after the lanes have been merged. The score is carried as the bits
/// of a 64-bit float that is not negative, which compare as the numbers do.
#[derive(Debug, Clone, PartialEq, Eq)]
pub struct Story {
    pub item: Item,
    /// Which lanes found it.
    pub lanes: Vec<Lane>,
    pub score: u64,
}

/// What a story says.
#[verifier::ext_equal]
pub struct StoryModel {
    pub item: ItemModel,
    pub lanes: Seq<Lane>,
    pub score: u64,
}

impl View for Story {
    type V = StoryModel;

    open spec fn view(&self) -> StoryModel {
        StoryModel { item: self.item@, lanes: self.lanes@, score: self.score }
    }
}

/// What the stories of a list say.
pub open spec fn stories_said(list: Seq<Story>) -> Seq<StoryModel> {
    Seq::new(list.len(), |i: int| list[i]@)
}

impl ItemModel {
    /// How much was made of it.
    pub open spec fn provoked(self) -> int {
        (match self.points {
            Some(n) => n as int,
            None => 0,
        }) + 2 * (match self.comments {
            Some(n) => n as int,
            None => 0,
        })
    }
}

impl Story {
    /// How much a story provoked. A comment is worth two points: writing one
    /// costs more than voting.
    pub fn engagement(&self) -> (r: u64)
        ensures
            r == (match self.item.points {
                Some(n) => n as int,
                None => 0,
            }) + 2 * (match self.item.comments {
                Some(n) => n as int,
                None => 0,
            }),
            r == self@.item.provoked(),
    {
        let points: u64 = match self.item.points {
            Some(n) => n as u64,
            None => 0,
        };
        let comments: u64 = match self.item.comments {
            Some(n) => n as u64,
            None => 0,
        };
        points + 2 * comments
    }
}

// ---------------------------------------------------------------------------
// What makes two results the same story
// ---------------------------------------------------------------------------

/// Where the query or the fragment of an address begins.
pub open spec fn path_end(url: Seq<char>) -> int {
    let a = text::next(url, '?', 0);
    let b = text::next(url, '#', 0);
    if a < b {
        a
    } else {
        b
    }
}

/// An address without what would stop two lanes agreeing: the scheme, `www.`, and
/// a trailing slash. Its query and its fragment stand apart.
pub open spec fn bare_url(url: Seq<char>) -> Seq<char> {
    let s = schemeless(text::trim(url));
    text::without_trailing(s.take(path_end(s)), '/')
}

/// What stands behind the question mark of an address, up to its fragment:
/// nothing where it has no query.
pub open spec fn query_of(url: Seq<char>) -> Seq<char> {
    let a = text::next(url, '?', 0);
    let b = text::next(url, '#', 0);
    if a < b {
        url.subrange(a + 1, b)
    } else {
        Seq::empty()
    }
}

/// Whether a parameter says where a reader came from and not what is read.
pub open spec fn is_tracking(parameter: Seq<char>) -> bool {
    let name = text::ascii_lowercase(parameter.take(text::next(parameter, '=', 0)));
    ||| text::starts(name, "utm_"@)
    ||| name == "ref"@
    ||| name == "ref_src"@
    ||| name == "fbclid"@
    ||| name == "gclid"@
    ||| name == "dclid"@
    ||| name == "msclkid"@
    ||| name == "igshid"@
    ||| name == "mc_cid"@
    ||| name == "mc_eid"@
}

/// Whether a parameter tells two addresses apart.
pub open spec fn is_telling() -> spec_fn(Seq<char>) -> bool {
    |parameter: Seq<char>| parameter.len() > 0 && !is_tracking(parameter)
}

/// The parameters of an address that tell it from another, behind a question mark
/// where there are any.
pub open spec fn telling_query(url: Seq<char>) -> Seq<char> {
    let parameters = kept(text::split(query_of(url), '&'), is_telling());
    text::given(parameters.len() > 0, "?"@ + text::join(parameters, "&"@))
}

/// The letters, numbers and white space of a title.
pub open spec fn title_letters(title: Seq<char>) -> Seq<char>
    decreases title.len(),
{
    if title.len() == 0 {
        Seq::empty()
    } else if text::is_alphanumeric(title.last()) || text::is_space(title.last()) {
        title_letters(title.drop_last()).push(title.last())
    } else {
        title_letters(title.drop_last())
    }
}

/// A title as two sources would both write it.
pub open spec fn title_key(title: Seq<char>) -> Seq<char> {
    text::lowercase(text::squeezed(title_letters(title)))
}

/// What makes two results the same story: the address, normalised, or the title
/// where there is none.
pub open spec fn story_key(item: ItemModel) -> Seq<char> {
    let url = text::lowercase(bare_url(item.url)) + telling_query(schemeless(text::trim(item.url)));
    if url.len() == 0 {
        title_key(item.title)
    } else {
        url
    }
}

/// Two results at one address are different stories where a parameter tells them
/// apart, and the same story where only tracking does.
pub proof fn only_tracking_is_noise(a: ItemModel, b: ItemModel)
    requires
        bare_url(a.url) == bare_url(b.url),
        text::lowercase(bare_url(a.url)).len() > 0,
    ensures
        story_key(a) == story_key(b) <==> telling_query(schemeless(text::trim(a.url)))
            == telling_query(schemeless(text::trim(b.url))),
{
    let path = text::lowercase(bare_url(a.url));
    let p = telling_query(schemeless(text::trim(a.url)));
    let q = telling_query(schemeless(text::trim(b.url)));
    if path + p == path + q {
        assert(p =~= (path + p).skip(path.len() as int));
        assert(q =~= (path + q).skip(path.len() as int));
    }
}

fn normalised_title(title: &str) -> (r: String)
    ensures
        r@ == title_key(title@),
{
    let chars = text::chars_of(title);
    let mut letters = String::new();
    let mut i: usize = 0;
    assert(letters@ =~= title_letters(title@.take(0)));
    while i < chars.len()
        invariant
            0 <= i <= chars.len(),
            chars@ == title@,
            letters@ == title_letters(title@.take(i as int)),
        decreases chars.len() - i,
    {
        let c = chars[i];
        assert(title@.take(i + 1).drop_last() =~= title@.take(i as int));
        assert(title@.take(i + 1).last() == c);
        if c.is_alphanumeric() || text::space(c) {
            letters.push(c);
        }
        i = i + 1;
    }
    assert(title@.take(title@.len() as int) =~= title@);
    let words = text::squeeze(letters.as_str());
    words.as_str().to_lowercase()
}

fn tracking(parameter: &[char]) -> (r: bool)
    ensures
        r == is_tracking(parameter@),
{
    let end = text::next_of(parameter, '=', 0);
    let front = slice_subrange(parameter, 0, end);
    assert(front@ =~= parameter@.take(end as int));
    let lowered = text::lowered(front);
    let name = lowered.as_slice();
    text::begins(name, "utm_") || text::spells(name, "ref") || text::spells(name, "ref_src")
        || text::spells(name, "fbclid") || text::spells(name, "gclid") || text::spells(
        name,
        "dclid",
    ) || text::spells(name, "msclkid") || text::spells(name, "igshid") || text::spells(
        name,
        "mc_cid",
    ) || text::spells(name, "mc_eid")
}

fn query_in<'a>(url: &'a [char]) -> (r: &'a [char])
    ensures
        r@ == query_of(url@),
{
    let a: usize = text::next_of(url, '?', 0);
    let b: usize = text::next_of(url, '#', 0);
    if a < b {
        slice_subrange(url, a + 1, b)
    } else {
        assert(url@.subrange(0, 0) =~= Seq::empty());
        slice_subrange(url, 0, 0)
    }
}

fn query_told(url: &[char]) -> (r: String)
    ensures
        r@ == telling_query(url@),
{
    let parameters = text::pieces(query_in(url), '&');
    let ghost all = text::split(query_of(url@), '&');
    let mut told: Vec<String> = Vec::new();
    let mut i: usize = 0;
    assert(text::texts(told@) =~= kept(all.take(0), is_telling()));
    while i < parameters.len()
        invariant
            0 <= i <= parameters.len(),
            text::runs(parameters@) == all,
            text::texts(told@) == kept(all.take(i as int), is_telling()),
        decreases parameters.len() - i,
    {
        let one = parameters[i];
        let ghost before = text::texts(told@);
        assert(all[i as int] == one@);
        proof {
            lemma_kept_take(all, is_telling(), i as int);
        }
        if one.len() > 0 && !tracking(one) {
            told.push(text::string_of(one));
            assert(text::texts(told@) =~= before.push(one@));
        }
        i = i + 1;
    }
    assert(all.take(all.len() as int) =~= all);
    let mut r = String::new();
    if told.len() > 0 {
        r.append("?");
        r.append(text::joined(&told, "&").as_str());
    }
    assert(r@ =~= telling_query(url@));
    r
}

/// What makes two results the same story.
pub fn identity(item: &Item) -> (r: String)
    ensures
        r@ == story_key(item@),
{
    let chars = text::chars_of(item.url.as_str());
    let s = without_scheme(text::trimmed(chars.as_slice()));
    let a: usize = text::next_of(s, '?', 0);
    let b: usize = text::next_of(s, '#', 0);
    let end: usize = if a < b {
        a
    } else {
        b
    };
    let path = slice_subrange(s, 0, end);
    assert(path@ =~= s@.take(end as int));
    let bare = text::string_of(text::trailing_off(path, '/'));
    let mut url = bare.as_str().to_lowercase();
    url.append(query_told(s).as_str());
    if text::chars_of(url.as_str()).len() == 0 {
        normalised_title(item.title.as_str())
    } else {
        url
    }
}

// ---------------------------------------------------------------------------
// Merging
// ---------------------------------------------------------------------------

/// The longer of two texts, in bytes; the one there is where there is only one.
pub open spec fn longer(have: Option<Seq<char>>, new: Option<Seq<char>>) -> Option<Seq<char>> {
    match (have, new) {
        (Some(a), Some(b)) => if encode_utf8(b).len() > encode_utf8(a).len() {
            new
        } else {
            have
        },
        (None, _) => new,
        (Some(a), None) => have,
    }
}

/// A story with a second sighting of it folded in: the numbers win wherever they
/// exist, the longest text wins, and the article beats a link to the thread
/// about it.
pub open spec fn folded(story: StoryModel, item: ItemModel) -> StoryModel {
    StoryModel {
        lanes: if story.lanes.contains(item.lane) {
            story.lanes
        } else {
            story.lanes.push(item.lane)
        },
        score: story.score,
        item: ItemModel {
            title: story.item.title,
            lane: story.item.lane,
            points: if item.points is Some {
                item.points
            } else {
                story.item.points
            },
            comments: if item.points is Some {
                item.comments
            } else {
                story.item.comments
            },
            discussion: if story.item.discussion is None {
                item.discussion
            } else {
                story.item.discussion
            },
            published: if story.item.published is None {
                item.published
            } else {
                story.item.published
            },
            text: longer(story.item.text, item.text),
            url: if text::holds(story.item.url, "news.ycombinator.com"@) && !text::holds(
                item.url,
                "news.ycombinator.com"@,
            ) {
                item.url
            } else {
                story.item.url
            },
        },
    }
}

/// A story that only one item tells.
pub open spec fn single(item: ItemModel) -> StoryModel {
    StoryModel { item, lanes: seq![item.lane], score: 0 }
}

/// The first story from `i` on that has a key: -1 where none does.
pub open spec fn story_at(stories: Seq<StoryModel>, key: Seq<char>, i: int) -> int
    decreases stories.len() - i,
{
    if i < 0 || i >= stories.len() {
        -1
    } else if story_key(stories[i].item) == key {
        i
    } else {
        story_at(stories, key, i + 1)
    }
}

/// The stories that items tell, taken in their order.
pub open spec fn merged(items: Seq<ItemModel>) -> Seq<StoryModel>
    decreases items.len(),
{
    if items.len() == 0 {
        Seq::empty()
    } else {
        let before = merged(items.drop_last());
        let item = items.last();
        let at = story_at(before, story_key(item), 0);
        if at >= 0 {
            before.update(at, folded(before[at], item))
        } else {
            before.push(single(item))
        }
    }
}

fn has_lane(lanes: &Vec<Lane>, lane: Lane) -> (r: bool)
    ensures
        r == lanes@.contains(lane),
{
    let mut i: usize = 0;
    while i < lanes.len()
        invariant
            0 <= i <= lanes.len(),
            forall|j: int| 0 <= j < i ==> lanes@[j] != lane,
        decreases lanes.len() - i,
    {
        if lanes[i] == lane {
            return true;
        }
        i = i + 1;
    }
    false
}

fn on_hacker_news(url: &str) -> (r: bool)
    ensures
        r == text::holds(url@, "news.ycombinator.com"@),
{
    let chars = text::chars_of(url);
    text::contains(chars.as_slice(), "news.ycombinator.com")
}

fn longer_of(have: Option<String>, new: Option<String>) -> (r: Option<String>)
    ensures
        opt(r) == longer(opt(have), opt(new)),
{
    match (have, new) {
        (Some(a), Some(b)) => if b.as_str().as_bytes().len() > a.as_str().as_bytes().len() {
            Some(b)
        } else {
            Some(a)
        },
        (None, new) => new,
        (Some(a), None) => Some(a),
    }
}

/// Fold a second sighting of a story into the first.
pub fn merge_into(story: Story, item: Item) -> (r: Story)
    ensures
        r@ == folded(story@, item@),
{
    let ghost was = story@;
    let ghost one = item@;
    let mut lanes = story.lanes;
    if !has_lane(&lanes, item.lane) {
        lanes.push(item.lane);
    }
    let (points, comments) = if item.points.is_some() {
        (item.points, item.comments)
    } else {
        (story.item.points, story.item.comments)
    };
    let url = if on_hacker_news(story.item.url.as_str()) && !on_hacker_news(item.url.as_str()) {
        item.url
    } else {
        story.item.url
    };
    let discussion = if story.item.discussion.is_none() {
        item.discussion
    } else {
        story.item.discussion
    };
    let published = if story.item.published.is_none() {
        item.published
    } else {
        story.item.published
    };
    let text = longer_of(story.item.text, item.text);
    let r = Story {
        lanes,
        score: story.score,
        item: Item {
            title: story.item.title,
            url,
            published,
            lane: story.item.lane,
            points,
            comments,
            discussion,
            text,
        },
    };
    assert(r@ =~= folded(was, one));
    r
}

fn find_story(stories: &Vec<Story>, key: &str) -> (r: Option<usize>)
    ensures
        match r {
            Some(at) => at < stories.len() && story_at(stories_said(stories@), key@, 0) == at,
            None => story_at(stories_said(stories@), key@, 0) == -1,
        },
{
    let ghost all = stories_said(stories@);
    let mut i: usize = 0;
    while i < stories.len()
        invariant
            0 <= i <= stories.len(),
            all == stories_said(stories@),
            story_at(all, key@, 0) == story_at(all, key@, i as int),
        decreases stories.len() - i,
    {
        assert(all[i as int] == stories@[i as int]@);
        let other = identity(&stories[i].item);
        if text::same(other.as_str(), key) {
            return Some(i);
        }
        i = i + 1;
    }
    None
}

/// Merges what the lanes agree on. The scores are still to be worked out.
pub fn merge(items: Vec<Item>) -> (r: Vec<Story>)
    ensures
        stories_said(r@) == merged(super::items_said(items@)),
{
    let ghost all = super::items_said(items@);
    let mut rest = items;
    let mut stories: Vec<Story> = Vec::new();
    let ghost mut done: int = 0;
    assert(stories_said(stories@) =~= merged(all.take(0)));
    assert(super::items_said(rest@) =~= all.skip(0));
    while rest.len() > 0
        invariant
            0 <= done <= all.len(),
            super::items_said(rest@) == all.skip(done),
            stories_said(stories@) == merged(all.take(done)),
        decreases rest.len(),
    {
        let ghost before = stories_said(stories@);
        let ghost left = super::items_said(rest@);
        let ghost was = rest@;
        assert(left.len() == rest.len() && left.len() == all.len() - done);
        let item = rest.remove(0);
        let key = identity(&item);
        proof {
            assert(item@ == left[0]);
            assert(left[0] == all[done]);
            assert(all.take(done + 1).drop_last() =~= all.take(done));
            assert(all.take(done + 1).last() == item@);
            assert(rest@ =~= was.remove(0));
            assert forall|i: int| 0 <= i < rest.len() implies super::items_said(rest@)[i]
                == all.skip(done + 1)[i] by {
                assert(super::items_said(rest@)[i] == left[i + 1]);
                assert(left[i + 1] == all[done + (i + 1)]);
            }
            assert(super::items_said(rest@) =~= all.skip(done + 1));
        }
        match find_story(&stories, key.as_str()) {
            Some(at) => {
                let ghost one = item@;
                let story = stories.remove(at);
                assert(story@ == before[at as int]);
                let new_story = merge_into(story, item);
                stories.insert(at, new_story);
                assert(stories_said(stories@) =~= before.update(
                    at as int,
                    folded(before[at as int], one),
                ));
            },
            None => {
                let mut lanes: Vec<Lane> = Vec::new();
                lanes.push(item.lane);
                let ghost one = item@;
                let story = Story { item, lanes, score: 0 };
                assert(story@ =~= single(one));
                stories.push(story);
                assert(stories_said(stories@) =~= before.push(single(one)));
            },
        }
        proof {
            done = done + 1;
        }
    }
    assert(all.take(done) =~= all);
    stories
}

// ---------------------------------------------------------------------------
// Ranking
// ---------------------------------------------------------------------------

/// What stories are put in order by: the highest score first, and by title when
/// two score the same.
pub open spec fn importance(stories: Seq<StoryModel>, scores: Seq<u64>) -> Seq<Key> {
    Seq::new(
        stories.len(),
        |i: int|
            Key { number: -(scores[i] as int), name: stories[i].item.title, more: Seq::empty() },
    )
}

/// The first stories in their order, with their scores.
pub open spec fn ranked(stories: Seq<StoryModel>, scores: Seq<u64>) -> Seq<StoryModel> {
    let o = order(importance(stories, scores));
    Seq::new(
        if stories.len() < MAX_ITEMS {
            stories.len()
        } else {
            MAX_ITEMS as nat
        },
        |i: int| StoryModel { score: scores[o[i]], ..stories[o[i]] },
    )
}

fn copy_text(s: &Option<String>) -> (r: Option<String>)
    ensures
        opt(r) == opt(*s),
{
    match s {
        Some(t) => Some(t.as_str().to_owned()),
        None => None,
    }
}

fn with_score(story: &Story, score: u64) -> (r: Story)
    ensures
        r@ == (StoryModel { score, ..story@ }),
{
    let mut lanes: Vec<Lane> = Vec::new();
    let mut i: usize = 0;
    while i < story.lanes.len()
        invariant
            0 <= i <= story.lanes.len(),
            lanes@ == story.lanes@.take(i as int),
        decreases story.lanes.len() - i,
    {
        lanes.push(story.lanes[i]);
        assert(lanes@ =~= story.lanes@.take(i + 1));
        i = i + 1;
    }
    assert(story.lanes@.take(story.lanes@.len() as int) =~= story.lanes@);
    let item = &story.item;
    let r = Story {
        item: Item {
            title: item.title.as_str().to_owned(),
            url: item.url.as_str().to_owned(),
            published: item.published,
            lane: item.lane,
            points: item.points,
            comments: item.comments,
            discussion: copy_text(&item.discussion),
            text: copy_text(&item.text),
        },
        lanes,
        score,
    };
    assert(r@ =~= (StoryModel { score, ..story@ }));
    r
}

/// Puts the important things first, and keeps no more than a brief carries.
/// `scores` says what each story is worth, as the bits of a 64-bit float that is
/// not negative.
pub fn rank(stories: &[Story], scores: &[u64]) -> (r: Vec<Story>)
    requires
        scores.len() == stories.len(),
    ensures
        stories_said(r@) == ranked(stories_said(stories@), scores@),
        r.len() <= MAX_ITEMS,
{
    let ghost all = stories_said(stories@);
    let ghost keys = importance(all, scores@);
    let mut list: Vec<Rank> = Vec::new();
    let mut i: usize = 0;
    assert(ranks(list@) =~= keys.take(0));
    while i < stories.len()
        invariant
            0 <= i <= stories.len(),
            scores.len() == stories.len(),
            all == stories_said(stories@),
            keys == importance(all, scores@),
            list.len() == i,
            ranks(list@) == keys.take(i as int),
        decreases stories.len() - i,
    {
        let ghost before = ranks(list@);
        let rank = Rank {
            number: -(scores[i] as i128),
            name: stories[i].item.title.as_str().to_owned(),
            more: String::new(),
        };
        list.push(rank);
        proof {
            assert(rank@ =~= keys[i as int]);
            assert(ranks(list@) =~= before.push(rank@));
            assert(keys.take(i + 1) =~= keys.take(i as int).push(keys[i as int]));
        }
        i = i + 1;
    }
    assert(keys.take(keys.len() as int) =~= keys);
    let at = order_of(&list);
    let most: usize = if stories.len() < MAX_ITEMS {
        stories.len()
    } else {
        MAX_ITEMS
    };
    let ghost wanted = ranked(all, scores@);
    let mut r: Vec<Story> = Vec::new();
    let mut j: usize = 0;
    assert(stories_said(r@) =~= wanted.take(0));
    while j < most
        invariant
            0 <= j <= most <= at.len(),
            most == wanted.len(),
            at.len() == stories.len() == scores.len(),
            all == stories_said(stories@),
            keys == importance(all, scores@),
            places(at@) == order(keys),
            wanted == ranked(all, scores@),
            forall|k: int| 0 <= k < at.len() ==> #[trigger] at[k] < stories.len(),
            stories_said(r@) == wanted.take(j as int),
        decreases most - j,
    {
        let ghost before = stories_said(r@);
        let place: usize = at[j];
        assert(places(at@)[j as int] == place);
        let one = with_score(&stories[place], scores[place]);
        r.push(one);
        proof {
            assert(wanted[j as int] =~= one@);
            assert(stories_said(r@) =~= before.push(one@));
            assert(wanted.take(j + 1) =~= wanted.take(j as int).push(one@));
        }
        j = j + 1;
    }
    assert(wanted.take(most as int) =~= wanted);
    r
}

/// No story is told by two lanes of the same kind, and what merging makes of
/// items is never more than there were.
pub proof fn merging_adds_nothing(items: Seq<ItemModel>)
    ensures
        merged(items).len() <= items.len(),
        items.len() > 0 ==> merged(items).len() > 0,
        forall|i: int| 0 <= i < merged(items).len() ==> (#[trigger] merged(items)[i]).lanes.no_duplicates(),
        forall|i: int| 0 <= i < merged(items).len() ==> (#[trigger] merged(items)[i]).lanes.len() > 0,
    decreases items.len(),
{
    if items.len() > 0 {
        let rest = items.drop_last();
        merging_adds_nothing(rest);
        let before = merged(rest);
        let item = items.last();
        let at = story_at(before, story_key(item), 0);
        lemma_story_at(before, story_key(item), 0);
        let all = merged(items);
        assert forall|i: int| 0 <= i < all.len() implies (#[trigger] all[i]).lanes.no_duplicates()
            && all[i].lanes.len() > 0 by {
            if at >= 0 && i == at {
                assert(before[at].lanes.no_duplicates());
            } else if i < before.len() {
                assert(all[i] == before[i]);
            }
        }
    }
}

proof fn lemma_story_at(stories: Seq<StoryModel>, key: Seq<char>, i: int)
    requires
        0 <= i,
    ensures
        story_at(stories, key, i) < stories.len(),
    decreases stories.len() - i,
{
    if i < stories.len() && story_key(stories[i].item) != key {
        lemma_story_at(stories, key, i + 1);
    }
}

/// What is ranked is in order, the highest score first.
pub proof fn the_highest_score_comes_first(stories: Seq<StoryModel>, scores: Seq<u64>)
    requires
        scores.len() == stories.len(),
    ensures
        forall|i: int, j: int|
            0 <= i < j < ranked(stories, scores).len() ==> (#[trigger] ranked(
                stories,
                scores,
            )[i]).score >= (#[trigger] ranked(stories, scores)[j]).score,
{
    let keys = importance(stories, scores);
    crate::lists::lemma_order(keys);
    let o = order(keys);
    let r = ranked(stories, scores);
    assert forall|i: int, j: int| 0 <= i < j < r.len() implies (#[trigger] r[i]).score >= (
    #[trigger] r[j]).score by {
        assert(crate::lists::goes_first(keys, o[i], o[j]));
        assert(0 <= o[i] < keys.len() && 0 <= o[j] < keys.len());
        assert(keys[o[i]].number == -(scores[o[i]] as int));
        assert(keys[o[j]].number == -(scores[o[j]] as int));
    }
}

// ---------------------------------------------------------------------------
// A story is what was found of it
// ---------------------------------------------------------------------------

/// Two findings of the same story are one, and of different stories two.
pub proof fn the_same_story_is_told_once(a: ItemModel, b: ItemModel)
    ensures
        story_key(a) == story_key(b) ==> merged(seq![a, b]).len() == 1,
        story_key(a) != story_key(b) ==> merged(seq![a, b]).len() == 2,
        merged(seq![a, b]).len() > 0 && merged(seq![a, b])[0].item.title == a.title,
{
    let one = seq![a];
    let two = seq![a, b];
    assert(one.drop_last() =~= Seq::empty());
    assert(merged(one.drop_last()) =~= Seq::empty());
    assert(story_at(Seq::<StoryModel>::empty(), story_key(a), 0) == -1);
    assert(merged(one) =~= seq![single(a)]);
    assert(two.drop_last() =~= one);
    let before = merged(one);
    assert(before[0].item == a);
    assert(story_at(before, story_key(b), 1) == -1);
}

/// Folding a finding into a story loses nothing of either: a lane, a date, a thread or a
/// text that one of them has the story has, with the longer of two texts; the newer count
/// of points; and the page in place of its thread.
pub proof fn folding_loses_nothing(story: StoryModel, item: ItemModel)
    ensures
        ({
            let r = folded(story, item);
            &&& r.item.title == story.item.title
            &&& r.score == story.score
            &&& r.lanes.contains(item.lane)
            &&& forall|lane: Lane| story.lanes.contains(lane) ==> #[trigger] r.lanes.contains(lane)
            &&& forall|lane: Lane|
                #[trigger] r.lanes.contains(lane) ==> story.lanes.contains(lane) || lane
                    == item.lane
            &&& item.points is Some ==> r.item.points == item.points && r.item.comments
                == item.comments
            &&& item.points is None ==> r.item.points == story.item.points && r.item.comments
                == story.item.comments
            &&& story.item.published is Some ==> r.item.published == story.item.published
            &&& story.item.published is None ==> r.item.published == item.published
            &&& story.item.discussion is Some ==> r.item.discussion == story.item.discussion
            &&& story.item.discussion is None ==> r.item.discussion == item.discussion
            &&& story.item.text is Some ==> r.item.text is Some && encode_utf8(
                r.item.text->0,
            ).len() >= encode_utf8(story.item.text->0).len()
            &&& item.text is Some ==> r.item.text is Some && encode_utf8(r.item.text->0).len()
                >= encode_utf8(item.text->0).len()
            &&& r.item.text == story.item.text || r.item.text == item.text
            &&& text::holds(r.item.url, "news.ycombinator.com"@) ==> text::holds(
                story.item.url,
                "news.ycombinator.com"@,
            ) && text::holds(item.url, "news.ycombinator.com"@)
            &&& !text::holds(story.item.url, "news.ycombinator.com"@) ==> r.item.url
                == story.item.url
        }),
{
    let r = folded(story, item);
    let lanes = story.lanes;
    if !lanes.contains(item.lane) {
        assert(lanes.push(item.lane)[lanes.len() as int] == item.lane);
        assert forall|lane: Lane| lanes.contains(lane) implies #[trigger] r.lanes.contains(
            lane,
        ) by {
            let k = choose|k: int| 0 <= k < lanes.len() && lanes[k] == lane;
            assert(r.lanes[k] == lane);
        }
        assert forall|lane: Lane| #[trigger] r.lanes.contains(lane) implies lanes.contains(lane)
            || lane == item.lane by {
            let k = choose|k: int| 0 <= k < r.lanes.len() && r.lanes[k] == lane;
            if k < lanes.len() {
                assert(lanes[k] == lane);
            }
        }
    }
}

/// A ranked story is one of those that were found, with the score that was worked out for
/// it; up to ten are told, and where there are no more than that all of them.
pub proof fn a_ranked_story_keeps_its_score(
    stories: Seq<StoryModel>,
    scores: Seq<u64>,
    i: int,
)
    requires
        scores.len() == stories.len(),
        0 <= i < stories.len(),
    ensures
        ranked(stories, scores).len() == if stories.len() < 10 {
            stories.len()
        } else {
            10
        },
        i < ranked(stories, scores).len() ==> exists|k: int|
            0 <= k < stories.len() && ranked(stories, scores)[i] == (StoryModel {
                score: scores[k],
                ..#[trigger] stories[k]
            }),
        stories.len() <= 10 ==> ranked(stories, scores).contains(
            (StoryModel { score: scores[i], ..stories[i] }),
        ),
{
    let keys = importance(stories, scores);
    crate::lists::lemma_order(keys);
    let o = order(keys);
    if i < ranked(stories, scores).len() {
        assert(0 <= o[i] < stories.len());
        assert(ranked(stories, scores)[i] == (StoryModel { score: scores[o[i]], ..stories[o[i]] }));
    }
    if stories.len() <= 10 {
        assert(o.contains(i));
        let j = choose|j: int| 0 <= j < o.len() && o[j] == i;
        assert(ranked(stories, scores)[j] == (StoryModel { score: scores[i], ..stories[i] }));
    }
}

/// What only says where a reader came from is no part of a story's address.
pub proof fn tracking_parameters_are_known(value: Seq<char>, more: Seq<char>)
    requires
        !more.contains('='),
    ensures
        is_tracking("utm_"@ + more + "="@ + value),
        is_tracking("ref="@ + value),
        is_tracking("fbclid="@ + value),
        is_tracking("gclid="@ + value),
        !is_tracking("id="@ + value),
        !is_tracking("v="@ + value),
        !is_tracking("p="@ + value),
{
    lemma_utm(value, more);
    lemma_parameter("ref"@, "ref="@, value);
    lemma_parameter("fbclid"@, "fbclid="@, value);
    lemma_parameter("gclid"@, "gclid="@, value);
    lemma_parameter("id"@, "id="@, value);
    lemma_parameter("v"@, "v="@, value);
    lemma_parameter("p"@, "p="@, value);
    reveal_strlit("id");
    reveal_strlit("v");
    reveal_strlit("p");
    lemma_short_name("id"@);
    lemma_short_name("v"@);
    lemma_short_name("p"@);
}

proof fn lemma_short_name(name: Seq<char>)
    requires
        name.len() < 3,
    ensures
        !text::starts(name, "utm_"@),
        name != "ref"@,
        name != "ref_src"@,
        name != "fbclid"@,
        name != "gclid"@,
        name != "dclid"@,
        name != "msclkid"@,
        name != "igshid"@,
        name != "mc_cid"@,
        name != "mc_eid"@,
{
    reveal_strlit("ref");
    reveal_strlit("ref_src");
    reveal_strlit("fbclid");
    reveal_strlit("gclid");
    reveal_strlit("dclid");
    reveal_strlit("msclkid");
    reveal_strlit("igshid");
    reveal_strlit("mc_cid");
    reveal_strlit("mc_eid");
    reveal_strlit("utm_");
}

proof fn lemma_parameter(name: Seq<char>, start: Seq<char>, value: Seq<char>)
    requires
        (name == "ref"@ && start == "ref="@) || (name == "fbclid"@ && start == "fbclid="@) || (name
            == "gclid"@ && start == "gclid="@) || (name == "id"@ && start == "id="@) || (name
            == "v"@ && start == "v="@) || (name == "p"@ && start == "p="@),
    ensures
        text::ascii_lowercase((start + value).take(text::next(start + value, '=', 0))) == name,
{
    reveal_strlit("ref");
    reveal_strlit("ref=");
    reveal_strlit("fbclid");
    reveal_strlit("fbclid=");
    reveal_strlit("gclid");
    reveal_strlit("gclid=");
    reveal_strlit("id");
    reveal_strlit("id=");
    reveal_strlit("v");
    reveal_strlit("v=");
    reveal_strlit("p");
    reveal_strlit("p=");
    let s = start + value;
    let n = name.len() as int;
    assert(start =~= name + seq!['=']);
    assert forall|i: int| 0 <= i < n implies s[i] != '=' by {
        assert(s[i] == name[i]);
    }
    assert(s[n] == '=');
    text::lemma_next_is(s, '=', 0, n);
    assert(s.take(n) =~= name);
    assert(text::ascii_lowercase(name) =~= name);
}

proof fn lemma_utm(value: Seq<char>, more: Seq<char>)
    requires
        !more.contains('='),
    ensures
        is_tracking("utm_"@ + more + "="@ + value),
{
    reveal_strlit("utm_");
    reveal_strlit("=");
    let s = "utm_"@ + more + "="@ + value;
    let n = 4 + more.len() as int;
    assert forall|i: int| 0 <= i < n implies s[i] != '=' by {
        if i >= 4 {
            assert(s[i] == more[i - 4]);
            assert(more.contains(more[i - 4]));
        }
    }
    assert(s[n] == '=');
    text::lemma_next_is(s, '=', 0, n);
    let name = text::ascii_lowercase(s.take(n));
    assert(name.take(4) =~= "utm_"@);
}

/// A comment counts as much as two votes, a vote for one, and what has neither for nothing.
pub proof fn a_comment_is_worth_two_votes(item: ItemModel, points: u32, comments: u32)
    requires
        points < u32::MAX,
        comments < u32::MAX,
    ensures
        (ItemModel { points: None, comments: None, ..item }).provoked() == 0,
        (ItemModel { points: Some(points), comments: None, ..item }).provoked() == points,
        (ItemModel { points: Some(points), comments: Some((comments + 1) as u32), ..item }).provoked()
            == (ItemModel { points: Some(points), comments: Some(comments), ..item }).provoked() + 2,
        (ItemModel { points: Some((points + 1) as u32), comments: Some(comments), ..item }).provoked()
            == (ItemModel { points: Some(points), comments: Some(comments), ..item }).provoked() + 1,
        (ItemModel { points: None, comments: Some(0), ..item }).provoked() == 0,
{
}

} // verus!
