//! What the assistant keeps in the user's notes.
//!
//! The notes themselves are Markdown in a vault that belongs to the user. What
//! is here decides what to write into them, what to take out, and what to make
//! of what is found there; whoever holds the vault reads and writes the files.

pub mod ambient;
pub mod dream;
pub mod harvest;
pub mod ledger;
pub mod note;
pub mod observation;
pub mod reply;

pub use self::note::{FOLDER, HEADING};
pub use self::observation::{is_familiars, MARK, TAG};

use self::ambient::Ranked;
use self::dream::{known, Held, Known, Operation, Step};
use self::dream::reckoning::{counted, times, times_of, Mention};
use self::ledger::{look_up, Ledger};
use self::observation::{
    is_marked, normal, normalise, read, rendered, said, seen, text_of, Kind, Observation, Seen,
};
use crate::lists::{any, order, order_of, places, ranks, Key, Rank};
use crate::text;
use crate::time::{is_date_text, strftime, Stamp};
use vstd::prelude::*;
use vstd::slice::slice_subrange;

verus! {

/// Where the embedding server is, if nothing says otherwise.
pub const DEFAULT_EMBEDDING_URL: &'static str = "http://127.0.0.1:8081";

/// One note, with its path in the vault.
#[derive(Debug, Clone, PartialEq, Eq)]
pub struct Passage {
    pub id: String,
    pub title: String,
    pub text: String,
}

/// A note that a search came to, and where it stood in each half of the search: by
/// the words, and by the meaning.
#[derive(Debug, Clone, PartialEq, Eq)]
pub struct Hit {
    pub note: Passage,
    pub lexical: Option<usize>,
    pub semantic: Option<usize>,
}

/// What a search found.
#[derive(Debug, Clone, PartialEq, Eq)]
pub struct Recalled {
    pub title: String,
    /// The vault-relative path, so that a follow-up can name it exactly.
    pub path: String,
    /// The note in the user's own words.
    pub excerpt: String,
    /// What the assistant has saved there.
    pub observations: Vec<String>,
    /// Whether the words were there, or only the meaning.
    pub lexical: bool,
    pub semantic: bool,
}

/// What saving did.
#[derive(Debug, Clone, PartialEq, Eq)]
pub struct Saved {
    /// The note it went into, vault-relative.
    pub note: String,
    pub kind: Kind,
    /// The vault already said this, so nothing is written.
    pub already_there: bool,
}

#[derive(Debug, Clone, PartialEq, Eq)]
pub enum MemoryError {
    /// The vault could not be read or written.
    Vault(String),
    /// What was asked for is refused.
    Refused(String),
}

impl MemoryError {
    /// The error in words.
    pub fn describe(&self) -> (r: String)
        ensures
            r@ == match self {
                MemoryError::Vault(source) => source@,
                MemoryError::Refused(why) => why@,
            },
    {
        match self {
            MemoryError::Vault(source) => source.as_str().to_owned(),
            MemoryError::Refused(why) => why.as_str().to_owned(),
        }
    }
}

// ---------------------------------------------------------------------------
// What the vault holds
// ---------------------------------------------------------------------------

/// The observations of a note's lines.
pub open spec fn read_lines(path: Seq<char>, title: Seq<char>, lines: Seq<Seq<char>>) -> Seq<Seen>
    decreases lines.len(),
{
    if lines.len() == 0 {
        Seq::empty()
    } else {
        match read(path, title, lines.last()) {
            Some(o) => read_lines(path, title, lines.drop_last()).push(o),
            None => read_lines(path, title, lines.drop_last()),
        }
    }
}

/// The observations of notes.
pub open spec fn read_notes(notes: Seq<Passage>) -> Seq<Seen>
    decreases notes.len(),
{
    if notes.len() == 0 {
        Seq::empty()
    } else {
        let last = notes.last();
        read_notes(notes.drop_last()) + read_lines(last.id@, last.title@, text::lines(last.text@))
    }
}

/// Everything that the assistant has written into some notes.
pub fn observations_in(notes: &[Passage]) -> (r: Vec<Observation>)
    ensures
        seen(r@) == read_notes(notes@),
{
    let mut r: Vec<Observation> = Vec::new();
    let mut i: usize = 0;
    assert(seen(r@) =~= Seq::empty());
    while i < notes.len()
        invariant
            0 <= i <= notes.len(),
            seen(r@) == read_notes(notes@.take(i as int)),
        decreases notes.len() - i,
    {
        let note = &notes[i];
        assert(notes@.take(i + 1).drop_last() =~= notes@.take(i as int));
        let chars = text::chars_of(note.text.as_str());
        let lines = text::lines_of(chars.as_slice());
        let ghost all = text::runs(lines@);
        let ghost start = seen(r@);
        let mut j: usize = 0;
        assert(start + read_lines(note.id@, note.title@, all.take(0)) =~= start);
        while j < lines.len()
            invariant
                0 <= j <= lines.len(),
                all == text::runs(lines@),
                seen(r@) == start + read_lines(note.id@, note.title@, all.take(j as int)),
            decreases lines.len() - j,
        {
            let ghost before = seen(r@);
            let ghost done = read_lines(note.id@, note.title@, all.take(j as int));
            proof {
                assert(all.take(j + 1).drop_last() =~= all.take(j as int));
                assert(all.take(j + 1).last() == lines@[j as int]@);
            }
            let line = text::string_of(lines[j]);
            if let Some(o) = observation::parse(
                note.id.as_str(),
                note.title.as_str(),
                line.as_str(),
            ) {
                r.push(o);
                assert(seen(r@) =~= before.push(o@));
                assert(start + done.push(o@) =~= (start + done).push(o@));
            }
            j = j + 1;
        }
        assert(all.take(all.len() as int) =~= all);
        i = i + 1;
    }
    assert(notes@.take(notes@.len() as int) =~= notes@);
    r
}

// ---------------------------------------------------------------------------
// Saving and forgetting
// ---------------------------------------------------------------------------

/// Whether a relation to another note stands at the end of a text, from `at` on.
pub open spec fn is_related_at(s: Seq<char>, at: int) -> bool {
    text::stands_at(s, " — see [["@, at) && text::ends(s.skip(at), "]]"@)
}

/// Whether a text says a sentence, normalised, with a relation behind it or
/// without.
pub open spec fn says(held: Seq<char>, sentence: Seq<char>) -> bool {
    normal(held) == sentence || exists|at: int| #[trigger]
        is_related_at(held, at) && normal(held.take(at)) == sentence
}

/// The first observation of a note from `i` on that says a sentence, normalised:
/// -1 where there is none.
pub open spec fn held_at(
    observations: Seq<Seen>,
    path: Seq<char>,
    normal_text: Seq<char>,
    i: int,
) -> int
    decreases observations.len() - i,
{
    if i < 0 || i >= observations.len() {
        -1
    } else if observations[i].note == path && says(observations[i].text, normal_text) {
        i
    } else {
        held_at(observations, path, normal_text, i + 1)
    }
}

/// The text of a note before anything was saved in it.
pub open spec fn before_saving(existing: Option<&str>, subject: Seq<char>) -> Seq<char> {
    match existing {
        Some(s) => s@,
        None => "# "@ + text::trim(subject) + "\n"@,
    }
}

fn saying(held: &str, sentence: &str) -> (r: bool)
    ensures
        r == says(held@, sentence@),
{
    let whole = normalise(held);
    if text::same(whole.as_str(), sentence) {
        return true;
    }
    let chars = text::chars_of(held);
    let s = chars.as_slice();
    let link = text::chars_of(" — see [[");
    let close = text::chars_of("]]");
    let mut at: usize = 0;
    while at < s.len()
        invariant
            0 <= at <= s.len(),
            s@ == held@,
            link@ == " — see [["@,
            close@ == "]]"@,
            normal(held@) != sentence@,
            forall|k: int|
                0 <= k < at && #[trigger] is_related_at(held@, k) ==> normal(held@.take(k))
                    != sentence@,
        decreases s.len() - at,
    {
        let rest = slice_subrange(s, at, s.len());
        assert(rest@ =~= held@.skip(at as int));
        if text::stands(s, link.as_slice(), at) && rest.len() >= close.len() && text::stands(
            rest,
            close.as_slice(),
            rest.len() - close.len(),
        ) {
            let front = text::string_of(slice_subrange(s, 0, at));
            assert(front@ =~= held@.take(at as int));
            let sentence_held = normalise(front.as_str());
            assert(rest@.skip(rest@.len() - "]]"@.len()) =~= "]]"@);
            assert(is_related_at(held@, at as int));
            if text::same(sentence_held.as_str(), sentence) {
                return true;
            }
        } else {
            assert(!is_related_at(held@, at as int)) by {
                if is_related_at(held@, at as int) {
                    assert(rest@.subrange(rest@.len() - "]]"@.len(), rest@.len() as int)
                        =~= rest@.skip(rest@.len() - "]]"@.len()));
                }
            }
        }
        at = at + 1;
    }
    proof {
        reveal_strlit(" — see [[");
        assert forall|k: int| #[trigger] is_related_at(held@, k) implies normal(held@.take(k))
            != sentence@ by {
            assert(0 <= k < held@.len());
        }
    }
    false
}

/// Decides what saving an observation comes to: what is said of it, and the new
/// text of the note where there is anything to write.
///
/// `path` is the note for the subject and `existing` its text, if there is one.
/// The same sentence saved twice is not saved twice, whatever note it was related
/// to.
pub fn remember(
    observations: &[Observation],
    path: &str,
    existing: Option<&str>,
    subject: &str,
    text: &str,
    kind: Kind,
    related_to: Option<&str>,
    now: Stamp,
) -> (r: Result<(Saved, Option<String>), MemoryError>)
    requires
        now.dated(),
    ensures
        r is Err <==> text::trim(subject@).len() == 0 || text::trim(text@).len() == 0,
        r is Err ==> r->Err_0 is Refused && (r->Err_0->Refused_0)@
            == "a subject and something to say about it are both needed"@,
        r is Ok ==> {
            let (saved, write) = r->Ok_0;
            let at = held_at(seen(observations@), path@, normal(text::trim(text@)), 0);
            &&& saved.note@ == path@
            &&& saved.already_there == (at >= 0)
            &&& at >= 0 ==> write is None && saved.kind == seen(observations@)[at].kind
            &&& at < 0 ==> saved.kind == kind && write is Some && (write->0)@ == note::appended(
                before_saving(existing, subject@),
                rendered(
                    text::trim(text@),
                    kind,
                    related_to,
                    strftime(now.seconds as int, "%Y-%m-%d"@),
                ),
            )
        },
{
    let subject_chars = text::chars_of(subject);
    let text_chars = text::chars_of(text);
    let about = text::trimmed(subject_chars.as_slice());
    let what = text::trimmed(text_chars.as_slice());
    if about.len() == 0 || what.len() == 0 {
        return Err(
            MemoryError::Refused(
                "a subject and something to say about it are both needed".to_owned(),
            ),
        );
    }
    let sentence = text::string_of(what);
    let normalised = normalise(sentence.as_str());
    let ghost all = seen(observations@);
    let mut i: usize = 0;
    while i < observations.len()
        invariant
            0 <= i <= observations.len(),
            all == seen(observations@),
            normalised@ == normal(text::trim(text@)),
            text::trim(subject@).len() > 0 && text::trim(text@).len() > 0,
            held_at(all, path@, normalised@, 0) == held_at(all, path@, normalised@, i as int),
        decreases observations.len() - i,
    {
        let held = &observations[i];
        assert(all[i as int] == observations@[i as int]@);
        if text::same(held.note.as_str(), path) {
            if saying(held.text.as_str(), normalised.as_str()) {
                return Ok(
                    (Saved { note: path.to_owned(), kind: held.kind, already_there: true }, None),
                );
            }
        }
        i = i + 1;
    }
    let line = observation::render(sentence.as_str(), kind, related_to, now);
    let old_text = match existing {
        Some(s) => s.to_owned(),
        None => {
            let mut s = "# ".to_owned();
            text::push_chars(&mut s, about);
            s.append("\n");
            s
        },
    };
    let new_text = note::append_under_heading(old_text.as_str(), line.as_str());
    Ok((Saved { note: path.to_owned(), kind, already_there: false }, Some(new_text)))
}

/// Decides what forgetting comes to: the new text of the note, and what was
/// removed. `existing` is the text of the note for the subject, if there is one.
///
/// Only lines the assistant wrote are candidates, and the note itself is never
/// deleted.
pub fn forget(subject: &str, existing: Option<&str>, matching: &str) -> (r: Result<
    (String, String),
    MemoryError,
>)
    ensures
        match existing {
            None => r is Err && r->Err_0 is Refused && (r->Err_0->Refused_0)@
                == "there is no note for "@ + subject@,
            Some(text) => match note::forgotten(text@, matching@) {
                Some((left, gone)) => r is Ok && (r->Ok_0).0@ == left && (r->Ok_0).1@ == gone,
                None => r is Err && r->Err_0 is Refused && (r->Err_0->Refused_0)@
                    == "nothing Familiar wrote there matches that"@,
            },
        },
{
    match existing {
        None => {
            let mut why = "there is no note for ".to_owned();
            why.append(subject);
            Err(MemoryError::Refused(why))
        },
        Some(text) => match note::forget_line(text, matching) {
            Some(found) => Ok(found),
            None => Err(
                MemoryError::Refused("nothing Familiar wrote there matches that".to_owned()),
            ),
        },
    }
}

// ---------------------------------------------------------------------------
// Searching
// ---------------------------------------------------------------------------

/// What the lines say that the assistant wrote.
pub open spec fn said_in(lines: Seq<Seq<char>>) -> Seq<Seq<char>>
    decreases lines.len(),
{
    if lines.len() == 0 {
        Seq::empty()
    } else if is_marked(lines.last()) {
        said_in(lines.drop_last()).push(said(lines.last()))
    } else {
        said_in(lines.drop_last())
    }
}

/// What a search returns of a note that it came to: the beginning of what the user
/// wrote, what the assistant did, and which halves of the search came to it.
pub open spec fn tells_of(hit: Hit, r: Recalled) -> bool {
    &&& r.title@ == hit.note.title@
    &&& r.path@ == hit.note.id@
    &&& r.excerpt@ == note::summary(
        note::opening_line(
            text::lines(
                text::join(note::own_words(text::lines(hit.note.text@), 0, false), "\n"@),
            ),
            0,
        ),
    )
    &&& text::texts(r.observations@) == said_in(text::lines(hit.note.text@))
    &&& r.lexical == (hit.lexical is Some)
    &&& r.semantic == (hit.semantic is Some)
}

/// What a search for a query returns, given the notes that it came to. A query
/// with nothing in it finds nothing.
pub fn recall(query: &str, hits: &[Hit]) -> (r: Vec<Recalled>)
    ensures
        text::trim(query@).len() == 0 ==> r.len() == 0,
        text::trim(query@).len() > 0 ==> r.len() == hits.len() && forall|i: int|
            0 <= i < r.len() ==> tells_of(hits@[i], #[trigger] r[i]),
{
    let mut r: Vec<Recalled> = Vec::new();
    let chars = text::chars_of(query);
    if text::trimmed(chars.as_slice()).len() == 0 {
        return r;
    }
    let mut i: usize = 0;
    while i < hits.len()
        invariant
            0 <= i <= hits.len(),
            r.len() == i,
            forall|j: int| 0 <= j < i ==> tells_of(hits@[j], #[trigger] r[j]),
        decreases hits.len() - i,
    {
        r.push(recalled(&hits[i]));
        i = i + 1;
    }
    r
}

/// What a search returns of a note that it came to.
pub fn recalled(hit: &Hit) -> (r: Recalled)
    ensures
        tells_of(*hit, r),
{
    let note = &hit.note;
    let chars = text::chars_of(note.text.as_str());
    let lines = text::lines_of(chars.as_slice());
    let ghost all = text::runs(lines@);
    let mut observations: Vec<String> = Vec::new();
    let mut i: usize = 0;
    assert(text::texts(observations@) =~= Seq::empty());
    while i < lines.len()
        invariant
            0 <= i <= lines.len(),
            all == text::runs(lines@),
            text::texts(observations@) == said_in(all.take(i as int)),
        decreases lines.len() - i,
    {
        let ghost before = text::texts(observations@);
        proof {
            assert(all.take(i + 1).drop_last() =~= all.take(i as int));
            assert(all.take(i + 1).last() == lines@[i as int]@);
        }
        let line = text::string_of(lines[i]);
        if is_familiars(line.as_str()) {
            let one = text_of(line.as_str());
            observations.push(one);
            assert(text::texts(observations@) =~= before.push(one@));
        }
        i = i + 1;
    }
    assert(all.take(all.len() as int) =~= all);
    let words = note::prose(note.text.as_str());
    Recalled {
        title: note.title.as_str().to_owned(),
        path: note.id.as_str().to_owned(),
        excerpt: note::first_sentence(words.as_str()),
        observations,
        lexical: hit.lexical.is_some(),
        semantic: hit.semantic.is_some(),
    }
}

/// The keys of the observations that live in some notes.
pub open spec fn keys_in(observations: Seq<Seen>, paths: Seq<Seq<char>>) -> Seq<Seq<char>>
    decreases observations.len(),
{
    if observations.len() == 0 {
        Seq::empty()
    } else if paths.contains(observations.last().note) {
        keys_in(observations.drop_last(), paths).push(observations.last().key())
    } else {
        keys_in(observations.drop_last(), paths)
    }
}

/// What a search that found some notes has reached for.
pub fn touched(observations: &[Observation], paths: &Vec<String>) -> (r: Vec<String>)
    ensures
        text::texts(r@) == keys_in(seen(observations@), text::texts(paths@)),
{
    let ghost all = seen(observations@);
    let mut r: Vec<String> = Vec::new();
    let mut i: usize = 0;
    assert(text::texts(r@) =~= Seq::empty());
    while i < observations.len()
        invariant
            0 <= i <= observations.len(),
            all == seen(observations@),
            text::texts(r@) == keys_in(all.take(i as int), text::texts(paths@)),
        decreases observations.len() - i,
    {
        let ghost before = text::texts(r@);
        proof {
            assert(all.take(i + 1).drop_last() =~= all.take(i as int));
            assert(all.take(i + 1).last() == observations@[i as int]@);
        }
        if any(paths, observations[i].note.as_str()) {
            let key = observations[i].key();
            r.push(key);
            assert(text::texts(r@) =~= before.push(key@));
        }
        i = i + 1;
    }
    assert(all.take(all.len() as int) =~= all);
    r
}

/// The keys of observations.
pub open spec fn keys(observations: Seq<Seen>) -> Seq<Seq<char>> {
    observations.map_values(|o: Seen| o.key())
}

/// The keys of all observations, for the ledger to retain.
pub fn present(observations: &[Observation]) -> (r: Vec<String>)
    ensures
        text::texts(r@) == keys(seen(observations@)),
{
    let mut r: Vec<String> = Vec::new();
    let mut i: usize = 0;
    while i < observations.len()
        invariant
            0 <= i <= observations.len(),
            r.len() == i,
            forall|j: int| 0 <= j < i ==> (#[trigger] r[j])@ == observations@[j]@.key(),
        decreases observations.len() - i,
    {
        r.push(observations[i].key());
        i = i + 1;
    }
    assert(text::texts(r@) =~= keys(seen(observations@)));
    r
}

// ---------------------------------------------------------------------------
// What is known, and what it is worth
// ---------------------------------------------------------------------------

/// An observation, with what the ledger and the recent conversations know.
pub open spec fn known_of(
    o: Seen,
    ledger: Map<Seq<char>, ledger::Use>,
    mentions: Seq<(Seq<char>, u32)>,
) -> Known {
    Known {
        seen: o,
        uses: look_up(ledger, o.key()).uses,
        last_used: look_up(ledger, o.key()).last,
        mentions: times_of(mentions, o.key()),
    }
}

/// Everything held, as the night sees it.
pub fn held(observations: &[Observation], ledger: &Ledger, mentions: &Vec<Mention>) -> (r: Vec<
    Held,
>)
    requires
        ledger.wf(),
    ensures
        known(r@) == seen(observations@).map_values(
            |o: Seen| known_of(o, ledger@, counted(mentions@)),
        ),
{
    let mut r: Vec<Held> = Vec::new();
    let mut i: usize = 0;
    while i < observations.len()
        invariant
            0 <= i <= observations.len(),
            ledger.wf(),
            r.len() == i,
            forall|j: int|
                0 <= j < i ==> (#[trigger] r[j])@ == known_of(
                    observations@[j]@,
                    ledger@,
                    counted(mentions@),
                ),
        decreases observations.len() - i,
    {
        let key = observations[i].key();
        let one = Held {
            uses: ledger.uses(key.as_str()),
            last_used: ledger.last_used(key.as_str()),
            mentions: times(mentions, key.as_str()),
            observation: observations[i].copy(),
        };
        r.push(one);
        i = i + 1;
    }
    assert(known(r@) =~= seen(observations@).map_values(
        |o: Seen| known_of(o, ledger@, counted(mentions@)),
    ));
    r
}

/// Observations with their scores, those that ride along or those that do not.
pub open spec fn scored(observations: Seq<Seen>, scores: Seq<u32>, core_part: bool) -> Seq<(Seen, u32)>
    decreases observations.len(),
{
    if observations.len() == 0 {
        Seq::empty()
    } else {
        let before = scored(observations.drop_last(), scores, core_part);
        if observations.last().kind.rides_along() == core_part {
            before.push((observations.last(), scores[observations.len() - 1]))
        } else {
            before
        }
    }
}

/// What ranked observations say.
pub open spec fn ranked_as(list: Seq<Ranked>) -> Seq<(Seen, u32)> {
    Seq::new(list.len(), |i: int| (list[i].observation@, list[i].score))
}

/// Observations and what each is worth today, split at the line between what has
/// to be in front of the model and what it can go and look up.
pub fn ranked(observations: &[Observation], scores: &[u32]) -> (r: (Vec<Ranked>, Vec<Ranked>))
    requires
        scores.len() == observations.len(),
    ensures
        ranked_as(r.0@) == scored(seen(observations@), scores@, true),
        ranked_as(r.1@) == scored(seen(observations@), scores@, false),
{
    let ghost all = seen(observations@);
    let mut first: Vec<Ranked> = Vec::new();
    let mut rest: Vec<Ranked> = Vec::new();
    let mut i: usize = 0;
    assert(ranked_as(first@) =~= Seq::empty());
    assert(ranked_as(rest@) =~= Seq::empty());
    while i < observations.len()
        invariant
            0 <= i <= observations.len(),
            scores.len() == observations.len(),
            all == seen(observations@),
            ranked_as(first@) == scored(all.take(i as int), scores@, true),
            ranked_as(rest@) == scored(all.take(i as int), scores@, false),
        decreases observations.len() - i,
    {
        let ghost before = ranked_as(first@);
        let ghost after = ranked_as(rest@);
        proof {
            assert(all.take(i + 1).drop_last() =~= all.take(i as int));
            assert(all.take(i + 1).last() == observations@[i as int]@);
        }
        let one = Ranked { observation: observations[i].copy(), score: scores[i] };
        let ghost model = (one.observation@, one.score);
        if observations[i].kind.is_core() {
            first.push(one);
            assert(ranked_as(first@) =~= before.push(model));
        } else {
            rest.push(one);
            assert(ranked_as(rest@) =~= after.push(model));
        }
        i = i + 1;
    }
    assert(all.take(all.len() as int) =~= all);
    (first, rest)
}

/// One of the vault's own notes: how many others link to it, its title, and its
/// beginning.
#[derive(Debug, Clone, PartialEq, Eq)]
pub struct Linked {
    pub links: u32,
    pub title: String,
    pub excerpt: String,
}

/// What notes are put in order by: the most linked first, then by title.
pub open spec fn salience(notes: Seq<Linked>) -> Seq<Key> {
    Seq::new(
        notes.len(),
        |i: int|
            Key { number: -(notes[i].links as int), name: notes[i].title@, more: Seq::empty() },
    )
}

/// The summaries of the first notes in an order, where they have one.
pub open spec fn summaries(notes: Seq<Linked>, places: Seq<int>) -> Seq<(Seq<char>, Seq<char>)>
    decreases places.len(),
{
    if places.len() == 0 {
        Seq::empty()
    } else {
        let note = notes[places.last()];
        let excerpt = note::summary(note::opening_line(text::lines(note.excerpt@), 0));
        let before = summaries(notes, places.drop_last());
        if excerpt.len() > 0 {
            before.push((note.title@, excerpt))
        } else {
            before
        }
    }
}

/// Pairs of texts.
pub open spec fn pairs(list: Seq<(String, String)>) -> Seq<(Seq<char>, Seq<char>)> {
    Seq::new(list.len(), |i: int| (list[i].0@, list[i].1@))
}

/// The notes most worth knowing about, as a title and a sentence: inbound links
/// first, then title.
pub fn salient(notes: &[Linked], limit: usize) -> (r: Vec<(String, String)>)
    ensures
        pairs(r@) == summaries(
            notes@,
            order(salience(notes@)).take(
                if notes.len() < limit {
                    notes.len() as int
                } else {
                    limit as int
                },
            ),
        ),
{
    let ghost keys = salience(notes@);
    let mut list: Vec<Rank> = Vec::new();
    let mut i: usize = 0;
    assert(ranks(list@) =~= keys.take(0));
    while i < notes.len()
        invariant
            0 <= i <= notes.len(),
            keys == salience(notes@),
            list.len() == i,
            ranks(list@) == keys.take(i as int),
        decreases notes.len() - i,
    {
        let ghost before = ranks(list@);
        let rank = Rank {
            number: -(notes[i].links as i128),
            name: notes[i].title.as_str().to_owned(),
            more: String::new(),
        };
        list.push(rank);
        proof {
            assert(rank@ =~= keys[i as int]);
            assert(ranks(list@) =~= before.push(rank@));
            assert(keys.take(i + 1) =~= keys.take(i as int).push(keys[i as int]));
        }
        i = i + 1;
    }
    assert(keys.take(keys.len() as int) =~= keys);
    let at = order_of(&list);
    let most: usize = if notes.len() < limit {
        notes.len()
    } else {
        limit
    };
    let ghost shown = order(keys).take(most as int);
    let mut r: Vec<(String, String)> = Vec::new();
    let mut j: usize = 0;
    assert(pairs(r@) =~= Seq::empty());
    while j < most
        invariant
            0 <= j <= most <= at.len(),
            at.len() == notes.len(),
            places(at@) == order(keys),
            shown == order(keys).take(most as int),
            forall|k: int| 0 <= k < at.len() ==> #[trigger] at[k] < notes.len(),
            pairs(r@) == summaries(notes@, shown.take(j as int)),
        decreases most - j,
    {
        let ghost before = pairs(r@);
        proof {
            assert(shown.take(j + 1).drop_last() =~= shown.take(j as int));
            assert(places(at@)[j as int] == at[j as int]);
            assert(shown.take(j + 1).last() == at[j as int]);
        }
        let note = &notes[at[j]];
        let excerpt = note::first_sentence(note.excerpt.as_str());
        if text::chars_of(excerpt.as_str()).len() > 0 {
            let title = note.title.as_str().to_owned();
            let ghost pair = (title@, excerpt@);
            r.push((title, excerpt));
            assert(pairs(r@) =~= before.push(pair));
        }
        j = j + 1;
    }
    assert(shown.take(most as int) =~= shown);
    r
}

// ---------------------------------------------------------------------------
// Carrying out a night's plan
// ---------------------------------------------------------------------------

/// The new text of a note after a step of the plan: nothing where the step
/// cannot be carried out, because the note changed under the plan. `date` is how
/// the day is written.
pub open spec fn carried_out(existing: Seq<char>, step: Step, date: Seq<char>) -> Option<Seq<char>> {
    match step {
        Step::Drop { text, .. } => note::cleared(existing, text),
        Step::Reclassify { text, to, .. } => note::refiled(existing, text, to),
        Step::Merge { kind, into, texts, .. } => note::merged(
            existing,
            texts,
            rendered(into, kind, None, date),
        ),
    }
}

/// What an operation makes of the text of its note. Each is a single write of
/// one note, so that there is no moment at which it is half-changed.
pub fn carry_out(existing: &str, operation: &Operation, now: Stamp) -> (r: Option<String>)
    requires
        now.dated(),
    ensures
        match r {
            Some(text) => carried_out(
                existing@,
                operation@,
                strftime(now.seconds as int, "%Y-%m-%d"@),
            ) == Some(text@),
            None => carried_out(
                existing@,
                operation@,
                strftime(now.seconds as int, "%Y-%m-%d"@),
            ) is None,
        },
        r is Some && is_tidy(existing@, operation@) ==> note::yours((r->0)@) == note::yours(
            existing@,
        ),
{
    proof {
        if let Step::Drop { text, .. } = operation@ {
            note::forgetting_keeps_what_you_wrote(existing@, text);
        }
    }
    match operation {
        Operation::Drop { text, .. } => note::remove_exact(existing, text.as_str()),
        Operation::Reclassify { text, to, .. } => note::restamp_line(existing, text.as_str(), *to),
        Operation::Merge { kind, into, texts, .. } => note::merge_lines(
            existing,
            texts,
            into.as_str(),
            *kind,
            now,
        ),
    }
}

/// After a merge was written, the counts of the lines that it replaced go over
/// to the sentence that it wrote. This comes before the ledger drops what is no
/// longer there.
pub fn carry_counts(ledger: &mut Ledger, operation: &Operation)
    requires
        old(ledger).wf(),
    ensures
        final(ledger).wf(),
        final(ledger)@ == match operation@ {
            Step::Merge { note, into, keys, .. } => ledger::carried(
                old(ledger)@,
                keys,
                note + seq!['\u{1f}'] + normal(into),
            ),
            _ => old(ledger)@,
        },
{
    if let Operation::Merge { note, subject, kind, into, keys, .. } = operation {
        let line = Observation {
            note: note.as_str().to_owned(),
            subject: subject.as_str().to_owned(),
            text: into.as_str().to_owned(),
            kind: *kind,
            saved: None,
        };
        let key = line.key();
        ledger.merge_into(keys, key.as_str());
    }
}

/// A sentence that was saved is not saved again: with the note as saving it left
/// it, and everything read back from the notes, saving it anew comes to nothing.
/// It may break over no lines, nor look like a mark, a tag or a comment itself.
pub proof fn saving_twice_is_saving_once(
    notes: Seq<Passage>,
    at: int,
    existing: Seq<char>,
    text: Seq<char>,
    kind: Kind,
    related: Option<&str>,
    date: Seq<char>,
)
    requires
        0 <= at < notes.len(),
        notes[at].text@ == note::appended(existing, rendered(text, kind, related, date)),
        is_date_text(date),
        text::trim(text).len() > 0,
        !(text::trim(text) + observation::relation(related)).contains('\n'),
        !text::holds(text::trim(text) + observation::relation(related), "<!--"@),
        !text::holds(text::trim(text) + observation::relation(related), TAG@),
        !text::starts(text::trim(text) + observation::relation(related) + " "@, MARK@),
    ensures
        held_at(read_notes(notes), notes[at].id@, normal(text::trim(text)), 0) >= 0,
{
    let sentence = text::trim(text) + observation::relation(related);
    let line = rendered(text, kind, related, date);
    let path = notes[at].id@;
    let title = notes[at].title@;
    observation::what_is_rendered_reads_back(path, title, text, kind, related, date);
    observation::lemma_rendered_line(text, kind, related, date);
    note::lemma_appended_line(existing, line);
    let lines = text::lines(notes[at].text@);
    let i = choose|i: int| 0 <= i < lines.len() && lines[i] == line;
    let o = read(path, title, line)->0;
    lemma_read_line(path, title, lines, i);
    lemma_read_note(notes, at, o);
    assert(says(o.text, normal(text::trim(text)))) by {
        reveal_strlit(" — see [[");
        reveal_strlit("]]");
        let p = text::trim(text).len() as int;
        if observation::relation(related).len() > 0 {
            let link = observation::relation(related);
            assert(o.text.skip(p) =~= link);
            assert(link.skip(link.len() - 2) =~= "]]"@);
            assert(o.text.subrange(p, p + " — see [["@.len()) =~= " — see [["@);
            assert(o.text.take(p) =~= text::trim(text));
            assert(is_related_at(o.text, p));
        } else {
            assert(o.text =~= text::trim(text));
        }
    }
    let all = read_notes(notes);
    let j = choose|j: int| 0 <= j < all.len() && all[j] == o;
    lemma_held_at(all, path, normal(text::trim(text)), 0, j);
}

proof fn lemma_read_line(path: Seq<char>, title: Seq<char>, lines: Seq<Seq<char>>, i: int)
    requires
        0 <= i < lines.len(),
        read(path, title, lines[i]) is Some,
    ensures
        read_lines(path, title, lines).contains(read(path, title, lines[i])->0),
    decreases lines.len(),
{
    let o = read(path, title, lines[i])->0;
    let all = read_lines(path, title, lines);
    let before = read_lines(path, title, lines.drop_last());
    if i == lines.len() - 1 {
        assert(all[before.len() as int] == o);
    } else {
        lemma_read_line(path, title, lines.drop_last(), i);
        let j = choose|j: int| 0 <= j < before.len() && before[j] == o;
        assert(all[j] == o);
    }
}

proof fn lemma_read_note(notes: Seq<Passage>, at: int, o: Seen)
    requires
        0 <= at < notes.len(),
        read_lines(notes[at].id@, notes[at].title@, text::lines(notes[at].text@)).contains(o),
    ensures
        read_notes(notes).contains(o),
    decreases notes.len(),
{
    let before = read_notes(notes.drop_last());
    let last = notes.last();
    let here = read_lines(last.id@, last.title@, text::lines(last.text@));
    if at == notes.len() - 1 {
        let j = choose|j: int| 0 <= j < here.len() && here[j] == o;
        assert(read_notes(notes)[before.len() + j] == o);
    } else {
        lemma_read_note(notes.drop_last(), at, o);
        let j = choose|j: int| 0 <= j < before.len() && before[j] == o;
        assert(read_notes(notes)[j] == o);
    }
}

proof fn lemma_held_at(
    observations: Seq<Seen>,
    path: Seq<char>,
    normal_text: Seq<char>,
    i: int,
    j: int,
)
    requires
        0 <= i <= j < observations.len(),
        observations[j].note == path,
        says(observations[j].text, normal_text),
    ensures
        held_at(observations, path, normal_text, i) >= 0,
    decreases j - i,
{
    if i < j {
        if !(observations[i].note == path && says(observations[i].text, normal_text)) {
            lemma_held_at(observations, path, normal_text, i + 1, j);
        }
    }
}

/// Whether what a step comes to is sure to leave alone what the user wrote: a
/// merged sentence has to be one line, and a refiled line has to stay marked.
pub open spec fn is_tidy(existing: Seq<char>, step: Step) -> bool {
    match step {
        Step::Drop { .. } => true,
        Step::Merge { into, .. } => !text::trim(into).contains('\n'),
        Step::Reclassify { text, to, .. } => {
            let lines = text::lines(existing);
            let at = note::line_saying(lines, normal(text), 0);
            at >= 0 ==> is_marked(observation::restamped(lines[at], to))
        },
    }
}

/// Whatever a night drops, merges or refiles in a note, everything that the user
/// wrote there stays, in the same order.
pub proof fn a_night_keeps_what_you_wrote(existing: Seq<char>, step: Step, date: Seq<char>)
    requires
        is_tidy(existing, step),
        is_date_text(date),
        match step {
            Step::Reclassify { text, .. } => {
                let lines = text::lines(existing);
                let at = note::line_saying(lines, normal(text), 0);
                at >= 0 ==> note::is_dated(lines[at])
            },
            _ => true,
        },
    ensures
        match carried_out(existing, step, date) {
            Some(left) => note::yours(left) == note::yours(existing),
            None => true,
        },
{
    match step {
        Step::Drop { text, .. } => {
            note::forgetting_keeps_what_you_wrote(existing, text);
        },
        Step::Merge { kind, into, texts, .. } => {
            note::lemma_replacement(into, kind, date);
            note::merging_keeps_what_you_wrote(
                existing,
                texts,
                rendered(into, kind, None, date),
            );
        },
        Step::Reclassify { text, to, .. } => {
            note::refiling_changes_only_its_own(existing, text, to);
        },
    }
}

// ---------------------------------------------------------------------------
// A search tells all that was saved
// ---------------------------------------------------------------------------

/// What a search returns of a note is the note's own title and path, and everything
/// that the assistant wrote there: what each marked line says, of all the marked
/// lines, in the order of the lines.
pub proof fn a_search_tells_everything_saved_there(hit: Hit, r: Recalled)
    requires
        tells_of(hit, r),
    ensures
        r.title@ == hit.note.title@,
        r.path@ == hit.note.id@,
        r.lexical <==> hit.lexical is Some,
        r.semantic <==> hit.semantic is Some,
        text::texts(r.observations@) == text::lines(hit.note.text@).filter(
            |line: Seq<char>| is_marked(line),
        ).map_values(|line: Seq<char>| said(line)),
        forall|i: int|
            0 <= i < text::lines(hit.note.text@).len() && is_marked(
                #[trigger] text::lines(hit.note.text@)[i],
            ) ==> text::texts(r.observations@).contains(said(text::lines(hit.note.text@)[i])),
{
    let lines = text::lines(hit.note.text@);
    lemma_said_in(lines);
    let keep = |line: Seq<char>| is_marked(line);
    assert forall|i: int| 0 <= i < lines.len() && is_marked(#[trigger] lines[i]) implies said_in(
        lines,
    ).contains(said(lines[i])) by {
        let marked = lines.filter(keep);
        assert(keep(lines[i]));
        lines.lemma_filter_contains(keep, i);
        let k = choose|k: int| 0 <= k < marked.len() && marked[k] == lines[i];
        assert(said_in(lines)[k] == said(lines[i]));
    }
}

proof fn lemma_said_in(lines: Seq<Seq<char>>)
    ensures
        said_in(lines) == lines.filter(|line: Seq<char>| is_marked(line)).map_values(
            |line: Seq<char>| said(line),
        ),
    decreases lines.len(),
{
    reveal(Seq::filter);
    let keep = |line: Seq<char>| is_marked(line);
    let say = |line: Seq<char>| said(line);
    if lines.len() == 0 {
        assert(lines.filter(keep).map_values(say) =~= Seq::empty());
    } else {
        lemma_said_in(lines.drop_last());
        let before = lines.drop_last().filter(keep);
        if is_marked(lines.last()) {
            assert(before.push(lines.last()).map_values(say) =~= before.map_values(say).push(
                said(lines.last()),
            ));
        }
    }
}

/// What was saved is recalled: a search that comes to the note tells the sentence, with
/// its relation. The sentence may break over no lines, nor look like a mark, a tag or a
/// comment itself.
pub proof fn what_was_saved_is_recalled(
    hit: Hit,
    r: Recalled,
    existing: Seq<char>,
    text: Seq<char>,
    kind: Kind,
    related: Option<&str>,
    date: Seq<char>,
)
    requires
        tells_of(hit, r),
        hit.note.text@ == note::appended(existing, rendered(text, kind, related, date)),
        is_date_text(date),
        text::trim(text).len() > 0,
        !(text::trim(text) + observation::relation(related)).contains('\n'),
        !text::holds(text::trim(text) + observation::relation(related), "<!--"@),
        !text::holds(text::trim(text) + observation::relation(related), TAG@),
        !text::starts(text::trim(text) + observation::relation(related) + " "@, MARK@),
    ensures
        text::texts(r.observations@).contains(
            text::trim(text) + match related {
                Some(other) => if text::trim(other@).len() > 0 {
                    " — see [["@ + text::trim(other@) + "]]"@
                } else {
                    Seq::empty()
                },
                None => Seq::empty(),
            },
        ),
{
    let line = rendered(text, kind, related, date);
    observation::what_is_rendered_reads_back(r.path@, r.title@, text, kind, related, date);
    observation::lemma_rendered_line(text, kind, related, date);
    note::lemma_appended_line(existing, line);
    let lines = text::lines(hit.note.text@);
    let i = choose|i: int| 0 <= i < lines.len() && lines[i] == line;
    a_search_tells_everything_saved_there(hit, r);
    assert(is_marked(lines[i]));
}

// ---------------------------------------------------------------------------
// Nothing that was written is passed over
// ---------------------------------------------------------------------------

/// What is read from notes is every line that the assistant wrote and that says anything,
/// of every note, and nothing else: each with its note, the note's title, and what the
/// line says.
pub proof fn everything_written_is_read(notes: Seq<Passage>, o: Seen)
    ensures
        read_notes(notes).contains(o) <==> exists|i: int, j: int|
            0 <= i < notes.len() && 0 <= j < text::lines(notes[i].text@).len()
                && #[trigger] is_read_from(notes[i], j, o),
{
    if read_notes(notes).contains(o) {
        let (i, j) = lemma_read_from(notes, o);
        assert(is_read_from(notes[i], j, o));
    }
    if exists|i: int, j: int|
        0 <= i < notes.len() && 0 <= j < text::lines(notes[i].text@).len()
            && #[trigger] is_read_from(notes[i], j, o) {
        let (i, j) = choose|i: int, j: int|
            0 <= i < notes.len() && 0 <= j < text::lines(notes[i].text@).len()
                && #[trigger] is_read_from(notes[i], j, o);
        lemma_read_line(notes[i].id@, notes[i].title@, text::lines(notes[i].text@), j);
        lemma_read_note(notes, i, o);
    }
}

/// Whether an observation is what a line of a note says.
pub open spec fn is_read_from(note: Passage, j: int, o: Seen) -> bool {
    let line = text::lines(note.text@)[j];
    &&& is_marked(line)
    &&& said(line).len() > 0
    &&& o.note == note.id@
    &&& o.subject == note.title@
    &&& o.text == said(line)
    &&& o.kind == observation::stamp(line).0
    &&& o.saved == observation::stamp(line).1
}

proof fn lemma_read_from(notes: Seq<Passage>, o: Seen) -> (r: (int, int))
    requires
        read_notes(notes).contains(o),
    ensures
        0 <= r.0 < notes.len(),
        0 <= r.1 < text::lines(notes[r.0].text@).len(),
        is_read_from(notes[r.0], r.1, o),
    decreases notes.len(),
{
    let all = read_notes(notes);
    let k = choose|k: int| 0 <= k < all.len() && all[k] == o;
    let before = read_notes(notes.drop_last());
    let last = notes.last();
    let here = read_lines(last.id@, last.title@, text::lines(last.text@));
    if k < before.len() {
        assert(before[k] == o);
        let r = lemma_read_from(notes.drop_last(), o);
        assert(notes.drop_last()[r.0] == notes[r.0]);
        r
    } else {
        assert(here[k - before.len()] == o);
        let j = lemma_read_line_from(
            last.id@,
            last.title@,
            text::lines(last.text@),
            k - before.len(),
        );
        (notes.len() - 1, j)
    }
}

proof fn lemma_read_line_from(
    path: Seq<char>,
    title: Seq<char>,
    lines: Seq<Seq<char>>,
    k: int,
) -> (j: int)
    requires
        0 <= k < read_lines(path, title, lines).len(),
    ensures
        0 <= j < lines.len(),
        read(path, title, lines[j]) == Some(read_lines(path, title, lines)[k]),
    decreases lines.len(),
{
    let before = read_lines(path, title, lines.drop_last());
    if k < before.len() {
        lemma_read_line_from(path, title, lines.drop_last(), k)
    } else {
        lines.len() - 1
    }
}

/// A search credits every observation of the notes that it came to, and no other.
pub proof fn a_search_credits_what_it_came_to(
    observations: Seq<Seen>,
    paths: Seq<Seq<char>>,
)
    ensures
        keys_in(observations, paths) == observations.filter(
            |o: Seen| paths.contains(o.note),
        ).map_values(|o: Seen| o.key()),
    decreases observations.len(),
{
    reveal(Seq::filter);
    let here = |o: Seen| paths.contains(o.note);
    let key = |o: Seen| o.key();
    if observations.len() == 0 {
        assert(observations.filter(here).map_values(key) =~= Seq::empty());
    } else {
        a_search_credits_what_it_came_to(observations.drop_last(), paths);
        let before = observations.drop_last().filter(here);
        if here(observations.last()) {
            assert(before.push(observations.last()).map_values(key) =~= before.map_values(
                key,
            ).push(observations.last().key()));
        }
    }
}

/// Every observation is ranked with the score that was worked out for it, among those that
/// ride along where it says who the user is or how they want things done, and among the
/// others where it does not.
pub proof fn every_observation_keeps_its_score(
    observations: Seq<Seen>,
    scores: Seq<u32>,
    i: int,
)
    requires
        0 <= i < observations.len() <= scores.len(),
    ensures
        scored(
            observations,
            scores,
            observations[i].kind == Kind::Profile || observations[i].kind == Kind::Preference,
        ).contains((observations[i], scores[i])),
        scored(observations, scores, true).len() + scored(observations, scores, false).len()
            == observations.len(),
    decreases observations.len(),
{
    let core = observations[i].kind == Kind::Profile || observations[i].kind == Kind::Preference;
    let front = observations.drop_last();
    lemma_scored_len(observations, scores);
    let all = scored(observations, scores, core);
    let before = scored(front, scores, core);
    if i == front.len() {
        assert(all[before.len() as int] == (observations[i], scores[i]));
    } else {
        every_observation_keeps_its_score(front, scores, i);
        let k = choose|k: int| 0 <= k < before.len() && before[k] == (observations[i], scores[i]);
        assert(all[k] == (observations[i], scores[i]));
    }
}

proof fn lemma_scored_len(observations: Seq<Seen>, scores: Seq<u32>)
    ensures
        scored(observations, scores, true).len() + scored(observations, scores, false).len()
            == observations.len(),
    decreases observations.len(),
{
    if observations.len() > 0 {
        lemma_scored_len(observations.drop_last(), scores);
    }
}

/// Of two notes the one with more links is the more salient.
pub proof fn the_most_linked_is_the_most_salient(notes: Seq<Linked>, a: int, b: int)
    requires
        0 <= a < notes.len(),
        0 <= b < notes.len(),
        notes[a].links > notes[b].links,
    ensures
        exists|i: int, j: int|
            0 <= i < j < notes.len() && #[trigger] order(salience(notes))[i] == a
                && #[trigger] order(salience(notes))[j] == b,
{
    let keys = salience(notes);
    crate::lists::lemma_order(keys);
    let o = order(keys);
    assert(o.contains(a) && o.contains(b));
    let i = choose|i: int| 0 <= i < o.len() && o[i] == a;
    let j = choose|j: int| 0 <= j < o.len() && o[j] == b;
    if j < i {
        assert(crate::lists::goes_first(keys, o[j], o[i]));
    }
}

/// What is known of an observation is what the books say under its key.
pub proof fn what_is_known_is_what_the_books_say(
    o: Seen,
    ledger: Map<Seq<char>, ledger::Use>,
    mentions: Seq<(Seq<char>, u32)>,
    k: int,
)
    requires
        0 <= k < mentions.len(),
        mentions[k].0 == o.key(),
        forall|j: int| 0 <= j < mentions.len() && j != k ==> (#[trigger] mentions[j]).0 != o.key(),
        ledger.dom().contains(o.key()),
    ensures
        known_of(o, ledger, mentions).seen == o,
        known_of(o, ledger, mentions).uses == ledger[o.key()].uses,
        known_of(o, ledger, mentions).last_used == ledger[o.key()].last,
        known_of(o, ledger, mentions).mentions == mentions[k].1,
{
    lemma_times(mentions, o.key(), k);
}

proof fn lemma_times(mentions: Seq<(Seq<char>, u32)>, key: Seq<char>, k: int)
    requires
        0 <= k < mentions.len(),
        mentions[k].0 == key,
        forall|j: int| k < j < mentions.len() ==> (#[trigger] mentions[j]).0 != key,
    ensures
        times_of(mentions, key) == mentions[k].1,
    decreases mentions.len(),
{
    if k < mentions.len() - 1 {
        assert(mentions[mentions.len() - 1].0 != key);
        lemma_times(mentions.drop_last(), key, k);
    }
}

} // verus!
