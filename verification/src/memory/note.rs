//! What is done to the text of one note.
//!
//! Three rules hold everywhere here: it only ever appends; it only removes what
//! it wrote; and a note is never deleted.

use super::observation::{
    self, is_familiars, is_marked, normal, normalise, rendered, restamped, said, text_of, Kind,
    TAG,
};
use crate::lists::kept;
use crate::text;
use crate::time::{is_date_text, strftime, Stamp};
use vstd::prelude::*;
use vstd::slice::slice_subrange;

verus! {

/// The heading the observations live under.
pub const HEADING: &'static str = "## Noted by Familiar";

/// Where a note the assistant had to create goes.
pub const FOLDER: &'static str = "Familiar";

/// How long a summary of a note may be.
pub const LIMIT: usize = 160;

// ---------------------------------------------------------------------------
// Appending
// ---------------------------------------------------------------------------

/// How many lines there are before the next heading.
pub open spec fn section_end(lines: Seq<Seq<char>>, i: int) -> int
    decreases lines.len() - i,
{
    if i < 0 || i >= lines.len() || text::starts(lines[i], "## "@) {
        i
    } else {
        section_end(lines, i + 1)
    }
}

/// Lines without the blank ones at the end.
pub open spec fn without_blank_end(lines: Seq<Seq<char>>) -> Seq<Seq<char>>
    decreases lines.len(),
{
    if lines.len() > 0 && text::trim(lines.last()).len() == 0 {
        without_blank_end(lines.drop_last())
    } else {
        lines
    }
}

/// Lines, each with its newline.
pub open spec fn ended(lines: Seq<Seq<char>>) -> Seq<char>
    decreases lines.len(),
{
    if lines.len() == 0 {
        Seq::empty()
    } else {
        ended(lines.drop_last()) + lines.last() + "\n"@
    }
}

/// A note with a line put at the end of the section, given what stands before
/// the heading and the lines from the heading on.
pub open spec fn with_line(before: Seq<char>, rest: Seq<Seq<char>>, line: Seq<char>) -> Seq<char> {
    let tail = rest.skip(1);
    let end = section_end(tail, 0);
    before + rest[0] + "\n"@ + ended(without_blank_end(tail.take(end))) + line + "\n"@
        + text::given(end < tail.len(), "\n"@ + text::join(tail.skip(end), "\n"@) + "\n"@)
}

/// A note with a line under the heading, which is added if it is not there.
pub open spec fn appended(note: Seq<char>, line: Seq<char>) -> Seq<char> {
    let at = text::index_of(note, HEADING@, 0);
    if at >= 0 {
        with_line(note.take(at), text::lines(note.skip(at)), line)
    } else {
        text::trim_end(note) + text::given(text::trim_end(note).len() > 0, "\n\n"@) + HEADING@
            + "\n"@ + line + "\n"@
    }
}

proof fn lemma_section_end(lines: Seq<Seq<char>>, i: int)
    requires
        0 <= i <= lines.len(),
    ensures
        i <= section_end(lines, i) <= lines.len(),
    decreases lines.len() - i,
{
    if i < lines.len() && !text::starts(lines[i], "## "@) {
        lemma_section_end(lines, i + 1);
    }
}

/// Put the line under the heading, adding the heading if it is not there.
pub fn append_under_heading(note: &str, line: &str) -> (r: String)
    ensures
        r@ == appended(note@, line@),
{
    let chars = text::chars_of(note);
    let mut out = String::new();
    match text::index(chars.as_slice(), HEADING, 0) {
        Some(at) => {
            proof {
                reveal_strlit("## Noted by Familiar");
            }
            let before = slice_subrange(chars.as_slice(), 0, at);
            assert(before@ =~= note@.take(at as int));
            let rest = slice_subrange(chars.as_slice(), at, chars.len());
            assert(rest@ =~= note@.skip(at as int));
            let lines = text::lines_of(rest);
            let ghost all = text::runs(lines@);
            assert(rest@.len() > 0);
            assert(all.len() > 0);
            let ghost tail = all.skip(1);
            // Walk to the end of the section: the next heading, or the end.
            let mut end: usize = 1;
            while end < lines.len() && !text::begins(lines[end], "## ")
                invariant
                    1 <= end <= lines.len(),
                    all == text::runs(lines@),
                    tail == all.skip(1),
                    section_end(tail, 0) == section_end(tail, end - 1),
                decreases lines.len() - end,
            {
                assert(tail[end - 1] == lines@[end as int]@);
                end = end + 1;
            }
            proof {
                if end < lines.len() {
                    assert(tail[end - 1] == lines@[end as int]@);
                }
            }
            let ghost section = tail.take(end - 1);
            let mut last: usize = end;
            assert(section.take(last - 1) =~= section);
            while last > 1 && text::trimmed(lines[last - 1]).len() == 0
                invariant
                    1 <= last <= end <= lines.len(),
                    all == text::runs(lines@),
                    tail == all.skip(1),
                    section == tail.take(end - 1),
                    without_blank_end(section) == without_blank_end(section.take(last - 1)),
                decreases last,
            {
                assert(section.take(last - 1).last() == lines@[last - 1]@);
                assert(section.take(last - 1).drop_last() =~= section.take(last - 2));
                last = last - 1;
            }
            proof {
                if last > 1 {
                    assert(section.take(last - 1).last() == lines@[last - 1]@);
                }
            }
            let ghost kept = section.take(last - 1);
            text::push_chars(&mut out, before);
            text::push_chars(&mut out, lines[0]);
            out.append("\n");
            let ghost start = out@;
            assert(start =~= before@ + all[0] + "\n"@);
            let mut i: usize = 1;
            assert(start + ended(kept.take(0)) =~= start);
            while i < last
                invariant
                    1 <= i <= last <= end <= lines.len(),
                    all == text::runs(lines@),
                    tail == all.skip(1),
                    section == tail.take(end - 1),
                    kept == section.take(last - 1),
                    out@ == start + ended(kept.take(i - 1)),
                decreases last - i,
            {
                let ghost done = ended(kept.take(i - 1));
                assert(kept.take(i as int).drop_last() =~= kept.take(i - 1));
                assert(kept.take(i as int).last() == lines@[i as int]@);
                text::push_chars(&mut out, lines[i]);
                out.append("\n");
                assert(start + done + lines@[i as int]@ + "\n"@ =~= start + (done
                    + lines@[i as int]@ + "\n"@));
                i = i + 1;
            }
            assert(kept.take(last - 1) =~= kept);
            out.append(line);
            out.append("\n");
            let ghost so_far = out@;
            if end < lines.len() {
                let after = text::joined_runs(&lines, end, lines.len(), "\n");
                assert(all.subrange(end as int, all.len() as int) =~= tail.skip(end - 1));
                let mut more = "\n".to_owned();
                more.append(after.as_str());
                more.append("\n");
                out.append(more.as_str());
            } else {
                assert(so_far + Seq::<char>::empty() =~= so_far);
            }
            out
        },
        None => {
            let trimmed = text::trimmed_end(chars.as_slice());
            text::push_chars(&mut out, trimmed);
            text::push_given(&mut out, trimmed.len() > 0, "\n\n");
            assert(Seq::<char>::empty() + trimmed@ =~= trimmed@);
            out.append(HEADING);
            out.append("\n");
            out.append(line);
            out.append("\n");
            out
        },
    }
}

// ---------------------------------------------------------------------------
// Removing
// ---------------------------------------------------------------------------

/// The lines of a note as a text.
pub open spec fn unlined(lines: Seq<Seq<char>>) -> Seq<char> {
    text::join(lines, "\n"@) + "\n"@
}

/// Whether a line is one that the assistant wrote and that says something, all
/// of it, normalised.
pub open spec fn says(line: Seq<char>, wanted: Seq<char>) -> bool {
    is_marked(line) && normal(said(line)) == wanted
}

/// Whether a line is one that the assistant wrote and that mentions something.
pub open spec fn mentions(line: Seq<char>, wanted: Seq<char>) -> bool {
    is_marked(line) && (wanted.len() == 0 || text::holds(normal(said(line)), wanted))
}

/// The first line from `i` on that says something: -1 where there is none.
pub open spec fn line_saying(lines: Seq<Seq<char>>, wanted: Seq<char>, i: int) -> int
    decreases lines.len() - i,
{
    if i < 0 || i >= lines.len() {
        -1
    } else if says(lines[i], wanted) {
        i
    } else {
        line_saying(lines, wanted, i + 1)
    }
}

/// The first line from `i` on that mentions something: -1 where there is none.
pub open spec fn line_mentioning(lines: Seq<Seq<char>>, wanted: Seq<char>, i: int) -> int
    decreases lines.len() - i,
{
    if i < 0 || i >= lines.len() {
        -1
    } else if mentions(lines[i], wanted) {
        i
    } else {
        line_mentioning(lines, wanted, i + 1)
    }
}

/// A note without the first line that mentions something, and what that line
/// said.
pub open spec fn forgotten(note: Seq<char>, matching: Seq<char>) -> Option<(Seq<char>, Seq<char>)> {
    let lines = text::lines(note);
    let at = line_mentioning(lines, normal(matching), 0);
    if at < 0 {
        None
    } else {
        Some((unlined(lines.remove(at)), said(lines[at])))
    }
}

/// A note without the first line that says something.
pub open spec fn cleared(note: Seq<char>, text: Seq<char>) -> Option<Seq<char>> {
    let lines = text::lines(note);
    let at = line_saying(lines, normal(text), 0);
    if at < 0 {
        None
    } else {
        Some(unlined(lines.remove(at)))
    }
}

/// A note in which the first line that says something is filed under another
/// kind.
pub open spec fn refiled(note: Seq<char>, text: Seq<char>, to: Kind) -> Option<Seq<char>> {
    let lines = text::lines(note);
    let at = line_saying(lines, normal(text), 0);
    if at < 0 {
        None
    } else {
        Some(unlined(lines.update(at, restamped(lines[at], to))))
    }
}

/// Where a text first stands in a list: -1 where it does not.
pub open spec fn place_of(list: Seq<Seq<char>>, wanted: Seq<char>, i: int) -> int
    decreases list.len() - i,
{
    if i < 0 || i >= list.len() {
        -1
    } else if list[i] == wanted {
        i
    } else {
        place_of(list, wanted, i + 1)
    }
}

/// What is left of a note's lines, and of what was to go, when each line that
/// the assistant wrote and that says something still to go has gone.
pub open spec fn struck(lines: Seq<Seq<char>>, wanted: Seq<Seq<char>>) -> (
    Seq<Seq<char>>,
    Seq<Seq<char>>,
)
    decreases lines.len(),
{
    if lines.len() == 0 {
        (Seq::empty(), wanted)
    } else {
        let (kept, left) = struck(lines.drop_last(), wanted);
        let line = lines.last();
        let at = place_of(left, normal(said(line)), 0);
        if is_marked(line) && at >= 0 {
            (kept, left.remove(at))
        } else {
            (kept.push(line), left)
        }
    }
}

/// Texts, normalised.
pub open spec fn normals(texts: Seq<Seq<char>>) -> Seq<Seq<char>> {
    texts.map_values(|s: Seq<char>| normal(s))
}

/// A note with one sentence in place of several lines; nothing where one of them
/// is not there, since half a merge is worse than none.
pub open spec fn merged(
    note: Seq<char>,
    texts: Seq<Seq<char>>,
    replacement: Seq<char>,
) -> Option<Seq<char>> {
    let (kept, left) = struck(text::lines(note), normals(texts));
    if left.len() > 0 {
        None
    } else {
        Some(appended(unlined(kept), replacement))
    }
}

fn unline(lines: &Vec<&[char]>) -> (r: String)
    ensures
        r@ == unlined(text::runs(lines@)),
{
    let n: usize = lines.len();
    assert(text::runs(lines@).subrange(0, n as int) =~= text::runs(lines@));
    let mut r = text::joined_runs(lines, 0, n, "\n");
    r.append("\n");
    r
}

fn without_line<'a>(lines: &Vec<&'a [char]>, at: usize) -> (r: Vec<&'a [char]>)
    requires
        at < lines.len(),
    ensures
        text::runs(r@) == text::runs(lines@).remove(at as int),
{
    let mut r: Vec<&'a [char]> = Vec::new();
    let ghost all = text::runs(lines@);
    let mut i: usize = 0;
    while i < lines.len()
        invariant
            0 <= i <= lines.len(),
            at < lines.len(),
            all == text::runs(lines@),
            r.len() == if i <= at {
                i as int
            } else {
                i - 1
            },
            forall|j: int|
                0 <= j < r.len() ==> (#[trigger] r[j])@ == if j < at {
                    all[j]
                } else {
                    all[j + 1]
                },
        decreases lines.len() - i,
    {
        if i != at {
            r.push(lines[i]);
        }
        i = i + 1;
    }
    assert(text::runs(r@) =~= all.remove(at as int));
    r
}

fn normal_line(line: &[char]) -> (r: Option<String>)
    ensures
        match r {
            Some(s) => is_marked(line@) && s@ == normal(said(line@)),
            None => !is_marked(line@),
        },
{
    let whole = text::string_of(line);
    if is_familiars(whole.as_str()) {
        let text = text_of(whole.as_str());
        Some(normalise(text.as_str()))
    } else {
        None
    }
}

fn find_saying(lines: &Vec<&[char]>, wanted: &str) -> (r: Option<usize>)
    ensures
        match r {
            Some(at) => at < lines.len() && line_saying(text::runs(lines@), wanted@, 0) == at,
            None => line_saying(text::runs(lines@), wanted@, 0) == -1,
        },
{
    let ghost all = text::runs(lines@);
    let mut i: usize = 0;
    while i < lines.len()
        invariant
            0 <= i <= lines.len(),
            all == text::runs(lines@),
            line_saying(all, wanted@, 0) == line_saying(all, wanted@, i as int),
        decreases lines.len() - i,
    {
        assert(all[i as int] == lines@[i as int]@);
        if let Some(text) = normal_line(lines[i]) {
            if text::same(text.as_str(), wanted) {
                return Some(i);
            }
        }
        i = i + 1;
    }
    None
}

/// Drops the first line that the assistant wrote and that mentions something,
/// and returns what is left with what the line said.
pub fn forget_line(note: &str, matching: &str) -> (r: Option<(String, String)>)
    ensures
        match r {
            Some((left, gone)) => forgotten(note@, matching@) == Some((left@, gone@)),
            None => forgotten(note@, matching@) is None,
        },
{
    let wanted = normalise(matching);
    let any = text::chars_of(wanted.as_str()).len() == 0;
    let chars = text::chars_of(note);
    let lines = text::lines_of(chars.as_slice());
    let ghost all = text::runs(lines@);
    let mut i: usize = 0;
    while i < lines.len()
        invariant
            0 <= i <= lines.len(),
            all == text::runs(lines@),
            all == text::lines(note@),
            wanted@ == normal(matching@),
            any == (wanted@.len() == 0),
            line_mentioning(all, wanted@, 0) == line_mentioning(all, wanted@, i as int),
        decreases lines.len() - i,
    {
        assert(all[i as int] == lines@[i as int]@);
        if let Some(held) = normal_line(lines[i]) {
            let held_chars = text::chars_of(held.as_str());
            if any || text::contains(held_chars.as_slice(), wanted.as_str()) {
                let whole = text::string_of(lines[i]);
                let gone = text_of(whole.as_str());
                let kept = without_line(&lines, i);
                return Some((unline(&kept), gone));
            }
        }
        i = i + 1;
    }
    None
}

/// Removes the one line whose text is exactly this, normalised.
pub fn remove_exact(note: &str, text: &str) -> (r: Option<String>)
    ensures
        match r {
            Some(left) => cleared(note@, text@) == Some(left@),
            None => cleared(note@, text@) is None,
        },
{
    let wanted = normalise(text);
    let chars = text::chars_of(note);
    let lines = text::lines_of(chars.as_slice());
    match find_saying(&lines, wanted.as_str()) {
        Some(at) => {
            let kept = without_line(&lines, at);
            Some(unline(&kept))
        },
        None => None,
    }
}

/// Rewrites one line's kind, keeping its text and the day it was saved.
pub fn restamp_line(note: &str, text: &str, to: Kind) -> (r: Option<String>)
    ensures
        match r {
            Some(left) => refiled(note@, text@, to) == Some(left@),
            None => refiled(note@, text@, to) is None,
        },
        r is Some ==> ({
            let lines = text::lines(note@);
            let at = line_saying(lines, normal(text@), 0);
            &&& shown((r->0)@) == showing(lines.update(at, restamped(lines[at], to)))
            &&& is_marked(restamped(lines[at], to)) ==> yours((r->0)@) == yours(note@)
        }),
{
    let wanted = normalise(text);
    let chars = text::chars_of(note);
    let lines = text::lines_of(chars.as_slice());
    let ghost all = text::runs(lines@);
    match find_saying(&lines, wanted.as_str()) {
        Some(at) => {
            let whole = text::string_of(lines[at]);
            assert(all[at as int] == lines@[at as int]@);
            let changed = observation::restamp(whole.as_str(), to);
            let changed_chars = text::chars_of(changed.as_str());
            let mut rewritten = lines;
            rewritten.set(at, changed_chars.as_slice());
            assert(text::runs(rewritten@) =~= all.update(at as int, changed@));
            proof {
                refiling_changes_only_its_own(note@, text@, to);
            }
            Some(unline(&rewritten))
        },
        None => None,
    }
}

fn find_text(list: &Vec<String>, wanted: &str) -> (r: Option<usize>)
    ensures
        match r {
            Some(at) => at < list.len() && place_of(text::texts(list@), wanted@, 0) == at,
            None => place_of(text::texts(list@), wanted@, 0) == -1,
        },
{
    let ghost all = text::texts(list@);
    let mut i: usize = 0;
    while i < list.len()
        invariant
            0 <= i <= list.len(),
            all == text::texts(list@),
            place_of(all, wanted@, 0) == place_of(all, wanted@, i as int),
        decreases list.len() - i,
    {
        if text::same(list[i].as_str(), wanted) {
            return Some(i);
        }
        i = i + 1;
    }
    None
}

/// Replaces several lines of a note with one sentence. The originals are struck
/// from the text that exists, and the replacement is added afterwards to text
/// that no longer contains them.
pub fn merge_lines(note: &str, texts: &Vec<String>, into: &str, kind: Kind, now: Stamp) -> (r:
    Option<String>)
    requires
        now.dated(),
    ensures
        match r {
            Some(left) => merged(
                note@,
                text::texts(texts@),
                rendered(into@, kind, None, strftime(now.seconds as int, "%Y-%m-%d"@)),
            ) == Some(left@),
            None => merged(
                note@,
                text::texts(texts@),
                rendered(into@, kind, None, strftime(now.seconds as int, "%Y-%m-%d"@)),
            ) is None,
        },
        r is Some ==> is_date_text(strftime(now.seconds as int, "%Y-%m-%d"@)),
        r is Some && !text::trim(into@).contains('\n') ==> yours((r->0)@) == yours(note@),
{
    let mut wanted: Vec<String> = Vec::new();
    let ghost targets = normals(text::texts(texts@));
    let mut k: usize = 0;
    while k < texts.len()
        invariant
            0 <= k <= texts.len(),
            targets == normals(text::texts(texts@)),
            text::texts(wanted@) == targets.take(k as int),
        decreases texts.len() - k,
    {
        let ghost before = text::texts(wanted@);
        let one = normalise(texts[k].as_str());
        wanted.push(one);
        assert(text::texts(wanted@) =~= before.push(one@));
        assert(targets.take(k + 1) =~= targets.take(k as int).push(targets[k as int]));
        k = k + 1;
    }
    assert(targets.take(targets.len() as int) =~= targets);
    let chars = text::chars_of(note);
    let lines = text::lines_of(chars.as_slice());
    let ghost all = text::runs(lines@);
    let mut kept: Vec<&[char]> = Vec::new();
    let mut i: usize = 0;
    assert(text::runs(kept@) =~= Seq::empty());
    while i < lines.len()
        invariant
            0 <= i <= lines.len(),
            all == text::runs(lines@),
            struck(all.take(i as int), targets) == (text::runs(kept@), text::texts(wanted@)),
        decreases lines.len() - i,
    {
        let ghost before = text::runs(kept@);
        let ghost left = text::texts(wanted@);
        proof {
            assert(all.take(i + 1).drop_last() =~= all.take(i as int));
            assert(all.take(i + 1).last() == lines@[i as int]@);
        }
        let mut goes: Option<usize> = None;
        if let Some(text) = normal_line(lines[i]) {
            goes = find_text(&wanted, text.as_str());
        }
        match goes {
            Some(at) => {
                wanted.remove(at);
                assert(text::texts(wanted@) =~= left.remove(at as int));
            },
            None => {
                kept.push(lines[i]);
                assert(text::runs(kept@) =~= before.push(lines@[i as int]@));
            },
        }
        i = i + 1;
    }
    assert(all.take(all.len() as int) =~= all);
    if wanted.len() > 0 {
        return None;
    }
    let replacement = observation::render(into, kind, None, now);
    let rest = unline(&kept);
    proof {
        if !text::trim(into@).contains('\n') {
            lemma_replacement(into@, kind, strftime(now.seconds as int, "%Y-%m-%d"@));
            merging_keeps_what_you_wrote(note@, text::texts(texts@), replacement@);
        }
    }
    Some(append_under_heading(rest.as_str(), replacement.as_str()))
}

// ---------------------------------------------------------------------------
// Reading
// ---------------------------------------------------------------------------

/// The lines of a note outside the assistant's own section, which runs until the
/// next heading.
pub open spec fn own_words(lines: Seq<Seq<char>>, i: int, inside: bool) -> Seq<Seq<char>>
    decreases lines.len() - i,
{
    if i < 0 || i >= lines.len() {
        Seq::empty()
    } else if text::starts(text::trim_start(lines[i]), HEADING@) {
        own_words(lines, i + 1, true)
    } else if inside && !text::starts(lines[i], "## "@) {
        own_words(lines, i + 1, true)
    } else {
        seq![lines[i]] + own_words(lines, i + 1, false)
    }
}

/// A note with the assistant's own section taken out.
pub fn prose(note: &str) -> (r: String)
    ensures
        r@ == text::join(own_words(text::lines(note@), 0, false), "\n"@),
{
    let chars = text::chars_of(note);
    let lines = text::lines_of(chars.as_slice());
    let ghost all = text::runs(lines@);
    let mut kept: Vec<&[char]> = Vec::new();
    let mut inside = false;
    let mut i: usize = 0;
    assert(text::runs(kept@) + own_words(all, 0, false) =~= own_words(all, 0, false));
    while i < lines.len()
        invariant
            0 <= i <= lines.len(),
            all == text::runs(lines@),
            own_words(all, 0, false) == text::runs(kept@) + own_words(all, i as int, inside),
        decreases lines.len() - i,
    {
        assert(all[i as int] == lines@[i as int]@);
        let ghost before = text::runs(kept@);
        if text::begins(text::trimmed_start(lines[i]), HEADING) {
            inside = true;
        } else if !(inside && !text::begins(lines[i], "## ")) {
            inside = false;
            kept.push(lines[i]);
            proof {
                let rest = own_words(all, i + 1, false);
                assert(text::runs(kept@) =~= before.push(all[i as int]));
                assert(before + (seq![all[i as int]] + rest) =~= before.push(all[i as int]) + rest);
            }
        }
        i = i + 1;
    }
    assert(text::runs(kept@) + Seq::<Seq<char>>::empty() =~= text::runs(kept@));
    let n: usize = kept.len();
    assert(text::runs(kept@).subrange(0, n as int) =~= text::runs(kept@));
    text::joined_runs(&kept, 0, n, "\n")
}

/// The first line from `i` on that is not blank and no heading, trimmed; empty
/// where there is none.
pub open spec fn opening_line(lines: Seq<Seq<char>>, i: int) -> Seq<char>
    decreases lines.len() - i,
{
    if i < 0 || i >= lines.len() {
        Seq::empty()
    } else {
        let t = text::trim(lines[i]);
        if t.len() > 0 && t[0] != '#' {
            t
        } else {
            opening_line(lines, i + 1)
        }
    }
}

/// Where the first sentence of a line ends, and no further than a summary may
/// go.
pub open spec fn sentence_end(line: Seq<char>) -> int {
    let stop = text::index_of(line, ". "@, 0);
    let end = if stop < 0 {
        line.len() as int
    } else {
        stop + 1
    };
    if end < LIMIT {
        end
    } else {
        LIMIT as int
    }
}

/// The first sentence of a line, with an ellipsis where there is more.
pub open spec fn summary(line: Seq<char>) -> Seq<char> {
    let end = sentence_end(line);
    text::trim(
        if end < line.len() {
            line.take(end).push('…')
        } else {
            line
        },
    )
}

fn summarise(line: &[char]) -> (r: String)
    ensures
        r@ == summary(line@),
{
    let end: usize = match text::index(line, ". ", 0) {
        Some(at) => {
            proof {
                reveal_strlit(". ");
            }
            at + 1
        },
        None => line.len(),
    };
    let cut: usize = if end < LIMIT {
        end
    } else {
        LIMIT
    };
    if cut < line.len() {
        let mut out = text::string_of(slice_subrange(line, 0, cut));
        assert(out@ =~= line@.take(cut as int));
        out.push('…');
        let shown = text::chars_of(out.as_str());
        text::string_of(text::trimmed(shown.as_slice()))
    } else {
        text::string_of(text::trimmed(line))
    }
}

/// The first sentence of a note, for a one-line summary.
pub fn first_sentence(note: &str) -> (r: String)
    ensures
        r@ == summary(opening_line(text::lines(note@), 0)),
{
    let chars = text::chars_of(note);
    let lines = text::lines_of(chars.as_slice());
    let ghost all = text::runs(lines@);
    let mut i: usize = 0;
    while i < lines.len()
        invariant
            0 <= i <= lines.len(),
            all == text::runs(lines@),
            all == text::lines(note@),
            opening_line(all, 0) == opening_line(all, i as int),
        decreases lines.len() - i,
    {
        assert(all[i as int] == lines@[i as int]@);
        let t = text::trimmed(lines[i]);
        if t.len() > 0 && t[0] != '#' {
            return summarise(t);
        }
        i = i + 1;
    }
    let none: Vec<char> = Vec::new();
    assert(opening_line(all, 0) =~= none@);
    summarise(none.as_slice())
}

/// Characters that no file name may have.
pub open spec fn is_forbidden(c: char) -> bool {
    c == '/' || c == '\\' || c == ':' || c == '*' || c == '?' || c == '"' || c == '<' || c == '>'
        || c == '|'
}

/// A text with a hyphen in place of each of those.
pub open spec fn cleaned(s: Seq<char>) -> Seq<char> {
    Seq::new(
        s.len(),
        |i: int|
            if is_forbidden(s[i]) {
                '-'
            } else {
                s[i]
            },
    )
}

/// A text without the full stops in front of it.
pub open spec fn undotted_front(s: Seq<char>) -> Seq<char>
    decreases s.len(),
{
    if s.len() > 0 && s[0] == '.' {
        undotted_front(s.skip(1))
    } else {
        s
    }
}

/// A subject as a file name.
pub open spec fn file_name(subject: Seq<char>) -> Seq<char> {
    text::without_trailing(undotted_front(text::trim(cleaned(subject))), '.')
}

/// A subject as a file name. A subject with a slash in it would otherwise become
/// a folder nobody asked for.
pub fn sanitize(subject: &str) -> (r: String)
    ensures
        r@ == file_name(subject@),
{
    let chars = text::chars_of(subject);
    let mut clean: Vec<char> = Vec::new();
    let mut i: usize = 0;
    assert(clean@ =~= cleaned(subject@.take(0)));
    while i < chars.len()
        invariant
            0 <= i <= chars.len(),
            chars@ == subject@,
            clean@ == cleaned(subject@.take(i as int)),
        decreases chars.len() - i,
    {
        let c = chars[i];
        if c == '/' || c == '\\' || c == ':' || c == '*' || c == '?' || c == '"' || c == '<' || c
            == '>' || c == '|' {
            clean.push('-');
        } else {
            clean.push(c);
        }
        assert(clean@ =~= cleaned(subject@.take(i + 1)));
        i = i + 1;
    }
    assert(subject@.take(subject@.len() as int) =~= subject@);
    let trimmed = text::trimmed(clean.as_slice());
    let mut rest = trimmed;
    while rest.len() > 0 && rest[0] == '.'
        invariant
            undotted_front(trimmed@) == undotted_front(rest@),
        decreases rest.len(),
    {
        let ghost before = rest@;
        rest = slice_subrange(rest, 1, rest.len());
        assert(rest@ =~= before.skip(1));
    }
    text::string_of(text::trailing_off(rest, '.'))
}

/// Where a note about a subject goes that has none.
pub open spec fn new_path(subject: Seq<char>) -> Seq<char> {
    FOLDER@ + "/"@ + file_name(subject) + ".md"@
}

/// The note for a subject: the one that already exists anywhere in the vault, or
/// a new one in the assistant's own folder.
pub fn note_for(subject: &str, resolved: Option<&str>) -> (r: String)
    ensures
        r@ == match resolved {
            Some(path) => path@,
            None => new_path(subject@),
        },
{
    match resolved {
        Some(path) => path.to_owned(),
        None => {
            let mut r = FOLDER.to_owned();
            r.append("/");
            let name = sanitize(subject);
            r.append(name.as_str());
            r.append(".md");
            r
        },
    }
}

// ---------------------------------------------------------------------------
// What a person sees of a note
// ---------------------------------------------------------------------------

/// What shows of some lines: those that are not blank, without the white space
/// at their end.
pub open spec fn showing(lines: Seq<Seq<char>>) -> Seq<Seq<char>>
    decreases lines.len(),
{
    if lines.len() == 0 {
        Seq::empty()
    } else if text::trim_end(lines.last()).len() > 0 {
        showing(lines.drop_last()).push(text::trim_end(lines.last()))
    } else {
        showing(lines.drop_last())
    }
}

/// What shows of a text.
pub open spec fn shown(s: Seq<char>) -> Seq<Seq<char>> {
    showing(text::split(s, '\n'))
}

proof fn lemma_showing_joins(a: Seq<Seq<char>>, b: Seq<Seq<char>>)
    ensures
        showing(a + b) == showing(a) + showing(b),
    decreases b.len(),
{
    if b.len() == 0 {
        assert(a + b =~= a);
        assert(showing(a) + showing(b) =~= showing(a));
    } else {
        assert((a + b).drop_last() =~= a + b.drop_last());
        lemma_showing_joins(a, b.drop_last());
        let last = text::trim_end(b.last());
        if last.len() > 0 {
            assert(showing(a) + showing(b.drop_last()).push(last) =~= (showing(a) + showing(
                b.drop_last(),
            )).push(last));
        }
    }
}

proof fn lemma_split_joins(a: Seq<char>, b: Seq<char>)
    ensures
        text::split(a + seq!['\n'] + b, '\n') == text::split(a, '\n') + text::split(b, '\n'),
    decreases a.len(),
{
    let s = a + seq!['\n'] + b;
    let n = text::next(a, '\n', 0);
    text::lemma_next(a, '\n', 0);
    if n < a.len() {
        text::lemma_next_is(s, '\n', 0, n);
        assert(s.take(n) =~= a.take(n));
        assert(s.skip(n + 1) =~= a.skip(n + 1) + seq!['\n'] + b);
        lemma_split_joins(a.skip(n + 1), b);
        assert(seq![a.take(n)] + (text::split(a.skip(n + 1), '\n') + text::split(b, '\n')) =~= (
        seq![a.take(n)] + text::split(a.skip(n + 1), '\n')) + text::split(b, '\n'));
    } else {
        let k = a.len() as int;
        text::lemma_next_is(s, '\n', 0, k);
        assert(s.take(k) =~= a);
        assert(s.skip(k + 1) =~= b);
    }
}

/// What shows of two texts with a newline between them.
proof fn lemma_shown_joins(a: Seq<char>, b: Seq<char>)
    ensures
        shown(a + seq!['\n'] + b) == shown(a) + shown(b),
{
    lemma_split_joins(a, b);
    lemma_showing_joins(text::split(a, '\n'), text::split(b, '\n'));
}

proof fn lemma_split_push(s: Seq<char>, c: char)
    requires
        c != '\n',
    ensures
        text::split(s, '\n').len() > 0,
        text::split(s.push(c), '\n') == text::split(s, '\n').drop_last().push(
            text::split(s, '\n').last().push(c),
        ),
    decreases s.len(),
{
    let t = s.push(c);
    let n = text::next(s, '\n', 0);
    text::lemma_next(s, '\n', 0);
    if n < s.len() {
        text::lemma_next_is(t, '\n', 0, n);
        assert(t.take(n) =~= s.take(n));
        assert(t.skip(n + 1) =~= s.skip(n + 1).push(c));
        lemma_split_push(s.skip(n + 1), c);
        let rest = text::split(s.skip(n + 1), '\n');
        let all = text::split(s, '\n');
        assert(all.last() == rest.last());
        assert(all.drop_last() =~= seq![s.take(n)] + rest.drop_last());
        assert(text::split(t, '\n') =~= all.drop_last().push(all.last().push(c)));
    } else {
        text::lemma_next(t, '\n', 0);
        let m = text::next(t, '\n', 0);
        if m < t.len() {
            if m < s.len() {
                assert(t[m] == s[m]);
            }
        }
        assert(text::split(t, '\n') =~= text::split(s, '\n').drop_last().push(s.push(c)));
    }
}

/// White space behind a text does not show.
proof fn lemma_shown_tail(s: Seq<char>, blank: Seq<char>)
    requires
        text::is_blank(blank),
    ensures
        shown(s + blank) == shown(s),
    decreases blank.len(),
{
    if blank.len() == 0 {
        assert(s + blank =~= s);
    } else {
        let rest = blank.drop_last();
        lemma_shown_tail(s, rest);
        let t = s + rest;
        let c = blank.last();
        assert(s + blank =~= t.push(c));
        if c == '\n' {
            let none = Seq::<char>::empty();
            assert(t.push(c) =~= t + seq!['\n'] + none);
            lemma_shown_joins(t, none);
            lemma_shown_none();
            assert(shown(t) + Seq::<Seq<char>>::empty() =~= shown(t));
        } else {
            lemma_split_push(t, c);
            let all = text::split(t, '\n');
            let more = text::split(t.push(c), '\n');
            assert(more.drop_last() =~= all.drop_last());
            assert(all.last().push(c).drop_last() =~= all.last());
            assert(text::trim_end(more.last()) == text::trim_end(all.last()));
        }
    }
}

proof fn lemma_shown_none()
    ensures
        shown(Seq::empty()) == Seq::<Seq<char>>::empty(),
{
    let none = Seq::<char>::empty();
    let all = text::split(none, '\n');
    assert(all =~= seq![none]);
    assert(all.drop_last() =~= Seq::empty());
    assert(showing(all.drop_last()) =~= Seq::empty());
}

/// What shows of one line.
proof fn lemma_shown_line(line: Seq<char>)
    requires
        !line.contains('\n'),
    ensures
        shown(line) == showing(seq![line]),
{
    text::lemma_next(line, '\n', 0);
    let n = text::next(line, '\n', 0);
    if n < line.len() {
        assert(line[n] == '\n');
    }
}

/// What shows of a text shows of its lines.
proof fn lemma_shown_lines(s: Seq<char>)
    ensures
        showing(text::lines(s)) == shown(s),
        forall|i: int|
            0 <= i < text::lines(s).len() ==> !(#[trigger] text::lines(s)[i]).contains('\n'),
    decreases s.len(),
{
    let n = text::next(s, '\n', 0);
    text::lemma_next(s, '\n', 0);
    if s.len() == 0 {
        lemma_shown_none();
        assert(s =~= Seq::empty());
        assert(showing(text::lines(s)) =~= Seq::empty());
    } else if n < s.len() {
        let line = s.take(n);
        let rest = s.skip(n + 1);
        lemma_shown_lines(rest);
        lemma_shown_joins(line, rest);
        assert(s =~= line + seq!['\n'] + rest);
        assert(!line.contains('\n')) by {
            if line.contains('\n') {
                let i = choose|i: int| 0 <= i < line.len() && line[i] == '\n';
                assert(s[i] == '\n');
            }
        }
        let clean = text::without_return(line);
        assert(!clean.contains('\n')) by {
            if clean.contains('\n') {
                let i = choose|i: int| 0 <= i < clean.len() && clean[i] == '\n';
                assert(line[i] == '\n');
            }
        }
        lemma_shown_line(line);
        lemma_showing_joins(seq![clean], text::lines(rest));
        assert(showing(seq![clean]) == showing(seq![line])) by {
            assert(seq![clean].drop_last() =~= Seq::<Seq<char>>::empty());
            assert(seq![line].drop_last() =~= Seq::<Seq<char>>::empty());
            if clean != line {
                assert(line.drop_last() =~= clean);
                assert(text::trim_end(line) == text::trim_end(clean));
            }
        }
        let all = text::lines(s);
        assert forall|i: int| 0 <= i < all.len() implies !(#[trigger] all[i]).contains('\n') by {
            if i > 0 {
                assert(all[i] == text::lines(rest)[i - 1]);
            }
        }
    } else {
        assert(!s.contains('\n')) by {
            if s.contains('\n') {
                let i = choose|i: int| 0 <= i < s.len() && s[i] == '\n';
                assert(s[i] != '\n');
            }
        }
        lemma_shown_line(s);
    }
}

/// What shows of lines that have their newlines, and of what follows them.
proof fn lemma_shown_ended(lines: Seq<Seq<char>>, rest: Seq<char>)
    requires
        forall|i: int| 0 <= i < lines.len() ==> !(#[trigger] lines[i]).contains('\n'),
    ensures
        shown(ended(lines) + rest) == showing(lines) + shown(rest),
    decreases lines.len(),
{
    reveal_strlit("\n");
    assert("\n"@ =~= seq!['\n']);
    if lines.len() == 0 {
        assert(ended(lines) + rest =~= rest);
        assert(showing(lines) + shown(rest) =~= shown(rest));
    } else {
        let before = lines.drop_last();
        let line = lines.last();
        let tail = line + seq!['\n'] + rest;
        assert(ended(lines) + rest =~= ended(before) + tail);
        lemma_shown_ended(before, tail);
        lemma_shown_joins(line, rest);
        lemma_shown_line(line);
        lemma_showing_joins(before, seq![line]);
        assert(before + seq![line] =~= lines);
        assert(showing(before) + (showing(seq![line]) + shown(rest)) =~= (showing(before)
            + showing(seq![line])) + shown(rest));
    }
}

proof fn lemma_joined_ended(lines: Seq<Seq<char>>)
    requires
        lines.len() > 0,
    ensures
        unlined(lines) == ended(lines),
    decreases lines.len(),
{
    reveal_strlit("\n");
    let before = lines.drop_last();
    if lines.len() == 1 {
        assert(ended(before) =~= Seq::empty());
        assert(unlined(lines) =~= ended(lines));
    } else {
        lemma_joined_ended(before);
        assert(unlined(lines) =~= ended(lines));
    }
}

/// What shows of lines that are put together again.
proof fn lemma_shown_unlined(lines: Seq<Seq<char>>)
    requires
        forall|i: int| 0 <= i < lines.len() ==> !(#[trigger] lines[i]).contains('\n'),
    ensures
        shown(unlined(lines)) == showing(lines),
{
    reveal_strlit("\n");
    let none = Seq::<char>::empty();
    lemma_shown_none();
    if lines.len() > 0 {
        lemma_joined_ended(lines);
        lemma_shown_ended(lines, none);
        assert(ended(lines) + none =~= ended(lines));
        assert(showing(lines) + Seq::<Seq<char>>::empty() =~= showing(lines));
    } else {
        lemma_shown_tail(none, "\n"@);
        assert(unlined(lines) =~= none + "\n"@);
    }
}

proof fn lemma_blank_end(lines: Seq<Seq<char>>)
    ensures
        showing(without_blank_end(lines)) == showing(lines),
        without_blank_end(lines).len() <= lines.len(),
        without_blank_end(lines) == lines.take(without_blank_end(lines).len() as int),
    decreases lines.len(),
{
    if lines.len() > 0 && text::trim(lines.last()).len() == 0 {
        let rest = lines.drop_last();
        lemma_blank_end(rest);
        assert(without_blank_end(lines) =~= lines.take(without_blank_end(lines).len() as int));
        lemma_blank_line(lines.last());
    } else {
        assert(lines.take(lines.len() as int) =~= lines);
    }
}

proof fn lemma_blank_line(line: Seq<char>)
    requires
        text::trim(line).len() == 0,
    ensures
        text::trim_end(line).len() == 0,
{
    text::lemma_trim_start(line);
    text::lemma_trim_end(text::trim_start(line));
    text::lemma_trim_end(line);
    let t = text::trim_start(line);
    let e = text::trim_end(line);
    if e.len() > 0 {
        let i = e.len() - 1;
        assert(!text::is_space(line[i]));
        let k = line.len() - t.len();
        if i < k {
            assert(text::is_space(line[i]));
        } else {
            assert(t[i - k] == line[i]);
            assert(text::is_space(t[i - k]));
        }
    }
}

proof fn lemma_shown_heading(before: Seq<char>, rest: Seq<char>)
    requires
        rest.len() > 0,
    ensures
        ({
            let lines = text::lines(rest);
            &&& lines.len() > 0
            &&& shown(before + rest) == shown(before + lines[0]) + showing(lines.skip(1))
        }),
{
    let lines = text::lines(rest);
    let n = text::next(rest, '\n', 0);
    text::lemma_next(rest, '\n', 0);
    if n < rest.len() {
        let piece = rest.take(n);
        let after = rest.skip(n + 1);
        let clean = text::without_return(piece);
        assert(before + rest =~= (before + piece) + seq!['\n'] + after);
        lemma_shown_joins(before + piece, after);
        lemma_shown_lines(after);
        assert(lines.skip(1) =~= text::lines(after));
        let blank = piece.skip(clean.len() as int);
        assert(before + piece =~= (before + clean) + blank);
        lemma_shown_tail(before + clean, blank);
    } else {
        assert(lines =~= seq![rest]);
        assert(lines.skip(1) =~= Seq::empty());
        assert(shown(before + rest) + Seq::<Seq<char>>::empty() =~= shown(before + rest));
    }
}

/// A line that is put under the heading is one of the note's lines.
pub proof fn lemma_appended_line(note: Seq<char>, line: Seq<char>)
    requires
        !line.contains('\n'),
        text::without_return(line) == line,
    ensures
        text::lines(appended(note, line)).contains(line),
{
    reveal_strlit("\n");
    let gap = seq!['\n'];
    assert("\n"@ =~= gap);
    let at = text::index_of(note, HEADING@, 0);
    let whole = appended(note, line);
    if at >= 0 {
        let rest = text::lines(note.skip(at));
        let tail = rest.skip(1);
        let end = section_end(tail, 0);
        let kept_lines = without_blank_end(tail.take(end));
        let behind = text::given(end < tail.len(), "\n"@ + text::join(tail.skip(end), "\n"@) + "\n"@);
        if kept_lines.len() == 0 {
            assert(ended(kept_lines) =~= Seq::empty());
            let front = note.take(at) + rest[0];
            assert(whole =~= front + gap + line + gap + behind);
            lemma_line_between(front, line, behind);
        } else {
            let front = note.take(at) + rest[0] + gap + ended(kept_lines.drop_last())
                + kept_lines.last();
            assert(ended(kept_lines) =~= ended(kept_lines.drop_last()) + kept_lines.last() + gap);
            assert(whole =~= front + gap + line + gap + behind);
            lemma_line_between(front, line, behind);
        }
    } else {
        let front = text::trim_end(note) + text::given(text::trim_end(note).len() > 0, "\n\n"@)
            + HEADING@;
        let none = Seq::<char>::empty();
        assert(whole =~= front + gap + line + gap + none);
        lemma_line_between(front, line, none);
    }
}

proof fn lemma_line_between(front: Seq<char>, line: Seq<char>, behind: Seq<char>)
    requires
        !line.contains('\n'),
        text::without_return(line) == line,
    ensures
        text::lines(front + seq!['\n'] + line + seq!['\n'] + behind).contains(line),
{
    let gap = seq!['\n'];
    let rest = line + gap + behind;
    assert(front + gap + line + gap + behind =~= front + gap + rest);
    text::lemma_lines_break(front, rest);
    text::lemma_lines_break(line, behind);
    text::lemma_one_line(line);
    let before = text::lines(front + gap);
    assert(text::lines(front + gap + rest)[before.len() as int] == line);
}

/// Appending adds a line and takes nothing away: everything that showed of a
/// note still shows, in the same order, with the new line somewhere among it;
/// where there was no heading, the heading and the line come last.
pub proof fn appending_keeps_everything(note: Seq<char>, line: Seq<char>)
    requires
        !line.contains('\n'),
    ensures
        text::index_of(note, HEADING@, 0) < 0 ==> shown(appended(note, line)) == shown(note)
            + shown(HEADING@) + shown(line),
        text::index_of(note, HEADING@, 0) >= 0 ==> exists|k: int|
            0 <= k <= shown(note).len() && shown(appended(note, line)) == #[trigger] shown(
                note,
            ).take(k) + shown(line) + shown(note).skip(k),
{
    reveal_strlit("\n");
    reveal_strlit("\n\n");
    reveal_strlit("## Noted by Familiar");
    let gap = seq!['\n'];
    assert("\n"@ =~= gap);
    let none = Seq::<char>::empty();
    let nothing = Seq::<Seq<char>>::empty();
    lemma_shown_none();
    let at = text::index_of(note, HEADING@, 0);
    text::lemma_index_of(note, HEADING@, 0);
    if at >= 0 {
        let before = note.take(at);
        let rest = note.skip(at);
        assert(note =~= before + rest);
        lemma_shown_heading(before, rest);
        lemma_shown_lines(rest);
        let lines = text::lines(rest);
        let tail = lines.skip(1);
        let end = section_end(tail, 0);
        lemma_section_end(tail, 0);
        let section = tail.take(end);
        let after = tail.skip(end);
        assert(section + after =~= tail);
        lemma_showing_joins(section, after);
        lemma_blank_end(section);
        let kept = without_blank_end(section);
        assert forall|i: int| 0 <= i < kept.len() implies !(#[trigger] kept[i]).contains('\n') by {
            assert(kept[i] == lines[i + 1]);
        }
        let more = text::given(end < tail.len(), gap + text::join(after, "\n"@) + gap);
        assert(shown(more) == showing(after)) by {
            if end < tail.len() {
                assert forall|i: int| 0 <= i < after.len() implies !(
                #[trigger] after[i]).contains('\n') by {
                    assert(after[i] == lines[end + i + 1]);
                }
                lemma_shown_unlined(after);
                lemma_shown_joins(none, unlined(after));
                assert(more =~= none + gap + unlined(after));
                assert(nothing + showing(after) =~= showing(after));
            } else {
                assert(after =~= nothing);
            }
        }
        let closing = line + gap + more;
        lemma_shown_joins(line, more);
        lemma_shown_ended(kept, closing);
        let top = before + lines[0];
        lemma_shown_joins(top, ended(kept) + closing);
        let r = appended(note, line);
        assert(r =~= top + gap + (ended(kept) + closing));
        let k = shown(top).len() + showing(section).len();
        let all = shown(note);
        assert(all =~= shown(top) + showing(section) + showing(after));
        assert(all.take(k as int) =~= shown(top) + showing(section));
        assert(all.skip(k as int) =~= showing(after));
        assert(shown(r) =~= all.take(k as int) + shown(line) + all.skip(k as int));
    } else {
        let trimmed = text::trim_end(note);
        text::lemma_trim_end(note);
        let blank = note.skip(trimmed.len() as int);
        assert(note =~= trimmed + blank);
        assert(text::is_blank(blank)) by {
            assert forall|i: int| 0 <= i < blank.len() implies text::is_space(
                #[trigger] blank[i],
            ) by {
                assert(blank[i] == note[trimmed.len() + i]);
            }
        }
        lemma_shown_tail(trimmed, blank);
        let closing = HEADING@ + gap + (line + gap);
        lemma_shown_joins(HEADING@, line + gap);
        lemma_shown_tail(line, gap);
        let r = appended(note, line);
        if trimmed.len() > 0 {
            assert(r =~= (trimmed + gap) + gap + closing);
            lemma_shown_joins(trimmed + gap, closing);
            lemma_shown_tail(trimmed, gap);
        } else {
            assert(trimmed =~= none);
            assert(r =~= closing);
        }
        assert(shown(r) =~= shown(note) + shown(HEADING@) + shown(line));
    }
}

proof fn lemma_first_saying(lines: Seq<Seq<char>>, wanted: Seq<char>, i: int)
    requires
        0 <= i,
    ensures
        line_saying(lines, wanted, i) >= 0 ==> i <= line_saying(lines, wanted, i) < lines.len()
            && is_marked(lines[line_saying(lines, wanted, i)]),
    decreases lines.len() - i,
{
    if i < lines.len() && !says(lines[i], wanted) {
        lemma_first_saying(lines, wanted, i + 1);
    }
}

proof fn lemma_first_mentioning(lines: Seq<Seq<char>>, wanted: Seq<char>, i: int)
    requires
        0 <= i,
    ensures
        line_mentioning(lines, wanted, i) >= 0 ==> i <= line_mentioning(lines, wanted, i)
            < lines.len() && is_marked(lines[line_mentioning(lines, wanted, i)]),
    decreases lines.len() - i,
{
    if i < lines.len() && !mentions(lines[i], wanted) {
        lemma_first_mentioning(lines, wanted, i + 1);
    }
}

/// Whether a text shows what some lines show without one of them that the
/// assistant wrote.
pub open spec fn lacks_one_of_its_own(left: Seq<char>, lines: Seq<Seq<char>>) -> bool {
    exists|at: int|
        0 <= at < lines.len() && is_marked(#[trigger] lines[at]) && shown(left) == showing(
            lines.remove(at),
        )
}

/// Forgetting takes out one line, and only one that the assistant wrote:
/// everything else that showed of the note still does.
pub proof fn forgetting_takes_only_its_own(note: Seq<char>, matching: Seq<char>)
    ensures
        match forgotten(note, matching) {
            Some((left, gone)) => lacks_one_of_its_own(left, text::lines(note)),
            None => true,
        },
        match cleared(note, matching) {
            Some(left) => lacks_one_of_its_own(left, text::lines(note)),
            None => true,
        },
{
    let lines = text::lines(note);
    lemma_shown_lines(note);
    let a = line_mentioning(lines, normal(matching), 0);
    lemma_first_mentioning(lines, normal(matching), 0);
    if a >= 0 {
        lemma_shown_without(lines, a);
        assert(is_marked(lines[a]));
    }
    let b = line_saying(lines, normal(matching), 0);
    lemma_first_saying(lines, normal(matching), 0);
    if b >= 0 {
        lemma_shown_without(lines, b);
        assert(is_marked(lines[b]));
    }
}

proof fn lemma_shown_without(lines: Seq<Seq<char>>, at: int)
    requires
        0 <= at < lines.len(),
        forall|i: int| 0 <= i < lines.len() ==> !(#[trigger] lines[i]).contains('\n'),
    ensures
        shown(unlined(lines.remove(at))) == showing(lines.remove(at)),
{
    let rest = lines.remove(at);
    assert forall|i: int| 0 <= i < rest.len() implies !(#[trigger] rest[i]).contains('\n') by {
        if i < at {
            assert(rest[i] == lines[i]);
        } else {
            assert(rest[i] == lines[i + 1]);
        }
    }
    lemma_shown_unlined(rest);
}

/// The lines that the assistant did not write.
pub open spec fn others(lines: Seq<Seq<char>>) -> Seq<Seq<char>> {
    kept(lines, |line: Seq<char>| !is_marked(line))
}

/// Striking lines out for a merge leaves every line alone that the assistant did
/// not write, and takes out one line for each sentence that it strikes off.
pub proof fn merging_takes_only_its_own(lines: Seq<Seq<char>>, wanted: Seq<Seq<char>>)
    ensures
        others(struck(lines, wanted).0) == others(lines),
        struck(lines, wanted).0.len() + wanted.len() == lines.len() + struck(lines, wanted).1.len(),
    decreases lines.len(),
{
    if lines.len() > 0 {
        let before = lines.drop_last();
        merging_takes_only_its_own(before, wanted);
        let (kept, left) = struck(before, wanted);
        let line = lines.last();
        let at = place_of(left, normal(said(line)), 0);
        lemma_place(left, normal(said(line)), 0);
        if !(is_marked(line) && at >= 0) {
            assert(kept.push(line).drop_last() =~= kept);
        }
    }
}

proof fn lemma_place(list: Seq<Seq<char>>, wanted: Seq<char>, i: int)
    requires
        0 <= i,
    ensures
        place_of(list, wanted, i) < list.len(),
    decreases list.len() - i,
{
    if i < list.len() && list[i] != wanted {
        lemma_place(list, wanted, i + 1);
    }
}

/// White space behind a line does not change whose it is.
proof fn lemma_marked_end(line: Seq<char>)
    ensures
        is_marked(text::trim_end(line)) == is_marked(line),
    decreases line.len(),
{
    reveal_strlit("- ");
    reveal_strlit("#familiar");
    if line.len() > 0 && text::is_space(line.last()) {
        let before = line.drop_last();
        lemma_marked_end(before);
        let c = line.last();
        let end = seq![c];
        assert(line =~= before + end);
        let t = text::trim_start(before);
        text::lemma_trim_start(before);
        text::lemma_trim_start(line);
        if t.len() > 0 {
            text::lemma_trim_start_front(before, end);
            let u = text::trim_start(line);
            assert(u =~= t.push(c));
            if text::holds(u, TAG@) {
                let at = choose|at: int| text::stands_at(u, TAG@, at);
                if at + TAG@.len() == u.len() {
                    assert(u.subrange(at, at + TAG@.len())[8] == c);
                    assert(TAG@[8] == 'r');
                }
                assert(u.subrange(at, at + TAG@.len()) =~= t.subrange(at, at + TAG@.len()));
                assert(text::stands_at(t, TAG@, at));
                assert(u.take(2) =~= t.take(2));
            }
            if text::holds(t, TAG@) {
                let at = choose|at: int| text::stands_at(t, TAG@, at);
                assert(u.subrange(at, at + TAG@.len()) =~= t.subrange(at, at + TAG@.len()));
                assert(text::stands_at(u, TAG@, at));
                assert(u.take(2) =~= t.take(2));
            }
        } else {
            let u = text::trim_start(line);
            if u.len() > 0 {
                let k = line.len() - u.len();
                assert(u[0] == line[k]);
                if k < before.len() {
                    assert(text::is_space(before[k]));
                }
            }
        }
    }
}

/// Whether a line is one that the user wrote, and not the heading.
pub open spec fn is_yours(line: Seq<char>) -> bool {
    !is_marked(line) && line != HEADING@
}

/// What shows of a text that the user wrote: everything but the lines of the
/// assistant and their heading.
pub open spec fn yours(s: Seq<char>) -> Seq<Seq<char>> {
    kept(shown(s), |line: Seq<char>| is_yours(line))
}

proof fn lemma_kept_joins(a: Seq<Seq<char>>, b: Seq<Seq<char>>)
    ensures
        kept(a + b, |line: Seq<char>| is_yours(line)) == kept(
            a,
            |line: Seq<char>| is_yours(line),
        ) + kept(b, |line: Seq<char>| is_yours(line)),
    decreases b.len(),
{
    let keep = |line: Seq<char>| is_yours(line);
    if b.len() == 0 {
        assert(a + b =~= a);
        assert(kept(a, keep) + kept(b, keep) =~= kept(
            a,
            keep,
        ));
    } else {
        assert((a + b).drop_last() =~= a + b.drop_last());
        lemma_kept_joins(a, b.drop_last());
        assert(kept(a, keep) + kept(b, keep) =~= if keep(b.last()) {
            (kept(a, keep) + kept(b.drop_last(), keep)).push(b.last())
        } else {
            kept(a, keep) + kept(b.drop_last(), keep)
        });
    }
}

/// A line that the assistant wrote shows nothing of the user's.
proof fn lemma_nothing_of_yours(line: Seq<char>)
    requires
        is_marked(line),
    ensures
        kept(showing(seq![line]), |line: Seq<char>| is_yours(line)) == Seq::<
            Seq<char>,
        >::empty(),
{
    let keep = |line: Seq<char>| is_yours(line);
    lemma_marked_end(line);
    let all = seq![line];
    assert(all.drop_last() =~= Seq::empty());
    let end = text::trim_end(line);
    let none = Seq::<Seq<char>>::empty();
    assert(showing(all.drop_last()) =~= none);
    if end.len() > 0 {
        assert(showing(all) =~= seq![end]);
        assert(seq![end].drop_last() =~= none);
        assert(kept(seq![end].drop_last(), keep) =~= none);
        assert(!keep(end));
    } else {
        assert(showing(all) =~= none);
    }
}

/// Taking out a line that the assistant wrote leaves what the user wrote.
proof fn lemma_yours_without(lines: Seq<Seq<char>>, at: int)
    requires
        0 <= at < lines.len(),
        is_marked(lines[at]),
    ensures
        kept(showing(lines.remove(at)), |line: Seq<char>| is_yours(line))
            == kept(showing(lines), |line: Seq<char>| is_yours(line)),
{
    let a = lines.take(at);
    let one = seq![lines[at]];
    let b = lines.skip(at + 1);
    assert(lines =~= (a + one) + b);
    assert(lines.remove(at) =~= a + b);
    lemma_showing_joins(a + one, b);
    lemma_showing_joins(a, one);
    lemma_showing_joins(a, b);
    lemma_kept_joins(showing(a) + showing(one), showing(b));
    lemma_kept_joins(showing(a), showing(one));
    lemma_kept_joins(showing(a), showing(b));
    lemma_nothing_of_yours(lines[at]);
    let keep = |line: Seq<char>| is_yours(line);
    assert(kept(showing(a), keep) + Seq::<Seq<char>>::empty()
        =~= kept(showing(a), keep));
}

/// Striking lines out for a merge leaves what the user wrote.
proof fn lemma_yours_struck(lines: Seq<Seq<char>>, wanted: Seq<Seq<char>>)
    requires
        forall|i: int| 0 <= i < lines.len() ==> !(#[trigger] lines[i]).contains('\n'),
    ensures
        kept(
            showing(struck(lines, wanted).0),
            |line: Seq<char>| is_yours(line),
        ) == kept(showing(lines), |line: Seq<char>| is_yours(line)),
        forall|i: int|
            0 <= i < struck(lines, wanted).0.len() ==> !(#[trigger] struck(
                lines,
                wanted,
            ).0[i]).contains('\n'),
    decreases lines.len(),
{
    if lines.len() > 0 {
        let before = lines.drop_last();
        assert forall|i: int| 0 <= i < before.len() implies !(#[trigger] before[i]).contains(
            '\n',
        ) by {
            assert(before[i] == lines[i]);
        }
        lemma_yours_struck(before, wanted);
        let (left, rest) = struck(before, wanted);
        let line = lines.last();
        assert(!lines[lines.len() - 1].contains('\n'));
        let at = place_of(rest, normal(said(line)), 0);
        if is_marked(line) && at >= 0 {
            assert(lines.remove(lines.len() - 1) =~= before);
            lemma_yours_without(lines, lines.len() - 1);
        } else {
            assert(left.push(line).drop_last() =~= left);
            lemma_kept_joins(showing(left), showing(seq![line]));
            lemma_kept_joins(showing(before), showing(seq![line]));
            lemma_showing_joins(left, seq![line]);
            lemma_showing_joins(before, seq![line]);
            assert(left + seq![line] =~= left.push(line));
            assert(before + seq![line] =~= lines);
        }
    }
}

/// Taking a line out of a note, as forgetting does and as a night does, leaves
/// everything that the user wrote.
pub proof fn forgetting_keeps_what_you_wrote(note: Seq<char>, matching: Seq<char>)
    ensures
        match forgotten(note, matching) {
            Some((left, gone)) => yours(left) == yours(note),
            None => true,
        },
        match cleared(note, matching) {
            Some(left) => yours(left) == yours(note),
            None => true,
        },
{
    let lines = text::lines(note);
    lemma_shown_lines(note);
    let a = line_mentioning(lines, normal(matching), 0);
    lemma_first_mentioning(lines, normal(matching), 0);
    if a >= 0 {
        lemma_shown_without(lines, a);
        lemma_yours_without(lines, a);
    }
    let b = line_saying(lines, normal(matching), 0);
    lemma_first_saying(lines, normal(matching), 0);
    if b >= 0 {
        lemma_shown_without(lines, b);
        lemma_yours_without(lines, b);
    }
}

/// Saving a line in a note leaves everything that the user wrote.
pub proof fn saving_keeps_what_you_wrote(note: Seq<char>, line: Seq<char>)
    requires
        is_marked(line),
        !line.contains('\n'),
    ensures
        yours(appended(note, line)) == yours(note),
{
    let keep = |line: Seq<char>| is_yours(line);
    let nothing = Seq::<Seq<char>>::empty();
    appending_keeps_everything(note, line);
    lemma_shown_line(line);
    lemma_nothing_of_yours(line);
    if text::index_of(note, HEADING@, 0) < 0 {
        lemma_kept_joins(shown(note) + shown(HEADING@), shown(line));
        lemma_kept_joins(shown(note), shown(HEADING@));
        assert(kept(shown(HEADING@), keep) == nothing) by {
            reveal_strlit("## Noted by Familiar");
            assert(!HEADING@.contains('\n'));
            lemma_shown_line(HEADING@);
            let all = seq![HEADING@];
            assert(all.drop_last() =~= Seq::empty());
            assert(text::trim_end(HEADING@) =~= HEADING@);
            assert(showing(all.drop_last()) =~= nothing);
            assert(showing(all) =~= seq![HEADING@]);
            assert(seq![HEADING@].drop_last() =~= nothing);
            assert(kept(seq![HEADING@].drop_last(), keep) =~= nothing);
            assert(!keep(HEADING@));
        }
        assert(kept(shown(note), keep) + nothing + nothing =~= kept(
            shown(note),
            keep,
        ));
    } else {
        let k = choose|k: int|
            0 <= k <= shown(note).len() && shown(appended(note, line)) == #[trigger] shown(
                note,
            ).take(k) + shown(line) + shown(note).skip(k);
        let a = shown(note).take(k);
        let b = shown(note).skip(k);
        assert(shown(note) =~= a + b);
        lemma_kept_joins(a + shown(line), b);
        lemma_kept_joins(a, shown(line));
        lemma_kept_joins(a, b);
        assert(kept(a, keep) + nothing =~= kept(a, keep));
    }
}

/// A merge leaves everything that the user wrote.
pub proof fn merging_keeps_what_you_wrote(
    note: Seq<char>,
    texts: Seq<Seq<char>>,
    replacement: Seq<char>,
)
    requires
        is_marked(replacement),
        !replacement.contains('\n'),
    ensures
        match merged(note, texts, replacement) {
            Some(left) => yours(left) == yours(note),
            None => true,
        },
{
    let lines = text::lines(note);
    lemma_shown_lines(note);
    let left = struck(lines, normals(texts)).0;
    lemma_yours_struck(lines, normals(texts));
    lemma_shown_unlined(left);
    saving_keeps_what_you_wrote(unlined(left), replacement);
}

/// A sentence without a line feed makes a line that is marked as the assistant's.
pub proof fn lemma_replacement(into: Seq<char>, kind: Kind, date: Seq<char>)
    requires
        is_date_text(date),
        !text::trim(into).contains('\n'),
    ensures
        is_marked(rendered(into, kind, None, date)),
        !rendered(into, kind, None, date).contains('\n'),
{
    reveal_strlit("- ");
    let none = observation::relation(None);
    assert(text::trim(into) + none =~= text::trim(into));
    observation::lemma_rendered_line(into, kind, None, date);
    let line = rendered(into, kind, None, date);
    let front = observation::MARK@ + (text::trim(into) + none) + " "@;
    let back = " "@ + observation::comment(kind, Some(date));
    assert(line =~= front + TAG@ + back);
    assert(line[0] == '-');
    assert(line.take(2) =~= observation::MARK@);
    let at = front.len() as int;
    assert(line.subrange(at, at + TAG@.len()) =~= TAG@);
    assert(text::stands_at(line, TAG@, at));
}

/// Whether the day that a line was saved on, if it says, is written as a date.
pub open spec fn is_dated(line: Seq<char>) -> bool {
    match observation::stamp(line).1 {
        Some(day) => is_date_text(strftime(day * crate::time::DAY, "%Y-%m-%d"@)),
        None => true,
    }
}

/// Filing an observation under another kind changes one line, and one that the
/// assistant wrote: everything else that showed of the note still does. Where the
/// line is still marked, everything that the user wrote stays as it is.
pub proof fn refiling_changes_only_its_own(note: Seq<char>, wanted: Seq<char>, to: Kind)
    requires
        ({
            let lines = text::lines(note);
            let at = line_saying(lines, normal(wanted), 0);
            at >= 0 ==> is_dated(lines[at])
        }),
    ensures
        match refiled(note, wanted, to) {
            Some(left) => {
                let lines = text::lines(note);
                let at = line_saying(lines, normal(wanted), 0);
                &&& 0 <= at < lines.len()
                &&& is_marked(lines[at])
                &&& shown(left) == showing(lines.update(at, restamped(lines[at], to)))
                &&& is_marked(restamped(lines[at], to)) ==> yours(left) == yours(note)
            },
            None => true,
        },
{
    let lines = text::lines(note);
    lemma_shown_lines(note);
    let at = line_saying(lines, normal(wanted), 0);
    lemma_first_saying(lines, normal(wanted), 0);
    if at >= 0 {
        let new = restamped(lines[at], to);
        let changed = lines.update(at, new);
        assert(is_marked(lines[at]));
        assert(!lines[at].contains('\n'));
        lemma_restamped_line(lines[at], to);
        assert forall|i: int| 0 <= i < changed.len() implies !(#[trigger] changed[i]).contains(
            '\n',
        ) by {
            if i != at {
                assert(changed[i] == lines[i]);
            }
        }
        lemma_shown_unlined(changed);
        if is_marked(new) {
            lemma_yours_without(lines, at);
            lemma_yours_without(changed, at);
            assert(changed.remove(at) =~= lines.remove(at));
        }
    }
}

/// Filing a line under another kind puts no line feed in it.
proof fn lemma_restamped_line(line: Seq<char>, to: Kind)
    requires
        !line.contains('\n'),
        is_dated(line),
    ensures
        !restamped(line, to).contains('\n'),
{
    reveal_strlit(" ");
    let date = match observation::stamp(line).1 {
        Some(day) => Some(strftime(day * crate::time::DAY, "%Y-%m-%d"@)),
        None => None,
    };
    observation::lemma_comment_line(to, date);
    let c = observation::comment(to, date);
    let f = text::front(line, "<!--"@);
    let b = observation::body(line);
    let r = restamped(line, to);
    text::lemma_trim_end(f);
    text::lemma_index_of(line, "<!--"@, 0);
    assert forall|i: int| 0 <= i < r.len() implies r[i] != '\n' by {
        if i < b.len() {
            assert(r[i] == b[i] && b[i] == f[i] && f[i] == line[i]);
            assert(line.contains(line[i]));
        } else if i > b.len() {
            let j = i - b.len() - 1;
            assert(r[i] == c[j]);
            assert(c.contains(c[j]));
        }
    }
}

/// What is forgotten is what was asked for: the first line that the assistant wrote and
/// that has the words in it, whatever their case and the marks between them. It is gone,
/// the rest is as it was, and what it said is handed back; nothing is forgotten only where
/// no such line is there.
pub proof fn what_is_forgotten_was_asked_for(note: Seq<char>, matching: Seq<char>)
    ensures
        match forgotten(note, matching) {
            Some((left, gone)) => exists|i: int|
                0 <= i < text::lines(note).len() && is_marked(#[trigger] text::lines(note)[i])
                    && (normal(matching).len() == 0 || text::holds(
                    normal(said(text::lines(note)[i])),
                    normal(matching),
                )) && gone == said(text::lines(note)[i]) && left == text::join(
                    text::lines(note).remove(i),
                    "\n"@,
                ) + "\n"@ && forall|j: int|
                    0 <= j < i && is_marked(#[trigger] text::lines(note)[j]) ==> normal(
                        matching,
                    ).len() > 0 && !text::holds(
                        normal(said(text::lines(note)[j])),
                        normal(matching),
                    ),
            None => forall|j: int|
                0 <= j < text::lines(note).len() && is_marked(#[trigger] text::lines(note)[j])
                    ==> normal(matching).len() > 0 && !text::holds(
                    normal(said(text::lines(note)[j])),
                    normal(matching),
                ),
        },
{
    lemma_mentioning(text::lines(note), normal(matching), 0);
}

proof fn lemma_mentioning(lines: Seq<Seq<char>>, wanted: Seq<char>, i: int)
    requires
        0 <= i,
    ensures
        ({
            let at = line_mentioning(lines, wanted, i);
            &&& at >= 0 ==> i <= at < lines.len() && mentions(lines[at], wanted)
            &&& at >= 0 ==> forall|j: int|
                i <= j < at && is_marked(#[trigger] lines[j]) ==> !mentions(lines[j], wanted)
            &&& at < 0 ==> forall|j: int|
                i <= j < lines.len() && is_marked(#[trigger] lines[j]) ==> !mentions(
                    lines[j],
                    wanted,
                )
        }),
    decreases lines.len() - i,
{
    if i < lines.len() && !mentions(lines[i], wanted) {
        lemma_mentioning(lines, wanted, i + 1);
    }
}

/// What is dropped or filed anew is the first line that the assistant wrote and that says
/// it, all of it; nothing happens only where no line says it.
pub proof fn what_is_cleared_says_what_was_asked(note: Seq<char>, text: Seq<char>, to: Kind)
    ensures
        match (cleared(note, text), refiled(note, text, to)) {
            (Some(left), Some(filed)) => exists|i: int|
                0 <= i < text::lines(note).len() && is_marked(#[trigger] text::lines(note)[i])
                    && normal(said(text::lines(note)[i])) == normal(text) && left == text::join(
                    text::lines(note).remove(i),
                    "\n"@,
                ) + "\n"@ && filed == text::join(
                    text::lines(note).update(i, restamped(text::lines(note)[i], to)),
                    "\n"@,
                ) + "\n"@ && forall|j: int|
                    0 <= j < i && is_marked(#[trigger] text::lines(note)[j]) ==> normal(
                        said(text::lines(note)[j]),
                    ) != normal(text),
            (None, None) => forall|j: int|
                0 <= j < text::lines(note).len() && is_marked(#[trigger] text::lines(note)[j])
                    ==> normal(said(text::lines(note)[j])) != normal(text),
            _ => false,
        },
{
    lemma_saying(text::lines(note), normal(text), 0);
}

proof fn lemma_saying(lines: Seq<Seq<char>>, wanted: Seq<char>, i: int)
    requires
        0 <= i,
    ensures
        ({
            let at = line_saying(lines, wanted, i);
            &&& at >= 0 ==> i <= at < lines.len() && says(lines[at], wanted)
            &&& at >= 0 ==> forall|j: int|
                i <= j < at && is_marked(#[trigger] lines[j]) ==> !says(lines[j], wanted)
            &&& at < 0 ==> forall|j: int|
                i <= j < lines.len() && is_marked(#[trigger] lines[j]) ==> !says(lines[j], wanted)
        }),
    decreases lines.len() - i,
{
    if i < lines.len() && !says(lines[i], wanted) {
        lemma_saying(lines, wanted, i + 1);
    }
}

// ---------------------------------------------------------------------------
// What a note is called, and what sums it up
// ---------------------------------------------------------------------------

/// A subject that can be the name of a file is the name of its note, and each character
/// that cannot stand in one becomes a dash.
pub proof fn a_note_is_named_after_its_subject(front: Seq<char>, c: char, behind: Seq<char>)
    requires
        front.len() > 0,
        behind.len() > 0,
        !text::is_space(front[0]) && front[0] != '.',
        !text::is_space(behind.last()) && behind.last() != '.',
        forall|i: int| 0 <= i < front.len() ==> !is_forbidden(#[trigger] front[i]),
        forall|i: int| 0 <= i < behind.len() ==> !is_forbidden(#[trigger] behind[i]),
    ensures
        c == '/' || c == '\\' || c == ':' || c == '*' || c == '?' || c == '"' || c == '<' || c
            == '>' || c == '|' ==> file_name(front + seq![c] + behind) == front + seq!['-']
            + behind,
        file_name(front + behind) == front + behind,
        new_path(front + behind) == "Familiar/"@ + front + behind + ".md"@,
{
    let a = front + seq!['-'] + behind;
    let b = front + behind;
    assert(is_forbidden(c) ==> cleaned(front + seq![c] + behind) =~= a);
    assert(cleaned(b) =~= b);
    lemma_named_as_it_is(a);
    lemma_named_as_it_is(b);
    assert(new_path(b) =~= "Familiar/"@ + front + behind + ".md"@) by {
        reveal_strlit("Familiar/");
        reveal_strlit("Familiar");
        reveal_strlit("/");
        assert("Familiar/"@ =~= "Familiar"@ + "/"@);
    }
}

proof fn lemma_named_as_it_is(s: Seq<char>)
    requires
        s.len() > 0,
        !text::is_space(s[0]) && s[0] != '.',
        !text::is_space(s.last()) && s.last() != '.',
    ensures
        text::without_trailing(undotted_front(text::trim(s)), '.') == s,
{
    text::lemma_trim_unchanged(s);
    assert(undotted_front(s) == s);
    assert(text::without_trailing(s, '.') =~= s);
}

/// A note is summed up by its first sentence, by its first line where that is all there is
/// of it, and by as much of it as there is room for where that is long.
pub proof fn a_note_is_summed_up_by_its_first_sentence(sentence: Seq<char>, more: Seq<char>)
    requires
        0 < sentence.len(),
        !text::is_space(sentence[0]),
        !text::is_space(sentence.last()),
        !sentence.contains('.'),
    ensures
        sentence.len() < 159 ==> summary(sentence + ". "@ + more) == sentence + seq!['.', '…'],
        sentence.len() <= 160 ==> summary(sentence) == sentence,
        sentence.len() > 160 ==> summary(sentence) == sentence.take(160).push('…'),
{
    reveal_strlit(". ");
    let line = sentence + ". "@ + more;
    let n = sentence.len() as int;
    assert(line.subrange(n, n + 2) =~= ". "@);
    assert forall|j: int| 0 <= j < n implies !#[trigger] text::stands_at(line, ". "@, j) by {
        if text::stands_at(line, ". "@, j) {
            assert(line.subrange(j, j + 2)[0] == line[j]);
            assert(sentence.contains(sentence[j]));
        }
    }
    assert(text::is_first(line, ". "@, 0, n));
    text::lemma_index_is(line, ". "@, 0, n);
    let short = line.take(n + 1).push('…');
    assert(short =~= sentence + seq!['.', '…']);
    assert(!text::is_space('…')) by {
        assert('…' as int == 0x2026);
    }
    text::lemma_trim_unchanged(short);
    text::lemma_index_of(sentence, ". "@, 0);
    let at = text::index_of(sentence, ". "@, 0);
    if at >= 0 {
        assert(sentence.subrange(at, at + 2)[0] == sentence[at]);
        assert(sentence.contains(sentence[at]));
    }
    text::lemma_trim_unchanged(sentence);
    if sentence.len() > 160 {
        let cut = sentence.take(160).push('…');
        assert(cut[0] == sentence[0]);
        text::lemma_trim_unchanged(cut);
    }
}

/// What sums a note up is looked for in the first line that is neither empty nor a heading.
pub proof fn headings_and_empty_lines_are_passed_over(lines: Seq<Seq<char>>, k: int)
    requires
        0 <= k < lines.len(),
        text::trim(lines[k]).len() > 0,
        text::trim(lines[k])[0] != '#',
        forall|i: int|
            0 <= i < k ==> text::trim(#[trigger] lines[i]).len() == 0 || text::trim(lines[i])[0]
                == '#',
    ensures
        opening_line(lines, 0) == text::trim(lines[k]),
{
    lemma_passed_over(lines, 0, k);
}

proof fn lemma_passed_over(lines: Seq<Seq<char>>, from: int, k: int)
    requires
        0 <= from <= k < lines.len(),
        text::trim(lines[k]).len() > 0,
        text::trim(lines[k])[0] != '#',
        forall|i: int|
            0 <= i < k ==> text::trim(#[trigger] lines[i]).len() == 0 || text::trim(lines[i])[0]
                == '#',
    ensures
        opening_line(lines, from) == text::trim(lines[k]),
    decreases k - from,
{
    if from < k {
        assert(text::trim(lines[from]).len() == 0 || text::trim(lines[from])[0] == '#');
        lemma_passed_over(lines, from + 1, k);
    }
}

/// Whether a text is one line of a section: on a line of its own, and no heading.
pub open spec fn is_section_line(line: Seq<char>) -> bool {
    !line.contains('\n') && text::without_return(line) == line && !text::starts(line, "## "@)
}

proof fn lemma_lines_ended(lines: Seq<Seq<char>>)
    requires
        forall|i: int|
            0 <= i < lines.len() ==> !(#[trigger] lines[i]).contains('\n') && text::without_return(
                lines[i],
            ) == lines[i],
    ensures
        text::lines(ended(lines)) == lines,
        lines.len() > 0 ==> exists|u: Seq<char>| ended(lines) == #[trigger] (u + seq!['\n']),
    decreases lines.len(),
{
    reveal_strlit("\n");
    assert("\n"@ =~= seq!['\n']);
    if lines.len() == 0 {
        assert(text::lines(ended(lines)) =~= lines);
    } else {
        let rest = lines.drop_last();
        let last = lines.last();
        assert(last == lines[lines.len() - 1]);
        lemma_lines_ended(rest);
        text::lemma_one_line(last);
        let end = last + seq!['\n'];
        assert(ended(lines) =~= (ended(rest) + last) + seq!['\n']);
        if rest.len() > 0 {
            let u = choose|u: Seq<char>| ended(rest) == #[trigger] (u + seq!['\n']);
            text::lemma_lines_break(u, end);
            assert(ended(lines) =~= u + seq!['\n'] + end);
            assert(text::lines(u + seq!['\n']) == rest);
        } else {
            assert(ended(lines) =~= end);
        }
        assert(rest + seq![last] =~= lines);
    }
}

proof fn lemma_section_reach(lines: Seq<Seq<char>>, i: int, end: int)
    requires
        0 <= i <= end <= lines.len(),
        forall|k: int| i <= k < end ==> !text::starts(#[trigger] lines[k], "## "@),
        end < lines.len() ==> text::starts(lines[end], "## "@),
    ensures
        section_end(lines, i) == end,
    decreases end - i,
{
    if i < end {
        assert(!text::starts(lines[i], "## "@));
        lemma_section_reach(lines, i + 1, end);
    }
}

/// A new line goes behind those that are there already, at the end of their section, and in
/// front of whatever section follows.
pub proof fn a_new_line_goes_behind_the_older_ones(
    front: Seq<char>,
    older: Seq<Seq<char>>,
    following: Seq<char>,
    line: Seq<char>,
)
    requires
        older.len() > 0,
        forall|i: int| 0 <= i < older.len() ==> is_section_line(#[trigger] older[i]),
        text::trim(older.last()).len() > 0,
        text::starts(following, "## "@),
        !following.contains('\n'),
        text::without_return(following) == following,
        text::is_first(front + HEADING@ + "\n"@ + ended(older), HEADING@, 0, front.len() as int),
        text::is_first(
            front + HEADING@ + "\n"@ + ended(older) + "\n"@ + following + "\n"@,
            HEADING@,
            0,
            front.len() as int,
        ),
    ensures
        appended(front + HEADING@ + "\n"@ + ended(older), line) == front + HEADING@ + "\n"@ + ended(
            older,
        ) + line + "\n"@,
        appended(front + HEADING@ + "\n"@ + ended(older) + "\n"@ + following + "\n"@, line) == front
            + HEADING@ + "\n"@ + ended(older) + line + "\n"@ + "\n"@ + following + "\n"@,
{
    let at = front.len() as int;
    let short = front + HEADING@ + "\n"@ + ended(older);
    let long = short + "\n"@ + following + "\n"@;
    text::lemma_index_is(short, HEADING@, 0, at);
    text::lemma_index_is(long, HEADING@, 0, at);
    assert(short.take(at) =~= front);
    assert(long.take(at) =~= front);
    let all = seq![HEADING@] + older;
    let more = all + seq![Seq::<char>::empty(), following];
    lemma_section_text(older, following);
    assert(short.skip(at) =~= HEADING@ + "\n"@ + ended(older));
    assert(long.skip(at) =~= HEADING@ + "\n"@ + ended(older) + "\n"@ + following + "\n"@);
    assert(all.skip(1) =~= older);
    assert forall|k: int| 0 <= k < older.len() implies !text::starts(#[trigger] older[k], "## "@) by {
        assert(is_section_line(older[k]));
    }
    lemma_section_reach(older, 0, older.len() as int);
    assert(older.take(older.len() as int) =~= older);
    assert(without_blank_end(older) == older);
    let tail = more.skip(1);
    let none = Seq::<char>::empty();
    assert(tail =~= older.push(none).push(following));
    assert(!text::starts(none, "## "@)) by {
        reveal_strlit("## ");
    }
    let end = older.len() as int + 1;
    assert forall|k: int| 0 <= k < end implies !text::starts(#[trigger] tail[k], "## "@) by {
        if k < older.len() {
            assert(tail[k] == older[k]);
        }
    }
    lemma_section_reach(tail, 0, end);
    assert(tail.take(end) =~= older.push(none));
    assert(without_blank_end(older.push(none)) == older) by {
        assert(older.push(none).drop_last() =~= older);
        assert(text::trim(none).len() == 0);
    }
    assert(tail.skip(end) =~= seq![following]);
    assert(text::join(seq![following], "\n"@) == following);
    assert(appended(long, line) =~= short + line + "\n"@ + "\n"@ + following + "\n"@);
    assert(appended(short, line) =~= short + line + "\n"@);
}

proof fn lemma_section_text(older: Seq<Seq<char>>, following: Seq<char>)
    requires
        forall|i: int| 0 <= i < older.len() ==> is_section_line(#[trigger] older[i]),
        !following.contains('\n'),
        text::without_return(following) == following,
    ensures
        text::lines(HEADING@ + "\n"@ + ended(older)) == seq![HEADING@] + older,
        text::lines(HEADING@ + "\n"@ + ended(older) + "\n"@ + following + "\n"@) == seq![HEADING@]
            + older + seq![Seq::<char>::empty(), following],
{
    reveal_strlit("\n");
    assert("\n"@ =~= seq!['\n']);
    let none = Seq::<char>::empty();
    let all = seq![HEADING@] + older;
    let more = all + seq![none, following];
    assert(!HEADING@.contains('\n') && text::without_return(HEADING@) == HEADING@) by {
        reveal_strlit("## Noted by Familiar");
        if HEADING@.contains('\n') {
            let i = choose|i: int| 0 <= i < HEADING@.len() && HEADING@[i] == '\n';
            assert(HEADING@[i] == '\n');
        }
    }
    assert forall|i: int| 0 <= i < more.len() implies !(#[trigger] more[i]).contains('\n')
        && text::without_return(more[i]) == more[i] by {
        if 1 <= i <= older.len() {
            assert(more[i] == older[i - 1]);
            assert(is_section_line(older[i - 1]));
        }
    }
    assert forall|i: int| 0 <= i < all.len() implies !(#[trigger] all[i]).contains('\n')
        && text::without_return(all[i]) == all[i] by {
        assert(all[i] == more[i]);
    }
    lemma_lines_ended(all);
    lemma_lines_ended(more);
    lemma_ended_after(HEADING@, older);
    assert(more.drop_last() =~= all + seq![none]);
    assert((all + seq![none]).drop_last() =~= all);
    assert(ended(all + seq![none]) =~= ended(all) + "\n"@);
    assert(ended(more) =~= ended(all) + "\n"@ + following + "\n"@);
}

proof fn lemma_ended_after(first: Seq<char>, lines: Seq<Seq<char>>)
    ensures
        ended(seq![first] + lines) == first + "\n"@ + ended(lines),
    decreases lines.len(),
{
    let all = seq![first] + lines;
    if lines.len() == 0 {
        assert(all.drop_last() =~= Seq::empty());
        assert(ended(all.drop_last()) =~= Seq::<char>::empty());
        assert(ended(all) =~= first + "\n"@ + ended(lines));
    } else {
        lemma_ended_after(first, lines.drop_last());
        assert(all.drop_last() =~= seq![first] + lines.drop_last());
        assert(all.last() == lines.last());
        assert(ended(all) =~= first + "\n"@ + ended(lines));
    }
}

} // verus!
