//! Making documents: Word, Excel, PowerPoint and PDF.
//!
//! One document, four writers. [`markup::parse`] turns the Markdown a model
//! writes into [`markup::Block`]s, and `docx`, `pptx` and `pdf` all render those
//! same blocks. `xlsx` takes rows of [`xlsx::Cell`] instead. The three Office
//! formats are ZIP archives of XML, written by [`zip`] and [`xml`]. [`skills`]
//! is the prompt text that tells a model when and how to use any of it.

use crate::text;
use vstd::prelude::*;
use vstd::slice::slice_subrange;

pub mod docx;
pub mod markup;
pub mod pdf;
pub mod pptx;
pub mod skills;
pub mod xlsx;
pub mod xml;
pub mod zip;

verus! {

/// Where the last segment of a path begins: behind the last slash or backslash.
pub open spec fn name_start(path: Seq<char>) -> int
    decreases path.len(),
{
    if path.len() == 0 || path.last() == '/' || path.last() == '\\' {
        path.len() as int
    } else {
        name_start(path.drop_last())
    }
}

/// Where the last dot of a name stands, where there is one with something in
/// front of it: -1 where there is not. A dot at the very front makes a hidden
/// file, not an extension.
pub open spec fn extension_dot(name: Seq<char>) -> int
    decreases name.len(),
{
    if name.len() == 0 {
        -1
    } else if name.last() == '.' {
        if name.len() > 1 {
            name.len() - 1
        } else {
            -1
        }
    } else {
        extension_dot(name.drop_last())
    }
}

/// Whether a path has the extension, whatever the case.
pub open spec fn has_extension(path: Seq<char>, expected: Seq<char>) -> bool {
    let t = text::trim(path);
    let name = t.skip(name_start(t));
    let dot = extension_dot(name);
    dot > 0 && text::ascii_lowercase(name.skip(dot + 1)) == text::ascii_lowercase(expected)
}

/// The path that was meant: with the wrong extension replaced, or the missing
/// one added.
pub open spec fn suggested(path: Seq<char>, expected: Seq<char>) -> Seq<char> {
    let t = text::trim(path);
    let start = name_start(t);
    let dot = extension_dot(t.skip(start));
    if dot > 0 {
        t.take(start + dot) + "."@ + expected
    } else {
        t + "."@ + expected
    }
}

/// What is said of a path with another extension.
pub open spec fn complaint(path: Seq<char>, expected: Seq<char>) -> Seq<char> {
    "that path has to end in ."@ + expected + " — a "@ + expected
        + " file under another name will not open in anything. Try "@ + suggested(path, expected)
}

fn name_start_of(path: &[char]) -> (r: usize)
    ensures
        r == name_start(path@),
        r <= path.len(),
{
    let mut i: usize = path.len();
    assert(path@.take(path@.len() as int) =~= path@);
    while i > 0 && path[i - 1] != '/' && path[i - 1] != '\\'
        invariant
            0 <= i <= path.len(),
            name_start(path@) == name_start(path@.take(i as int)),
        decreases i,
    {
        assert(path@.take(i as int).drop_last() =~= path@.take(i - 1));
        i = i - 1;
    }
    i
}

fn extension_dot_of(name: &[char]) -> (r: Option<usize>)
    ensures
        match r {
            Some(at) => at == extension_dot(name@) && 0 < at < name.len(),
            None => extension_dot(name@) == -1,
        },
{
    let mut i: usize = name.len();
    assert(name@.take(name@.len() as int) =~= name@);
    while i > 0
        invariant
            0 <= i <= name.len(),
            extension_dot(name@) == extension_dot(name@.take(i as int)),
        decreases i,
    {
        if name[i - 1] == '.' {
            return if i > 1 {
                Some(i - 1)
            } else {
                None
            };
        }
        assert(name@.take(i as int).drop_last() =~= name@.take(i - 1));
        i = i - 1;
    }
    None
}

/// The extension a path must have for the format, and what to say when it does
/// not.
///
/// The extension is checked rather than corrected: silently renaming what the
/// model asked for hides the mistake from both it and the user.
pub fn check_extension(path: &str, expected: &str) -> (r: Result<(), String>)
    ensures
        r is Ok <==> has_extension(path@, expected@),
        match r {
            Ok(_) => true,
            Err(said) => said@ == complaint(path@, expected@),
        },
{
    let chars = text::chars_of(path);
    let t = text::trimmed(chars.as_slice());
    let start = name_start_of(t);
    let name = slice_subrange(t, start, t.len());
    let dot = extension_dot_of(name);
    if let Some(at) = dot {
        let found = text::lowered(slice_subrange(name, at + 1, name.len()));
        let wanted = text::chars_of(expected);
        let wanted = text::lowered(wanted.as_slice());
        if text::equal(found.as_slice(), wanted.as_slice()) {
            return Ok(());
        }
    }
    let mut suggestion = match dot {
        Some(at) => text::string_of(slice_subrange(t, 0, start + at)),
        None => text::string_of(t),
    };
    suggestion.append(".");
    suggestion.append(expected);
    let mut said = "that path has to end in .".to_owned();
    said.append(expected);
    said.append(" — a ");
    said.append(expected);
    said.append(" file under another name will not open in anything. Try ");
    said.append(suggestion.as_str());
    Err(said)
}

/// What is suggested has the extension, so that a caller who follows the
/// suggestion is not refused again, wherever the extension itself holds no dot,
/// slash or white space and is not empty, and there is a name to put it behind.
pub proof fn the_suggestion_is_accepted(path: Seq<char>, expected: Seq<char>)
    requires
        expected.len() > 0,
        forall|i: int|
            0 <= i < expected.len() ==> (#[trigger] expected[i]) != '.' && expected[i] != '/'
                && expected[i] != '\\' && !text::is_space(expected[i]),
        name_start(text::trim(path)) < text::trim(path).len(),
    ensures
        has_extension(suggested(path, expected), expected),
{
    let t = text::trim(path);
    let start = name_start(t);
    lemma_name_start(t);
    let name = t.skip(start);
    let dot = extension_dot(name);
    lemma_extension_dot(name);
    reveal_strlit(".");
    let stem = if dot > 0 {
        t.take(start + dot)
    } else {
        t
    };
    let s = suggested(path, expected);
    assert(s =~= stem + seq!['.'] + expected);
    text::lemma_trim(path);
    assert(s[0] == t[0]);
    text::lemma_trim_unchanged(s);
    lemma_name_start_is(s, start);
    let found = s.skip(start);
    lemma_extension_dot_is(found, stem.len() - start);
    assert(found.skip(stem.len() - start + 1) =~= expected);
}

proof fn lemma_name_start(path: Seq<char>)
    ensures
        0 <= name_start(path) <= path.len(),
        forall|i: int|
            name_start(path) <= i < path.len() ==> (#[trigger] path[i]) != '/' && path[i] != '\\',
        name_start(path) > 0 ==> path[name_start(path) - 1] == '/' || path[name_start(path) - 1]
            == '\\',
    decreases path.len(),
{
    if !(path.len() == 0 || path.last() == '/' || path.last() == '\\') {
        let rest = path.drop_last();
        lemma_name_start(rest);
        assert forall|i: int| name_start(path) <= i < path.len() implies (#[trigger] path[i])
            != '/' && path[i] != '\\' by {
            if i < rest.len() {
                assert(path[i] == rest[i]);
            }
        }
    }
}

proof fn lemma_name_start_is(path: Seq<char>, at: int)
    requires
        0 <= at <= path.len(),
        forall|i: int| at <= i < path.len() ==> (#[trigger] path[i]) != '/' && path[i] != '\\',
        at > 0 ==> path[at - 1] == '/' || path[at - 1] == '\\',
    ensures
        name_start(path) == at,
    decreases path.len(),
{
    if path.len() > at {
        let rest = path.drop_last();
        assert forall|i: int| at <= i < rest.len() implies (#[trigger] rest[i]) != '/' && rest[i]
            != '\\' by {
            assert(rest[i] == path[i]);
        }
        lemma_name_start_is(rest, at);
    }
}

proof fn lemma_extension_dot(name: Seq<char>)
    ensures
        extension_dot(name) < name.len(),
        extension_dot(name) == -1 || extension_dot(name) > 0,
        extension_dot(name) > 0 ==> name[extension_dot(name)] == '.',
    decreases name.len(),
{
    if name.len() > 0 && name.last() != '.' {
        lemma_extension_dot(name.drop_last());
    }
}

proof fn lemma_extension_dot_is(name: Seq<char>, at: int)
    requires
        0 < at < name.len(),
        name[at] == '.',
        forall|i: int| at < i < name.len() ==> (#[trigger] name[i]) != '.',
    ensures
        extension_dot(name) == at,
    decreases name.len(),
{
    if name.len() > at + 1 {
        let rest = name.drop_last();
        assert forall|i: int| at < i < rest.len() implies (#[trigger] rest[i]) != '.' by {
            assert(rest[i] == name[i]);
        }
        lemma_extension_dot_is(rest, at);
    }
}

// ---------------------------------------------------------------------------
// Tables
// ---------------------------------------------------------------------------

proof fn lemma_split_join(cells: Seq<Seq<char>>, c: char)
    requires
        cells.len() > 0,
        forall|i: int| 0 <= i < cells.len() ==> !(#[trigger] cells[i]).contains(c),
    ensures
        text::split(text::join(cells, seq![c]), c) == cells,
    decreases cells.len(),
{
    let s = text::join(cells, seq![c]);
    if cells.len() == 1 {
        assert forall|i: int| 0 <= i < s.len() implies s[i] != c by {
            assert(cells[0].contains(s[i]));
        }
        text::lemma_next_is(s, c, 0, s.len() as int);
        assert(seq![s] =~= cells);
    } else {
        let first = cells[0];
        let rest = cells.skip(1);
        lemma_join_first(cells, c);
        let n = first.len() as int;
        assert(s == first + seq![c] + text::join(rest, seq![c]));
        assert forall|i: int| 0 <= i < n implies s[i] != c by {
            assert(first.contains(first[i]));
            assert(s[i] == first[i]);
        }
        text::lemma_next_is(s, c, 0, n);
        assert(s.take(n) =~= first);
        assert(s.skip(n + 1) =~= text::join(rest, seq![c]));
        assert forall|i: int| 0 <= i < rest.len() implies !(#[trigger] rest[i]).contains(c) by {
            assert(rest[i] == cells[i + 1]);
        }
        lemma_split_join(rest, c);
        assert(seq![first] + rest =~= cells);
    }
}

proof fn lemma_join_first(cells: Seq<Seq<char>>, c: char)
    requires
        cells.len() > 1,
    ensures
        text::join(cells, seq![c]) == cells[0] + seq![c] + text::join(cells.skip(1), seq![c]),
    decreases cells.len(),
{
    let rest = cells.skip(1);
    let last = cells.last();
    assert(rest.last() == last);
    if cells.len() == 2 {
        assert(text::join(cells.drop_last(), seq![c]) == cells[0]);
        assert(text::join(rest, seq![c]) == last);
    } else {
        lemma_join_first(cells.drop_last(), c);
        assert(cells.drop_last().skip(1) =~= rest.drop_last());
        assert(text::join(cells, seq![c]) =~= cells[0] + seq![c] + (text::join(
            rest.drop_last(),
            seq![c],
        ) + seq![c] + last));
    }
}

/// What stands between the bars of a row is a cell, without the white space around it.
pub proof fn bars_part_the_cells(cells: Seq<Seq<char>>)
    requires
        cells.len() > 0,
        forall|i: int|
            0 <= i < cells.len() ==> (#[trigger] cells[i]).len() > 0 && !cells[i].contains('|'),
    ensures
        markup::cells_of(seq!['|'] + text::join(cells, seq!['|']) + seq!['|']) == cells.map_values(
            |cell: Seq<char>| text::trim(cell),
        ),
{
    let inner = text::join(cells, seq!['|']);
    let row = seq!['|'] + inner + seq!['|'];
    lemma_ends_of_join(cells);
    text::lemma_trim_unchanged(row);
    assert(row.skip(1) =~= inner + seq!['|']);
    assert(text::leading(row, '|') == 1) by {
        assert(row[0] == '|');
        assert(row.drop_first()[0] == inner[0]);
        assert(text::leading(row.drop_first(), '|') == 0);
    }
    let tail = inner + seq!['|'];
    assert(tail.drop_last() =~= inner);
    assert(text::without_trailing(tail, '|') == text::without_trailing(inner, '|'));
    assert(text::without_trailing(inner, '|') =~= inner);
    assert(markup::row_inner(row) == inner);
    lemma_split_join(cells, '|');
}

proof fn lemma_ends_of_join(cells: Seq<Seq<char>>)
    requires
        cells.len() > 0,
        forall|i: int|
            0 <= i < cells.len() ==> (#[trigger] cells[i]).len() > 0 && !cells[i].contains('|'),
    ensures
        text::join(cells, seq!['|']).len() > 0,
        text::join(cells, seq!['|'])[0] != '|',
        text::join(cells, seq!['|']).last() != '|',
    decreases cells.len(),
{
    let last = cells.last();
    assert(last == cells[cells.len() - 1]);
    assert(last.contains(last[last.len() - 1]));
    assert(cells[0].contains(cells[0][0]));
    if cells.len() > 1 {
        assert forall|i: int| 0 <= i < cells.drop_last().len() implies (
        #[trigger] cells.drop_last()[i]).len() > 0 && !cells.drop_last()[i].contains('|') by {
            assert(cells.drop_last()[i] == cells[i]);
        }
        lemma_ends_of_join(cells.drop_last());
    }
}

/// A row of cells above a row of dashes is a table, with as many rows as follow, the first
/// row its header.
pub proof fn a_row_above_dashes_makes_a_table(
    header: Seq<char>,
    dashes: Seq<char>,
    rows: Seq<Seq<char>>,
)
    requires
        text::trim(header).len() > 1,
        text::trim(header)[0] == '|',
        markup::is_delimiter_line(text::trim(dashes)),
        forall|i: int|
            0 <= i < rows.len() ==> text::trim(#[trigger] rows[i]).len() > 1 && text::trim(
                rows[i],
            )[0] == '|',
    ensures
        markup::blocks_from(seq![header, dashes] + rows, 0, Seq::empty()) == seq![
            markup::BlockModel::Table {
                header: markup::cells_of(text::trim(header)),
                rows: rows.map_values(|row: Seq<char>| markup::cells_of(text::trim(row))),
            },
        ],
{
    let lines = seq![header, dashes] + rows;
    let t = text::trim(header);
    assert(markup::fence_info(t) is None) by {
        reveal_strlit("```");
        reveal_strlit("~~~");
        if text::starts(t, "```"@) {
            assert(t.take(3)[0] == t[0]);
        }
        if text::starts(t, "~~~"@) {
            assert(t.take(3)[0] == t[0]);
        }
    }
    assert(t != "\\pagebreak"@ && t != "\\newpage"@) by {
        reveal_strlit("\\pagebreak");
        reveal_strlit("\\newpage");
    }
    assert(!markup::is_rule_line(t)) by {
        assert(t[0] == '|');
    }
    assert(markup::heading_of(t) is None) by {
        text::lemma_leading(t, '#');
    }
    lemma_rows_reach(lines, 2);
    let end = markup::rows_end(lines, 2);
    assert(lines.subrange(2, lines.len() as int) =~= rows);
    assert(lines[0] == header && lines[1] == dashes);
    let none = Seq::<Seq<char>>::empty();
    assert(markup::paragraph_of(none) =~= Seq::empty());
    assert(markup::blocks_from(lines, lines.len() as int, none) =~= Seq::empty());
}

proof fn lemma_rows_reach(lines: Seq<Seq<char>>, i: int)
    requires
        0 <= i <= lines.len(),
        forall|k: int|
            i <= k < lines.len() ==> text::trim(#[trigger] lines[k]).len() > 1 && text::trim(
                lines[k],
            )[0] == '|',
    ensures
        markup::rows_end(lines, i) == lines.len(),
    decreases lines.len() - i,
{
    if i < lines.len() {
        lemma_rows_reach(lines, i + 1);
    }
}

// ---------------------------------------------------------------------------
// Extensions
// ---------------------------------------------------------------------------

/// Whether a text can be an extension, or a name without one.
pub open spec fn is_bare_name(s: Seq<char>) -> bool {
    s.len() > 0 && forall|i: int|
        0 <= i < s.len() ==> #[trigger] s[i] != '.' && s[i] != '/' && s[i] != '\\'
            && !text::is_space(s[i])
}

proof fn lemma_name_starts(folder: Seq<char>, name: Seq<char>)
    requires
        folder.len() > 0 ==> folder.last() == '/',
        forall|i: int| 0 <= i < name.len() ==> #[trigger] name[i] != '/' && name[i] != '\\',
    ensures
        name_start(folder + name) == folder.len(),
    decreases name.len(),
{
    if name.len() == 0 {
        assert(folder + name =~= folder);
    } else {
        assert((folder + name).last() == name[name.len() - 1]);
        assert((folder + name).drop_last() =~= folder + name.drop_last());
        lemma_name_starts(folder, name.drop_last());
    }
}

proof fn lemma_extension_stands(name: Seq<char>, extension: Seq<char>)
    requires
        name.len() > 0,
        forall|i: int| 0 <= i < extension.len() ==> #[trigger] extension[i] != '.',
    ensures
        extension_dot(name + seq!['.'] + extension) == name.len(),
    decreases extension.len(),
{
    let s = name + seq!['.'] + extension;
    if extension.len() > 0 {
        assert(s.last() == extension[extension.len() - 1]);
        assert(s.drop_last() =~= name + seq!['.'] + extension.drop_last());
        lemma_extension_stands(name, extension.drop_last());
    } else {
        assert(s.last() == '.');
    }
}

proof fn lemma_no_extension(name: Seq<char>)
    requires
        forall|i: int| 0 <= i < name.len() ==> #[trigger] name[i] != '.',
    ensures
        extension_dot(name) == -1,
    decreases name.len(),
{
    if name.len() > 0 {
        assert(name.last() == name[name.len() - 1]);
        lemma_no_extension(name.drop_last());
    }
}

/// A path has the extension that it ends in, in whatever case, and no other; one without an
/// extension has none. What is suggested instead keeps the name and the folder.
pub proof fn a_path_has_the_extension_it_ends_in(
    folder: Seq<char>,
    name: Seq<char>,
    extension: Seq<char>,
    expected: Seq<char>,
)
    requires
        folder.len() == 0 || (folder.last() == '/' && !text::is_space(folder[0])),
        is_bare_name(name),
        is_bare_name(extension),
        expected.len() > 0,
    ensures
        has_extension(folder + (name + seq!['.'] + extension), expected)
            <==> text::ascii_lowercase(extension) == text::ascii_lowercase(expected),
        !has_extension(folder + name, expected),
        suggested(folder + (name + seq!['.'] + extension), expected) == folder + name + "."@
            + expected,
        suggested(folder + name, expected) == folder + name + "."@ + expected,
{
    let file = name + seq!['.'] + extension;
    let full = folder + file;
    let short = folder + name;
    assert(full[0] == if folder.len() > 0 {
        folder[0]
    } else {
        name[0]
    });
    assert(full.last() == extension[extension.len() - 1]);
    assert(short[0] == if folder.len() > 0 {
        folder[0]
    } else {
        name[0]
    });
    assert(short.last() == name[name.len() - 1]);
    text::lemma_trim_unchanged(full);
    text::lemma_trim_unchanged(short);
    assert forall|i: int| 0 <= i < file.len() implies #[trigger] file[i] != '/' && file[i]
        != '\\' by {
        if i < name.len() {
            assert(file[i] == name[i]);
        } else if i > name.len() {
            assert(file[i] == extension[i - name.len() - 1]);
        }
    }
    lemma_name_starts(folder, file);
    lemma_name_starts(folder, name);
    assert(full.skip(folder.len() as int) =~= file);
    assert(short.skip(folder.len() as int) =~= name);
    lemma_extension_stands(name, extension);
    lemma_no_extension(name);
    assert(file.skip(name.len() as int + 1) =~= extension);
    assert(full.take((folder.len() + name.len()) as int) =~= short);
}

} // verus!
