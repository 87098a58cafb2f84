//! Writing a spreadsheet.
//!
//! The thing that separates a spreadsheet from a table of text is that the
//! numbers are numbers. [`Cell`] tells them apart, and [`Cell::infer`] does the
//! guessing once. Strings go in a shared-strings table.

use crate::office::xml::{escape, escaped};
use crate::office::zip::{archive_bytes, text_part, Archive, Part};
use crate::text;
use vstd::prelude::*;
use vstd::slice::slice_subrange;

verus! {

pub const SPREADSHEET: &'static str = "http://schemas.openxmlformats.org/spreadsheetml/2006/main";

pub const RELATIONSHIPS: &'static str = "http://schemas.openxmlformats.org/officeDocument/2006/relationships";

pub const OFFICE: &'static str = "http://schemas.openxmlformats.org/officeDocument/2006/relationships";

pub const PACKAGE: &'static str = "http://schemas.openxmlformats.org/package/2006/relationships";

pub const ROOT_RELATIONSHIPS: &'static str = r#"<?xml version="1.0" encoding="UTF-8" standalone="yes"?>
<Relationships xmlns="http://schemas.openxmlformats.org/package/2006/relationships"><Relationship Id="rId1" Type="http://schemas.openxmlformats.org/officeDocument/2006/relationships/officeDocument" Target="xl/workbook.xml"/></Relationships>"#;

/// Two cell formats: 0 is the default, 1 is the header.
pub const STYLES: &'static str = r#"<?xml version="1.0" encoding="UTF-8" standalone="yes"?>
<styleSheet xmlns="http://schemas.openxmlformats.org/spreadsheetml/2006/main"><fonts count="2"><font><sz val="11"/><name val="Calibri"/></font><font><b/><sz val="11"/><color rgb="FFFFFFFF"/><name val="Calibri"/></font></fonts><fills count="3"><fill><patternFill patternType="none"/></fill><fill><patternFill patternType="gray125"/></fill><fill><patternFill patternType="solid"><fgColor rgb="FF2E5496"/><bgColor indexed="64"/></patternFill></fill></fills><borders count="1"><border><left/><right/><top/><bottom/><diagonal/></border></borders><cellStyleXfs count="1"><xf numFmtId="0" fontId="0" fillId="0" borderId="0"/></cellStyleXfs><cellXfs count="2"><xf numFmtId="0" fontId="0" fillId="0" borderId="0" xfId="0"/><xf numFmtId="0" fontId="1" fillId="2" borderId="0" xfId="0" applyFont="1" applyFill="1" applyAlignment="1"><alignment vertical="center"/></xf></cellXfs></styleSheet>"#;

/// How long a sheet's name may be.
pub const NAME_LENGTH: usize = 31;

/// What is in one cell.
#[derive(Debug, Clone, PartialEq, Eq)]
pub enum Cell {
    Empty,
    Text(String),
    /// A number, as the decimal that is written.
    Number(String),
    /// `TRUE`/`FALSE`, which is stored as a boolean rather than as text.
    Bool(bool),
    /// A formula, without its leading `=`. Its value is left to be computed
    /// when the sheet is opened.
    Formula(String),
}

/// What a cell says.
#[verifier::ext_equal]
pub enum CellModel {
    Empty,
    Text(Seq<char>),
    Number(Seq<char>),
    Bool(bool),
    Formula(Seq<char>),
}

impl View for Cell {
    type V = CellModel;

    open spec fn view(&self) -> CellModel {
        match self {
            Cell::Empty => CellModel::Empty,
            Cell::Text(text) => CellModel::Text(text@),
            Cell::Number(number) => CellModel::Number(number@),
            Cell::Bool(value) => CellModel::Bool(*value),
            Cell::Formula(formula) => CellModel::Formula(formula@),
        }
    }
}

/// What the cells of a row say.
pub open spec fn row_model(cells: Seq<Cell>) -> Seq<CellModel> {
    Seq::new(cells.len(), |i: int| cells[i]@)
}

/// What the rows of a sheet say.
pub open spec fn sheet_rows(rows: Seq<Vec<Cell>>) -> Seq<Seq<CellModel>> {
    Seq::new(rows.len(), |i: int| row_model(rows[i]@))
}

/// Characters that people put in a number and that are no part of it:
/// thousands separators, currency signs and spaces.
pub open spec fn is_decoration(c: char) -> bool {
    c == ',' || c == '$' || c == '£' || c == '€' || c == ' ' || c == '\u{a0}'
}

/// A text without decoration.
pub open spec fn undecorated(s: Seq<char>) -> Seq<char>
    decreases s.len(),
{
    if s.len() == 0 {
        Seq::empty()
    } else if is_decoration(s.last()) {
        undecorated(s.drop_last())
    } else {
        undecorated(s.drop_last()).push(s.last())
    }
}

/// A leading zero is significant: an order number, a postcode, a part code. So
/// `0042` stays text while `0` and `0.5` do not.
pub open spec fn has_leading_zero(t: Seq<char>) -> bool {
    t.len() > 1 && t[0] == '0' && t[1] != '.'
}

/// How many digits a phone number has at least, its country's among them.
pub const SHORTEST_PHONE_NUMBER: usize = 7;

/// A phone number as it is written for callers abroad: a plus, and behind it
/// digits and spaces alone, with more of the digits than a plain signed number
/// such as `+5` has.
pub open spec fn is_phone_number(t: Seq<char>) -> bool {
    &&& t.len() > 0
    &&& t[0] == '+'
    &&& forall|i: int| 0 < i < t.len() ==> is_dialled(#[trigger] t[i])
    &&& undecorated(t).len() > SHORTEST_PHONE_NUMBER
}

/// A character of a phone number behind its plus.
pub open spec fn is_dialled(c: char) -> bool {
    text::is_digit(c) || c == ' ' || c == '\u{a0}'
}

/// Whether there is a digit in a text.
pub open spec fn has_digit(s: Seq<char>) -> bool {
    exists|i: int| 0 <= i < s.len() && text::is_digit(#[trigger] s[i])
}

/// What a cell is, from its text and from the numbers its text reads as:
/// `percent` where the undecorated text without its percent sign reads as one,
/// a hundredth of it; `number` where the undecorated text reads as a finite
/// one.
pub open spec fn inferred(
    s: Seq<char>,
    percent: Option<Seq<char>>,
    number: Option<Seq<char>>,
) -> CellModel {
    let t = text::trim(s);
    let cleaned = undecorated(t);
    if t.len() == 0 {
        CellModel::Empty
    } else if t[0] == '=' && t.len() > 1 {
        CellModel::Formula(t.skip(1))
    } else if text::ascii_lowercase(t) == "true"@ {
        CellModel::Bool(true)
    } else if text::ascii_lowercase(t) == "false"@ {
        CellModel::Bool(false)
    } else if has_leading_zero(t) || is_phone_number(t) {
        CellModel::Text(t)
    } else if cleaned.len() > 0 && cleaned.last() == '%' && percent is Some {
        CellModel::Number(percent->0)
    } else if has_digit(cleaned) && number is Some {
        CellModel::Number(number->0)
    } else {
        CellModel::Text(t)
    }
}

fn decoration(c: char) -> (r: bool)
    ensures
        r == is_decoration(c),
{
    c == ',' || c == '$' || c == '£' || c == '€' || c == ' ' || c == '\u{a0}'
}

fn plain(s: &[char]) -> (r: Vec<char>)
    ensures
        r@ == undecorated(s@),
{
    let mut r: Vec<char> = Vec::new();
    let mut i: usize = 0;
    while i < s.len()
        invariant
            0 <= i <= s.len(),
            r@ == undecorated(s@.take(i as int)),
        decreases s.len() - i,
    {
        assert(s@.take(i + 1).drop_last() =~= s@.take(i as int));
        if !decoration(s[i]) {
            r.push(s[i]);
        }
        i = i + 1;
    }
    assert(s@.take(s@.len() as int) =~= s@);
    r
}

fn dialled(s: &[char]) -> (r: bool)
    ensures
        r == (s@.len() > 0 && s@[0] == '+' && forall|i: int|
            0 < i < s@.len() ==> is_dialled(#[trigger] s@[i])),
{
    if s.len() == 0 || s[0] != '+' {
        return false;
    }
    let mut i: usize = 1;
    while i < s.len()
        invariant
            1 <= i <= s.len(),
            forall|j: int| 0 < j < i ==> is_dialled(#[trigger] s@[j]),
        decreases s.len() - i,
    {
        if !(('0' <= s[i] && s[i] <= '9') || s[i] == ' ' || s[i] == '\u{a0}') {
            assert(!is_dialled(s@[i as int]));
            return false;
        }
        i = i + 1;
    }
    true
}

fn any_digit(s: &[char]) -> (r: bool)
    ensures
        r == has_digit(s@),
{
    let mut i: usize = 0;
    while i < s.len()
        invariant
            0 <= i <= s.len(),
            forall|j: int| 0 <= j < i ==> !text::is_digit(#[trigger] s@[j]),
        decreases s.len() - i,
    {
        if text::digit(s[i]) {
            assert(text::is_digit(s@[i as int]));
            return true;
        }
        i = i + 1;
    }
    false
}

/// The text of an optional string.
pub open spec fn optional_text(s: Option<&str>) -> Option<Seq<char>> {
    match s {
        Some(t) => Some(t@),
        None => None,
    }
}

impl Cell {
    /// The text that a cell's number is read from: trimmed, and without the
    /// separators, signs and spaces that people write in numbers.
    pub fn cleaned(text: &str) -> (r: String)
        ensures
            r@ == undecorated(text::trim(text@)),
    {
        let chars = text::chars_of(text);
        let cleaned = plain(text::trimmed(chars.as_slice()));
        text::string_of(cleaned.as_slice())
    }

    /// Reads a cell from text the way a person typing it would mean it.
    ///
    /// Numbers become numbers, `=...` becomes a formula, `true`/`false` become
    /// booleans, and everything else is text. `007` and `+44 7700 900123` are
    /// text, because storing them as numbers destroys them. What the cleaned
    /// text reads as is handed in: `percent` for what stands before a percent
    /// sign, already a hundredth of it, and `number` for the whole of it where
    /// that is finite.
    pub fn infer(text: &str, percent: Option<&str>, number: Option<&str>) -> (r: Self)
        ensures
            r@ == inferred(text@, optional_text(percent), optional_text(number)),
    {
        let chars = text::chars_of(text);
        let t = text::trimmed(chars.as_slice());
        if t.len() == 0 {
            return Cell::Empty;
        }
        if t[0] == '=' && t.len() > 1 {
            return Cell::Formula(text::string_of(slice_subrange(t, 1, t.len())));
        }
        let lowered = text::lowered(t);
        if text::spells(lowered.as_slice(), "true") {
            return Cell::Bool(true);
        }
        if text::spells(lowered.as_slice(), "false") {
            return Cell::Bool(false);
        }
        let cleaned = plain(t);
        if (t.len() > 1 && t[0] == '0' && t[1] != '.') || (dialled(t) && cleaned.len()
            > SHORTEST_PHONE_NUMBER) {
            return Cell::Text(text::string_of(t));
        }
        if cleaned.len() > 0 && cleaned[cleaned.len() - 1] == '%' {
            if let Some(n) = percent {
                return Cell::Number(n.to_owned());
            }
        }
        if any_digit(cleaned.as_slice()) {
            if let Some(n) = number {
                return Cell::Number(n.to_owned());
            }
        }
        Cell::Text(text::string_of(t))
    }
}

/// A decimal without the zeros behind its last digit, and without a point that
/// nothing follows.
pub open spec fn shortened(s: Seq<char>) -> Seq<char> {
    let t = text::without_trailing(s, '0');
    if t.len() > 0 && t.last() == '.' {
        t.drop_last()
    } else {
        t
    }
}

/// Takes the zeros at the end off a decimal with a fraction.
pub fn shorten(decimal: &str) -> (r: String)
    ensures
        r@ == shortened(decimal@),
{
    let chars = text::chars_of(decimal);
    let t = text::trailing_off(chars.as_slice(), '0');
    if t.len() > 0 && t[t.len() - 1] == '.' {
        text::string_of(slice_subrange(t, 0, t.len() - 1))
    } else {
        text::string_of(t)
    }
}

/// One sheet: a name, and rows of cells.
#[derive(Debug, Clone)]
pub struct Sheet {
    pub name: String,
    /// The first row is styled as a header when `header` is set.
    pub header: bool,
    pub rows: Vec<Vec<Cell>>,
}

/// What a sheet says.
#[verifier::ext_equal]
pub struct SheetModel {
    pub name: Seq<char>,
    pub header: bool,
    pub rows: Seq<Seq<CellModel>>,
}

impl View for Sheet {
    type V = SheetModel;

    open spec fn view(&self) -> SheetModel {
        SheetModel { name: self.name@, header: self.header, rows: sheet_rows(self.rows@) }
    }
}

/// What each sheet says.
pub open spec fn sheets_model(sheets: Seq<Sheet>) -> Seq<SheetModel> {
    Seq::new(sheets.len(), |i: int| sheets[i]@)
}

/// Characters that a sheet's name must not have.
pub open spec fn is_illegal(c: char) -> bool {
    c == '[' || c == ']' || c == ':' || c == '*' || c == '?' || c == '/' || c == '\\'
}

/// A text with a dash for each of those characters.
pub open spec fn dashed(s: Seq<char>) -> Seq<char> {
    Seq::new(
        s.len(),
        |i: int|
            if is_illegal(s[i]) {
                '-'
            } else {
                s[i]
            },
    )
}

/// A text without the quotes around it, and without the white space that they
/// stood around.
pub open spec fn unquoted(s: Seq<char>) -> Seq<char> {
    text::trim(text::without_trailing(s.skip(text::leading(s, '\'') as int), '\''))
}

/// A sheet's name made legal: no forbidden characters, not empty, not too long.
pub open spec fn sanitised(name: Seq<char>) -> Seq<char> {
    let cleaned = unquoted(dashed(text::trim(name)));
    if cleaned.len() == 0 {
        "Sheet1"@
    } else if cleaned.len() > NAME_LENGTH {
        cleaned.take(NAME_LENGTH as int)
    } else {
        cleaned
    }
}

fn dashes(s: &[char]) -> (r: Vec<char>)
    ensures
        r@ == dashed(s@),
{
    let mut r: Vec<char> = Vec::new();
    let mut i: usize = 0;
    while i < s.len()
        invariant
            0 <= i <= s.len(),
            r@ == dashed(s@.take(i as int)),
        decreases s.len() - i,
    {
        let c = s[i];
        if c == '[' || c == ']' || c == ':' || c == '*' || c == '?' || c == '/' || c == '\\' {
            r.push('-');
        } else {
            r.push(c);
        }
        assert(r@ =~= dashed(s@.take(i + 1)));
        i = i + 1;
    }
    assert(s@.take(s@.len() as int) =~= s@);
    r
}

/// A spreadsheet program refuses a file over one bad sheet name, so the name is
/// fixed here.
pub fn sanitise(name: &str) -> (r: String)
    ensures
        r@ == sanitised(name@),
{
    let chars = text::chars_of(name);
    let dashed_name = dashes(text::trimmed(chars.as_slice()));
    let s = dashed_name.as_slice();
    let front = text::leading_of(s, '\'');
    let inner = text::trailing_off(slice_subrange(s, front, s.len()), '\'');
    let cleaned = text::trimmed(inner);
    if cleaned.len() == 0 {
        "Sheet1".to_owned()
    } else if cleaned.len() > NAME_LENGTH {
        text::string_of(slice_subrange(cleaned, 0, NAME_LENGTH))
    } else {
        text::string_of(cleaned)
    }
}

impl Default for Sheet {
    fn default() -> (r: Self)
        ensures
            r@ == (SheetModel { name: Seq::empty(), header: false, rows: Seq::empty() }),
    {
        let r = Sheet { name: String::new(), header: false, rows: Vec::new() };
        assert(r@.rows =~= Seq::empty());
        r
    }
}

impl Sheet {
    pub fn new(name: &str) -> (r: Self)
        ensures
            r@ == (SheetModel { name: sanitised(name@), header: true, rows: Seq::empty() }),
    {
        let r = Sheet { name: sanitise(name), header: true, rows: Vec::new() };
        assert(r@.rows =~= Seq::empty());
        r
    }

    /// The widest row, which is how many columns the sheet has.
    fn columns(&self) -> (r: usize)
        ensures
            r == columns_of(self@.rows),
    {
        let ghost all = self@.rows;
        let mut r: usize = 0;
        let mut i: usize = 0;
        while i < self.rows.len()
            invariant
                0 <= i <= self.rows.len(),
                all == sheet_rows(self.rows@),
                r == columns_of(all.take(i as int)),
            decreases self.rows.len() - i,
        {
            assert(all.take(i + 1).drop_last() =~= all.take(i as int));
            if self.rows[i].len() > r {
                r = self.rows[i].len();
            }
            i = i + 1;
        }
        assert(all.take(all.len() as int) =~= all);
        r
    }
}

/// The length of the longest row.
pub open spec fn columns_of(rows: Seq<Seq<CellModel>>) -> nat
    decreases rows.len(),
{
    if rows.len() == 0 {
        0
    } else if rows.last().len() > columns_of(rows.drop_last()) {
        rows.last().len()
    } else {
        columns_of(rows.drop_last())
    }
}

// ---------------------------------------------------------------------------
// Sheet names
// ---------------------------------------------------------------------------

/// Whether one of some names is the given one, whatever the case.
pub open spec fn is_taken(names: Seq<Seq<char>>, name: Seq<char>) -> bool {
    exists|j: int|
        0 <= j < names.len() && text::lowercase(#[trigger] names[j]) == text::lowercase(name)
}

/// What stands behind a name to tell it from others.
pub open spec fn suffix(number: nat) -> Seq<char> {
    " ("@ + text::decimal(number) + ")"@
}

/// The first `n` characters of a text.
pub open spec fn shortened_to(s: Seq<char>, n: int) -> Seq<char> {
    if n <= 0 {
        Seq::empty()
    } else if s.len() <= n {
        s
    } else {
        s.take(n)
    }
}

/// A name with a number behind it, cut so that both fit.
pub open spec fn numbered(base: Seq<char>, number: nat) -> Seq<char> {
    shortened_to(base, NAME_LENGTH - suffix(number).len()) + suffix(number)
}

/// The first number from `n` on that makes a name none of the others. One of as
/// many numbers as there are others, and one more, does.
pub open spec fn free_number(names: Seq<Seq<char>>, base: Seq<char>, n: nat) -> nat
    decreases names.len() + 2 - n,
{
    if n >= names.len() + 2 || !is_taken(names, numbered(base, n)) {
        n
    } else {
        free_number(names, base, n + 1)
    }
}

/// The name for a sheet behind others: its own, with a number from two on where
/// another has it.
pub open spec fn next_name(names: Seq<Seq<char>>, base: Seq<char>) -> Seq<char> {
    if is_taken(names, base) {
        numbered(base, free_number(names, base, 2))
    } else {
        base
    }
}

/// The names that sheets are written under: each one's own made legal, with a
/// number where an earlier sheet is written under it.
pub open spec fn written_names(sheets: Seq<SheetModel>) -> Seq<Seq<char>>
    decreases sheets.len(),
{
    if sheets.len() == 0 {
        Seq::empty()
    } else {
        let before = written_names(sheets.drop_last());
        before.push(next_name(before, sanitised(sheets.last().name)))
    }
}

/// Whether names differ, whatever the case.
pub open spec fn differ(names: Seq<Seq<char>>) -> bool {
    forall|i: int, j: int|
        0 <= i < j < names.len() ==> text::lowercase(#[trigger] names[i]) != text::lowercase(
            #[trigger] names[j],
        )
}

fn taken(names: &Vec<String>, name: &str) -> (r: bool)
    ensures
        r == is_taken(text::texts(names@), name@),
        forall|i: int|
            0 <= i <= name@.len() && text::is_caseless(#[trigger] name@.skip(i)) ==> text::ends(
                text::lowercase(name@),
                name@.skip(i),
            ),
{
    let wanted = name.to_lowercase();
    let ghost all = text::texts(names@);
    let mut i: usize = 0;
    while i < names.len()
        invariant
            0 <= i <= names.len(),
            wanted@ == text::lowercase(name@),
            all == text::texts(names@),
            forall|j: int| 0 <= j < i ==> text::lowercase(#[trigger] all[j]) != wanted@,
            forall|k: int|
                0 <= k <= name@.len() && text::is_caseless(#[trigger] name@.skip(k)) ==> text::ends(
                    wanted@,
                    name@.skip(k),
                ),
        decreases names.len() - i,
    {
        let key = names[i].as_str().to_lowercase();
        assert(all[i as int] == names@[i as int]@);
        if text::same(key.as_str(), wanted.as_str()) {
            return true;
        }
        i = i + 1;
    }
    false
}

fn with_number(base: &str, number: u128) -> (r: String)
    ensures
        r@ == numbered(base@, number as nat),
{
    let mut tail = " (".to_owned();
    text::push_decimal(&mut tail, number);
    tail.append(")");
    let tail_length: usize = text::chars_of(tail.as_str()).len();
    let chars = text::chars_of(base);
    let keep: usize = if tail_length < NAME_LENGTH {
        NAME_LENGTH - tail_length
    } else {
        0
    };
    let mut r = if chars.len() <= keep {
        base.to_owned()
    } else {
        text::string_of(slice_subrange(chars.as_slice(), 0, keep))
    };
    assert(r@ =~= shortened_to(base@, NAME_LENGTH - tail@.len()));
    r.append(tail.as_str());
    r
}

/// Whether the lower case of a name with a number behind it has the number too.
spec fn keeps_number(base: Seq<char>, n: nat) -> bool {
    text::ends(text::lowercase(numbered(base, n)), suffix(n))
}

proof fn lemma_keeps_number(base: Seq<char>, n: nat)
    requires
        forall|i: int|
            0 <= i <= numbered(base, n).len() && text::is_caseless(
                #[trigger] numbered(base, n).skip(i),
            ) ==> text::ends(text::lowercase(numbered(base, n)), numbered(base, n).skip(i)),
    ensures
        keeps_number(base, n),
{
    reveal_strlit(" (");
    reveal_strlit(")");
    text::lemma_decimal(n);
    let tail = suffix(n);
    let name = numbered(base, n);
    let at = name.len() - tail.len();
    assert(name.skip(at) =~= tail);
    assert forall|i: int| 0 <= i < tail.len() implies (#[trigger] tail[i] as int) < 0x80 && !('A'
        <= tail[i] && tail[i] <= 'Z') && !('a' <= tail[i] && tail[i] <= 'z') by {
        if 2 <= i < tail.len() - 1 {
            assert(tail[i] == text::decimal(n)[i - 2]);
        }
    }
}

/// Of more numbers than there are names, one makes a name of its own.
proof fn lemma_number_is_free(names: Seq<Seq<char>>, base: Seq<char>)
    requires
        forall|n: nat|
            2 <= n <= names.len() + 2 ==> #[trigger] keeps_number(base, n),
    ensures
        exists|n: nat| 2 <= n <= names.len() + 2 && !#[trigger] is_taken(names, numbered(base, n)),
{
    broadcast use vstd::set_lib::group_set_properties, vstd::seq_lib::seq_to_set_is_finite;

    let lowered = names.map_values(|name: Seq<char>| text::lowercase(name));
    let tries = Seq::new(
        names.len() + 1,
        |i: int| text::lowercase(numbered(base, (i + 2) as nat)),
    );
    assert(tries.no_duplicates()) by {
        assert forall|i: int, j: int| 0 <= i < j < tries.len() implies tries[i] != tries[j] by {
            let m = (i + 2) as nat;
            let n = (j + 2) as nat;
            assert(keeps_number(base, m) && keeps_number(base, n));
            let x = tries[i];
            let y = tries[j];
            if x == y {
                let a = x.take(x.len() - suffix(m).len());
                let b = y.take(y.len() - suffix(n).len());
                assert(x =~= a + x.skip(x.len() - suffix(m).len()));
                assert(y =~= b + y.skip(y.len() - suffix(n).len()));
                lemma_numbered(a, m, b, n);
            }
        }
    }
    if forall|n: nat|
        2 <= n <= names.len() + 2 ==> #[trigger] is_taken(names, numbered(base, n)) {
        assert forall|s: Seq<char>| tries.to_set().contains(s) implies lowered.to_set().contains(
            s,
        ) by {
            let i = choose|i: int| 0 <= i < tries.len() && tries[i] == s;
            let name = numbered(base, (i + 2) as nat);
            assert(is_taken(names, name));
            let j = choose|j: int|
                0 <= j < names.len() && text::lowercase(#[trigger] names[j]) == text::lowercase(name);
            assert(lowered[j] == s);
        }
        tries.unique_seq_to_set();
        lowered.lemma_cardinality_of_set();
        vstd::set_lib::lemma_len_subset(tries.to_set(), lowered.to_set());
    }
}

/// The name for a sheet behind others, which none of them has.
fn name_behind(names: &Vec<String>, base: &str) -> (r: String)
    ensures
        r@ == next_name(text::texts(names@), base@),
        !is_taken(text::texts(names@), r@),
{
    let ghost all = text::texts(names@);
    if !taken(names, base) {
        return base.to_owned();
    }
    let most: u128 = names.len() as u128 + 2;
    let mut n: u128 = 2;
    loop
        invariant
            2 <= n <= most,
            most == names.len() + 2,
            all == text::texts(names@),
            is_taken(all, base@),
            free_number(all, base@, 2) == free_number(all, base@, n as nat),
            forall|m: nat|
                2 <= m < n ==> #[trigger] keeps_number(base@, m) && is_taken(
                    all,
                    numbered(base@, m),
                ),
        decreases most - n,
    {
        let name = with_number(base, n);
        let used = taken(names, name.as_str());
        proof {
            lemma_keeps_number(base@, n as nat);
        }
        if !used {
            return name;
        }
        proof {
            if n == most {
                lemma_number_is_free(all, base@);
                let m = choose|m: nat|
                    2 <= m <= all.len() + 2 && !#[trigger] is_taken(all, numbered(base@, m));
                assert(keeps_number(base@, m));
            }
        }
        n = n + 1;
    }
}

/// The names that sheets are written under. No two of them are the same, whatever
/// the case.
pub fn names_for(sheets: &[Sheet]) -> (r: Vec<String>)
    ensures
        text::texts(r@) == written_names(sheets_model(sheets@)),
        differ(text::texts(r@)),
{
    let ghost all = sheets_model(sheets@);
    let mut r: Vec<String> = Vec::new();
    let mut i: usize = 0;
    assert(text::texts(r@) =~= written_names(all.take(0)));
    while i < sheets.len()
        invariant
            0 <= i <= sheets.len(),
            all == sheets_model(sheets@),
            text::texts(r@) == written_names(all.take(i as int)),
            differ(text::texts(r@)),
        decreases sheets.len() - i,
    {
        let base = sanitise(sheets[i].name.as_str());
        let name = name_behind(&r, base.as_str());
        let ghost before = text::texts(r@);
        r.push(name);
        proof {
            assert(text::texts(r@) =~= before.push(name@));
            assert(all.take(i + 1).drop_last() =~= all.take(i as int));
            let now = text::texts(r@);
            assert forall|a: int, b: int| 0 <= a < b < now.len() implies text::lowercase(
                #[trigger] now[a],
            ) != text::lowercase(#[trigger] now[b]) by {
                assert(now[a] == before[a]);
                if b < before.len() {
                    assert(now[b] == before[b]);
                }
            }
        }
        i = i + 1;
    }
    assert(all.take(all.len() as int) =~= all);
    r
}

// ---------------------------------------------------------------------------
// Shared strings
// ---------------------------------------------------------------------------

/// The texts of a row's cells, in order.
pub open spec fn row_texts(cells: Seq<CellModel>) -> Seq<Seq<char>>
    decreases cells.len(),
{
    if cells.len() == 0 {
        Seq::empty()
    } else {
        match cells.last() {
            CellModel::Text(s) => row_texts(cells.drop_last()).push(s),
            _ => row_texts(cells.drop_last()),
        }
    }
}

/// The texts of a sheet's rows, in order.
pub open spec fn rows_texts(rows: Seq<Seq<CellModel>>) -> Seq<Seq<char>>
    decreases rows.len(),
{
    if rows.len() == 0 {
        Seq::empty()
    } else {
        rows_texts(rows.drop_last()) + row_texts(rows.last())
    }
}

/// The texts of all sheets, in order.
pub open spec fn all_texts(sheets: Seq<SheetModel>) -> Seq<Seq<char>>
    decreases sheets.len(),
{
    if sheets.len() == 0 {
        Seq::empty()
    } else {
        all_texts(sheets.drop_last()) + rows_texts(sheets.last().rows)
    }
}

/// Each text once, where it first occurs.
pub open spec fn distinct(uses: Seq<Seq<char>>) -> Seq<Seq<char>>
    decreases uses.len(),
{
    if uses.len() == 0 {
        Seq::empty()
    } else if distinct(uses.drop_last()).contains(uses.last()) {
        distinct(uses.drop_last())
    } else {
        distinct(uses.drop_last()).push(uses.last())
    }
}

/// A text is stored once, however often it is used, and every text that is used
/// is stored.
pub proof fn repeated_strings_are_stored_once(uses: Seq<Seq<char>>)
    ensures
        distinct(uses).no_duplicates(),
        forall|s: Seq<char>| #[trigger] distinct(uses).contains(s) <==> uses.contains(s),
    decreases uses.len(),
{
    if uses.len() > 0 {
        let rest = uses.drop_last();
        repeated_strings_are_stored_once(rest);
        assert forall|s: Seq<char>| #[trigger] distinct(uses).contains(s) <==> uses.contains(
            s,
        ) by {
            let d = distinct(rest);
            if uses.contains(s) {
                let i = choose|i: int| 0 <= i < uses.len() && uses[i] == s;
                if i < rest.len() {
                    assert(rest[i] == s);
                    assert(rest.contains(s));
                    assert(d.contains(s));
                    let k = choose|k: int| 0 <= k < d.len() && d[k] == s;
                    assert(distinct(uses)[k] == s);
                } else if !d.contains(uses.last()) {
                    assert(distinct(uses)[d.len() as int] == s);
                }
            }
            if distinct(uses).contains(s) {
                let k = choose|k: int| 0 <= k < distinct(uses).len() && distinct(uses)[k] == s;
                if k < d.len() {
                    assert(d[k] == s);
                    assert(d.contains(s));
                    assert(rest.contains(s));
                    let i = choose|i: int| 0 <= i < rest.len() && rest[i] == s;
                    assert(uses[i] == s);
                } else {
                    assert(uses[uses.len() - 1] == s);
                }
            }
        }
    }
}

/// What is stored for the first uses stays where it is as more follow.
proof fn lemma_distinct_grows(uses: Seq<Seq<char>>, more: Seq<Seq<char>>)
    ensures
        distinct(uses).len() <= distinct(uses + more).len(),
        distinct(uses + more).take(distinct(uses).len() as int) == distinct(uses),
    decreases more.len(),
{
    if more.len() == 0 {
        assert(uses + more =~= uses);
        assert(distinct(uses).take(distinct(uses).len() as int) =~= distinct(uses));
    } else {
        lemma_distinct_grows(uses, more.drop_last());
        assert((uses + more).drop_last() =~= uses + more.drop_last());
        assert(distinct(uses + more).take(distinct(uses).len() as int) =~= distinct(
            uses + more.drop_last(),
        ).take(distinct(uses).len() as int));
    }
}

/// Where a text is stored.
pub open spec fn place(order: Seq<Seq<char>>, s: Seq<char>) -> int {
    order.index_of(s)
}

/// The place that was found among the first uses is the place among all.
proof fn lemma_place(uses: Seq<Seq<char>>, more: Seq<Seq<char>>, s: Seq<char>, at: int)
    requires
        0 <= at < distinct(uses).len(),
        distinct(uses)[at] == s,
    ensures
        place(distinct(uses + more), s) == at,
{
    lemma_distinct_grows(uses, more);
    repeated_strings_are_stored_once(uses + more);
    let order = distinct(uses + more);
    assert(order[at] == order.take(distinct(uses).len() as int)[at]);
    assert(order.contains(s));
}

/// The shared-strings table.
struct Strings {
    order: Vec<String>,
    /// Every use, including repeats.
    total: usize,
}

impl Strings {
    /// The table holds what the given uses put in it.
    spec fn holds(&self, uses: Seq<Seq<char>>) -> bool {
        &&& text::texts(self.order@) == distinct(uses)
        &&& self.total == uses.len()
    }

    fn new() -> (r: Self)
        ensures
            r.holds(Seq::empty()),
    {
        let r = Strings { order: Vec::new(), total: 0 };
        assert(text::texts(r.order@) =~= Seq::empty());
        r
    }

    fn intern(&mut self, s: &str, uses: Ghost<Seq<Seq<char>>>) -> (r: usize)
        requires
            old(self).holds(uses@),
            uses@.len() < usize::MAX,
        ensures
            final(self).holds(uses@.push(s@)),
            r < distinct(uses@.push(s@)).len(),
            distinct(uses@.push(s@))[r as int] == s@,
    {
        let ghost order = distinct(uses@);
        assert(uses@.push(s@).drop_last() =~= uses@);
        self.total = self.total + 1;
        let mut i: usize = 0;
        while i < self.order.len()
            invariant
                0 <= i <= self.order.len(),
                text::texts(self.order@) == order,
                order == distinct(uses@),
                uses@.push(s@).drop_last() == uses@,
                self.total == uses@.len() + 1,
                forall|j: int| 0 <= j < i ==> order[j] != s@,
            decreases self.order.len() - i,
        {
            assert(order[i as int] == self.order@[i as int]@);
            if text::same(self.order[i].as_str(), s) {
                assert(order.contains(s@));
                return i;
            }
            i = i + 1;
        }
        assert(!order.contains(s@));
        let position = self.order.len();
        self.order.push(s.to_owned());
        assert(text::texts(self.order@) =~= order.push(s@));
        position
    }
}

/// One entry of the table.
pub open spec fn string_item(s: Seq<char>) -> Seq<char> {
    "<si><t xml:space=\"preserve\">"@ + escaped(s) + "</t></si>"@
}

/// Each entry of the table.
pub open spec fn string_items(order: Seq<Seq<char>>) -> Seq<Seq<char>> {
    order.map_values(|s: Seq<char>| string_item(s))
}

/// The table, with how often its strings are used and how many there are.
#[verifier::opaque]
pub open spec fn strings_part(uses: Seq<Seq<char>>) -> Seq<char> {
    "<?xml version=\"1.0\" encoding=\"UTF-8\" standalone=\"yes\"?>\n<sst xmlns=\""@ + SPREADSHEET@
        + r#"" count=""#@ + text::decimal(uses.len()) + r#"" uniqueCount=""#@ + text::decimal(
        distinct(uses).len(),
    ) + r#"">"#@ + text::concat(string_items(distinct(uses))) + "</sst>"@
}

fn items(order: &Vec<String>) -> (r: String)
    ensures
        r@ == text::concat(string_items(text::texts(order@))),
{
    let ghost all = string_items(text::texts(order@));
    let mut r = String::new();
    let mut i: usize = 0;
    while i < order.len()
        invariant
            0 <= i <= order.len(),
            all == string_items(text::texts(order@)),
            r@ == text::concat(all.take(i as int)),
        decreases order.len() - i,
    {
        let safe = escape(order[i].as_str());
        let mut one = "<si><t xml:space=\"preserve\">".to_owned();
        one.append(safe.as_str());
        one.append("</t></si>");
        r.append(one.as_str());
        proof {
            text::lemma_concat_take(all, i as int);
        }
        i = i + 1;
    }
    assert(all.take(all.len() as int) =~= all);
    r
}

impl Strings {
    fn finish(&self, uses: Ghost<Seq<Seq<char>>>) -> (r: String)
        requires
            self.holds(uses@),
        ensures
            r@ == strings_part(uses@),
    {
        proof {
            reveal(strings_part);
        }
        let mut r =
            "<?xml version=\"1.0\" encoding=\"UTF-8\" standalone=\"yes\"?>\n<sst xmlns=\"".to_owned();
        r.append(SPREADSHEET);
        r.append(r#"" count=""#);
        text::push_decimal(&mut r, self.total as u128);
        r.append(r#"" uniqueCount=""#);
        assert(self.order.len() == text::texts(self.order@).len());
        text::push_decimal(&mut r, self.order.len() as u128);
        r.append(r#"">"#);
        let entries = items(&self.order);
        r.append(entries.as_str());
        r.append("</sst>");
        r
    }
}

// ---------------------------------------------------------------------------
// Columns
// ---------------------------------------------------------------------------

/// The letter with the given number.
pub open spec fn letter(n: int) -> char {
    (n + 0x41) as char
}

/// The name of a column: 0 is A, 25 is Z, 26 is AA.
pub open spec fn column_label(index: nat) -> Seq<char>
    decreases index,
{
    if index < 26 {
        seq![letter(index as int)]
    } else {
        column_label((index / 26 - 1) as nat).push(letter((index % 26) as int))
    }
}

/// Column names are bijective base 26, which is not the same as base 26.
pub fn column_name(index: usize) -> (r: String)
    ensures
        r@ == column_label(index as nat),
    decreases index,
{
    let last = ((index % 26) as u8 + 0x41u8) as char;
    if index < 26 {
        let mut r = String::new();
        r.push(last);
        assert(r@ =~= column_label(index as nat));
        r
    } else {
        let mut r = column_name(index / 26 - 1);
        r.push(last);
        r
    }
}

/// Two columns never share a name.
pub proof fn columns_have_names_of_their_own(a: nat, b: nat)
    requires
        column_label(a) == column_label(b),
    ensures
        a == b,
    decreases a,
{
    let x = column_label(a);
    let y = column_label(b);
    lemma_label_length(a);
    lemma_label_length(b);
    assert(x.last() as int == a % 26 + 0x41);
    assert(y.last() as int == b % 26 + 0x41);
    if a >= 26 && b >= 26 {
        assert(x.drop_last() =~= column_label((a / 26 - 1) as nat));
        assert(y.drop_last() =~= column_label((b / 26 - 1) as nat));
        columns_have_names_of_their_own((a / 26 - 1) as nat, (b / 26 - 1) as nat);
    }
}

proof fn lemma_label_length(index: nat)
    ensures
        index < 26 ==> column_label(index).len() == 1,
        index >= 26 ==> column_label(index).len() > 1,
    decreases index,
{
    if index >= 26 {
        lemma_label_length((index / 26 - 1) as nat);
    }
}

/// How wide a cell is shown.
pub open spec fn display(cell: CellModel) -> nat {
    match cell {
        CellModel::Empty => 0,
        CellModel::Text(s) => s.len(),
        CellModel::Number(s) => s.len(),
        CellModel::Bool(value) => 5,
        CellModel::Formula(s) => if s.len() < 20 {
            s.len()
        } else {
            20
        },
    }
}

fn display_width(cell: &Cell) -> (r: usize)
    ensures
        r == display(cell@),
{
    match cell {
        Cell::Empty => 0,
        Cell::Text(s) => text::chars_of(s.as_str()).len(),
        Cell::Number(s) => text::chars_of(s.as_str()).len(),
        Cell::Bool(_) => 5,
        Cell::Formula(s) => {
            let n: usize = text::chars_of(s.as_str()).len();
            if n < 20 {
                n
            } else {
                20
            }
        },
    }
}

/// The width of the widest cell in a column.
pub open spec fn widest_in(rows: Seq<Seq<CellModel>>, column: int) -> nat
    decreases rows.len(),
{
    if rows.len() == 0 {
        0
    } else {
        let rest = widest_in(rows.drop_last(), column);
        if column < rows.last().len() && display(rows.last()[column]) > rest {
            display(rows.last()[column])
        } else {
            rest
        }
    }
}

/// The width of a column: that of its widest cell and a little more, within
/// reason.
pub open spec fn column_width(rows: Seq<Seq<CellModel>>, column: int) -> nat {
    let wanted = widest_in(rows, column) + 2;
    if wanted < 8 {
        8
    } else if wanted > 60 {
        60
    } else {
        wanted
    }
}

fn width_of(rows: &Vec<Vec<Cell>>, column: usize) -> (r: usize)
    ensures
        r == column_width(sheet_rows(rows@), column as int),
{
    let ghost all = sheet_rows(rows@);
    let mut widest: usize = 0;
    let mut i: usize = 0;
    while i < rows.len()
        invariant
            0 <= i <= rows.len(),
            all == sheet_rows(rows@),
            widest == widest_in(all.take(i as int), column as int),
        decreases rows.len() - i,
    {
        assert(all.take(i + 1).drop_last() =~= all.take(i as int));
        let row = &rows[i];
        if column < row.len() {
            let w = display_width(&row[column]);
            if w > widest {
                widest = w;
            }
        }
        i = i + 1;
    }
    assert(all.take(all.len() as int) =~= all);
    if widest < 6 {
        8
    } else if widest > 58 {
        60
    } else {
        widest + 2
    }
}

/// One column's width.
pub open spec fn column_xml(rows: Seq<Seq<CellModel>>, column: int) -> Seq<char> {
    r#"<col min=""#@ + text::decimal((column + 1) as nat) + r#"" max=""#@ + text::decimal(
        (column + 1) as nat,
    ) + r#"" width=""#@ + text::decimal(column_width(rows, column)) + r#"" customWidth="1"/>"#@
}

/// Each column's width.
pub open spec fn columns_xml(rows: Seq<Seq<CellModel>>) -> Seq<Seq<char>> {
    Seq::new(columns_of(rows), |column: int| column_xml(rows, column))
}

/// The widths of the columns, where there are any.
pub open spec fn widths_xml(rows: Seq<Seq<CellModel>>) -> Seq<char> {
    text::given(
        columns_of(rows) > 0,
        "<cols>"@ + text::concat(columns_xml(rows)) + "</cols>"@,
    )
}

fn widths(rows: &Vec<Vec<Cell>>, columns: usize) -> (r: String)
    requires
        columns == columns_of(sheet_rows(rows@)),
    ensures
        r@ == widths_xml(sheet_rows(rows@)),
{
    if columns == 0 {
        return String::new();
    }
    let mut r = "<cols>".to_owned();
    let ghost start = r@;
    let ghost all = columns_xml(sheet_rows(rows@));
    let mut i: usize = 0;
    assert(start + text::concat(all.take(0)) =~= start);
    while i < columns
        invariant
            0 <= i <= columns,
            columns == columns_of(sheet_rows(rows@)),
            all == columns_xml(sheet_rows(rows@)),
            r@ == start + text::concat(all.take(i as int)),
        decreases columns - i,
    {
        let width = width_of(rows, i);
        let mut one = r#"<col min=""#.to_owned();
        text::push_decimal(&mut one, i as u128 + 1);
        one.append(r#"" max=""#);
        text::push_decimal(&mut one, i as u128 + 1);
        one.append(r#"" width=""#);
        text::push_decimal(&mut one, width as u128);
        one.append(r#"" customWidth="1"/>"#);
        let ghost before = text::concat(all.take(i as int));
        r.append(one.as_str());
        proof {
            text::lemma_concat_take(all, i as int);
            assert(start + before + all[i as int] =~= start + (before + all[i as int]));
        }
        i = i + 1;
    }
    assert(all.take(all.len() as int) =~= all);
    r.append("</cols>");
    r
}

// ---------------------------------------------------------------------------
// Cells, rows and sheets
// ---------------------------------------------------------------------------

/// Where a cell stands and how it looks: its column, its row, and the style of
/// a header.
pub open spec fn cell_start(column: int, row: int, header: bool) -> Seq<char> {
    r#"<c r=""#@ + column_label(column as nat) + text::decimal(row as nat) + r#"""#@ + text::given(
        header,
        r#" s="1""#@,
    )
}

/// One cell. Text goes through the shared strings; an empty cell is written
/// only in a header, where it has a style.
pub open spec fn cell_xml(
    cell: CellModel,
    column: int,
    row: int,
    header: bool,
    order: Seq<Seq<char>>,
) -> Seq<char> {
    let start = cell_start(column, row, header);
    match cell {
        CellModel::Empty => text::given(header, start + "/>"@),
        CellModel::Number(n) => start + "><v>"@ + n + "</v></c>"@,
        CellModel::Bool(value) => start + r#" t="b"><v>"#@ + text::decimal(
            if value {
                1
            } else {
                0
            },
        ) + "</v></c>"@,
        CellModel::Formula(f) => start + "><f>"@ + escaped(f) + "</f></c>"@,
        CellModel::Text(s) => start + r#" t="s"><v>"#@ + text::decimal(place(order, s) as nat)
            + "</v></c>"@,
    }
}

/// Each cell of a row.
pub open spec fn row_cells(
    cells: Seq<CellModel>,
    row: int,
    header: bool,
    order: Seq<Seq<char>>,
) -> Seq<Seq<char>> {
    Seq::new(cells.len(), |column: int| cell_xml(cells[column], column, row, header, order))
}

/// One row.
pub open spec fn row_xml(
    cells: Seq<CellModel>,
    row: int,
    header: bool,
    order: Seq<Seq<char>>,
) -> Seq<char> {
    "<row r=\""@ + text::decimal(row as nat) + "\">"@ + text::concat(
        row_cells(cells, row, header, order),
    ) + "</row>"@
}

/// Each row of a sheet. The first is the header where the sheet has one.
pub open spec fn all_rows(sheet: SheetModel, order: Seq<Seq<char>>) -> Seq<Seq<char>> {
    Seq::new(
        sheet.rows.len(),
        |i: int| row_xml(sheet.rows[i], i + 1, sheet.header && i == 0, order),
    )
}

/// Whether the header row of a sheet is frozen and filterable.
pub open spec fn has_header(sheet: SheetModel) -> bool {
    sheet.header && sheet.rows.len() > 0
}

/// The filter over all of a sheet's columns and rows.
pub open spec fn filter_xml(sheet: SheetModel) -> Seq<char> {
    let columns = columns_of(sheet.rows);
    text::given(
        has_header(sheet),
        r#"<autoFilter ref="A1:"#@ + column_label(
            if columns == 0 {
                0
            } else {
                (columns - 1) as nat
            },
        ) + text::decimal(sheet.rows.len()) + r#""/>"#@,
    )
}

/// A sheet.
#[verifier::opaque]
pub open spec fn sheet_part(sheet: SheetModel, order: Seq<Seq<char>>) -> Seq<char> {
    "<?xml version=\"1.0\" encoding=\"UTF-8\" standalone=\"yes\"?>\n<worksheet xmlns=\""@
        + SPREADSHEET@ + r#""><sheetViews><sheetView workbookViewId="0">"#@ + text::given(
        has_header(sheet),
        r#"<pane ySplit="1" topLeftCell="A2" activePane="bottomLeft" state="frozen"/>"#@,
    ) + "</sheetView></sheetViews>"@ + widths_xml(sheet.rows) + "<sheetData>"@ + text::concat(
        all_rows(sheet, order),
    ) + "</sheetData>"@ + filter_xml(sheet) + "</worksheet>"@
}

fn start_of(column: usize, row: u128, header: bool) -> (r: String)
    ensures
        r@ == cell_start(column as int, row as int, header),
{
    let mut r = r#"<c r=""#.to_owned();
    let name = column_name(column);
    r.append(name.as_str());
    text::push_decimal(&mut r, row);
    r.append(r#"""#);
    text::push_given(&mut r, header, r#" s="1""#);
    r
}

fn write_cell(
    cell: &Cell,
    column: usize,
    row: u128,
    header: bool,
    strings: &mut Strings,
    done: Ghost<Seq<Seq<char>>>,
    more: Ghost<Seq<Seq<char>>>,
) -> (r: String)
    requires
        old(strings).holds(done@),
        cell@ is Text ==> done@.len() < usize::MAX,
    ensures
        final(strings).holds(
            match cell@ {
                CellModel::Text(s) => done@.push(s),
                _ => done@,
            },
        ),
        r@ == cell_xml(
            cell@,
            column as int,
            row as int,
            header,
            distinct(
                match cell@ {
                    CellModel::Text(s) => done@.push(s),
                    _ => done@,
                } + more@,
            ),
        ),
{
    let mut r = start_of(column, row, header);
    match cell {
        Cell::Empty => {
            if header {
                r.append("/>");
            } else {
                r = String::new();
            }
        },
        Cell::Number(n) => {
            r.append("><v>");
            r.append(n.as_str());
            r.append("</v></c>");
        },
        Cell::Bool(value) => {
            r.append(r#" t="b"><v>"#);
            text::push_decimal(
                &mut r,
                if *value {
                    1
                } else {
                    0
                },
            );
            r.append("</v></c>");
        },
        Cell::Formula(f) => {
            r.append("><f>");
            let safe = escape(f.as_str());
            r.append(safe.as_str());
            r.append("</f></c>");
        },
        Cell::Text(s) => {
            let at = strings.intern(s.as_str(), done);
            proof {
                lemma_place(done@.push(s@), more@, s@, at as int);
            }
            r.append(r#" t="s"><v>"#);
            text::push_decimal(&mut r, at as u128);
            r.append("</v></c>");
        },
    }
    r
}

/// The texts of a row are those of its first cells and of those that follow.
proof fn lemma_row_texts_split(cells: Seq<CellModel>, i: int)
    requires
        0 <= i <= cells.len(),
    ensures
        row_texts(cells) == row_texts(cells.take(i)) + row_texts(cells.skip(i)),
    decreases cells.len(),
{
    if i == cells.len() {
        assert(cells.take(i) =~= cells);
        assert(cells.skip(i) =~= Seq::empty());
        assert(row_texts(cells) + row_texts(cells.skip(i)) =~= row_texts(cells));
    } else {
        let rest = cells.drop_last();
        assert(rest.take(i) =~= cells.take(i));
        assert(rest.skip(i) =~= cells.skip(i).drop_last());
        lemma_row_texts_split(rest, i);
        assert(cells.skip(i).last() == cells.last());
        assert(row_texts(cells) =~= row_texts(cells.take(i)) + row_texts(cells.skip(i)));
    }
}

/// The texts of some rows are those of the first and of those that follow.
proof fn lemma_rows_texts_split(rows: Seq<Seq<CellModel>>, i: int)
    requires
        0 <= i <= rows.len(),
    ensures
        rows_texts(rows) == rows_texts(rows.take(i)) + rows_texts(rows.skip(i)),
    decreases rows.len(),
{
    if i == rows.len() {
        assert(rows.take(i) =~= rows);
        assert(rows.skip(i) =~= Seq::empty());
        assert(rows_texts(rows) + rows_texts(rows.skip(i)) =~= rows_texts(rows));
    } else {
        let rest = rows.drop_last();
        assert(rest.take(i) =~= rows.take(i));
        assert(rest.skip(i) =~= rows.skip(i).drop_last());
        lemma_rows_texts_split(rest, i);
        assert(rows.skip(i).last() == rows.last());
        assert(rows_texts(rows) =~= rows_texts(rows.take(i)) + rows_texts(rows.skip(i)));
    }
}

/// The texts of some sheets are those of the first and of those that follow.
proof fn lemma_all_texts_split(sheets: Seq<SheetModel>, i: int)
    requires
        0 <= i <= sheets.len(),
    ensures
        all_texts(sheets) == all_texts(sheets.take(i)) + all_texts(sheets.skip(i)),
    decreases sheets.len(),
{
    if i == sheets.len() {
        assert(sheets.take(i) =~= sheets);
        assert(sheets.skip(i) =~= Seq::empty());
        assert(all_texts(sheets) + all_texts(sheets.skip(i)) =~= all_texts(sheets));
    } else {
        let rest = sheets.drop_last();
        assert(rest.take(i) =~= sheets.take(i));
        assert(rest.skip(i) =~= sheets.skip(i).drop_last());
        lemma_all_texts_split(rest, i);
        assert(sheets.skip(i).last() == sheets.last());
        assert(all_texts(sheets) =~= all_texts(sheets.take(i)) + all_texts(sheets.skip(i)));
    }
}

fn write_row(
    cells: &Vec<Cell>,
    row: u128,
    header: bool,
    strings: &mut Strings,
    done: Ghost<Seq<Seq<char>>>,
    more: Ghost<Seq<Seq<char>>>,
) -> (r: String)
    requires
        old(strings).holds(done@),
        done@.len() + row_texts(row_model(cells@)).len() <= usize::MAX,
    ensures
        final(strings).holds(done@ + row_texts(row_model(cells@))),
        r@ == row_xml(
            row_model(cells@),
            row as int,
            header,
            distinct(done@ + row_texts(row_model(cells@)) + more@),
        ),
{
    let ghost model = row_model(cells@);
    let ghost order = distinct(done@ + row_texts(model) + more@);
    let ghost all = row_cells(model, row as int, header, order);
    let mut r = "<row r=\"".to_owned();
    text::push_decimal(&mut r, row);
    r.append("\">");
    let ghost start = r@;
    let mut i: usize = 0;
    assert(start + text::concat(all.take(0)) =~= start);
    assert(done@ + row_texts(model.take(0)) =~= done@);
    while i < cells.len()
        invariant
            0 <= i <= cells.len(),
            model == row_model(cells@),
            order == distinct(done@ + row_texts(model) + more@),
            all == row_cells(model, row as int, header, order),
            done@.len() + row_texts(model).len() <= usize::MAX,
            strings.holds(done@ + row_texts(model.take(i as int))),
            r@ == start + text::concat(all.take(i as int)),
        decreases cells.len() - i,
    {
        let ghost now = done@ + row_texts(model.take(i as int));
        let ghost grown = done@ + row_texts(model.take(i + 1));
        let ghost rest = row_texts(model.skip(i + 1)) + more@;
        proof {
            assert(model.take(i + 1).drop_last() =~= model.take(i as int));
            lemma_row_texts_split(model, i + 1);
            lemma_row_texts_split(model, i as int);
            assert(done@ + row_texts(model) + more@ =~= grown + rest);
            match model[i as int] {
                CellModel::Text(s) => {
                    assert(grown =~= now.push(s));
                },
                _ => {
                    assert(grown =~= now);
                },
            }
            assert(grown.len() <= done@.len() + row_texts(model).len());
        }
        let ghost before = text::concat(all.take(i as int));
        let one = write_cell(&cells[i], i, row, header, strings, Ghost(now), Ghost(rest));
        r.append(one.as_str());
        proof {
            text::lemma_concat_take(all, i as int);
            assert(start + before + all[i as int] =~= start + (before + all[i as int]));
        }
        i = i + 1;
    }
    assert(model.take(model.len() as int) =~= model);
    assert(all.take(all.len() as int) =~= all);
    r.append("</row>");
    r
}

fn write_rows(
    sheet: &Sheet,
    strings: &mut Strings,
    done: Ghost<Seq<Seq<char>>>,
    more: Ghost<Seq<Seq<char>>>,
) -> (r: String)
    requires
        old(strings).holds(done@),
        done@.len() + rows_texts(sheet@.rows).len() <= usize::MAX,
    ensures
        final(strings).holds(done@ + rows_texts(sheet@.rows)),
        r@ == text::concat(
            all_rows(sheet@, distinct(done@ + rows_texts(sheet@.rows) + more@)),
        ),
{
    let ghost model = sheet@;
    let ghost order = distinct(done@ + rows_texts(model.rows) + more@);
    let ghost all = all_rows(model, order);
    let mut r = String::new();
    let mut i: usize = 0;
    assert(done@ + rows_texts(model.rows.take(0)) =~= done@);
    while i < sheet.rows.len()
        invariant
            0 <= i <= sheet.rows.len(),
            model == sheet@,
            order == distinct(done@ + rows_texts(model.rows) + more@),
            all == all_rows(model, order),
            done@.len() + rows_texts(model.rows).len() <= usize::MAX,
            strings.holds(done@ + rows_texts(model.rows.take(i as int))),
            r@ == text::concat(all.take(i as int)),
        decreases sheet.rows.len() - i,
    {
        let ghost now = done@ + rows_texts(model.rows.take(i as int));
        let ghost here = row_texts(model.rows[i as int]);
        let ghost rest = rows_texts(model.rows.skip(i + 1)) + more@;
        proof {
            assert(model.rows.take(i + 1).drop_last() =~= model.rows.take(i as int));
            lemma_rows_texts_split(model.rows, i + 1);
            assert(done@ + rows_texts(model.rows.take(i + 1)) =~= now + here);
            assert(done@ + rows_texts(model.rows) + more@ =~= now + here + rest);
        }
        let header = sheet.header && i == 0;
        let one = write_row(&sheet.rows[i], i as u128 + 1, header, strings, Ghost(now), Ghost(rest));
        r.append(one.as_str());
        proof {
            text::lemma_concat_take(all, i as int);
        }
        i = i + 1;
    }
    assert(model.rows.take(model.rows.len() as int) =~= model.rows);
    assert(all.take(all.len() as int) =~= all);
    r
}

fn filter_of(sheet: &Sheet, columns: usize) -> (r: String)
    requires
        columns == columns_of(sheet@.rows),
    ensures
        r@ == filter_xml(sheet@),
{
    if !(sheet.header && sheet.rows.len() > 0) {
        return String::new();
    }
    let last: usize = if columns == 0 {
        0
    } else {
        columns - 1
    };
    let mut r = r#"<autoFilter ref="A1:"#.to_owned();
    let name = column_name(last);
    r.append(name.as_str());
    text::push_decimal(&mut r, sheet.rows.len() as u128);
    r.append(r#""/>"#);
    r
}

/// Writes a sheet, and puts its texts in the shared strings.
fn sheet_xml(
    sheet: &Sheet,
    strings: &mut Strings,
    done: Ghost<Seq<Seq<char>>>,
    more: Ghost<Seq<Seq<char>>>,
) -> (r: String)
    requires
        old(strings).holds(done@),
        done@.len() + rows_texts(sheet@.rows).len() <= usize::MAX,
    ensures
        final(strings).holds(done@ + rows_texts(sheet@.rows)),
        r@ == sheet_part(sheet@, distinct(done@ + rows_texts(sheet@.rows) + more@)),
{
    proof {
        reveal(sheet_part);
    }
    let columns = sheet.columns();
    let rows = write_rows(sheet, strings, done, more);
    let columns_text = widths(&sheet.rows, columns);
    let filter = filter_of(sheet, columns);
    let mut r =
        "<?xml version=\"1.0\" encoding=\"UTF-8\" standalone=\"yes\"?>\n<worksheet xmlns=\"".to_owned();
    r.append(SPREADSHEET);
    r.append(r#""><sheetViews><sheetView workbookViewId="0">"#);
    // A frozen header row and a filter, because a spreadsheet somebody has to
    // read is a spreadsheet they will scroll and sort.
    text::push_given(
        &mut r,
        sheet.header && sheet.rows.len() > 0,
        r#"<pane ySplit="1" topLeftCell="A2" activePane="bottomLeft" state="frozen"/>"#,
    );
    r.append("</sheetView></sheetViews>");
    r.append(columns_text.as_str());
    r.append("<sheetData>");
    r.append(rows.as_str());
    r.append("</sheetData>");
    r.append(filter.as_str());
    r.append("</worksheet>");
    r
}

// ---------------------------------------------------------------------------
// The workbook
// ---------------------------------------------------------------------------

/// A sheet's entry in the workbook.
pub open spec fn workbook_entry(names: Seq<Seq<char>>, i: int) -> Seq<char> {
    r#"<sheet name=""#@ + escaped(names[i]) + r#"" sheetId=""#@ + text::decimal((i + 1) as nat)
        + r#"" r:id="rId"#@ + text::decimal((i + 1) as nat) + r#""/>"#@
}

/// Each sheet's entry in the workbook.
pub open spec fn workbook_entries(names: Seq<Seq<char>>) -> Seq<Seq<char>> {
    Seq::new(names.len(), |i: int| workbook_entry(names, i))
}

/// The workbook.
#[verifier::opaque]
pub open spec fn workbook_part(names: Seq<Seq<char>>) -> Seq<char> {
    "<?xml version=\"1.0\" encoding=\"UTF-8\" standalone=\"yes\"?>\n<workbook xmlns=\""@
        + SPREADSHEET@ + r#"" xmlns:r=""#@ + RELATIONSHIPS@ + r#""><sheets>"#@ + text::concat(
        workbook_entries(names),
    ) + "</sheets></workbook>"@
}

fn entries_of(names: &Vec<String>) -> (r: String)
    ensures
        r@ == text::concat(workbook_entries(text::texts(names@))),
{
    let ghost all = workbook_entries(text::texts(names@));
    let mut r = String::new();
    let mut i: usize = 0;
    while i < names.len()
        invariant
            0 <= i <= names.len(),
            all == workbook_entries(text::texts(names@)),
            r@ == text::concat(all.take(i as int)),
        decreases names.len() - i,
    {
        let safe = escape(names[i].as_str());
        let mut one = r#"<sheet name=""#.to_owned();
        one.append(safe.as_str());
        one.append(r#"" sheetId=""#);
        text::push_decimal(&mut one, i as u128 + 1);
        one.append(r#"" r:id="rId"#);
        text::push_decimal(&mut one, i as u128 + 1);
        one.append(r#""/>"#);
        r.append(one.as_str());
        proof {
            text::lemma_concat_take(all, i as int);
        }
        i = i + 1;
    }
    assert(all.take(all.len() as int) =~= all);
    r
}

fn workbook(names: &Vec<String>) -> (r: String)
    ensures
        r@ == workbook_part(text::texts(names@)),
{
    proof {
        reveal(workbook_part);
    }
    let mut r =
        "<?xml version=\"1.0\" encoding=\"UTF-8\" standalone=\"yes\"?>\n<workbook xmlns=\"".to_owned();
    r.append(SPREADSHEET);
    r.append(r#"" xmlns:r=""#);
    r.append(RELATIONSHIPS);
    r.append(r#""><sheets>"#);
    let entries = entries_of(names);
    r.append(entries.as_str());
    r.append("</sheets></workbook>");
    r
}

/// What points from the workbook at a sheet.
pub open spec fn sheet_link(i: int) -> Seq<char> {
    r#"<Relationship Id="rId"#@ + text::decimal((i + 1) as nat) + r#"" Type=""#@ + OFFICE@
        + r#"/worksheet" Target="worksheets/sheet"#@ + text::decimal((i + 1) as nat)
        + r#".xml"/>"#@
}

/// What the workbook points at: its sheets, its styles, its strings.
#[verifier::opaque]
pub open spec fn workbook_links(count: nat) -> Seq<char> {
    "<?xml version=\"1.0\" encoding=\"UTF-8\" standalone=\"yes\"?>\n<Relationships xmlns=\""@
        + PACKAGE@ + r#"">"#@ + text::concat(Seq::new(count, |i: int| sheet_link(i)))
        + r#"<Relationship Id="rId"#@ + text::decimal(count + 1) + r#"" Type=""#@ + OFFICE@
        + r#"/styles" Target="styles.xml"/>"#@ + r#"<Relationship Id="rId"#@ + text::decimal(
        count + 2,
    ) + r#"" Type=""#@ + OFFICE@ + r#"/sharedStrings" Target="sharedStrings.xml"/>"#@
        + "</Relationships>"@
}

fn links_to_sheets(count: usize) -> (r: String)
    ensures
        r@ == text::concat(Seq::new(count as nat, |i: int| sheet_link(i))),
{
    let ghost all = Seq::new(count as nat, |i: int| sheet_link(i));
    let mut r = String::new();
    let mut i: usize = 0;
    while i < count
        invariant
            0 <= i <= count,
            all == Seq::new(count as nat, |i: int| sheet_link(i)),
            r@ == text::concat(all.take(i as int)),
        decreases count - i,
    {
        let mut one = r#"<Relationship Id="rId"#.to_owned();
        text::push_decimal(&mut one, i as u128 + 1);
        one.append(r#"" Type=""#);
        one.append(OFFICE);
        one.append(r#"/worksheet" Target="worksheets/sheet"#);
        text::push_decimal(&mut one, i as u128 + 1);
        one.append(r#".xml"/>"#);
        r.append(one.as_str());
        proof {
            text::lemma_concat_take(all, i as int);
        }
        i = i + 1;
    }
    assert(all.take(all.len() as int) =~= all);
    r
}

fn workbook_relationships(count: usize) -> (r: String)
    ensures
        r@ == workbook_links(count as nat),
{
    proof {
        reveal(workbook_links);
    }
    let mut r =
        "<?xml version=\"1.0\" encoding=\"UTF-8\" standalone=\"yes\"?>\n<Relationships xmlns=\"".to_owned();
    r.append(PACKAGE);
    r.append(r#"">"#);
    let sheets = links_to_sheets(count);
    r.append(sheets.as_str());
    r.append(r#"<Relationship Id="rId"#);
    text::push_decimal(&mut r, count as u128 + 1);
    r.append(r#"" Type=""#);
    r.append(OFFICE);
    r.append(r#"/styles" Target="styles.xml"/>"#);
    r.append(r#"<Relationship Id="rId"#);
    text::push_decimal(&mut r, count as u128 + 2);
    r.append(r#"" Type=""#);
    r.append(OFFICE);
    r.append(r#"/sharedStrings" Target="sharedStrings.xml"/>"#);
    r.append("</Relationships>");
    r
}

/// What a sheet adds to the content types.
pub open spec fn sheet_type(i: int) -> Seq<char> {
    r#"<Override PartName="/xl/worksheets/sheet"#@ + text::decimal((i + 1) as nat)
        + r#".xml" ContentType="application/vnd.openxmlformats-officedocument.spreadsheetml.worksheet+xml"/>"#@
}

/// The content types.
#[verifier::opaque]
pub open spec fn types_part(count: nat) -> Seq<char> {
    "<?xml version=\"1.0\" encoding=\"UTF-8\" standalone=\"yes\"?>\n<Types xmlns=\"http://schemas.openxmlformats.org/package/2006/content-types\"><Default Extension=\"rels\" ContentType=\"application/vnd.openxmlformats-package.relationships+xml\"/><Default Extension=\"xml\" ContentType=\"application/xml\"/>"@
        + r#"<Override PartName="/xl/workbook.xml" ContentType="application/vnd.openxmlformats-officedocument.spreadsheetml.sheet.main+xml"/><Override PartName="/xl/styles.xml" ContentType="application/vnd.openxmlformats-officedocument.spreadsheetml.styles+xml"/><Override PartName="/xl/sharedStrings.xml" ContentType="application/vnd.openxmlformats-officedocument.spreadsheetml.sharedStrings+xml"/>"#@
        + text::concat(Seq::new(count, |i: int| sheet_type(i))) + "</Types>"@
}

fn types_of_sheets(count: usize) -> (r: String)
    ensures
        r@ == text::concat(Seq::new(count as nat, |i: int| sheet_type(i))),
{
    let ghost all = Seq::new(count as nat, |i: int| sheet_type(i));
    let mut r = String::new();
    let mut i: usize = 0;
    while i < count
        invariant
            0 <= i <= count,
            all == Seq::new(count as nat, |i: int| sheet_type(i)),
            r@ == text::concat(all.take(i as int)),
        decreases count - i,
    {
        let mut one = r#"<Override PartName="/xl/worksheets/sheet"#.to_owned();
        text::push_decimal(&mut one, i as u128 + 1);
        one.append(
            r#".xml" ContentType="application/vnd.openxmlformats-officedocument.spreadsheetml.worksheet+xml"/>"#,
        );
        r.append(one.as_str());
        proof {
            text::lemma_concat_take(all, i as int);
        }
        i = i + 1;
    }
    assert(all.take(all.len() as int) =~= all);
    r
}

fn content_types(count: usize) -> (r: String)
    ensures
        r@ == types_part(count as nat),
{
    proof {
        reveal(types_part);
    }
    let mut r =
        "<?xml version=\"1.0\" encoding=\"UTF-8\" standalone=\"yes\"?>\n<Types xmlns=\"http://schemas.openxmlformats.org/package/2006/content-types\"><Default Extension=\"rels\" ContentType=\"application/vnd.openxmlformats-package.relationships+xml\"/><Default Extension=\"xml\" ContentType=\"application/xml\"/>".to_owned();
    r.append(
        r#"<Override PartName="/xl/workbook.xml" ContentType="application/vnd.openxmlformats-officedocument.spreadsheetml.sheet.main+xml"/><Override PartName="/xl/styles.xml" ContentType="application/vnd.openxmlformats-officedocument.spreadsheetml.styles+xml"/><Override PartName="/xl/sharedStrings.xml" ContentType="application/vnd.openxmlformats-officedocument.spreadsheetml.sharedStrings+xml"/>"#,
    );
    let sheets = types_of_sheets(count);
    r.append(sheets.as_str());
    r.append("</Types>");
    r
}

/// The part of the sheet with the given number.
pub open spec fn part_of_sheet(sheets: Seq<SheetModel>, i: int) -> Part {
    text_part(
        "xl/worksheets/sheet"@ + text::decimal((i + 1) as nat) + ".xml"@,
        sheet_part(sheets[i], distinct(all_texts(sheets))),
    )
}

/// The sheets that are written: an empty one where there are none, because a
/// workbook without sheets does not open.
pub open spec fn written_sheets(sheets: Seq<SheetModel>) -> Seq<SheetModel> {
    if sheets.len() == 0 {
        seq![SheetModel { name: sanitised("Sheet1"@), header: true, rows: Seq::empty() }]
    } else {
        sheets
    }
}

/// The parts that stand before the sheets.
pub open spec fn frame_parts(sheets: Seq<SheetModel>) -> Seq<Part> {
    seq![
        text_part("[Content_Types].xml"@, types_part(sheets.len())),
        text_part("_rels/.rels"@, ROOT_RELATIONSHIPS@),
        text_part("xl/_rels/workbook.xml.rels"@, workbook_links(sheets.len())),
        text_part("xl/workbook.xml"@, workbook_part(written_names(sheets))),
        text_part("xl/styles.xml"@, STYLES@),
        text_part("xl/sharedStrings.xml"@, strings_part(all_texts(sheets))),
    ]
}

/// The parts of some sheets.
pub open spec fn sheet_parts(sheets: Seq<SheetModel>) -> Seq<Part> {
    Seq::new(sheets.len(), |i: int| part_of_sheet(sheets, i))
}

/// The parts of a workbook.
pub open spec fn workbook_parts(sheets: Seq<SheetModel>) -> Seq<Part> {
    frame_parts(written_sheets(sheets)) + sheet_parts(written_sheets(sheets))
}

fn bodies_of(sheets: &[Sheet]) -> (r: (Vec<String>, String))
    requires
        all_texts(sheets_model(sheets@)).len() <= usize::MAX,
    ensures
        r.0.len() == sheets.len(),
        forall|i: int|
            0 <= i < sheets.len() ==> (#[trigger] r.0[i])@ == sheet_part(
                sheets@[i]@,
                distinct(all_texts(sheets_model(sheets@))),
            ),
        r.1@ == strings_part(all_texts(sheets_model(sheets@))),
{
    let ghost all = sheets_model(sheets@);
    let ghost uses = all_texts(all);
    let mut strings = Strings::new();
    let mut bodies: Vec<String> = Vec::new();
    let mut i: usize = 0;
    while i < sheets.len()
        invariant
            0 <= i <= sheets.len(),
            all == sheets_model(sheets@),
            uses == all_texts(all),
            uses.len() <= usize::MAX,
            strings.holds(all_texts(all.take(i as int))),
            bodies.len() == i,
            forall|j: int|
                0 <= j < i ==> (#[trigger] bodies[j])@ == sheet_part(
                    sheets@[j]@,
                    distinct(uses),
                ),
        decreases sheets.len() - i,
    {
        let ghost now = all_texts(all.take(i as int));
        let ghost here = rows_texts(all[i as int].rows);
        let ghost rest = all_texts(all.skip(i + 1));
        proof {
            assert(all.take(i + 1).drop_last() =~= all.take(i as int));
            lemma_all_texts_split(all, i + 1);
            assert(uses =~= now + here + rest);
        }
        let one = sheet_xml(&sheets[i], &mut strings, Ghost(now), Ghost(rest));
        bodies.push(one);
        i = i + 1;
    }
    assert(all.take(all.len() as int) =~= all);
    let table = strings.finish(Ghost(uses));
    (bodies, table)
}

fn write_sheets(sheets: &[Sheet]) -> (r: Vec<u8>)
    requires
        all_texts(sheets_model(sheets@)).len() <= usize::MAX,
    ensures
        r@ == archive_bytes(
            frame_parts(sheets_model(sheets@)) + sheet_parts(sheets_model(sheets@)),
        ),
        differ(written_names(sheets_model(sheets@))),
{
    let ghost all = sheets_model(sheets@);
    let names = names_for(sheets);
    let (bodies, strings) = bodies_of(sheets);
    let mut archive = Archive::new();
    let types = content_types(sheets.len());
    archive.add_text("[Content_Types].xml", types.as_str());
    archive.add_text("_rels/.rels", ROOT_RELATIONSHIPS);
    let links = workbook_relationships(sheets.len());
    archive.add_text("xl/_rels/workbook.xml.rels", links.as_str());
    let book = workbook(&names);
    archive.add_text("xl/workbook.xml", book.as_str());
    archive.add_text("xl/styles.xml", STYLES);
    archive.add_text("xl/sharedStrings.xml", strings.as_str());
    assert(archive@ =~= frame_parts(all));
    let mut i: usize = 0;
    assert(archive@ =~= frame_parts(all) + sheet_parts(all).take(0));
    while i < bodies.len()
        invariant
            0 <= i <= bodies.len(),
            bodies.len() == sheets.len(),
            all == sheets_model(sheets@),
            forall|j: int|
                0 <= j < sheets.len() ==> (#[trigger] bodies[j])@ == sheet_part(
                    sheets@[j]@,
                    distinct(all_texts(all)),
                ),
            archive.wf(),
            archive@ == frame_parts(all) + sheet_parts(all).take(i as int),
        decreases bodies.len() - i,
    {
        let mut name = "xl/worksheets/sheet".to_owned();
        text::push_decimal(&mut name, i as u128 + 1);
        name.append(".xml");
        let ghost before = archive@;
        archive.add_text(name.as_str(), bodies[i].as_str());
        assert(archive@ =~= before.push(sheet_parts(all)[i as int]));
        assert(archive@ =~= frame_parts(all) + sheet_parts(all).take(i + 1));
        i = i + 1;
    }
    assert(sheet_parts(all).take(all.len() as int) =~= sheet_parts(all));
    archive.finish()
}

/// Builds an `.xlsx` from one or more sheets.
///
/// The number of cells with text in them has to be one that can be counted.
pub fn write(sheets: &[Sheet]) -> (r: Vec<u8>)
    requires
        all_texts(sheets_model(sheets@)).len() <= usize::MAX,
    ensures
        r@ == archive_bytes(workbook_parts(sheets_model(sheets@))),
        differ(written_names(written_sheets(sheets_model(sheets@)))),
{
    if sheets.len() == 0 {
        let mut fallback: Vec<Sheet> = Vec::new();
        fallback.push(Sheet::new("Sheet1"));
        assert(sheets_model(fallback@) =~= written_sheets(sheets_model(sheets@)));
        proof {
            let one = written_sheets(sheets_model(sheets@));
            assert(all_texts(one.drop_last()) =~= Seq::empty());
            assert(rows_texts(one.last().rows) =~= Seq::empty());
            assert(all_texts(one) =~= Seq::empty());
        }
        write_sheets(fallback.as_slice())
    } else {
        write_sheets(sheets)
    }
}

/// What a sheet's name has to be: not empty, not too long, and without the
/// characters that no name may have.
pub open spec fn is_legal_name(name: Seq<char>) -> bool {
    &&& 0 < name.len() <= NAME_LENGTH
    &&& forall|i: int| 0 <= i < name.len() ==> !is_illegal(#[trigger] name[i])
}

/// A name that has been made legal is legal.
pub proof fn sanitised_names_are_legal(name: Seq<char>)
    ensures
        is_legal_name(sanitised(name)),
{
    let t = text::trim(name);
    let d = dashed(t);
    let front = d.skip(text::leading(d, '\'') as int);
    let bare = text::without_trailing(front, '\'');
    text::lemma_leading(d, '\'');
    text::lemma_without_trailing(front, '\'');
    text::lemma_trim_start(bare);
    text::lemma_trim_end(text::trim_start(bare));
    let c = text::trim(bare);
    assert forall|i: int| 0 <= i < c.len() implies !is_illegal(#[trigger] c[i]) by {
        let k = bare.len() - text::trim_start(bare).len();
        assert(c[i] == text::trim_start(bare)[i]);
        assert(text::trim_start(bare)[i] == bare[i + k]);
        assert(bare[i + k] == front[i + k]);
        assert(front[i + k] == d[i + k + text::leading(d, '\'')]);
    }
    reveal_strlit("Sheet1");
}

/// A name with a number behind it is legal where the name is.
proof fn lemma_numbered_is_legal(base: Seq<char>, n: nat)
    requires
        is_legal_name(base),
        n <= u64::MAX + 2,
    ensures
        is_legal_name(numbered(base, n)),
{
    reveal_strlit(" (");
    reveal_strlit(")");
    reveal_with_fuel(text::tens, 21);
    text::lemma_decimal(n);
    text::lemma_decimal_length(n, 20);
    let name = numbered(base, n);
    let kept = shortened_to(base, NAME_LENGTH - suffix(n).len());
    assert forall|k: int| 0 <= k < name.len() implies !is_illegal(#[trigger] name[k]) by {
        if k < kept.len() {
            assert(name[k] == base[k]);
        } else {
            let j = k - kept.len();
            assert(name[k] == suffix(n)[j]);
            if 2 <= j < 2 + text::decimal(n).len() {
                assert(suffix(n)[j] == text::decimal(n)[j - 2]);
            }
        }
    }
}

proof fn lemma_free_number(names: Seq<Seq<char>>, base: Seq<char>, n: nat)
    requires
        n <= names.len() + 2,
    ensures
        n <= free_number(names, base, n) <= names.len() + 2,
    decreases names.len() + 2 - n,
{
    if n < names.len() + 2 && is_taken(names, numbered(base, n)) {
        lemma_free_number(names, base, n + 1);
    }
}

proof fn lemma_written_names(sheets: Seq<SheetModel>)
    ensures
        written_names(sheets).len() == sheets.len(),
    decreases sheets.len(),
{
    if sheets.len() > 0 {
        lemma_written_names(sheets.drop_last());
    }
}

/// Every name that a sheet is written under is legal.
pub proof fn written_names_are_legal(sheets: Seq<SheetModel>)
    requires
        sheets.len() <= u64::MAX,
    ensures
        written_names(sheets).len() == sheets.len(),
        forall|i: int| 0 <= i < sheets.len() ==> is_legal_name(#[trigger] written_names(sheets)[i]),
    decreases sheets.len(),
{
    if sheets.len() > 0 {
        let rest = sheets.drop_last();
        written_names_are_legal(rest);
        let names = written_names(rest);
        let base = sanitised(sheets.last().name);
        sanitised_names_are_legal(sheets.last().name);
        lemma_free_number(names, base, 2);
        lemma_numbered_is_legal(base, free_number(names, base, 2));
        assert forall|i: int| 0 <= i < sheets.len() implies is_legal_name(
            #[trigger] written_names(sheets)[i],
        ) by {
            if i < rest.len() {
                assert(written_names(sheets)[i] == names[i]);
            }
        }
    }
}

/// The names of sheets, each made legal.
pub open spec fn legal_names(sheets: Seq<SheetModel>) -> Seq<Seq<char>> {
    sheets.map_values(|sheet: SheetModel| sanitised(sheet.name))
}

/// Sheets whose names already differ, whatever the case, keep them.
pub proof fn different_names_are_kept(sheets: Seq<SheetModel>)
    requires
        differ(legal_names(sheets)),
    ensures
        written_names(sheets) == legal_names(sheets),
    decreases sheets.len(),
{
    let names = legal_names(sheets);
    if sheets.len() > 0 {
        let rest = sheets.drop_last();
        assert(legal_names(rest) =~= names.drop_last());
        assert(differ(legal_names(rest))) by {
            let fewer = legal_names(rest);
            assert forall|i: int, j: int| 0 <= i < j < fewer.len() implies text::lowercase(
                #[trigger] fewer[i],
            ) != text::lowercase(#[trigger] fewer[j]) by {
                assert(fewer[i] == names[i] && fewer[j] == names[j]);
            }
        }
        different_names_are_kept(rest);
        let base = names[names.len() - 1];
        assert(!is_taken(legal_names(rest), base)) by {
            assert forall|j: int| 0 <= j < rest.len() implies text::lowercase(
                #[trigger] legal_names(rest)[j],
            ) != text::lowercase(base) by {
                assert(legal_names(rest)[j] == names[j]);
            }
        }
        assert(written_names(sheets) =~= names);
    } else {
        assert(written_names(sheets) =~= names);
    }
}

/// A text with a number behind it tells both apart.
proof fn lemma_numbered(a: Seq<char>, m: nat, b: Seq<char>, n: nat)
    requires
        a + suffix(m) == b + suffix(n),
    ensures
        m == n,
        a == b,
{
    reveal_strlit(" (");
    reveal_strlit(")");
    let x = a + suffix(m);
    let y = b + suffix(n);
    let p = text::decimal(m);
    let q = text::decimal(n);
    text::lemma_decimal(m);
    text::lemma_decimal(n);
    let end = x.len() as int;
    // The parenthesis in front of one number is no digit of the other.
    assert(x[end - 2 - p.len()] == '(');
    assert(y[end - 2 - q.len()] == '(');
    if p.len() < q.len() {
        let k = q.len() - 1 - p.len();
        assert(y[end - 2 - p.len()] == q[k]);
        assert(text::is_digit(q[k]));
    } else if q.len() < p.len() {
        let k = p.len() - 1 - q.len();
        assert(x[end - 2 - q.len()] == p[k]);
        assert(text::is_digit(p[k]));
    }
    assert(p.len() == q.len());
    assert forall|k: int| 0 <= k < p.len() implies p[k] == q[k] by {
        assert(x[end - 1 - p.len() + k] == p[k]);
        assert(y[end - 1 - p.len() + k] == q[k]);
    }
    assert(p =~= q);
    text::lemma_decimal_injective(m, n);
    assert(a =~= x.take(a.len() as int));
    assert(b =~= y.take(b.len() as int));
}

/// Every sheet is a part of the workbook, which lists it under its name and
/// points at it, and its type is declared.
pub proof fn every_sheet_is_reachable(sheets: Seq<SheetModel>, i: int)
    requires
        0 <= i < written_sheets(sheets).len(),
    ensures
        ({
            let all = written_sheets(sheets);
            let parts = workbook_parts(sheets);
            &&& parts.contains(part_of_sheet(all, i))
            &&& parts.contains(
                text_part("xl/workbook.xml"@, workbook_part(written_names(all))),
            )
            &&& text::holds(
                workbook_part(written_names(all)),
                workbook_entry(written_names(all), i),
            )
            &&& parts.contains(
                text_part("xl/_rels/workbook.xml.rels"@, workbook_links(all.len())),
            )
            &&& text::holds(workbook_links(all.len()), sheet_link(i))
            &&& parts.contains(text_part("[Content_Types].xml"@, types_part(all.len())))
            &&& text::holds(types_part(all.len()), sheet_type(i))
        }),
{
    let all = written_sheets(sheets);
    let parts = workbook_parts(sheets);
    let frame = frame_parts(all);
    assert(parts[frame.len() + i] == sheet_parts(all)[i]);
    assert(parts[0] == frame[0]);
    assert(parts[2] == frame[2]);
    assert(parts[3] == frame[3]);
    lemma_written_names(all);
    lemma_sheet_listed(written_names(all), i);
    lemma_sheet_linked(all.len(), i);
    lemma_sheet_declared(all.len(), i);
}

proof fn lemma_sheet_listed(names: Seq<Seq<char>>, i: int)
    requires
        0 <= i < names.len(),
    ensures
        text::holds(workbook_part(names), workbook_entry(names, i)),
{
    reveal(workbook_part);
    let entries = workbook_entries(names);
    let head = "<?xml version=\"1.0\" encoding=\"UTF-8\" standalone=\"yes\"?>\n<workbook xmlns=\""@
        + SPREADSHEET@ + r#"" xmlns:r=""#@ + RELATIONSHIPS@ + r#""><sheets>"#@;
    text::lemma_concat_holds(head, entries, i, "</sheets></workbook>"@);
}

proof fn lemma_sheet_linked(count: nat, i: int)
    requires
        0 <= i < count,
    ensures
        text::holds(workbook_links(count), sheet_link(i)),
{
    reveal(workbook_links);
    let links = Seq::new(count, |i: int| sheet_link(i));
    let head = "<?xml version=\"1.0\" encoding=\"UTF-8\" standalone=\"yes\"?>\n<Relationships xmlns=\""@
        + PACKAGE@ + r#"">"#@;
    let tail = r#"<Relationship Id="rId"#@ + text::decimal(count + 1) + r#"" Type=""#@ + OFFICE@
        + r#"/styles" Target="styles.xml"/>"#@ + r#"<Relationship Id="rId"#@ + text::decimal(
        count + 2,
    ) + r#"" Type=""#@ + OFFICE@ + r#"/sharedStrings" Target="sharedStrings.xml"/>"#@
        + "</Relationships>"@;
    text::lemma_concat_holds(head, links, i, tail);
    assert(workbook_links(count) =~= head + text::concat(links) + tail);
    assert(links[i] == sheet_link(i));
}

proof fn lemma_sheet_declared(count: nat, i: int)
    requires
        0 <= i < count,
    ensures
        text::holds(types_part(count), sheet_type(i)),
{
    reveal(types_part);
    let types = Seq::new(count, |i: int| sheet_type(i));
    let head = choose|head: Seq<char>|
        types_part(count) == #[trigger] (head + text::concat(types)) + "</Types>"@;
    text::lemma_concat_holds(head, types, i, "</Types>"@);
    assert(types[i] == sheet_type(i));
}

// ---------------------------------------------------------------------------
// What is written in a cell is what the cell says
// ---------------------------------------------------------------------------

/// The number that a column's letters count out: A is 1, Z is 26, AA is 27.
pub open spec fn letters_value(s: Seq<char>) -> nat
    decreases s.len(),
{
    if s.len() == 0 {
        0
    } else {
        letters_value(s.drop_last()) * 26 + (s.last() as int - 0x40) as nat
    }
}

/// The name of a column is made of the letters from A to Z, and counts out the column:
/// the first one is 1.
pub proof fn column_names_count_the_columns(index: nat)
    ensures
        letters_value(column_label(index)) == index + 1,
        forall|i: int|
            0 <= i < column_label(index).len() ==> 'A' <= #[trigger] column_label(index)[i]
                && column_label(index)[i] <= 'Z',
    decreases index,
{
    let s = column_label(index);
    if index < 26 {
        assert(s.drop_last() =~= Seq::empty());
        assert(letters_value(s.drop_last()) == 0);
        assert(s.last() as int == index + 0x41);
    } else {
        let before = (index / 26 - 1) as nat;
        column_names_count_the_columns(before);
        assert(s.drop_last() =~= column_label(before));
        assert(s.last() as int == index % 26 + 0x41);
        assert(letters_value(s) == (before + 1) * 26 + index % 26 + 1);
    }
}

/// Whether a part is a table of strings with these entries, each of which is plain text.
pub open spec fn is_table(part: Seq<char>, entries: Seq<Seq<char>>) -> bool {
    &&& forall|i: int| 0 <= i < entries.len() ==> !(#[trigger] entries[i]).contains('<')
    &&& exists|uses: Seq<char>, count: Seq<char>|
        #![trigger text::is_digits(uses), text::is_digits(count)]
        text::is_digits(uses) && text::is_digits(count) && text::digits_value(count)
            == entries.len() && part
            == "<?xml version=\"1.0\" encoding=\"UTF-8\" standalone=\"yes\"?>\n<sst xmlns=\""@
            + SPREADSHEET@ + r#"" count=""#@ + uses + r#"" uniqueCount=""#@ + count + r#"">"#@
            + text::concat(
            entries.map_values(
                |entry: Seq<char>| "<si><t xml:space=\"preserve\">"@ + entry + "</t></si>"@,
            ),
        ) + "</sst>"@
}

/// Whether digits say where an entry stands among others, counted from zero.
pub open spec fn is_index(digits: Seq<char>, entries: Seq<Seq<char>>, entry: Seq<char>) -> bool {
    &&& text::is_digits(digits)
    &&& text::digits_value(digits) < entries.len()
    &&& entries[text::digits_value(digits) as int] == entry
}

/// Whether letters and digits say where a cell stands: its column by the letters, its
/// row by the digits, both counted from one.
pub open spec fn is_reference(
    letters: Seq<char>,
    digits: Seq<char>,
    column: int,
    row: int,
) -> bool {
    &&& letters_value(letters) == column + 1
    &&& forall|i: int|
        0 <= i < letters.len() ==> 'A' <= #[trigger] letters[i] && letters[i] <= 'Z'
    &&& text::is_digits(digits)
    &&& text::digits_value(digits) == row + 1
}

/// What stands in a sheet for a cell that is written: where it stands, and behind that
/// its style, its type and its value.
pub open spec fn element(letters: Seq<char>, digits: Seq<char>, rest: Seq<char>) -> Seq<char> {
    r#"<c r=""#@ + letters + digits + r#"""#@ + rest
}

/// What a cell's element says behind where it stands, without its style: given the
/// table's entries, the index of a text.
pub open spec fn says_cell(
    cell: CellModel,
    value: Seq<char>,
    entries: Seq<Seq<char>>,
) -> bool {
    match cell {
        CellModel::Empty => value == "/>"@,
        CellModel::Text(s) => exists|digits: Seq<char>| #[trigger]
            is_index(digits, entries, escaped(s)) && value == r#" t="s"><v>"#@ + digits
                + "</v></c>"@,
        CellModel::Number(n) => value == "><v>"@ + n + "</v></c>"@,
        CellModel::Bool(b) => value == if b {
            r#" t="b"><v>1</v></c>"#@
        } else {
            r#" t="b"><v>0</v></c>"#@
        },
        CellModel::Formula(f) => value == "><f>"@ + escaped(f) + "</f></c>"@,
    }
}

/// Whether a workbook shows a cell: in the part of its sheet an element stands for it,
/// in the style of a header where it is in one, that says what the cell says; a text by
/// the place that it has in the table of the same workbook.
pub open spec fn shows(
    parts: Seq<Part>,
    sheet: int,
    row: int,
    column: int,
    header: bool,
    cell: CellModel,
) -> bool {
    exists|
        table: Seq<char>,
        entries: Seq<Seq<char>>,
        body: Seq<char>,
        letters: Seq<char>,
        digits: Seq<char>,
        value: Seq<char>,
    |
        #![trigger is_table(table, entries), says_cell(cell, value, entries),
            text::holds(body, element(letters, digits, text::given(header, r#" s="1""#@) + value))]
        parts.contains(text_part("xl/sharedStrings.xml"@, table)) && is_table(table, entries)
            && parts.contains(
            text_part(
                "xl/worksheets/sheet"@ + text::decimal((sheet + 1) as nat) + ".xml"@,
                body,
            ),
        ) && is_reference(letters, digits, column, row) && says_cell(cell, value, entries)
            && text::holds(
            body,
            element(letters, digits, text::given(header, r#" s="1""#@) + value),
        )
}

/// Every cell is shown as what it is: a number as its digits, the truth as one or zero, a
/// formula as a formula, and a text by the index of its entry in the table of strings.
/// An empty cell is written only in a header, where it has a style.
pub proof fn every_cell_shows_what_it_says(
    sheets: Seq<SheetModel>,
    sheet: int,
    row: int,
    column: int,
)
    requires
        0 <= sheet < sheets.len(),
        0 <= row < sheets[sheet].rows.len(),
        0 <= column < sheets[sheet].rows[row].len(),
        !(sheets[sheet].rows[row][column] is Empty) || (sheets[sheet].header && row == 0),
    ensures
        shows(
            workbook_parts(sheets),
            sheet,
            row,
            column,
            sheets[sheet].header && row == 0,
            sheets[sheet].rows[row][column],
        ),
{
    let parts = workbook_parts(sheets);
    let uses = all_texts(sheets);
    let order = distinct(uses);
    let table = strings_part(uses);
    let body = sheet_part(sheets[sheet], order);
    let frame = frame_parts(sheets);
    let cell = sheets[sheet].rows[row][column];
    let header = sheets[sheet].header && row == 0;
    assert(parts[5] == frame[5]);
    assert(parts[frame.len() + sheet] == sheet_parts(sheets)[sheet]);
    let entries = order.map_values(|s: Seq<char>| escaped(s));
    lemma_table(uses);
    let letters = column_label(column as nat);
    let digits = text::decimal((row + 1) as nat);
    column_names_count_the_columns(column as nat);
    text::a_decimal_reads_back((row + 1) as nat);
    if let CellModel::Text(s) = cell {
        lemma_text_is_used(sheets, sheet, row, column, s);
        repeated_strings_are_stored_once(uses);
        assert(order.contains(s));
    }
    let value = lemma_value(cell, column, row + 1, header, order);
    assert(says_cell(cell, value, entries));
    lemma_cell_in_sheet(sheets[sheet], order, row, column);
}

proof fn lemma_value(
    cell: CellModel,
    column: int,
    row: int,
    header: bool,
    order: Seq<Seq<char>>,
) -> (value: Seq<char>)
    requires
        !(cell is Empty) || header,
        cell matches CellModel::Text(s) ==> order.contains(s),
    ensures
        says_cell(cell, value, order.map_values(|s: Seq<char>| escaped(s))),
        cell_xml(cell, column, row, header, order) == element(
            column_label(column as nat),
            text::decimal(row as nat),
            text::given(header, r#" s="1""#@) + value,
        ),
{
    let entries = order.map_values(|s: Seq<char>| escaped(s));
    let value = match cell {
        CellModel::Empty => "/>"@,
        CellModel::Text(s) => {
            let at = place(order, s);
            r#" t="s"><v>"#@ + text::decimal(at as nat) + "</v></c>"@
        },
        CellModel::Number(n) => "><v>"@ + n + "</v></c>"@,
        CellModel::Bool(b) => r#" t="b"><v>"#@ + text::decimal(
            if b {
                1
            } else {
                0
            },
        ) + "</v></c>"@,
        CellModel::Formula(f) => "><f>"@ + escaped(f) + "</f></c>"@,
    };
    assert(says_cell(cell, value, entries)) by {
        if let CellModel::Text(s) = cell {
            let at = place(order, s);
            text::a_decimal_reads_back(at as nat);
            assert(entries[at] == escaped(s));
            assert(is_index(text::decimal(at as nat), entries, escaped(s)));
        }
        if let CellModel::Bool(b) = cell {
            reveal_strlit(r#" t="b"><v>1</v></c>"#);
            reveal_strlit(r#" t="b"><v>0</v></c>"#);
            reveal_strlit(r#" t="b"><v>"#);
            reveal_strlit("</v></c>");
            assert(b ==> value =~= r#" t="b"><v>1</v></c>"#@);
            assert(!b ==> value =~= r#" t="b"><v>0</v></c>"#@);
        }
    }
    let letters = column_label(column as nat);
    let digits = text::decimal(row as nat);
    let style = text::given(header, r#" s="1""#@);
    let front = r#"<c r=""#@ + letters + digits + r#"""#@;
    assert(element(letters, digits, style + value) =~= front + style + value);
    match cell {
        CellModel::Empty => {},
        CellModel::Text(s) => {
            let at = place(order, s);
            lemma_three(front + style, r#" t="s"><v>"#@, text::decimal(at as nat), "</v></c>"@);
        },
        CellModel::Number(n) => {
            lemma_three(front + style, "><v>"@, n, "</v></c>"@);
        },
        CellModel::Bool(b) => {
            lemma_three(
                front + style,
                r#" t="b"><v>"#@,
                text::decimal(
                    if b {
                        1
                    } else {
                        0
                    },
                ),
                "</v></c>"@,
            );
        },
        CellModel::Formula(f) => {
            lemma_three(front + style, "><f>"@, escaped(f), "</f></c>"@);
        },
    }
    value
}

proof fn lemma_three(front: Seq<char>, a: Seq<char>, b: Seq<char>, c: Seq<char>)
    ensures
        front + a + b + c == front + (a + b + c),
{
    assert(front + a + b + c =~= front + (a + b + c));
}

proof fn lemma_table(uses: Seq<Seq<char>>)
    ensures
        is_table(strings_part(uses), distinct(uses).map_values(|s: Seq<char>| escaped(s))),
{
    reveal(strings_part);
    let order = distinct(uses);
    let entries = order.map_values(|s: Seq<char>| escaped(s));
    assert forall|i: int| 0 <= i < entries.len() implies !(#[trigger] entries[i]).contains('<') by {
        crate::office::xml::escaping_is_safe(order[i]);
    }
    text::a_decimal_reads_back(uses.len());
    text::a_decimal_reads_back(order.len());
    assert(entries.map_values(
        |entry: Seq<char>| "<si><t xml:space=\"preserve\">"@ + entry + "</t></si>"@,
    ) =~= string_items(order));
}

proof fn lemma_text_is_used(
    sheets: Seq<SheetModel>,
    sheet: int,
    row: int,
    column: int,
    s: Seq<char>,
)
    requires
        0 <= sheet < sheets.len(),
        0 <= row < sheets[sheet].rows.len(),
        0 <= column < sheets[sheet].rows[row].len(),
        sheets[sheet].rows[row][column] == CellModel::Text(s),
    ensures
        all_texts(sheets).contains(s),
    decreases sheets.len(),
{
    let before = all_texts(sheets.drop_last());
    let here = rows_texts(sheets.last().rows);
    if sheet == sheets.len() - 1 {
        lemma_text_in_rows(sheets.last().rows, row, column, s);
        let k = choose|k: int| 0 <= k < here.len() && here[k] == s;
        assert(all_texts(sheets)[before.len() + k] == s);
    } else {
        lemma_text_is_used(sheets.drop_last(), sheet, row, column, s);
        let k = choose|k: int| 0 <= k < before.len() && before[k] == s;
        assert(all_texts(sheets)[k] == s);
    }
}

proof fn lemma_text_in_rows(rows: Seq<Seq<CellModel>>, row: int, column: int, s: Seq<char>)
    requires
        0 <= row < rows.len(),
        0 <= column < rows[row].len(),
        rows[row][column] == CellModel::Text(s),
    ensures
        rows_texts(rows).contains(s),
    decreases rows.len(),
{
    let before = rows_texts(rows.drop_last());
    let here = row_texts(rows.last());
    if row == rows.len() - 1 {
        lemma_text_in_row(rows.last(), column, s);
        let k = choose|k: int| 0 <= k < here.len() && here[k] == s;
        assert(rows_texts(rows)[before.len() + k] == s);
    } else {
        lemma_text_in_rows(rows.drop_last(), row, column, s);
        let k = choose|k: int| 0 <= k < before.len() && before[k] == s;
        assert(rows_texts(rows)[k] == s);
    }
}

proof fn lemma_text_in_row(cells: Seq<CellModel>, column: int, s: Seq<char>)
    requires
        0 <= column < cells.len(),
        cells[column] == CellModel::Text(s),
    ensures
        row_texts(cells).contains(s),
    decreases cells.len(),
{
    let before = row_texts(cells.drop_last());
    if column == cells.len() - 1 {
        assert(row_texts(cells)[before.len() as int] == s);
    } else {
        lemma_text_in_row(cells.drop_last(), column, s);
        let k = choose|k: int| 0 <= k < before.len() && before[k] == s;
        assert(row_texts(cells)[k] == s);
    }
}

proof fn lemma_cell_in_sheet(sheet: SheetModel, order: Seq<Seq<char>>, row: int, column: int)
    requires
        0 <= row < sheet.rows.len(),
        0 <= column < sheet.rows[row].len(),
    ensures
        text::holds(
            sheet_part(sheet, order),
            cell_xml(sheet.rows[row][column], column, row + 1, sheet.header && row == 0, order),
        ),
{
    reveal(sheet_part);
    let rows = all_rows(sheet, order);
    let head = "<?xml version=\"1.0\" encoding=\"UTF-8\" standalone=\"yes\"?>\n<worksheet xmlns=\""@
        + SPREADSHEET@ + r#""><sheetViews><sheetView workbookViewId="0">"#@ + text::given(
        has_header(sheet),
        r#"<pane ySplit="1" topLeftCell="A2" activePane="bottomLeft" state="frozen"/>"#@,
    ) + "</sheetView></sheetViews>"@ + widths_xml(sheet.rows) + "<sheetData>"@;
    let tail = "</sheetData>"@ + filter_xml(sheet) + "</worksheet>"@;
    text::lemma_concat_holds(head, rows, row, tail);
    assert(sheet_part(sheet, order) =~= head + text::concat(rows) + tail);
    let header = sheet.header && row == 0;
    let cells = row_cells(sheet.rows[row], row + 1, header, order);
    let front = "<row r=\""@ + text::decimal((row + 1) as nat) + "\">"@;
    text::lemma_concat_holds(front, cells, column, "</row>"@);
    text::lemma_holds_within(sheet_part(sheet, order), rows[row], cells[column]);
}

/// A cell is what a person typing it means: nothing, a formula behind an equals sign, the
/// truth in a word, the number that it reads as, and text for everything else; and what
/// begins with a zero that counts stays text.
pub proof fn a_cell_is_read_as_it_is_meant(
    s: Seq<char>,
    percent: Option<Seq<char>>,
    number: Option<Seq<char>>,
)
    requires
        s.len() > 0 ==> !text::is_space(s[0]) && !text::is_space(s.last()),
    ensures
        s.len() == 0 ==> inferred(s, percent, number) == CellModel::Empty,
        s.len() > 1 && s[0] == '=' ==> inferred(s, percent, number) == CellModel::Formula(
            s.skip(1),
        ),
        s == "true"@ || s == "TRUE"@ || s == "True"@ ==> inferred(s, percent, number)
            == CellModel::Bool(true),
        s == "false"@ || s == "FALSE"@ || s == "False"@ ==> inferred(s, percent, number)
            == CellModel::Bool(false),
        s.len() > 1 && s[0] == '0' && s[1] != '.' ==> inferred(s, percent, number)
            == CellModel::Text(s),
        text::is_digits(s) && (s.len() == 1 || s[0] != '0') && number is Some ==> inferred(
            s,
            percent,
            number,
        ) == CellModel::Number(number->0),
        s.len() > 1 && text::is_digits(s.drop_last()) && s[0] != '0' && s.last() == '%'
            && percent is Some ==> inferred(s, percent, number) == CellModel::Number(percent->0),
        number is None && percent is None && s.len() > 0 && s[0] != '=' && text::ascii_lowercase(s)
            != "true"@ && text::ascii_lowercase(s) != "false"@ ==> inferred(s, percent, number)
            == CellModel::Text(s),
{
    text::lemma_trim_unchanged(s);
    reveal_strlit("true");
    reveal_strlit("TRUE");
    reveal_strlit("True");
    reveal_strlit("false");
    reveal_strlit("FALSE");
    reveal_strlit("False");
    let t = text::ascii_lowercase(s);
    if s.len() > 0 {
        assert(t[0] == text::ascii_lower(s[0]));
        assert("true"@[0] == 't' && "false"@[0] == 'f');
    }
    assert(s == "true"@ || s == "TRUE"@ || s == "True"@ ==> t =~= "true"@);
    assert(s == "false"@ || s == "FALSE"@ || s == "False"@ ==> t =~= "false"@);
    assert("true"@.len() != "false"@.len());
    if text::is_digits(s) {
        assert(text::is_digit(s[0]));
        lemma_undecorated_digits(s);
        assert(has_digit(s));
    }
    if s.len() > 1 && text::is_digits(s.drop_last()) && s.last() == '%' {
        assert(text::is_digit(s.drop_last()[0]));
        lemma_undecorated_digits(s.drop_last());
        assert(undecorated(s) =~= s.drop_last().push('%'));
        assert(s[0] == s.drop_last()[0]);
    }
}

proof fn lemma_undecorated_digits(s: Seq<char>)
    requires
        forall|i: int| 0 <= i < s.len() ==> text::is_digit(#[trigger] s[i]),
    ensures
        undecorated(s) == s,
    decreases s.len(),
{
    if s.len() > 0 {
        assert(text::is_digit(s[s.len() - 1]));
        assert forall|i: int| 0 <= i < s.drop_last().len() implies text::is_digit(
            #[trigger] s.drop_last()[i],
        ) by {
            assert(s.drop_last()[i] == s[i]);
        }
        lemma_undecorated_digits(s.drop_last());
        assert(s.drop_last().push(s.last()) =~= s);
    }
}

/// What people put in a number and is no part of it is taken out, and nothing else.
pub proof fn decoration_is_taken_out(s: Seq<char>)
    ensures
        undecorated(s) == s.filter(
            |c: char|
                c != ',' && c != '$' && c != '£' && c != '€' && c != ' ' && c != '\u{a0}',
        ),
    decreases s.len(),
{
    reveal(Seq::filter);
    if s.len() > 0 {
        decoration_is_taken_out(s.drop_last());
    }
}

/// A sheet numbers its rows from one. Where it has a header, that stays in sight and can be
/// filtered by, from the first cell to the last column and row; where it has none, neither.
pub proof fn rows_are_numbered_and_a_header_stays_in_sight(
    sheet: SheetModel,
    order: Seq<Seq<char>>,
    row: int,
)
    ensures
        0 <= row < sheet.rows.len() ==> text::holds(
            sheet_part(sheet, order),
            "<row r=\""@ + text::decimal((row + 1) as nat) + "\">"@,
        ),
        sheet.header && sheet.rows.len() > 0 ==> {
            &&& text::holds(
                sheet_part(sheet, order),
                r#"<pane ySplit="1" topLeftCell="A2" activePane="bottomLeft" state="frozen"/>"#@,
            )
            &&& columns_of(sheet.rows) > 0 ==> text::holds(
                sheet_part(sheet, order),
                r#"<autoFilter ref="A1:"#@ + column_label((columns_of(sheet.rows) - 1) as nat)
                    + text::decimal(sheet.rows.len()) + r#""/>"#@,
            )
        },
        !sheet.header ==> filter_xml(sheet) == Seq::<char>::empty(),
{
    reveal(sheet_part);
    let whole = sheet_part(sheet, order);
    let rows = all_rows(sheet, order);
    let start = "<?xml version=\"1.0\" encoding=\"UTF-8\" standalone=\"yes\"?>\n<worksheet xmlns=\""@
        + SPREADSHEET@ + r#""><sheetViews><sheetView workbookViewId="0">"#@;
    let pane = text::given(
        has_header(sheet),
        r#"<pane ySplit="1" topLeftCell="A2" activePane="bottomLeft" state="frozen"/>"#@,
    );
    let middle = "</sheetView></sheetViews>"@ + widths_xml(sheet.rows) + "<sheetData>"@;
    let tail = "</sheetData>"@ + filter_xml(sheet) + "</worksheet>"@;
    if 0 <= row < sheet.rows.len() {
        text::lemma_concat_holds(start + pane + middle, rows, row, tail);
        assert(whole =~= start + pane + middle + text::concat(rows) + tail);
        let front = "<row r=\""@ + text::decimal((row + 1) as nat) + "\">"@;
        let cells = row_cells(sheet.rows[row], row + 1, sheet.header && row == 0, order);
        let none = Seq::<char>::empty();
        text::lemma_holds_between(none, front, text::concat(cells) + "</row>"@);
        assert(rows[row] =~= none + front + (text::concat(cells) + "</row>"@));
        text::lemma_holds_within(whole, rows[row], front);
    }
    if sheet.header && sheet.rows.len() > 0 {
        let behind = middle + text::concat(rows) + tail;
        text::lemma_holds_between(start, pane, behind);
        assert(whole =~= start + pane + behind);
        let before = start + pane + middle + text::concat(rows) + "</sheetData>"@;
        text::lemma_holds_between(before, filter_xml(sheet), "</worksheet>"@);
        assert(whole =~= before + filter_xml(sheet) + "</worksheet>"@);
    }
}

/// A column is wide enough for every text and number in it, with a little room, from eight
/// characters to sixty; and no wider than its widest cell wants.
pub proof fn columns_are_wide_enough(rows: Seq<Seq<CellModel>>, row: int, column: int, most: nat)
    requires
        0 <= row < rows.len(),
        0 <= column < rows[row].len(),
    ensures
        8 <= column_width(rows, column) <= 60,
        rows[row][column] matches CellModel::Text(s) ==> s.len() + 2 <= 60 ==> column_width(
            rows,
            column,
        ) >= s.len() + 2,
        rows[row][column] matches CellModel::Number(s) ==> s.len() + 2 <= 60 ==> column_width(
            rows,
            column,
        ) >= s.len() + 2,
        most >= 6 && (forall|r: int|
            0 <= r < rows.len() && column < (#[trigger] rows[r]).len() ==> display(rows[r][column])
                <= most) ==> column_width(rows, column) <= most + 2,
{
    lemma_widest(rows, row, column);
    if forall|r: int|
        0 <= r < rows.len() && column < (#[trigger] rows[r]).len() ==> display(rows[r][column])
            <= most {
        lemma_widest_at_most(rows, column, most);
    }
}

proof fn lemma_widest(rows: Seq<Seq<CellModel>>, row: int, column: int)
    requires
        0 <= row < rows.len(),
        0 <= column < rows[row].len(),
    ensures
        widest_in(rows, column) >= display(rows[row][column]),
    decreases rows.len(),
{
    if row < rows.len() - 1 {
        assert(rows.drop_last()[row] == rows[row]);
        lemma_widest(rows.drop_last(), row, column);
    }
}

proof fn lemma_widest_at_most(rows: Seq<Seq<CellModel>>, column: int, most: nat)
    requires
        forall|r: int|
            0 <= r < rows.len() && column < (#[trigger] rows[r]).len() ==> display(rows[r][column])
                <= most,
    ensures
        widest_in(rows, column) <= most,
    decreases rows.len(),
{
    if rows.len() > 0 {
        assert(rows.last() == rows[rows.len() - 1]);
        assert forall|r: int|
            0 <= r < rows.drop_last().len() && column < (
            #[trigger] rows.drop_last()[r]).len() implies display(rows.drop_last()[r][column])
            <= most by {
            assert(rows.drop_last()[r] == rows[r]);
        }
        lemma_widest_at_most(rows.drop_last(), column, most);
    }
}

} // verus!
