//! The shape of a document, and the Markdown a model writes it in.
//!
//! The parser handles what an assistant writes: headings, paragraphs, lists,
//! tables, code, quotes, rules. It never fails: anything it does not recognise
//! is a paragraph of text, because a document with an odd line in it is better
//! than an error.

use crate::text;
use vstd::prelude::*;
use vstd::slice::slice_subrange;

verus! {

/// A piece of text with a face on it.
#[derive(Debug, Clone, PartialEq, Eq)]
pub struct Span {
    pub text: String,
    pub bold: bool,
    pub italic: bool,
    /// Inline `code`, rendered in a mono face.
    pub code: bool,
    /// Where a link pointed, if this span was one.
    pub link: Option<String>,
}

/// What a span says.
#[verifier::ext_equal]
pub struct SpanModel {
    pub text: Seq<char>,
    pub bold: bool,
    pub italic: bool,
    pub code: bool,
    pub link: Option<Seq<char>>,
}

/// The text of an optional string.
pub open spec fn optional(s: Option<String>) -> Option<Seq<char>> {
    match s {
        Some(t) => Some(t@),
        None => None,
    }
}

impl View for Span {
    type V = SpanModel;

    open spec fn view(&self) -> SpanModel {
        SpanModel {
            text: self.text@,
            bold: self.bold,
            italic: self.italic,
            code: self.code,
            link: optional(self.link),
        }
    }
}

/// A span without a face.
pub open spec fn plain_span(text: Seq<char>) -> SpanModel {
    SpanModel { text, bold: false, italic: false, code: false, link: None }
}

/// What each span of a list says.
pub open spec fn spans_model(spans: Seq<Span>) -> Seq<SpanModel> {
    Seq::new(spans.len(), |i: int| spans[i]@)
}

impl Default for Span {
    fn default() -> (r: Self)
        ensures
            r@ == plain_span(Seq::empty()),
    {
        Span { text: String::new(), bold: false, italic: false, code: false, link: None }
    }
}

impl Span {
    pub fn plain(text: &str) -> (r: Self)
        ensures
            r@ == plain_span(text@),
    {
        Span { text: text.to_owned(), bold: false, italic: false, code: false, link: None }
    }

    pub fn bold(text: &str) -> (r: Self)
        ensures
            r@ == (SpanModel { bold: true, ..plain_span(text@) }),
    {
        Span { text: text.to_owned(), bold: true, italic: false, code: false, link: None }
    }
}

/// One block of a document, in the order it appears.
#[derive(Debug, Clone, PartialEq, Eq)]
pub enum Block {
    /// `level` is 1..=6, already clamped.
    Heading { level: u8, spans: Vec<Span> },
    Paragraph { spans: Vec<Span> },
    /// `level` is the nesting depth, from 0.
    Bullet { level: u8, spans: Vec<Span> },
    Numbered { level: u8, spans: Vec<Span> },
    Quote { spans: Vec<Span> },
    /// A fenced block, kept verbatim. `language` is the fence's info string.
    Code { language: Option<String>, text: String },
    /// A pipe table. `header` is empty when the table had no header row.
    Table { header: Vec<String>, rows: Vec<Vec<String>> },
    /// A horizontal rule, `---` on its own line.
    Rule,
    /// An explicit page break, written as `\pagebreak` on its own line.
    PageBreak,
}

/// What a block says.
#[verifier::ext_equal]
pub enum BlockModel {
    Heading { level: int, spans: Seq<SpanModel> },
    Paragraph { spans: Seq<SpanModel> },
    Bullet { level: int, spans: Seq<SpanModel> },
    Numbered { level: int, spans: Seq<SpanModel> },
    Quote { spans: Seq<SpanModel> },
    Code { language: Option<Seq<char>>, text: Seq<char> },
    Table { header: Seq<Seq<char>>, rows: Seq<Seq<Seq<char>>> },
    Rule,
    PageBreak,
}

/// What the cells of each row say.
pub open spec fn rows_model(rows: Seq<Vec<String>>) -> Seq<Seq<Seq<char>>> {
    Seq::new(rows.len(), |i: int| text::texts(rows[i]@))
}

impl View for Block {
    type V = BlockModel;

    open spec fn view(&self) -> BlockModel {
        match self {
            Block::Heading { level, spans } => BlockModel::Heading {
                level: *level as int,
                spans: spans_model(spans@),
            },
            Block::Paragraph { spans } => BlockModel::Paragraph { spans: spans_model(spans@) },
            Block::Bullet { level, spans } => BlockModel::Bullet {
                level: *level as int,
                spans: spans_model(spans@),
            },
            Block::Numbered { level, spans } => BlockModel::Numbered {
                level: *level as int,
                spans: spans_model(spans@),
            },
            Block::Quote { spans } => BlockModel::Quote { spans: spans_model(spans@) },
            Block::Code { language, text } => BlockModel::Code {
                language: optional(*language),
                text: text@,
            },
            Block::Table { header, rows } => BlockModel::Table {
                header: text::texts(header@),
                rows: rows_model(rows@),
            },
            Block::Rule => BlockModel::Rule,
            Block::PageBreak => BlockModel::PageBreak,
        }
    }
}

/// What each block of a document says.
pub open spec fn blocks_model(blocks: Seq<Block>) -> Seq<BlockModel> {
    Seq::new(blocks.len(), |i: int| blocks[i]@)
}

/// The texts of the spans, one after the other.
pub open spec fn spans_text(spans: Seq<SpanModel>) -> Seq<char>
    decreases spans.len(),
{
    if spans.len() == 0 {
        Seq::empty()
    } else {
        spans_text(spans.drop_last()) + spans.last().text
    }
}

/// The lines of a table as a plain reader sees it: its rows, the header first
/// where there is one, with ` | ` between the cells.
pub open spec fn table_lines(header: Seq<Seq<char>>, rows: Seq<Seq<Seq<char>>>) -> Seq<Seq<char>> {
    let body = rows.map_values(|row: Seq<Seq<char>>| text::join(row, " | "@));
    if header.len() == 0 {
        body
    } else {
        seq![text::join(header, " | "@)] + body
    }
}

/// A block's text with every face dropped.
pub open spec fn block_text(block: BlockModel) -> Seq<char> {
    match block {
        BlockModel::Heading { level, spans } => spans_text(spans),
        BlockModel::Paragraph { spans } => spans_text(spans),
        BlockModel::Bullet { level, spans } => spans_text(spans),
        BlockModel::Numbered { level, spans } => spans_text(spans),
        BlockModel::Quote { spans } => spans_text(spans),
        BlockModel::Code { language, text } => text,
        BlockModel::Table { header, rows } => text::join(table_lines(header, rows), "\n"@),
        BlockModel::Rule => Seq::empty(),
        BlockModel::PageBreak => Seq::empty(),
    }
}

fn text_of_spans(spans: &Vec<Span>) -> (r: String)
    ensures
        r@ == spans_text(spans_model(spans@)),
{
    let ghost all = spans_model(spans@);
    let mut r = String::new();
    let mut i: usize = 0;
    while i < spans.len()
        invariant
            0 <= i <= spans.len(),
            all == spans_model(spans@),
            r@ == spans_text(all.take(i as int)),
        decreases spans.len() - i,
    {
        r.append(spans[i].text.as_str());
        assert(all.take(i + 1).drop_last() =~= all.take(i as int));
        i = i + 1;
    }
    assert(all.take(all.len() as int) =~= all);
    r
}

fn text_of_table(header: &Vec<String>, rows: &Vec<Vec<String>>) -> (r: String)
    ensures
        r@ == text::join(table_lines(text::texts(header@), rows_model(rows@)), "\n"@),
{
    let mut all: Vec<String> = Vec::new();
    let ghost head: Seq<Seq<char>> = if header.len() == 0 {
        Seq::empty()
    } else {
        seq![text::join(text::texts(header@), " | "@)]
    };
    if !header.is_empty() {
        all.push(text::joined(header, " | "));
    }
    assert(text::texts(all@) =~= head);
    let ghost body = rows_model(rows@).map_values(
        |row: Seq<Seq<char>>| text::join(row, " | "@),
    );
    let mut i: usize = 0;
    assert(head + body.take(0) =~= head);
    while i < rows.len()
        invariant
            0 <= i <= rows.len(),
            body == rows_model(rows@).map_values(|row: Seq<Seq<char>>| text::join(row, " | "@)),
            text::texts(all@) == head + body.take(i as int),
        decreases rows.len() - i,
    {
        let ghost before = text::texts(all@);
        all.push(text::joined(&rows[i], " | "));
        assert(text::texts(all@) =~= before.push(body[i as int]));
        assert(head + body.take(i + 1) =~= (head + body.take(i as int)).push(body[i as int]));
        i = i + 1;
    }
    assert(body.take(body.len() as int) =~= body);
    assert(head + body =~= table_lines(text::texts(header@), rows_model(rows@)));
    text::joined(&all, "\n")
}

impl Block {
    /// The block's text with every face dropped: what a plain reader sees.
    pub fn text(&self) -> (r: String)
        ensures
            r@ == block_text(self@),
    {
        match self {
            Block::Heading { level: _, spans } => text_of_spans(spans),
            Block::Paragraph { spans } => text_of_spans(spans),
            Block::Bullet { level: _, spans } => text_of_spans(spans),
            Block::Numbered { level: _, spans } => text_of_spans(spans),
            Block::Quote { spans } => text_of_spans(spans),
            Block::Code { language: _, text } => text.clone(),
            Block::Table { header, rows } => text_of_table(header, rows),
            Block::Rule => String::new(),
            Block::PageBreak => String::new(),
        }
    }
}

// ---------------------------------------------------------------------------
// Inside a line
// ---------------------------------------------------------------------------

/// Where two of `c` next stand side by side in `s`, at or after `from`: the
/// length of `s` where they do not.
pub open spec fn next_pair(s: Seq<char>, c: char, from: int) -> int
    decreases s.len() - from,
{
    if from + 1 >= s.len() {
        s.len() as int
    } else if s[from] == c && s[from + 1] == c {
        from
    } else {
        next_pair(s, c, from + 1)
    }
}

proof fn lemma_next_pair(s: Seq<char>, c: char, from: int)
    requires
        0 <= from <= s.len(),
    ensures
        from <= next_pair(s, c, from) <= s.len(),
        next_pair(s, c, from) < s.len() ==> next_pair(s, c, from) + 1 < s.len(),
    decreases s.len() - from,
{
    if from + 1 < s.len() && !(s[from] == c && s[from + 1] == c) {
        lemma_next_pair(s, c, from + 1);
    }
}

/// The span whose markup opens at `i`, and where its markup ends; none where
/// no markup opens there, or what opens is never closed.
///
/// `` `code` ``, `**bold**`, `*italic*`, `_italic_` unless a word stands right
/// before it, and `[text](url)`.
pub open spec fn span_at(s: Seq<char>, i: int) -> Option<(SpanModel, int)> {
    let c = s[i];
    let code = text::next(s, '`', i + 1);
    let pair = next_pair(s, '*', i + 2);
    let same = text::next(s, c, i + 1);
    let bracket = text::next(s, ']', i + 1);
    let paren = text::next(s, ')', bracket + 2);
    if c == '`' && code < s.len() {
        Some((SpanModel { code: true, ..plain_span(s.subrange(i + 1, code)) }, code + 1))
    } else if c == '*' && i + 1 < s.len() && s[i + 1] == '*' && pair < s.len() {
        Some((SpanModel { bold: true, ..plain_span(s.subrange(i + 2, pair)) }, pair + 2))
    } else if (c == '*' || c == '_') && same < s.len() && !(c == '_' && i > 0
        && text::is_alphanumeric(s[i - 1])) {
        Some((SpanModel { italic: true, ..plain_span(s.subrange(i + 1, same)) }, same + 1))
    } else if c == '[' && bracket + 1 < s.len() && s[bracket + 1] == '(' && paren < s.len() {
        Some(
            (
                SpanModel {
                    link: Some(s.subrange(bracket + 2, paren)),
                    ..plain_span(s.subrange(i + 1, bracket))
                },
                paren + 1,
            ),
        )
    } else {
        None
    }
}

pub proof fn lemma_span_at(s: Seq<char>, i: int)
    requires
        0 <= i < s.len(),
    ensures
        match span_at(s, i) {
            Some((span, next)) => i < next <= s.len(),
            None => true,
        },
{
    text::lemma_next(s, '`', i + 1);
    text::lemma_next(s, s[i], i + 1);
    text::lemma_next(s, ']', i + 1);
    if i + 2 <= s.len() {
        lemma_next_pair(s, '*', i + 2);
    }
    let bracket = text::next(s, ']', i + 1);
    if bracket + 2 <= s.len() {
        text::lemma_next(s, ')', bracket + 2);
    }
}

/// Text without a face, as a span where there is any.
pub open spec fn as_plain(plain: Seq<char>) -> Seq<SpanModel> {
    if plain.len() == 0 {
        Seq::empty()
    } else {
        seq![plain_span(plain)]
    }
}

/// Whether two stars stand at `i` that no two stars behind them close.
pub open spec fn is_open_pair(s: Seq<char>, i: int) -> bool {
    &&& i + 1 < s.len()
    &&& s[i] == '*'
    &&& s[i + 1] == '*'
    &&& next_pair(s, '*', i + 2) >= s.len()
}

/// The spans of a line from `i` on, with the text without a face that stands
/// right before `i`. A backslash makes the next character text, and a marker that
/// never closes is text, all of it.
pub open spec fn spans_from(s: Seq<char>, i: int, plain: Seq<char>) -> Seq<SpanModel>
    decreases s.len() - i,
{
    if i < 0 || i >= s.len() {
        as_plain(plain)
    } else if s[i] == '\\' && i + 1 < s.len() {
        spans_from(s, i + 2, plain.push(s[i + 1]))
    } else if is_open_pair(s, i) {
        spans_from(s, i + 2, plain.push('*').push('*'))
    } else {
        proof {
            lemma_span_at(s, i);
        }
        match span_at(s, i) {
            Some((span, next)) => as_plain(plain) + seq![span] + spans_from(s, next, Seq::empty()),
            None => spans_from(s, i + 1, plain.push(s[i])),
        }
    }
}

/// The spans of a line: an empty one where there would be none.
pub open spec fn spans_of(s: Seq<char>) -> Seq<SpanModel> {
    let found = spans_from(s, 0, Seq::empty());
    if found.len() == 0 {
        seq![plain_span(Seq::empty())]
    } else {
        found
    }
}

/// Where one of the characters next stands.
fn find(characters: &[char], from: usize, c: char) -> (r: Option<usize>)
    ensures
        from <= characters.len() ==> match r {
            Some(at) => at == text::next(characters@, c, from as int) && from <= at
                < characters.len(),
            None => text::next(characters@, c, from as int) == characters.len(),
        },
        from > characters.len() ==> r is None,
{
    if from > characters.len() {
        return None;
    }
    let at = text::next_of(characters, c, from);
    if at < characters.len() {
        Some(at)
    } else {
        None
    }
}

/// The close of a `**` run.
fn find_pair(characters: &[char], from: usize, marker: char) -> (r: Option<usize>)
    requires
        from <= characters.len(),
    ensures
        match r {
            Some(at) => at == next_pair(characters@, marker, from as int) && from <= at && at + 1
                < characters.len(),
            None => next_pair(characters@, marker, from as int) == characters.len(),
        },
{
    let mut i: usize = from;
    while i < characters.len() && i + 1 < characters.len()
        invariant
            from <= i <= characters.len(),
            next_pair(characters@, marker, from as int) == next_pair(
                characters@,
                marker,
                i as int,
            ),
        decreases characters.len() - i,
    {
        if characters[i] == marker && characters[i + 1] == marker {
            return Some(i);
        }
        i = i + 1;
    }
    None
}

fn piece(s: &[char], from: usize, to: usize) -> (r: String)
    requires
        from <= to <= s.len(),
    ensures
        r@ == s@.subrange(from as int, to as int),
{
    text::string_of(slice_subrange(s, from, to))
}

/// The span whose markup opens at `i`, and where its markup ends.
fn marked(s: &[char], i: usize) -> (r: Option<(Span, usize)>)
    requires
        i < s.len(),
    ensures
        match r {
            Some((span, next)) => span_at(s@, i as int) == Some((span@, next as int)) && i < next
                <= s.len(),
            None => span_at(s@, i as int) is None,
        },
{
    proof {
        lemma_span_at(s@, i as int);
    }
    // Code first: nothing inside backticks is markup.
    if s[i] == '`' {
        if let Some(close) = find(s, i + 1, '`') {
            let mut span = Span::default();
            span.text = piece(s, i + 1, close);
            span.code = true;
            return Some((span, close + 1));
        }
    }
    if s[i] == '*' && i + 1 < s.len() && s[i + 1] == '*' {
        if let Some(close) = find_pair(s, i + 2, '*') {
            let mut span = Span::default();
            span.text = piece(s, i + 2, close);
            span.bold = true;
            return Some((span, close + 2));
        }
    }
    if s[i] == '*' || s[i] == '_' {
        if let Some(close) = find(s, i + 1, s[i]) {
            // `snake_case_words` are not emphasis: an underscore behind a word
            // character is text.
            let inside_word = s[i] == '_' && i > 0 && s[i - 1].is_alphanumeric();
            if !inside_word {
                let mut span = Span::default();
                span.text = piece(s, i + 1, close);
                span.italic = true;
                return Some((span, close + 1));
            }
        }
    }
    if s[i] == '[' {
        if let Some(close) = find(s, i + 1, ']') {
            if close + 1 < s.len() && s[close + 1] == '(' {
                if let Some(end) = find(s, close + 2, ')') {
                    let mut span = Span::default();
                    span.text = piece(s, i + 1, close);
                    span.link = Some(piece(s, close + 2, end));
                    return Some((span, end + 1));
                }
            }
        }
    }
    None
}

fn open_pair(s: &[char], i: usize) -> (r: bool)
    requires
        i < s.len(),
    ensures
        r == is_open_pair(s@, i as int),
        r ==> i + 2 <= s.len(),
{
    if i + 1 < s.len() && s[i] == '*' && s[i + 1] == '*' {
        proof {
            lemma_next_pair(s@, '*', i + 2);
        }
        find_pair(s, i + 2, '*').is_none()
    } else {
        false
    }
}

/// Splits one line of text into spans by its inline markup.
///
/// A marker that never closes is text, not an error.
pub fn spans(text: &str) -> (r: Vec<Span>)
    ensures
        spans_model(r@) == spans_of(text@),
        r.len() > 0,
{
    let characters = text::chars_of(text);
    let s = characters.as_slice();
    let mut found: Vec<Span> = Vec::new();
    let mut plain = String::new();
    let mut i: usize = 0;
    let ghost whole = spans_from(s@, 0, Seq::empty());
    assert(spans_model(found@) + spans_from(s@, 0, plain@) =~= whole);
    while i < s.len()
        invariant
            i <= s.len(),
            s@ == text@,
            whole == spans_model(found@) + spans_from(s@, i as int, plain@),
        decreases s.len() - i,
    {
        if s[i] == '\\' && i + 1 < s.len() {
            plain.push(s[i + 1]);
            i = i + 2;
        } else if open_pair(s, i) {
            plain.push('*');
            plain.push('*');
            i = i + 2;
        } else if let Some((span, next)) = marked(s, i) {
            let ghost before = spans_model(found@);
            let ghost rest = spans_from(s@, next as int, Seq::empty());
            let ghost p = plain@;
            let ghost m = span@;
            push_plain(&mut found, &mut plain);
            found.push(span);
            assert(spans_model(found@) =~= before + as_plain(p) + seq![m]);
            assert(before + (as_plain(p) + seq![m] + rest) =~= before + as_plain(p) + seq![m]
                + rest);
            i = next;
        } else {
            plain.push(s[i]);
            i = i + 1;
        }
    }
    push_plain(&mut found, &mut plain);
    if found.is_empty() {
        found.push(Span::plain(""));
        proof {
            reveal_strlit("");
        }
        assert(""@ =~= Seq::<char>::empty());
        assert(spans_model(found@) =~= spans_of(text@));
    }
    found
}

/// Closes the text without a face that has been gathered.
fn push_plain(found: &mut Vec<Span>, plain: &mut String)
    ensures
        spans_model(final(found)@) == spans_model(old(found)@) + as_plain(old(plain)@),
        final(plain)@ == Seq::<char>::empty(),
{
    if !plain.as_str().is_empty() {
        found.push(Span::plain(plain.as_str()));
        *plain = String::new();
    }
    assert(spans_model(found@) =~= spans_model(old(found)@) + as_plain(old(plain)@));
}

// ---------------------------------------------------------------------------
// Line by line
// ---------------------------------------------------------------------------

/// The info string of a fence, where a line is one.
pub open spec fn fence_info(t: Seq<char>) -> Option<Seq<char>> {
    match text::after(t, "```"@) {
        Some(info) => Some(text::trim(info)),
        None => match text::after(t, "~~~"@) {
            Some(info) => Some(text::trim(info)),
            None => None,
        },
    }
}

fn fence<'a>(t: &'a [char]) -> (r: Option<&'a [char]>)
    ensures
        match r {
            Some(info) => fence_info(t@) == Some(info@),
            None => fence_info(t@) is None,
        },
{
    if let Some(info) = text::past(t, "```") {
        return Some(text::trimmed(info));
    }
    if let Some(info) = text::past(t, "~~~") {
        return Some(text::trimmed(info));
    }
    None
}

/// Whether a line is a heading: its level, from one to six, and its text.
pub open spec fn heading_of(t: Seq<char>) -> Option<(int, Seq<char>)> {
    let hashes = text::leading(t, '#') as int;
    if 1 <= hashes <= 6 && hashes < t.len() && t[hashes] == ' ' {
        Some((hashes, text::trim(t.skip(hashes + 1))))
    } else {
        None
    }
}

fn heading<'a>(t: &'a [char]) -> (r: Option<(u8, &'a [char])>)
    ensures
        match r {
            Some((level, rest)) => heading_of(t@) == Some((level as int, rest@)) && 1 <= level
                <= 6,
            None => heading_of(t@) is None,
        },
{
    let hashes = text::leading_of(t, '#');
    if hashes == 0 || hashes > 6 {
        return None;
    }
    if hashes < t.len() && t[hashes] == ' ' {
        let rest = text::trimmed(slice_subrange(t, hashes + 1, t.len()));
        Some((hashes as u8, rest))
    } else {
        None
    }
}

/// How many characters of a line are not white space.
pub open spec fn ink(t: Seq<char>) -> nat
    decreases t.len(),
{
    if t.len() == 0 {
        0
    } else {
        ink(t.drop_last()) + if text::is_space(t.last()) {
            0nat
        } else {
            1nat
        }
    }
}

/// Whether every character that is not white space is `c`.
pub open spec fn made_of(t: Seq<char>, c: char) -> bool {
    forall|i: int| 0 <= i < t.len() ==> text::is_space(#[trigger] t[i]) || t[i] == c
}

/// A rule: at least three of one of `-`, `*` and `_`, and nothing else.
pub open spec fn is_rule_line(t: Seq<char>) -> bool {
    ink(t) >= 3 && (made_of(t, '-') || made_of(t, '*') || made_of(t, '_'))
}

fn is_rule(t: &[char]) -> (r: bool)
    ensures
        r == is_rule_line(t@),
{
    let mut count: usize = 0;
    let mut dashes = true;
    let mut stars = true;
    let mut bars = true;
    let mut i: usize = 0;
    while i < t.len()
        invariant
            0 <= i <= t.len(),
            count == ink(t@.take(i as int)),
            count <= i,
            dashes == made_of(t@.take(i as int), '-'),
            stars == made_of(t@.take(i as int), '*'),
            bars == made_of(t@.take(i as int), '_'),
        decreases t.len() - i,
    {
        let c = t[i];
        let ghost now = t@.take(i as int);
        let ghost grown = t@.take(i + 1);
        assert(grown.drop_last() =~= now);
        if !text::space(c) {
            count = count + 1;
            dashes = dashes && c == '-';
            stars = stars && c == '*';
            bars = bars && c == '_';
        }
        assert(grown =~= now.push(c));
        assert forall|d: char| #[trigger] made_of(grown, d) == (made_of(now, d) && (
        text::is_space(c) || c == d)) by {
            assert forall|j: int| 0 <= j < now.len() implies now[j] == #[trigger] grown[j] by {}
            assert(grown[now.len() as int] == c);
            if made_of(grown, d) {
                assert forall|j: int| 0 <= j < now.len() implies text::is_space(
                    #[trigger] now[j],
                ) || now[j] == d by {
                    assert(now[j] == grown[j]);
                }
            }
        }
        i = i + 1;
    }
    assert(t@.take(t@.len() as int) =~= t@);
    count >= 3 && (dashes || stars || bars)
}

/// How far a line is indented: one for a space, four for a tab.
pub open spec fn indent(line: Seq<char>) -> nat
    decreases line.len(),
{
    if line.len() > 0 && line[0] == ' ' {
        1 + indent(line.drop_first())
    } else if line.len() > 0 && line[0] == '\t' {
        4 + indent(line.drop_first())
    } else {
        0
    }
}

fn indent_of(line: &[char]) -> (r: u128)
    ensures
        r == indent(line@),
{
    let mut r: u128 = 0;
    let mut i: usize = 0;
    assert(line@.skip(0) =~= line@);
    while i < line.len() && (line[i] == ' ' || line[i] == '\t')
        invariant
            0 <= i <= line.len(),
            r <= 4 * i,
            indent(line@) == r + indent(line@.skip(i as int)),
        decreases line.len() - i,
    {
        assert(line@.skip(i as int).drop_first() =~= line@.skip(i + 1));
        if line[i] == ' ' {
            r = r + 1;
        } else {
            r = r + 4;
        }
        i = i + 1;
    }
    r
}

/// What a list item's marker leaves, and whether the item is a numbered one.
pub open spec fn marker_of(t: Seq<char>) -> Option<(Seq<char>, bool)> {
    let rest = t.skip(text::leading_digits(t) as int);
    if text::starts(t, "- "@) || text::starts(t, "* "@) || text::starts(t, "+ "@) {
        Some((t.skip(2), false))
    } else if text::leading_digits(t) > 0 && (text::starts(rest, ". "@) || text::starts(
        rest,
        ") "@,
    )) {
        Some((rest.skip(2), true))
    } else {
        None
    }
}

/// Whether a line is a list item: its level, which is half its indent and at
/// most four, its text, and whether it is a numbered one.
pub open spec fn item_of(line: Seq<char>) -> Option<(int, Seq<char>, bool)> {
    let level = if indent(line) / 2 < 4 {
        (indent(line) / 2) as int
    } else {
        4
    };
    match marker_of(text::trim_start(line)) {
        Some((rest, ordered)) => Some((level, text::trim(rest), ordered)),
        None => None,
    }
}

fn item<'a>(line: &'a [char]) -> (r: Option<(u8, &'a [char], bool)>)
    ensures
        match r {
            Some((level, rest, ordered)) => item_of(line@) == Some((level as int, rest@, ordered)),
            None => item_of(line@) is None,
        },
{
    proof {
        reveal_strlit("- ");
        reveal_strlit("* ");
        reveal_strlit("+ ");
        reveal_strlit(". ");
        reveal_strlit(") ");
    }
    let half: u128 = indent_of(line) / 2;
    let level: u8 = if half < 4 {
        half as u8
    } else {
        4
    };
    let t = text::trimmed_start(line);
    if text::begins(t, "- ") || text::begins(t, "* ") || text::begins(t, "+ ") {
        let rest = text::trimmed(slice_subrange(t, 2, t.len()));
        return Some((level, rest, false));
    }
    let digits = text::leading_digits_of(t);
    if digits > 0 {
        let rest = slice_subrange(t, digits, t.len());
        if text::begins(rest, ". ") || text::begins(rest, ") ") {
            let rest = text::trimmed(slice_subrange(rest, 2, rest.len()));
            return Some((level, rest, true));
        }
    }
    None
}

/// A line that could be a row of a table.
pub open spec fn is_row_line(t: Seq<char>) -> bool {
    t.len() > 1 && t[0] == '|'
}

fn is_row(t: &[char]) -> (r: bool)
    ensures
        r == is_row_line(t@),
{
    t.len() > 1 && t[0] == '|'
}

/// A row without the bars around it.
pub open spec fn row_inner(t: Seq<char>) -> Seq<char> {
    let u = text::trim(t);
    text::without_trailing(u.skip(text::leading(u, '|') as int), '|')
}

/// The cells of a row: what stands between the bars, trimmed.
pub open spec fn cells_of(t: Seq<char>) -> Seq<Seq<char>> {
    text::split(row_inner(t), '|').map_values(|cell: Seq<char>| text::trim(cell))
}

fn cells(t: &[char]) -> (r: Vec<String>)
    ensures
        text::texts(r@) == cells_of(t@),
{
    let u = text::trimmed(t);
    let front = text::leading_of(u, '|');
    let inner = text::trailing_off(slice_subrange(u, front, u.len()), '|');
    let pieces = text::pieces(inner, '|');
    let mut r: Vec<String> = Vec::new();
    let mut i: usize = 0;
    while i < pieces.len()
        invariant
            0 <= i <= pieces.len(),
            text::runs(pieces@) == text::split(inner@, '|'),
            text::texts(r@) == text::split(inner@, '|').take(i as int).map_values(
                |cell: Seq<char>| text::trim(cell),
            ),
        decreases pieces.len() - i,
    {
        let ghost before = text::texts(r@);
        assert(text::split(inner@, '|')[i as int] == pieces@[i as int]@);
        r.push(text::string_of(text::trimmed(pieces[i])));
        assert(text::texts(r@) =~= before.push(text::trim(pieces@[i as int]@)));
        assert(text::texts(r@) =~= text::split(inner@, '|').take(i + 1).map_values(
            |cell: Seq<char>| text::trim(cell),
        ));
        i = i + 1;
    }
    assert(text::split(inner@, '|').take(pieces.len() as int) =~= text::split(inner@, '|'));
    r
}

/// A cell of a delimiter row: dashes, colons and white space, and a dash among
/// them.
pub open spec fn is_delimiter_cell(cell: Seq<char>) -> bool {
    &&& forall|i: int|
        0 <= i < cell.len() ==> (#[trigger] cell[i]) == '-' || cell[i] == ':' || text::is_space(
            cell[i],
        )
    &&& exists|i: int| 0 <= i < cell.len() && #[trigger] cell[i] == '-'
}

/// `|---|:--:|` and friends: the row that makes the one above it a header.
pub open spec fn is_delimiter_line(t: Seq<char>) -> bool {
    &&& is_row_line(t)
    &&& forall|i: int| 0 <= i < cells_of(t).len() ==> is_delimiter_cell(#[trigger] cells_of(t)[i])
}

fn delimits(cell: &str) -> (r: bool)
    ensures
        r == is_delimiter_cell(cell@),
{
    let chars = text::chars_of(cell);
    let mut dash = false;
    let mut i: usize = 0;
    while i < chars.len()
        invariant
            0 <= i <= chars.len(),
            chars@ == cell@,
            dash == (exists|j: int| 0 <= j < i && #[trigger] cell@[j] == '-'),
            forall|j: int|
                0 <= j < i ==> (#[trigger] cell@[j]) == '-' || cell@[j] == ':' || text::is_space(
                    cell@[j],
                ),
        decreases chars.len() - i,
    {
        let c = chars[i];
        assert(cell@[i as int] == c);
        if c == '-' {
            dash = true;
        } else if !(c == ':' || text::space(c)) {
            return false;
        }
        i = i + 1;
    }
    dash
}

fn is_delimiter(t: &[char]) -> (r: bool)
    ensures
        r == is_delimiter_line(t@),
{
    if !is_row(t) {
        return false;
    }
    let all = cells(t);
    let mut i: usize = 0;
    while i < all.len()
        invariant
            0 <= i <= all.len(),
            text::texts(all@) == cells_of(t@),
            forall|j: int| 0 <= j < i ==> is_delimiter_cell(#[trigger] cells_of(t@)[j]),
        decreases all.len() - i,
    {
        let one = delimits(all[i].as_str());
        assert(cells_of(t@)[i as int] == all@[i as int]@);
        if !one {
            return false;
        }
        i = i + 1;
    }
    assert(cells_of(t@).len() == all.len());
    true
}

/// What a quote's marker leaves, where a line is a quote.
pub open spec fn quote_of(t: Seq<char>) -> Option<Seq<char>> {
    if text::starts(t, "> "@) {
        Some(t.skip(2))
    } else if t == ">"@ {
        Some(Seq::empty())
    } else {
        None
    }
}

/// The first line at or after `i` that is a fence: the number of lines where
/// there is none.
pub open spec fn fence_end(lines: Seq<Seq<char>>, i: int) -> int
    decreases lines.len() - i,
{
    if i >= lines.len() {
        lines.len() as int
    } else if fence_info(text::trim(lines[i])) is Some {
        i
    } else {
        fence_end(lines, i + 1)
    }
}

/// The first line at or after `i` that is not a row of a table: the number of
/// lines where there is none.
pub open spec fn rows_end(lines: Seq<Seq<char>>, i: int) -> int
    decreases lines.len() - i,
{
    if i >= lines.len() {
        lines.len() as int
    } else if !is_row_line(text::trim(lines[i])) {
        i
    } else {
        rows_end(lines, i + 1)
    }
}

/// What a line opens.
pub enum Opening {
    /// Nothing: the line is empty.
    Blank,
    /// Nothing that has a form of its own: the line is part of a paragraph.
    Words,
    /// A block, which goes on until the line `next`.
    Whole { block: BlockModel, next: int },
}

/// What the line `i` opens.
pub open spec fn opening(lines: Seq<Seq<char>>, i: int) -> Opening {
    let line = lines[i];
    let t = text::trim(line);
    if let Some(info) = fence_info(t) {
        // A fence swallows lines verbatim until it closes.
        let end = fence_end(lines, i + 1);
        Opening::Whole {
            block: BlockModel::Code {
                language: if info.len() == 0 {
                    None
                } else {
                    Some(info)
                },
                text: text::join(lines.subrange(i + 1, end), "\n"@),
            },
            next: if end < lines.len() {
                end + 1
            } else {
                end
            },
        }
    } else if t.len() == 0 {
        Opening::Blank
    } else if t == "\\pagebreak"@ || t == "\\newpage"@ {
        Opening::Whole { block: BlockModel::PageBreak, next: i + 1 }
    } else if is_rule_line(t) {
        Opening::Whole { block: BlockModel::Rule, next: i + 1 }
    } else if let Some((level, rest)) = heading_of(t) {
        Opening::Whole {
            block: BlockModel::Heading { level, spans: spans_of(rest) },
            next: i + 1,
        }
    } else if is_row_line(t) && i + 1 < lines.len() && is_delimiter_line(
        text::trim(lines[i + 1]),
    ) {
        let end = rows_end(lines, i + 2);
        Opening::Whole {
            block: BlockModel::Table {
                header: cells_of(t),
                rows: lines.subrange(i + 2, end).map_values(
                    |row: Seq<char>| cells_of(text::trim(row)),
                ),
            },
            next: end,
        }
    } else if let Some((level, rest, ordered)) = item_of(line) {
        Opening::Whole {
            block: if ordered {
                BlockModel::Numbered { level, spans: spans_of(rest) }
            } else {
                BlockModel::Bullet { level, spans: spans_of(rest) }
            },
            next: i + 1,
        }
    } else if let Some(rest) = quote_of(t) {
        Opening::Whole { block: BlockModel::Quote { spans: spans_of(rest) }, next: i + 1 }
    } else {
        Opening::Words
    }
}

/// A paragraph of some lines, where there are any: wrapped lines are one
/// paragraph.
pub open spec fn paragraph_of(lines: Seq<Seq<char>>) -> Seq<BlockModel> {
    if lines.len() == 0 {
        Seq::empty()
    } else {
        seq![BlockModel::Paragraph { spans: spans_of(text::join(lines, " "@)) }]
    }
}

pub proof fn lemma_fence_end(lines: Seq<Seq<char>>, i: int)
    requires
        0 <= i <= lines.len(),
    ensures
        i <= fence_end(lines, i) <= lines.len(),
        forall|j: int|
            i <= j < fence_end(lines, i) ==> fence_info(text::trim(#[trigger] lines[j])) is None,
    decreases lines.len() - i,
{
    if i < lines.len() && fence_info(text::trim(lines[i])) is None {
        lemma_fence_end(lines, i + 1);
    }
}

pub proof fn lemma_rows_end(lines: Seq<Seq<char>>, i: int)
    requires
        0 <= i <= lines.len(),
    ensures
        i <= rows_end(lines, i) <= lines.len(),
    decreases lines.len() - i,
{
    if i < lines.len() && is_row_line(text::trim(lines[i])) {
        lemma_rows_end(lines, i + 1);
    }
}

pub proof fn lemma_opening(lines: Seq<Seq<char>>, i: int)
    requires
        0 <= i < lines.len(),
    ensures
        match opening(lines, i) {
            Opening::Whole { block, next } => i < next <= lines.len(),
            _ => true,
        },
{
    lemma_fence_end(lines, i + 1);
    if i + 2 <= lines.len() {
        lemma_rows_end(lines, i + 2);
    }
}

/// The blocks of a document from the line `i` on, with the lines of the
/// paragraph that is open there.
pub open spec fn blocks_from(
    lines: Seq<Seq<char>>,
    i: int,
    open: Seq<Seq<char>>,
) -> Seq<BlockModel>
    decreases lines.len() - i,
{
    if i < 0 || i >= lines.len() {
        paragraph_of(open)
    } else {
        proof {
            lemma_opening(lines, i);
        }
        match opening(lines, i) {
            Opening::Blank => paragraph_of(open) + blocks_from(lines, i + 1, Seq::empty()),
            Opening::Words => blocks_from(lines, i + 1, open.push(text::trim(lines[i]))),
            Opening::Whole { block, next } => paragraph_of(open) + seq![block] + blocks_from(
                lines,
                next,
                Seq::empty(),
            ),
        }
    }
}

/// The blocks of a Markdown text.
pub open spec fn blocks_of(markdown: Seq<char>) -> Seq<BlockModel> {
    blocks_from(text::lines(markdown), 0, Seq::empty())
}

/// What a line opens, where that is a block.
enum Opened {
    Blank,
    Words,
    Whole(Block, usize),
}

fn code_block(lines: &Vec<&[char]>, i: usize, info: &[char]) -> (r: (Block, usize))
    requires
        i < lines.len(),
    ensures
        r.0@ == (BlockModel::Code {
            language: if info@.len() == 0 {
                None
            } else {
                Some(info@)
            },
            text: text::join(
                text::runs(lines@).subrange(i + 1, fence_end(text::runs(lines@), i + 1)),
                "\n"@,
            ),
        }),
        r.1 == fence_end(text::runs(lines@), i + 1),
        i < r.1 <= lines.len(),
{
    let ghost all = text::runs(lines@);
    let mut end: usize = i + 1;
    while end < lines.len() && fence(text::trimmed(lines[end])).is_none()
        invariant
            i < end <= lines.len(),
            all == text::runs(lines@),
            fence_end(all, i + 1) == fence_end(all, end as int),
        decreases lines.len() - end,
    {
        assert(all[end as int] == lines@[end as int]@);
        end = end + 1;
    }
    assert(end < lines.len() ==> all[end as int] == lines@[end as int]@);
    let language = if info.len() == 0 {
        None
    } else {
        Some(text::string_of(info))
    };
    let body = text::joined_runs(lines, i + 1, end, "\n");
    (Block::Code { language, text: body }, end)
}

fn table_block(lines: &Vec<&[char]>, i: usize, t: &[char]) -> (r: (Block, usize))
    requires
        i + 1 < lines.len(),
    ensures
        r.0@ == (BlockModel::Table {
            header: cells_of(t@),
            rows: text::runs(lines@).subrange(
                i + 2,
                rows_end(text::runs(lines@), i + 2),
            ).map_values(|row: Seq<char>| cells_of(text::trim(row))),
        }),
        r.1 == rows_end(text::runs(lines@), i + 2),
        i < r.1 <= lines.len(),
{
    let ghost all = text::runs(lines@);
    let header = cells(t);
    let mut rows: Vec<Vec<String>> = Vec::new();
    let mut end: usize = i + 2;
    while end < lines.len() && is_row(text::trimmed(lines[end]))
        invariant
            i + 2 <= end <= lines.len(),
            all == text::runs(lines@),
            rows_end(all, i + 2) == rows_end(all, end as int),
            rows_model(rows@) == all.subrange(i + 2, end as int).map_values(
                |row: Seq<char>| cells_of(text::trim(row)),
            ),
        decreases lines.len() - end,
    {
        let ghost before = rows_model(rows@);
        assert(all[end as int] == lines@[end as int]@);
        rows.push(cells(text::trimmed(lines[end])));
        assert(rows_model(rows@) =~= before.push(cells_of(text::trim(all[end as int]))));
        assert(rows_model(rows@) =~= all.subrange(i + 2, end + 1).map_values(
            |row: Seq<char>| cells_of(text::trim(row)),
        ));
        end = end + 1;
    }
    assert(end < lines.len() ==> all[end as int] == lines@[end as int]@);
    (Block::Table { header, rows }, end)
}

fn quote<'a>(t: &'a [char]) -> (r: Option<&'a [char]>)
    ensures
        match r {
            Some(rest) => quote_of(t@) == Some(rest@),
            None => quote_of(t@) is None,
        },
{
    proof {
        reveal_strlit("> ");
        reveal_strlit(">");
    }
    if text::begins(t, "> ") {
        Some(slice_subrange(t, 2, t.len()))
    } else if text::spells(t, ">") {
        let rest = slice_subrange(t, 0, 0);
        assert(rest@ =~= Seq::<char>::empty());
        Some(rest)
    } else {
        None
    }
}

fn spans_in(run: &[char]) -> (r: Vec<Span>)
    ensures
        spans_model(r@) == spans_of(run@),
{
    let line = text::string_of(run);
    spans(line.as_str())
}

/// What the line `i` opens.
fn open_at(lines: &Vec<&[char]>, i: usize) -> (r: Opened)
    requires
        i < lines.len(),
    ensures
        match r {
            Opened::Blank => opening(text::runs(lines@), i as int) is Blank,
            Opened::Words => opening(text::runs(lines@), i as int) is Words,
            Opened::Whole(block, next) => opening(text::runs(lines@), i as int)
                == (Opening::Whole { block: block@, next: next as int }) && i < next <= lines.len(),
        },
{
    let ghost all = text::runs(lines@);
    assert(all[i as int] == lines@[i as int]@);
    let line = lines[i];
    let t = text::trimmed(line);
    if let Some(info) = fence(t) {
        let (block, end) = code_block(lines, i, info);
        return if end < lines.len() {
            Opened::Whole(block, end + 1)
        } else {
            Opened::Whole(block, end)
        };
    }
    if t.len() == 0 {
        return Opened::Blank;
    }
    if text::spells(t, "\\pagebreak") || text::spells(t, "\\newpage") {
        return Opened::Whole(Block::PageBreak, i + 1);
    }
    if is_rule(t) {
        return Opened::Whole(Block::Rule, i + 1);
    }
    if let Some((level, rest)) = heading(t) {
        return Opened::Whole(Block::Heading { level, spans: spans_in(rest) }, i + 1);
    }
    // A table is the only construct that needs to look ahead: `| a | b |` is a
    // paragraph unless a delimiter row follows it.
    if is_row(t) && i + 1 < lines.len() && is_delimiter(text::trimmed(lines[i + 1])) {
        assert(all[i + 1] == lines@[i + 1]@);
        let (block, end) = table_block(lines, i, t);
        return Opened::Whole(block, end);
    }
    assert(i + 1 < lines.len() ==> all[i + 1] == lines@[i + 1]@);
    if let Some((level, rest, ordered)) = item(line) {
        let block = if ordered {
            Block::Numbered { level, spans: spans_in(rest) }
        } else {
            Block::Bullet { level, spans: spans_in(rest) }
        };
        return Opened::Whole(block, i + 1);
    }
    if let Some(rest) = quote(t) {
        return Opened::Whole(Block::Quote { spans: spans_in(rest) }, i + 1);
    }
    Opened::Words
}

/// Closes the paragraph that is open.
fn flush(paragraph: &mut Vec<String>, blocks: &mut Vec<Block>)
    ensures
        final(paragraph)@ == Seq::<String>::empty(),
        blocks_model(final(blocks)@) == blocks_model(old(blocks)@) + paragraph_of(
            text::texts(old(paragraph)@),
        ),
{
    if !paragraph.is_empty() {
        let joined = text::joined(paragraph, " ");
        blocks.push(Block::Paragraph { spans: spans(joined.as_str()) });
        *paragraph = Vec::new();
    }
    assert(blocks_model(blocks@) =~= blocks_model(old(blocks)@) + paragraph_of(
        text::texts(old(paragraph)@),
    ));
}

/// Turns Markdown into blocks. Never fails.
pub fn parse(markdown: &str) -> (r: Vec<Block>)
    ensures
        blocks_model(r@) == blocks_of(markdown@),
{
    let characters = text::chars_of(markdown);
    let lines = text::lines_of(characters.as_slice());
    let ghost all = text::runs(lines@);
    let mut blocks: Vec<Block> = Vec::new();
    let mut paragraph: Vec<String> = Vec::new();
    let mut i: usize = 0;
    let ghost whole = blocks_of(markdown@);
    assert(text::texts(paragraph@) =~= Seq::empty());
    assert(blocks_model(blocks@) + blocks_from(all, 0, Seq::empty()) =~= whole);
    while i < lines.len()
        invariant
            i <= lines.len(),
            all == text::runs(lines@),
            whole == blocks_model(blocks@) + blocks_from(all, i as int, text::texts(paragraph@)),
        decreases lines.len() - i,
    {
        let ghost before = blocks_model(blocks@);
        let ghost open = text::texts(paragraph@);
        match open_at(&lines, i) {
            Opened::Blank => {
                flush(&mut paragraph, &mut blocks);
                assert(text::texts(paragraph@) =~= Seq::empty());
                assert(before + (paragraph_of(open) + blocks_from(all, i + 1, Seq::empty()))
                    =~= before + paragraph_of(open) + blocks_from(all, i + 1, Seq::empty()));
                i = i + 1;
            },
            Opened::Words => {
                paragraph.push(text::string_of(text::trimmed(lines[i])));
                assert(text::texts(paragraph@) =~= open.push(text::trim(all[i as int])));
                i = i + 1;
            },
            Opened::Whole(block, next) => {
                flush(&mut paragraph, &mut blocks);
                let ghost b = block@;
                blocks.push(block);
                proof {
                    let rest = blocks_from(all, next as int, Seq::empty());
                    assert(text::texts(paragraph@) =~= Seq::empty());
                    assert(blocks_model(blocks@) =~= before + paragraph_of(open) + seq![b]);
                    assert(before + (paragraph_of(open) + seq![b] + rest) =~= before
                        + paragraph_of(open) + seq![b] + rest);
                }
                i = next;
            },
        }
    }
    flush(&mut paragraph, &mut blocks);
    blocks
}

// ---------------------------------------------------------------------------
// What holds of every document
// ---------------------------------------------------------------------------

/// A block that a writer can take as it is: a heading is on one of six levels, an
/// item on one of five, and whatever has spans has at least one.
pub open spec fn is_writable(block: BlockModel) -> bool {
    match block {
        BlockModel::Heading { level, spans } => 1 <= level <= 6 && spans.len() > 0,
        BlockModel::Paragraph { spans } => spans.len() > 0,
        BlockModel::Bullet { level, spans } => 0 <= level <= 4 && spans.len() > 0,
        BlockModel::Numbered { level, spans } => 0 <= level <= 4 && spans.len() > 0,
        BlockModel::Quote { spans } => spans.len() > 0,
        _ => true,
    }
}

proof fn lemma_writable(lines: Seq<Seq<char>>, i: int, open: Seq<Seq<char>>)
    ensures
        forall|k: int|
            0 <= k < blocks_from(lines, i, open).len() ==> is_writable(
                #[trigger] blocks_from(lines, i, open)[k],
            ),
    decreases lines.len() - i,
{
    let all = blocks_from(lines, i, open);
    let first = paragraph_of(open);
    if 0 <= i < lines.len() {
        lemma_opening(lines, i);
        match opening(lines, i) {
            Opening::Blank => {
                lemma_writable(lines, i + 1, Seq::empty());
                let rest = blocks_from(lines, i + 1, Seq::empty());
                assert forall|k: int| 0 <= k < all.len() implies is_writable(#[trigger] all[k]) by {
                    if k >= first.len() {
                        assert(all[k] == rest[k - first.len()]);
                    }
                }
            },
            Opening::Words => {
                let more = open.push(text::trim(lines[i]));
                lemma_writable(lines, i + 1, more);
                assert(all == blocks_from(lines, i + 1, more));
            },
            Opening::Whole { block, next } => {
                lemma_writable(lines, next, Seq::empty());
                assert(is_writable(block));
                let rest = blocks_from(lines, next, Seq::empty());
                assert forall|k: int| 0 <= k < all.len() implies is_writable(#[trigger] all[k]) by {
                    if k > first.len() {
                        assert(all[k] == rest[k - first.len() - 1]);
                    }
                }
            },
        }
    } else {
        assert(all == first);
    }
}

/// Whatever a model writes, every block of it can be written.
pub proof fn every_block_is_writable(markdown: Seq<char>)
    ensures
        forall|k: int|
            0 <= k < blocks_of(markdown).len() ==> is_writable(#[trigger] blocks_of(markdown)[k]),
{
    lemma_writable(text::lines(markdown), 0, Seq::empty());
}

/// The characters that can open markup inside a line.
pub open spec fn opens_markup(c: char) -> bool {
    c == '`' || c == '*' || c == '_' || c == '[' || c == '\\'
}

proof fn lemma_unmarked(s: Seq<char>, i: int, plain: Seq<char>)
    requires
        0 <= i <= s.len(),
        forall|k: int| i <= k < s.len() ==> !opens_markup(#[trigger] s[k]),
    ensures
        spans_from(s, i, plain) == as_plain(plain + s.skip(i)),
    decreases s.len() - i,
{
    if i < s.len() {
        assert(!opens_markup(s[i]));
        lemma_unmarked(s, i + 1, plain.push(s[i]));
        assert(plain.push(s[i]) + s.skip(i + 1) =~= plain + s.skip(i));
    } else {
        assert(plain + s.skip(i) =~= plain);
    }
}

/// A line without markup is one span without a face, character for character.
pub proof fn a_line_without_markup_is_one_span(s: Seq<char>)
    requires
        forall|k: int| 0 <= k < s.len() ==> !opens_markup(#[trigger] s[k]),
    ensures
        spans_of(s) == seq![plain_span(s)],
        spans_text(spans_of(s)) == s,
{
    lemma_unmarked(s, 0, Seq::empty());
    assert(Seq::<char>::empty() + s.skip(0) =~= s);
    if s.len() == 0 {
        assert(s =~= Seq::empty());
    }
    let one = seq![plain_span(s)];
    assert(spans_of(s) =~= one);
    assert(one.drop_last() =~= Seq::empty());
    assert(spans_text(one.drop_last()) =~= Seq::empty());
    assert(spans_text(one) =~= s);
}

/// A marker that never closes stays as text: the line is one span without a
/// face, character for character.
pub proof fn an_unclosed_marker_is_text(marker: Seq<char>, s: Seq<char>)
    requires
        marker == "**"@ || marker == "*"@ || marker == "_"@ || marker == "`"@,
        forall|k: int| 0 <= k < s.len() ==> !opens_markup(#[trigger] s[k]),
    ensures
        spans_of(marker + s) == seq![plain_span(marker + s)],
{
    reveal_strlit("**");
    reveal_strlit("*");
    reveal_strlit("_");
    reveal_strlit("`");
    let t = marker + s;
    let n = marker.len() as int;
    let none = Seq::<char>::empty();
    assert forall|k: int| n <= k < t.len() implies !opens_markup(#[trigger] t[k]) by {
        assert(t[k] == s[k - n]);
    }
    if n == 2 {
        lemma_next_pair(t, '*', 2);
        let at = next_pair(t, '*', 2);
        if at < t.len() {
            lemma_pair_found(t, '*', 2);
        }
        assert(is_open_pair(t, 0));
        let two = none.push('*').push('*');
        lemma_unmarked(t, 2, two);
        assert(two + t.skip(2) =~= t);
    } else {
        text::lemma_next_is(t, t[0], 1, t.len() as int);
        assert(!is_open_pair(t, 0)) by {
            if t.len() > 1 {
                assert(!opens_markup(t[1]));
            }
        }
        assert(span_at(t, 0) is None) by {
            if t.len() > 1 {
                assert(!opens_markup(t[1]));
            }
        }
        let one = none.push(t[0]);
        lemma_unmarked(t, 1, one);
        assert(one + t.skip(1) =~= t);
    }
}

proof fn lemma_pair_found(s: Seq<char>, c: char, from: int)
    requires
        0 <= from <= s.len(),
        next_pair(s, c, from) < s.len(),
    ensures
        from <= next_pair(s, c, from),
        s[next_pair(s, c, from)] == c,
    decreases s.len() - from,
{
    if from + 1 < s.len() && !(s[from] == c && s[from + 1] == c) {
        lemma_pair_found(s, c, from + 1);
    }
}

proof fn lemma_blank(lines: Seq<Seq<char>>, i: int)
    requires
        0 <= i <= lines.len(),
        forall|k: int| 0 <= k < lines.len() ==> text::trim(#[trigger] lines[k]).len() == 0,
    ensures
        blocks_from(lines, i, Seq::empty()) == Seq::<BlockModel>::empty(),
    decreases lines.len() - i,
{
    if i < lines.len() {
        reveal_strlit("```");
        reveal_strlit("~~~");
        assert(text::trim(lines[i]).len() == 0);
        assert(opening(lines, i) is Blank);
        lemma_blank(lines, i + 1);
        assert(blocks_from(lines, i, Seq::empty()) =~= Seq::empty());
    }
}

/// A text with nothing but blank lines in it is a document without a block.
pub proof fn blank_lines_make_no_block(markdown: Seq<char>)
    requires
        forall|k: int|
            0 <= k < text::lines(markdown).len() ==> text::trim(
                #[trigger] text::lines(markdown)[k],
            ).len() == 0,
    ensures
        blocks_of(markdown) == Seq::<BlockModel>::empty(),
{
    lemma_blank(text::lines(markdown), 0);
}

/// A fence keeps what stands inside it as it is: line for line, whatever it looks
/// like.
pub proof fn a_fence_keeps_its_lines(
    before: Seq<char>,
    inside: Seq<Seq<char>>,
    after: Seq<char>,
)
    requires
        fence_info(text::trim(before)) is Some,
        fence_info(text::trim(after)) is Some,
        forall|k: int|
            0 <= k < inside.len() ==> fence_info(text::trim(#[trigger] inside[k])) is None,
    ensures
        ({
            let info = fence_info(text::trim(before))->0;
            blocks_from(seq![before] + inside + seq![after], 0, Seq::empty()) == seq![
                BlockModel::Code {
                    language: if info.len() == 0 {
                        None
                    } else {
                        Some(info)
                    },
                    text: text::join(inside, "\n"@),
                },
            ]
        }),
{
    let lines = seq![before] + inside + seq![after];
    let last = inside.len() + 1;
    lemma_fence_end(lines, 1);
    let end = fence_end(lines, 1);
    assert(lines[last as int] == after);
    assert(end == last) by {
        lemma_fence_reached(lines, 1, last as int);
        if end < last {
            assert(lines[end] == inside[end - 1]);
            lemma_fence_found(lines, 1);
        }
    }
    assert(lines[0] == before);
    assert(lines.subrange(1, end) =~= inside);
    let none = Seq::<Seq<char>>::empty();
    assert(blocks_from(lines, lines.len() as int, none) =~= Seq::empty());
    let info = fence_info(text::trim(before))->0;
    let block = BlockModel::Code {
        language: if info.len() == 0 {
            None
        } else {
            Some(info)
        },
        text: text::join(inside, "\n"@),
    };
    assert(opening(lines, 0) == (Opening::Whole { block, next: lines.len() as int }));
    assert(blocks_from(lines, 0, none) =~= seq![block]);
}

proof fn lemma_fence_reached(lines: Seq<Seq<char>>, i: int, at: int)
    requires
        0 <= i <= at < lines.len(),
        fence_info(text::trim(lines[at])) is Some,
    ensures
        fence_end(lines, i) <= at,
    decreases at - i,
{
    if i < at && fence_info(text::trim(lines[i])) is None {
        lemma_fence_reached(lines, i + 1, at);
    }
}

proof fn lemma_fence_found(lines: Seq<Seq<char>>, i: int)
    requires
        0 <= i <= lines.len(),
    ensures
        fence_end(lines, i) < lines.len() ==> fence_info(
            text::trim(lines[fence_end(lines, i)]),
        ) is Some,
    decreases lines.len() - i,
{
    if i < lines.len() && fence_info(text::trim(lines[i])) is None {
        lemma_fence_found(lines, i + 1);
    }
}

/// How many of some lines, from `i` on, are fences.
pub open spec fn fences(lines: Seq<Seq<char>>, i: int) -> nat
    decreases lines.len() - i,
{
    if i >= lines.len() {
        0
    } else {
        fences(lines, i + 1) + if fence_info(text::trim(lines[i])) is Some {
            1nat
        } else {
            0nat
        }
    }
}

proof fn lemma_fences_end(lines: Seq<Seq<char>>, i: int)
    requires
        0 <= i <= lines.len(),
    ensures
        fences(lines, fence_end(lines, i)) == fences(lines, i),
        fences(lines, i) > 0 ==> fence_end(lines, i) < lines.len(),
    decreases lines.len() - i,
{
    if i < lines.len() && fence_info(text::trim(lines[i])) is None {
        lemma_fences_end(lines, i + 1);
    }
}

proof fn lemma_fences_none(lines: Seq<Seq<char>>, i: int, end: int)
    requires
        0 <= i <= end <= lines.len(),
        forall|k: int| i <= k < end ==> fence_info(text::trim(#[trigger] lines[k])) is None,
    ensures
        fences(lines, i) == fences(lines, end),
    decreases end - i,
{
    if i < end {
        lemma_fences_none(lines, i + 1, end);
    }
}

/// A row of a table is no fence.
proof fn lemma_row_is_no_fence(t: Seq<char>)
    requires
        is_row_line(t),
    ensures
        fence_info(t) is None,
{
    reveal_strlit("```");
    reveal_strlit("~~~");
    if text::starts(t, "```"@) {
        assert(t[0] == t.take(3)[0]);
    }
    if text::starts(t, "~~~"@) {
        assert(t[0] == t.take(3)[0]);
    }
}

proof fn lemma_rows_are_no_fences(lines: Seq<Seq<char>>, i: int)
    requires
        0 <= i <= lines.len(),
    ensures
        i <= rows_end(lines, i) <= lines.len(),
        forall|k: int|
            i <= k < rows_end(lines, i) ==> fence_info(text::trim(#[trigger] lines[k])) is None,
    decreases lines.len() - i,
{
    if i < lines.len() && is_row_line(text::trim(lines[i])) {
        lemma_row_is_no_fence(text::trim(lines[i]));
        lemma_rows_are_no_fences(lines, i + 1);
    }
}

/// Where no fence is open, none is behind what a line opens.
proof fn lemma_fences_behind(lines: Seq<Seq<char>>, i: int)
    requires
        0 <= i < lines.len(),
        fences(lines, i) % 2 == 0,
    ensures
        match opening(lines, i) {
            Opening::Whole { block, next } => i < next <= lines.len() && fences(lines, next) % 2
                == 0,
            _ => fences(lines, i + 1) % 2 == 0,
        },
        fence_info(text::trim(lines[i])) is Some ==> fence_end(lines, i + 1) < lines.len(),
{
    lemma_opening(lines, i);
    lemma_fence_end(lines, i + 1);
    if fence_info(text::trim(lines[i])) is Some {
        let end = fence_end(lines, i + 1);
        lemma_fences_end(lines, i + 1);
        lemma_fence_found(lines, i + 1);
        assert(fences(lines, i) == fences(lines, i + 1) + 1);
        assert(fences(lines, end) == fences(lines, end + 1) + 1);
    } else if i + 1 < lines.len() && is_row_line(text::trim(lines[i])) && is_delimiter_line(
        text::trim(lines[i + 1]),
    ) {
        lemma_row_is_no_fence(text::trim(lines[i + 1]));
        lemma_rows_are_no_fences(lines, i + 2);
        lemma_fences_none(lines, i + 2, rows_end(lines, i + 2));
        assert(fences(lines, i + 1) == fences(lines, i + 2));
        assert(fences(lines, i) == fences(lines, i + 1));
    } else {
        assert(fences(lines, i) == fences(lines, i + 1));
    }
}

proof fn lemma_blank_line(t: Seq<char>)
    requires
        t.len() == 0,
    ensures
        fence_info(t) is None,
        !is_row_line(t),
{
    reveal_strlit("```");
    reveal_strlit("~~~");
}

proof fn lemma_fence_end_front(front: Seq<Seq<char>>, rest: Seq<Seq<char>>, i: int)
    requires
        0 <= i <= front.len(),
        fence_end(front, i) < front.len(),
    ensures
        fence_end(front + rest, i) == fence_end(front, i),
    decreases front.len() - i,
{
    if i < front.len() {
        assert((front + rest)[i] == front[i]);
        if fence_info(text::trim(front[i])) is None {
            lemma_fence_end_front(front, rest, i + 1);
        }
    }
}

proof fn lemma_rows_end_front(front: Seq<Seq<char>>, blank: Seq<char>, rest: Seq<Seq<char>>, i: int)
    requires
        0 <= i <= front.len(),
        text::trim(blank).len() == 0,
    ensures
        rows_end(front + (seq![blank] + rest), i) == rows_end(front, i),
    decreases front.len() - i,
{
    let all = front + (seq![blank] + rest);
    if i < front.len() {
        assert(all[i] == front[i]);
        if is_row_line(text::trim(front[i])) {
            lemma_rows_end_front(front, blank, rest, i + 1);
        }
    } else {
        assert(all[i] == blank);
    }
}

/// What stands in front of a blank line opens what it opens alone.
proof fn lemma_opening_front(front: Seq<Seq<char>>, blank: Seq<char>, rest: Seq<Seq<char>>, i: int)
    requires
        0 <= i < front.len(),
        text::trim(blank).len() == 0,
        fences(front, i) % 2 == 0,
    ensures
        opening(front + (seq![blank] + rest), i) == opening(front, i),
{
    let all = front + (seq![blank] + rest);
    let t = text::trim(front[i]);
    assert(all[i] == front[i]);
    lemma_fences_behind(front, i);
    lemma_blank_line(text::trim(blank));
    if fence_info(t) is Some {
        lemma_fence_end(front, i + 1);
        lemma_fence_end_front(front, seq![blank] + rest, i + 1);
        let end = fence_end(front, i + 1);
        assert(all.subrange(i + 1, end) =~= front.subrange(i + 1, end));
    } else if i + 1 == front.len() {
        assert(all[i + 1] == blank);
        assert(!is_delimiter_line(text::trim(all[i + 1])));
    } else {
        assert(all[i + 1] == front[i + 1]);
        if is_row_line(t) && is_delimiter_line(text::trim(front[i + 1])) {
            lemma_rows_end_front(front, blank, rest, i + 2);
            lemma_rows_end(front, i + 2);
            let end = rows_end(front, i + 2);
            assert(all.subrange(i + 2, end) =~= front.subrange(i + 2, end));
        }
    }
}

proof fn lemma_blocks_front(
    front: Seq<Seq<char>>,
    blank: Seq<char>,
    rest: Seq<Seq<char>>,
    i: int,
    open: Seq<Seq<char>>,
)
    requires
        0 <= i <= front.len(),
        text::trim(blank).len() == 0,
        fences(front, i) % 2 == 0,
    ensures
        blocks_from(front + (seq![blank] + rest), i, open) == blocks_from(front, i, open)
            + blocks_from(front + (seq![blank] + rest), front.len() as int + 1, Seq::empty()),
    decreases front.len() - i,
{
    let all = front + (seq![blank] + rest);
    let none = Seq::<Seq<char>>::empty();
    let tail = blocks_from(all, front.len() as int + 1, none);
    if i == front.len() {
        assert(all[i] == blank);
        lemma_blank_line(text::trim(blank));
        assert(opening(all, i) is Blank);
    } else {
        lemma_opening_front(front, blank, rest, i);
        lemma_fences_behind(front, i);
        assert(all[i] == front[i]);
        match opening(front, i) {
            Opening::Blank => {
                lemma_blocks_front(front, blank, rest, i + 1, none);
                let mid = blocks_from(front, i + 1, none);
                assert(paragraph_of(open) + (mid + tail) =~= paragraph_of(open) + mid + tail);
            },
            Opening::Words => {
                lemma_blocks_front(
                    front,
                    blank,
                    rest,
                    i + 1,
                    open.push(text::trim(front[i])),
                );
            },
            Opening::Whole { block, next } => {
                lemma_blocks_front(front, blank, rest, next, none);
                let mid = blocks_from(front, next, none);
                assert(paragraph_of(open) + seq![block] + (mid + tail) =~= paragraph_of(open)
                    + seq![block] + mid + tail);
            },
        }
    }
}

proof fn lemma_fence_end_behind(front: Seq<Seq<char>>, rest: Seq<Seq<char>>, j: int)
    requires
        0 <= j <= rest.len(),
    ensures
        fence_end(front + rest, front.len() + j) == front.len() + fence_end(rest, j),
        rows_end(front + rest, front.len() + j) == front.len() + rows_end(rest, j),
    decreases rest.len() - j,
{
    if j < rest.len() {
        assert((front + rest)[front.len() + j] == rest[j]);
        lemma_fence_end_behind(front, rest, j + 1);
    }
}

/// What stands behind other lines makes what it makes alone.
proof fn lemma_blocks_behind(
    front: Seq<Seq<char>>,
    rest: Seq<Seq<char>>,
    j: int,
    open: Seq<Seq<char>>,
)
    requires
        0 <= j <= rest.len(),
    ensures
        blocks_from(front + rest, front.len() + j, open) == blocks_from(rest, j, open),
    decreases rest.len() - j,
{
    let all = front + rest;
    let at = front.len() + j;
    if j < rest.len() {
        assert(all[at] == rest[j]);
        lemma_opening(rest, j);
        lemma_fence_end(rest, j + 1);
        lemma_fence_end_behind(front, rest, j + 1);
        let end = fence_end(rest, j + 1);
        assert(all.subrange(at + 1, front.len() + end) =~= rest.subrange(j + 1, end));
        if j + 1 < rest.len() {
            assert(all[at + 1] == rest[j + 1]);
            lemma_fence_end_behind(front, rest, j + 2);
            lemma_rows_end(rest, j + 2);
            let last = rows_end(rest, j + 2);
            assert(all.subrange(at + 2, front.len() + last) =~= rest.subrange(j + 2, last));
        }
        match opening(rest, j) {
            Opening::Blank => {
                assert(opening(all, at) is Blank);
                lemma_blocks_behind(front, rest, j + 1, Seq::empty());
            },
            Opening::Words => {
                assert(opening(all, at) is Words);
                lemma_blocks_behind(front, rest, j + 1, open.push(text::trim(rest[j])));
            },
            Opening::Whole { block, next } => {
                assert(opening(all, at) == (Opening::Whole { block, next: front.len() + next }));
                lemma_blocks_behind(front, rest, next, Seq::empty());
            },
        }
    }
}

/// A line and the same line with a carriage return at its end open the same.
proof fn lemma_return(line: Seq<char>)
    ensures
        text::trim(text::without_return(line)) == text::trim(line),
        item_of(text::without_return(line)) == item_of(line),
{
    let clean = text::without_return(line);
    if clean != line {
        let blank = seq!['\r'];
        assert(line =~= clean + blank);
        assert(text::is_blank(blank));
        text::lemma_trim_tail(clean, blank);
        lemma_indent_tail(clean);
        lemma_marker_tail(clean);
    }
}

proof fn lemma_indent_tail(s: Seq<char>)
    ensures
        indent(s + seq!['\r']) == indent(s),
    decreases s.len(),
{
    let t = s + seq!['\r'];
    if s.len() > 0 {
        assert(t[0] == s[0]);
        assert(t.drop_first() =~= s.drop_first() + seq!['\r']);
        lemma_indent_tail(s.drop_first());
    } else {
        assert(t[0] == '\r');
    }
}

proof fn lemma_digits_tail(s: Seq<char>)
    ensures
        text::leading_digits(s + seq!['\r']) == text::leading_digits(s),
        text::leading_digits(s) <= s.len(),
    decreases s.len(),
{
    let t = s + seq!['\r'];
    if s.len() > 0 {
        assert(t[0] == s[0]);
        assert(t.drop_first() =~= s.drop_first() + seq!['\r']);
        assert(t.skip(1) =~= s.skip(1) + seq!['\r']);
        lemma_digits_tail(s.skip(1));
        lemma_digits_tail(s.drop_first());
    } else {
        assert(t[0] == '\r');
    }
}

proof fn lemma_starts_tail(s: Seq<char>, p: Seq<char>)
    requires
        p.len() == 2,
        p[1] == ' ',
    ensures
        text::starts(s + seq!['\r'], p) == text::starts(s, p),
{
    let t = s + seq!['\r'];
    if s.len() >= 2 {
        assert(t.take(2) =~= s.take(2));
    } else if t.len() == 2 {
        assert(t.take(2)[1] == '\r');
    }
}

proof fn lemma_marker_tail(line: Seq<char>)
    ensures
        item_of(line + seq!['\r']) == item_of(line),
{
    reveal_strlit("- ");
    reveal_strlit("* ");
    reveal_strlit("+ ");
    reveal_strlit(". ");
    reveal_strlit(") ");
    let blank = seq!['\r'];
    lemma_indent_tail(line);
    let s = text::trim_start(line);
    text::lemma_trim_start(line);
    if s.len() == 0 {
        assert(text::trim_start(line + blank).len() == 0) by {
            lemma_all_blank(line);
        }
        assert(text::trim_start(line + blank) =~= s);
    } else {
        text::lemma_trim_start_front(line, blank);
        let t = s + blank;
        lemma_starts_tail(s, "- "@);
        lemma_starts_tail(s, "* "@);
        lemma_starts_tail(s, "+ "@);
        lemma_digits_tail(s);
        let n = text::leading_digits(s) as int;
        let rest = s.skip(n);
        assert(t.skip(n) =~= rest + blank);
        lemma_starts_tail(rest, ". "@);
        lemma_starts_tail(rest, ") "@);
        assert(text::is_blank(blank));
        if s.len() >= 2 {
            assert(t.skip(2) =~= s.skip(2) + blank);
            text::lemma_trim_tail(s.skip(2), blank);
        }
        if rest.len() >= 2 {
            assert((rest + blank).skip(2) =~= rest.skip(2) + blank);
            text::lemma_trim_tail(rest.skip(2), blank);
        }
    }
}

proof fn lemma_all_blank(line: Seq<char>)
    requires
        text::trim_start(line).len() == 0,
    ensures
        text::trim_start(line + seq!['\r']).len() == 0,
    decreases line.len(),
{
    let t = line + seq!['\r'];
    if line.len() > 0 {
        assert(t[0] == line[0]);
        assert(t.drop_first() =~= line.drop_first() + seq!['\r']);
        lemma_all_blank(line.drop_first());
    } else {
        assert(t[0] == '\r');
        assert(t.drop_first() =~= Seq::empty());
        assert(text::trim_start(t.drop_first()).len() == 0);
    }
}

/// Lines of which the last may have lost the carriage return at its end.
spec fn alike(a: Seq<Seq<char>>, b: Seq<Seq<char>>) -> bool {
    &&& a.len() == b.len()
    &&& forall|k: int| 0 <= k < a.len() - 1 ==> #[trigger] a[k] == b[k]
    &&& a.len() > 0 ==> a.last() == text::without_return(b.last())
}

proof fn lemma_alike(a: Seq<Seq<char>>, b: Seq<Seq<char>>, k: int)
    requires
        alike(a, b),
        0 <= k < a.len(),
    ensures
        text::trim(a[k]) == text::trim(b[k]),
        item_of(a[k]) == item_of(b[k]),
{
    if k == a.len() - 1 {
        lemma_return(b[k]);
    }
}

proof fn lemma_ends_alike(a: Seq<Seq<char>>, b: Seq<Seq<char>>, i: int)
    requires
        alike(a, b),
        0 <= i <= a.len(),
    ensures
        fence_end(a, i) == fence_end(b, i),
        rows_end(a, i) == rows_end(b, i),
        fences(a, i) == fences(b, i),
    decreases a.len() - i,
{
    if i < a.len() {
        lemma_alike(a, b, i);
        lemma_ends_alike(a, b, i + 1);
    }
}

proof fn lemma_blocks_alike(a: Seq<Seq<char>>, b: Seq<Seq<char>>, i: int, open: Seq<Seq<char>>)
    requires
        alike(a, b),
        0 <= i <= a.len(),
        fences(a, i) % 2 == 0,
    ensures
        blocks_from(a, i, open) == blocks_from(b, i, open),
    decreases a.len() - i,
{
    if i < a.len() {
        lemma_alike(a, b, i);
        lemma_ends_alike(a, b, i);
        lemma_ends_alike(a, b, i + 1);
        lemma_fences_behind(a, i);
        lemma_opening(a, i);
        let t = text::trim(a[i]);
        if fence_info(t) is Some {
            lemma_fence_end(a, i + 1);
            let end = fence_end(a, i + 1);
            assert(a.subrange(i + 1, end) =~= b.subrange(i + 1, end));
        } else if i + 1 < a.len() {
            lemma_alike(a, b, i + 1);
            lemma_ends_alike(a, b, i + 2);
            lemma_rows_end(a, i + 2);
            let end = rows_end(a, i + 2);
            let trimmed = |row: Seq<char>| cells_of(text::trim(row));
            let x = a.subrange(i + 2, end).map_values(trimmed);
            let y = b.subrange(i + 2, end).map_values(trimmed);
            assert forall|k: int| 0 <= k < x.len() implies #[trigger] x[k] == y[k] by {
                lemma_alike(a, b, i + 2 + k);
            }
            assert(x =~= y);
        }
        assert(opening(a, i) == opening(b, i));
        match opening(a, i) {
            Opening::Blank => lemma_blocks_alike(a, b, i + 1, Seq::empty()),
            Opening::Words => lemma_blocks_alike(a, b, i + 1, open.push(t)),
            Opening::Whole { block, next } => lemma_blocks_alike(a, b, next, Seq::empty()),
        }
    }
}

/// A line feed behind a text changes none of its blocks.
proof fn lemma_line_feed(a: Seq<char>)
    requires
        fences(text::lines(a), 0) % 2 == 0,
    ensures
        blocks_of(a + seq!['\n']) == blocks_of(a),
        fences(text::lines(a + seq!['\n']), 0) % 2 == 0,
{
    let gap = seq!['\n'];
    let none = Seq::<Seq<char>>::empty();
    let nothing = Seq::<char>::empty();
    let lines = text::lines(a);
    let more = text::lines(a + gap);
    assert(!nothing.contains('\n'));
    text::lemma_one_line(nothing);
    assert(nothing + gap =~= gap);
    assert(text::lines(gap) =~= seq![nothing]);
    assert(text::trim(nothing).len() == 0);
    if a.len() == 0 || a.last() == '\n' {
        if a.len() > 0 {
            assert(a + gap =~= a.drop_last() + gap + gap);
            assert(a =~= a.drop_last() + gap);
            text::lemma_lines_break(a.drop_last(), gap);
        } else {
            assert(a + gap =~= gap);
            assert(lines =~= none);
        }
        assert(more =~= lines + (seq![nothing] + none));
        lemma_blocks_front(lines, nothing, none, 0, none);
        assert(blocks_from(more, lines.len() as int + 1, none) =~= Seq::empty());
        lemma_fences_front(lines, nothing, 0);
        assert(seq![nothing] + none =~= seq![nothing]);
    } else {
        lemma_alike_lines(a);
        lemma_ends_alike(more, lines, 0);
        lemma_blocks_alike(more, lines, 0, none);
    }
}

proof fn lemma_fences_front(front: Seq<Seq<char>>, blank: Seq<char>, i: int)
    requires
        0 <= i <= front.len(),
        text::trim(blank).len() == 0,
    ensures
        fences(front + seq![blank], i) == fences(front, i),
    decreases front.len() - i,
{
    let all = front + seq![blank];
    if i < front.len() {
        assert(all[i] == front[i]);
        lemma_fences_front(front, blank, i + 1);
    } else {
        assert(all[i] == blank);
        lemma_blank_line(text::trim(blank));
        assert(fences(all, i + 1) == 0);
    }
}

proof fn lemma_alike_lines(a: Seq<char>)
    requires
        a.len() > 0,
        a.last() != '\n',
    ensures
        alike(text::lines(a + seq!['\n']), text::lines(a)),
    decreases a.len(),
{
    let gap = seq!['\n'];
    let t = a + gap;
    let n = text::next(a, '\n', 0);
    text::lemma_next(a, '\n', 0);
    text::lemma_next_is(t, '\n', 0, n);
    if n < a.len() {
        let rest = a.skip(n + 1);
        assert(rest.last() == a.last());
        lemma_alike_lines(rest);
        assert(t.skip(n + 1) =~= rest + gap);
        assert(t.take(n) =~= a.take(n));
        let x = text::lines(t);
        let y = text::lines(a);
        assert(x.len() == y.len());
        let u = text::lines(rest + gap);
        let v = text::lines(rest);
        assert forall|k: int| 0 <= k < x.len() - 1 implies #[trigger] x[k] == y[k] by {
            if k > 0 {
                assert(x[k] == u[k - 1]);
                assert(y[k] == v[k - 1]);
            }
        }
        assert(u.len() > 0) by {
            assert(rest.len() > 0);
        }
        assert(x.last() == u.last());
        assert(y.last() == v.last());
    } else {
        assert(!a.contains('\n')) by {
            if a.contains('\n') {
                let i = choose|i: int| 0 <= i < a.len() && a[i] == '\n';
                assert(a[i] != '\n');
            }
        }
        text::lemma_one_line(a);
    }
}

/// A blank line parts a document in two: what stands in front of it and what
/// stands behind it make the blocks that each makes alone, where no fence is left
/// open.
pub proof fn a_blank_line_parts_a_document(a: Seq<char>, b: Seq<char>)
    requires
        fences(text::lines(a), 0) % 2 == 0,
    ensures
        blocks_of(a + "\n\n"@ + b) == blocks_of(a) + blocks_of(b),
{
    reveal_strlit("\n\n");
    let gap = seq!['\n'];
    let none = Seq::<Seq<char>>::empty();
    let nothing = Seq::<char>::empty();
    let whole = a + "\n\n"@ + b;
    let front = text::lines(a + gap);
    let rest = text::lines(b);
    lemma_line_feed(a);
    assert(whole =~= a + gap + (gap + b));
    text::lemma_lines_break(a, gap + b);
    assert(gap + b =~= nothing + gap + b);
    text::lemma_lines_break(nothing, b);
    assert(!nothing.contains('\n'));
    text::lemma_one_line(nothing);
    assert(text::lines(whole) =~= front + (seq![nothing] + rest));
    assert(text::trim(nothing).len() == 0);
    lemma_blocks_front(front, nothing, rest, 0, none);
    let head = front + seq![nothing];
    assert(head + rest =~= front + (seq![nothing] + rest));
    lemma_blocks_behind(head, rest, 0, none);
}

// ---------------------------------------------------------------------------
// What a line is written as is what it becomes
// ---------------------------------------------------------------------------

/// Words without markup: they begin with a letter, end with something that shows, and
/// stand on one line.
pub open spec fn is_words(s: Seq<char>) -> bool {
    &&& s.len() > 0
    &&& ('a' <= s[0] && s[0] <= 'z') || ('A' <= s[0] && s[0] <= 'Z')
    &&& !text::is_space(s.last())
    &&& forall|k: int| 0 <= k < s.len() ==> !opens_markup(#[trigger] s[k]) && s[k] != '\n'
}

/// So many of one character.
pub open spec fn times(c: char, n: nat) -> Seq<char> {
    Seq::new(n, |i: int| c)
}

proof fn lemma_single_line(line: Seq<char>)
    requires
        line.len() > 0,
        forall|k: int| 0 <= k < line.len() ==> #[trigger] line[k] != '\n',
    ensures
        text::lines(line) == seq![line],
{
    text::lemma_next_is(line, '\n', 0, line.len() as int);
}

proof fn lemma_single_block(line: Seq<char>, block: BlockModel)
    requires
        line.len() > 0,
        forall|k: int| 0 <= k < line.len() ==> #[trigger] line[k] != '\n',
        opening(seq![line], 0) == (Opening::Whole { block, next: 1 }),
    ensures
        blocks_of(line) == seq![block],
{
    lemma_single_line(line);
    let lines = seq![line];
    let none = Seq::<Seq<char>>::empty();
    assert(blocks_from(lines, 1, none) =~= Seq::empty());
    assert(blocks_from(lines, 0, none) =~= seq![block]);
}

/// A line that begins with none of a fence, a page break, a rule or a heading.
proof fn lemma_no_frame(t: Seq<char>, at: int)
    requires
        0 <= at < t.len(),
        ('a' <= t[at] && t[at] <= 'z') || ('A' <= t[at] && t[at] <= 'Z'),
        t[0] != '`',
        t[0] != '~',
        t[0] != '\\',
    ensures
        fence_info(t) is None,
        t != "\\pagebreak"@,
        t != "\\newpage"@,
        !is_rule_line(t),
{
    reveal_strlit("```");
    reveal_strlit("~~~");
    reveal_strlit("\\pagebreak");
    reveal_strlit("\\newpage");
    if text::starts(t, "```"@) {
        assert(t.take(3)[0] == t[0]);
    }
    if text::starts(t, "~~~"@) {
        assert(t.take(3)[0] == t[0]);
    }
    assert("\\pagebreak"@[0] == '\\');
    assert("\\newpage"@[0] == '\\');
    assert(!text::is_space(t[at]));
    assert(!made_of(t, '-') && !made_of(t, '*') && !made_of(t, '_'));
}

/// As many hashes as there are, from one to six, make a heading of that level, with the
/// words behind them.
pub proof fn hashes_make_a_heading(n: nat, words: Seq<char>)
    requires
        1 <= n <= 6,
        is_words(words),
    ensures
        blocks_of(times('#', n) + seq![' '] + words) == seq![
            BlockModel::Heading { level: n as int, spans: seq![plain_span(words)] },
        ],
{
    let t = times('#', n) + seq![' '] + words;
    assert(t[0] == '#' && t.last() == words.last());
    text::lemma_trim_unchanged(t);
    assert(t[n as int + 1] == words[0]);
    lemma_no_frame(t, n as int + 1);
    lemma_leading_times('#', n, seq![' '] + words);
    assert(t =~= times('#', n) + (seq![' '] + words));
    assert(t.skip(n as int + 1) =~= words);
    text::lemma_trim_unchanged(words);
    a_line_without_markup_is_one_span(words);
    assert forall|k: int| 0 <= k < t.len() implies #[trigger] t[k] != '\n' by {
        if k > n {
            assert(t[k] == words[k - n - 1]);
        }
    }
    lemma_single_block(t, BlockModel::Heading { level: n as int, spans: seq![plain_span(words)] });
}

proof fn lemma_leading_times(c: char, n: nat, rest: Seq<char>)
    requires
        rest.len() > 0 ==> rest[0] != c,
    ensures
        text::leading(times(c, n) + rest, c) == n,
    decreases n,
{
    let s = times(c, n) + rest;
    if n > 0 {
        assert(s[0] == c);
        assert(s.drop_first() =~= times(c, (n - 1) as nat) + rest);
        lemma_leading_times(c, (n - 1) as nat, rest);
    } else {
        assert(s =~= rest);
    }
}

proof fn lemma_indented(n: nat, rest: Seq<char>)
    requires
        rest.len() > 0,
        !text::is_space(rest[0]),
        !text::is_space(rest.last()),
    ensures
        indent(times(' ', n) + rest) == n,
        text::trim_start(times(' ', n) + rest) == rest,
        text::trim(times(' ', n) + rest) == rest,
    decreases n,
{
    let s = times(' ', n) + rest;
    if n > 0 {
        assert(s[0] == ' ');
        assert(s.drop_first() =~= times(' ', (n - 1) as nat) + rest);
        lemma_indented((n - 1) as nat, rest);
    } else {
        assert(s =~= rest);
    }
    assert(text::trim_end(rest) == rest);
}

proof fn lemma_no_heading(t: Seq<char>)
    requires
        t.len() > 0,
        t[0] != '#',
    ensures
        heading_of(t) is None,
{
}

/// A dash, a star or a plus makes a bullet, as deep as there are pairs of spaces in front
/// of it, down to the fifth level.
pub proof fn a_mark_makes_a_bullet(mark: char, pairs: nat, words: Seq<char>)
    requires
        mark == '-' || mark == '*' || mark == '+',
        is_words(words),
    ensures
        blocks_of(times(' ', 2 * pairs) + seq![mark, ' '] + words) == seq![
            BlockModel::Bullet {
                level: if pairs < 4 {
                    pairs as int
                } else {
                    4
                },
                spans: seq![plain_span(words)],
            },
        ],
{
    reveal_strlit("- ");
    reveal_strlit("* ");
    reveal_strlit("+ ");
    let t = seq![mark, ' '] + words;
    let line = times(' ', 2 * pairs) + seq![mark, ' '] + words;
    assert(line =~= times(' ', 2 * pairs) + t);
    assert(t.last() == words.last() && t[2] == words[0]);
    lemma_indented(2 * pairs, t);
    lemma_no_frame(t, 2);
    lemma_no_heading(t);
    assert(t.take(2) =~= seq![mark, ' ']);
    assert(mark == '-' ==> t.take(2) =~= "- "@);
    assert(mark == '*' ==> t.take(2) =~= "* "@);
    assert(mark == '+' ==> t.take(2) =~= "+ "@);
    assert(t.skip(2) =~= words);
    text::lemma_trim_unchanged(words);
    a_line_without_markup_is_one_span(words);
    assert(line.skip((2 * pairs + 2) as int) =~= words);
    lemma_item_line(line, t, words, 2 * pairs + 2);
    assert(2 * pairs / 2 == pairs);
    lemma_single_block(
        line,
        BlockModel::Bullet {
            level: if pairs < 4 {
                pairs as int
            } else {
                4
            },
            spans: seq![plain_span(words)],
        },
    );
}

proof fn lemma_item_line(line: Seq<char>, t: Seq<char>, words: Seq<char>, n: nat)
    requires
        is_words(words),
        line.len() == n + words.len(),
        forall|k: int| 0 <= k < n ==> #[trigger] line[k] != '\n',
        line.skip(n as int) == words,
    ensures
        forall|k: int| 0 <= k < line.len() ==> #[trigger] line[k] != '\n',
{
    assert forall|k: int| 0 <= k < line.len() implies #[trigger] line[k] != '\n' by {
        if k >= n {
            assert(line.skip(n as int)[k - n] == line[k]);
            assert(words[k - n] != '\n');
        }
    }
}

/// A number and a dot make a numbered item, as deep as there are pairs of spaces in front
/// of it, down to the fifth level.
pub proof fn a_number_makes_a_numbered_item(number: nat, pairs: nat, words: Seq<char>)
    requires
        is_words(words),
    ensures
        blocks_of(times(' ', 2 * pairs) + text::decimal(number) + seq!['.', ' '] + words) == seq![
            BlockModel::Numbered {
                level: if pairs < 4 {
                    pairs as int
                } else {
                    4
                },
                spans: seq![plain_span(words)],
            },
        ],
{
    reveal_strlit("- ");
    reveal_strlit("* ");
    reveal_strlit("+ ");
    reveal_strlit(". ");
    let d = text::decimal(number);
    text::lemma_decimal(number);
    let t = d + seq!['.', ' '] + words;
    let line = times(' ', 2 * pairs) + d + seq!['.', ' '] + words;
    assert(line =~= times(' ', 2 * pairs) + t);
    let n = d.len();
    assert(t[0] == d[0] && t.last() == words.last() && t[n as int + 2] == words[0]);
    assert(text::is_digit(d[0]));
    lemma_indented(2 * pairs, t);
    lemma_no_frame(t, n as int + 2);
    lemma_no_heading(t);
    if text::starts(t, "- "@) {
        assert(t.take(2)[0] == t[0]);
    }
    if text::starts(t, "* "@) {
        assert(t.take(2)[0] == t[0]);
    }
    if text::starts(t, "+ "@) {
        assert(t.take(2)[0] == t[0]);
    }
    lemma_leading_digits(d, seq!['.', ' '] + words);
    assert(t =~= d + (seq!['.', ' '] + words));
    let rest = t.skip(n as int);
    assert(rest =~= seq!['.', ' '] + words);
    assert(rest.take(2) =~= ". "@);
    assert(rest.skip(2) =~= words);
    text::lemma_trim_unchanged(words);
    a_line_without_markup_is_one_span(words);
    assert forall|k: int| 0 <= k < 2 * pairs + n + 2 implies #[trigger] line[k] != '\n' by {
        if 2 * pairs <= k < 2 * pairs + n {
            assert(line[k] == d[k - 2 * pairs]);
            assert(text::is_digit(d[k - 2 * pairs]));
        }
    }
    assert(line.skip((2 * pairs + n + 2) as int) =~= words);
    lemma_item_line(line, t, words, 2 * pairs + n + 2);
    assert(2 * pairs / 2 == pairs);
    lemma_single_block(
        line,
        BlockModel::Numbered {
            level: if pairs < 4 {
                pairs as int
            } else {
                4
            },
            spans: seq![plain_span(words)],
        },
    );
}

proof fn lemma_leading_digits(d: Seq<char>, rest: Seq<char>)
    requires
        forall|i: int| 0 <= i < d.len() ==> text::is_digit(#[trigger] d[i]),
        rest.len() > 0 ==> !text::is_digit(rest[0]),
    ensures
        text::leading_digits(d + rest) == d.len(),
    decreases d.len(),
{
    let s = d + rest;
    if d.len() > 0 {
        assert(s[0] == d[0]);
        assert(text::is_digit(d[0]));
        assert(s.drop_first() =~= d.drop_first() + rest);
        assert forall|i: int| 0 <= i < d.drop_first().len() implies text::is_digit(
            #[trigger] d.drop_first()[i],
        ) by {
            assert(d.drop_first()[i] == d[i + 1]);
        }
        lemma_leading_digits(d.drop_first(), rest);
    } else {
        assert(s =~= rest);
    }
}

/// A line of words alone is a paragraph, and one behind an angle bracket a quotation.
pub proof fn words_make_a_paragraph_and_a_bracket_a_quotation(words: Seq<char>)
    requires
        is_words(words),
    ensures
        blocks_of(words) == seq![BlockModel::Paragraph { spans: seq![plain_span(words)] }],
        blocks_of(seq!['>', ' '] + words) == seq![
            BlockModel::Quote { spans: seq![plain_span(words)] },
        ],
{
    lemma_paragraph(words);
    lemma_quotation(words);
}

proof fn lemma_paragraph(words: Seq<char>)
    requires
        is_words(words),
    ensures
        blocks_of(words) == seq![BlockModel::Paragraph { spans: seq![plain_span(words)] }],
{
    text::lemma_trim_unchanged(words);
    a_line_without_markup_is_one_span(words);
    lemma_no_frame(words, 0);
    lemma_no_heading(words);
    lemma_no_item(words);
    assert(quote_of(words) is None) by {
        reveal_strlit("> ");
        reveal_strlit(">");
        if text::starts(words, "> "@) {
            assert(words.take(2)[0] == words[0]);
        }
        assert(">"@[0] == '>');
    }
    lemma_single_line(words);
    let lines = seq![words];
    let none = Seq::<Seq<char>>::empty();
    assert(opening(lines, 0) is Words);
    assert(none.push(words) =~= lines);
    assert(text::join(lines, " "@) == words);
    assert(blocks_from(lines, 1, lines) == paragraph_of(lines));
    assert(blocks_from(lines, 0, none) == blocks_from(lines, 1, none.push(words)));
}

proof fn lemma_quotation(words: Seq<char>)
    requires
        is_words(words),
    ensures
        blocks_of(seq!['>', ' '] + words) == seq![
            BlockModel::Quote { spans: seq![plain_span(words)] },
        ],
{
    let t = seq!['>', ' '] + words;
    a_line_without_markup_is_one_span(words);
    assert(t.last() == words.last() && t[2] == words[0]);
    text::lemma_trim_unchanged(t);
    lemma_no_frame(t, 2);
    lemma_no_heading(t);
    lemma_no_item(t);
    assert(quote_of(t) == Some(words)) by {
        reveal_strlit("> ");
        assert(t.take(2) =~= "> "@);
        assert(t.skip(2) =~= words);
    }
    assert forall|k: int| 0 <= k < t.len() implies #[trigger] t[k] != '\n' by {
        if k >= 2 {
            assert(t[k] == words[k - 2]);
        }
    }
    lemma_single_block(t, BlockModel::Quote { spans: seq![plain_span(words)] });
}

proof fn lemma_no_item(t: Seq<char>)
    requires
        t.len() > 0,
        !text::is_space(t[0]),
        t[0] != '-',
        t[0] != '*',
        t[0] != '+',
        !text::is_digit(t[0]),
    ensures
        item_of(t) is None,
{
    reveal_strlit("- ");
    reveal_strlit("* ");
    reveal_strlit("+ ");
    if text::starts(t, "- "@) {
        assert(t.take(2)[0] == t[0]);
    }
    if text::starts(t, "* "@) {
        assert(t.take(2)[0] == t[0]);
    }
    if text::starts(t, "+ "@) {
        assert(t.take(2)[0] == t[0]);
    }
}

/// Three dashes or more, and nothing else, are a rule.
pub proof fn dashes_make_a_rule(n: nat)
    requires
        n >= 3,
    ensures
        blocks_of(times('-', n)) == seq![BlockModel::Rule],
{
    let t = times('-', n);
    reveal_strlit("```");
    reveal_strlit("~~~");
    reveal_strlit("\\pagebreak");
    reveal_strlit("\\newpage");
    if text::starts(t, "```"@) {
        assert(t.take(3)[0] == t[0]);
    }
    if text::starts(t, "~~~"@) {
        assert(t.take(3)[0] == t[0]);
    }
    assert("\\pagebreak"@[0] == '\\' && "\\newpage"@[0] == '\\' && t[0] == '-');
    text::lemma_trim_unchanged(t);
    lemma_ink_of_dashes(n);
    lemma_single_block(t, BlockModel::Rule);
}

proof fn lemma_ink_of_dashes(n: nat)
    ensures
        ink(times('-', n)) == n,
    decreases n,
{
    if n > 0 {
        assert(times('-', n).drop_last() =~= times('-', (n - 1) as nat));
        lemma_ink_of_dashes((n - 1) as nat);
    }
}

/// No character that could open markup.
pub open spec fn is_plain(s: Seq<char>) -> bool {
    forall|k: int| 0 <= k < s.len() ==> !opens_markup(#[trigger] s[k])
}

/// The spans of a marked text between two plain ones: the plain ones as they are, where
/// there is anything of them, and the marked one between them.
pub open spec fn around(p: Seq<char>, span: SpanModel, q: Seq<char>) -> Seq<SpanModel> {
    (if p.len() > 0 {
        seq![plain_span(p)]
    } else {
        Seq::empty()
    }) + seq![span] + (if q.len() > 0 {
        seq![plain_span(q)]
    } else {
        Seq::empty()
    })
}

proof fn lemma_plain_until(s: Seq<char>, i: int, at: int, plain: Seq<char>)
    requires
        0 <= i <= at <= s.len(),
        forall|k: int| i <= k < at ==> !opens_markup(#[trigger] s[k]),
    ensures
        spans_from(s, i, plain) == spans_from(s, at, plain + s.subrange(i, at)),
    decreases at - i,
{
    if i < at {
        assert(!opens_markup(s[i]));
        lemma_plain_until(s, i + 1, at, plain.push(s[i]));
        assert(plain.push(s[i]) + s.subrange(i + 1, at) =~= plain + s.subrange(i, at));
    } else {
        assert(plain + s.subrange(i, at) =~= plain);
    }
}

proof fn lemma_around(s: Seq<char>, p: Seq<char>, span: SpanModel, next: int, q: Seq<char>)
    requires
        p.len() < next <= s.len(),
        s.take(p.len() as int) == p,
        s.skip(next) == q,
        is_plain(p),
        is_plain(q),
        s[p.len() as int] != '\\',
        !is_open_pair(s, p.len() as int),
        span_at(s, p.len() as int) == Some((span, next)),
    ensures
        spans_of(s) == around(p, span, q),
{
    let at = p.len() as int;
    let none = Seq::<char>::empty();
    assert forall|k: int| 0 <= k < at implies !opens_markup(#[trigger] s[k]) by {
        assert(s.take(at)[k] == s[k]);
        assert(!opens_markup(p[k]));
    }
    lemma_plain_until(s, 0, at, none);
    assert(none + s.subrange(0, at) =~= p);
    assert forall|k: int| next <= k < s.len() implies !opens_markup(#[trigger] s[k]) by {
        assert(s.skip(next)[k - next] == s[k]);
        assert(!opens_markup(q[k - next]));
    }
    lemma_unmarked(s, next, none);
    assert(none + s.skip(next) =~= q);
    assert(spans_from(s, 0, none) =~= around(p, span, q));
}

proof fn lemma_next_pair_is(s: Seq<char>, c: char, from: int, at: int)
    requires
        0 <= from <= at,
        at + 1 < s.len(),
        s[at] == c,
        s[at + 1] == c,
        forall|k: int| from <= k < at ==> #[trigger] s[k] != c,
    ensures
        next_pair(s, c, from) == at,
    decreases at - from,
{
    if from < at {
        assert(s[from] != c);
        lemma_next_pair_is(s, c, from + 1, at);
    }
}

/// What stands between two pairs of stars is bold, and the stars are gone.
pub proof fn stars_in_pairs_make_bold(p: Seq<char>, x: Seq<char>, q: Seq<char>)
    requires
        is_plain(p),
        is_plain(x),
        is_plain(q),
        x.len() > 0,
    ensures
        spans_of(p + seq!['*', '*'] + x + seq!['*', '*'] + q) == around(
            p,
            SpanModel { text: x, bold: true, italic: false, code: false, link: None },
            q,
        ),
{
    let s = p + seq!['*', '*'] + x + seq!['*', '*'] + q;
    let at = p.len() as int;
    let end = at + 2 + x.len();
    assert forall|k: int| at + 2 <= k < end implies #[trigger] s[k] != '*' by {
        assert(s[k] == x[k - at - 2]);
        assert(!opens_markup(x[k - at - 2]));
    }
    lemma_next_pair_is(s, '*', at + 2, end);
    assert(s.subrange(at + 2, end) =~= x);
    assert(s.take(at) =~= p);
    assert(s.skip(end + 2) =~= q);
    lemma_around(
        s,
        p,
        SpanModel { text: x, bold: true, italic: false, code: false, link: None },
        end + 2,
        q,
    );
}

/// What stands between two stars is italic, and what stands between two backquotes is
/// code.
pub proof fn a_star_makes_italic_and_a_backquote_code(p: Seq<char>, x: Seq<char>, q: Seq<char>)
    requires
        is_plain(p),
        is_plain(x),
        is_plain(q),
        x.len() > 0,
    ensures
        spans_of(p + seq!['*'] + x + seq!['*'] + q) == around(
            p,
            SpanModel { text: x, bold: false, italic: true, code: false, link: None },
            q,
        ),
        spans_of(p + seq!['`'] + x + seq!['`'] + q) == around(
            p,
            SpanModel { text: x, bold: false, italic: false, code: true, link: None },
            q,
        ),
{
    lemma_single_mark(p, x, q, '*');
    lemma_single_mark(p, x, q, '`');
}

proof fn lemma_single_mark(p: Seq<char>, x: Seq<char>, q: Seq<char>, c: char)
    requires
        is_plain(p),
        is_plain(x),
        is_plain(q),
        x.len() > 0,
        c == '*' || c == '`',
    ensures
        spans_of(p + seq![c] + x + seq![c] + q) == around(
            p,
            SpanModel { text: x, bold: false, italic: c == '*', code: c == '`', link: None },
            q,
        ),
{
    let s = p + seq![c] + x + seq![c] + q;
    let at = p.len() as int;
    let end = at + 1 + x.len();
    assert forall|k: int| at + 1 <= k < end implies #[trigger] s[k] != c by {
        assert(s[k] == x[k - at - 1]);
        assert(!opens_markup(x[k - at - 1]));
    }
    text::lemma_next_is(s, c, at + 1, end);
    assert(s[at + 1] == x[0] && !opens_markup(x[0]));
    assert(s.subrange(at + 1, end) =~= x);
    assert(s.take(at) =~= p);
    assert(s.skip(end + 1) =~= q);
    lemma_around(
        s,
        p,
        SpanModel { text: x, bold: false, italic: c == '*', code: c == '`', link: None },
        end + 1,
        q,
    );
}

/// A text in square brackets with an address in round ones behind it is a link: the text
/// is shown, and the address is where it points.
pub proof fn brackets_make_a_link(p: Seq<char>, x: Seq<char>, url: Seq<char>, q: Seq<char>)
    requires
        is_plain(p),
        is_plain(q),
        !x.contains(']'),
        !url.contains(')'),
    ensures
        spans_of(p + seq!['['] + x + seq![']', '('] + url + seq![')'] + q) == around(
            p,
            SpanModel { text: x, bold: false, italic: false, code: false, link: Some(url) },
            q,
        ),
{
    let s = p + seq!['['] + x + seq![']', '('] + url + seq![')'] + q;
    let at = p.len() as int;
    let bracket = at + 1 + x.len();
    let paren = bracket + 2 + url.len();
    assert forall|k: int| at + 1 <= k < bracket implies s[k] != ']' by {
        assert(s[k] == x[k - at - 1]);
        assert(x.contains(x[k - at - 1]));
    }
    text::lemma_next_is(s, ']', at + 1, bracket);
    assert forall|k: int| bracket + 2 <= k < paren implies s[k] != ')' by {
        assert(s[k] == url[k - bracket - 2]);
        assert(url.contains(url[k - bracket - 2]));
    }
    text::lemma_next_is(s, ')', bracket + 2, paren);
    assert(s.subrange(at + 1, bracket) =~= x);
    assert(s.subrange(bracket + 2, paren) =~= url);
    assert(s.take(at) =~= p);
    assert(s.skip(paren + 1) =~= q);
    lemma_around(
        s,
        p,
        SpanModel { text: x, bold: false, italic: false, code: false, link: Some(url) },
        paren + 1,
        q,
    );
}

} // verus!
