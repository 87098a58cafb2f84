//! Laying a document out on pages.
//!
//! What is decided here is what goes on a page and where it stands: which steps
//! draw a block, which number a list item gets, how its text is marked up, on
//! which page each line and each row of a table falls. The drawing itself, and
//! the measuring of text that it needs, are left to whoever holds the surface.
//!
//! Text is placed one line at a time. A paragraph that does not fit on what is
//! left of a page goes on over the boundary, rather than overflow the margin or
//! leave a hole.
//!
//! Sizes of type and gaps are in hundredths of a point. Measured heights, and
//! where things stand, are in 1024ths of a point.

use crate::office::docx::columns_of;
use crate::office::markup::{
    blocks_model, optional, rows_model, spans, spans_model, spans_of, Block, BlockModel, Span,
    SpanModel,
};
use crate::office::xml::{escape, escaped};
use crate::text;
use vstd::prelude::*;

verus! {

/// How many units of placement a point has.
pub const SCALE: u64 = 1024;

/// One inch of margin on every side.
pub const MARGIN: u64 = 73_728;

/// Where the text area of an A4 page ends: 841.89 points less the margin.
pub const BOTTOM: u64 = 788_367;

/// How much room a row of a table needs at least: 30 points.
pub const ROW_ROOM: u64 = 30_720;

/// The families that code is set in, in order of preference.
pub const MONO: &'static str = "Source Code Pro, DejaVu Sans Mono, Liberation Mono, monospace";

pub const BODY_SIZE: u32 = 1050;

pub const CODE_SIZE: u32 = 900;

pub const TITLE_SIZE: u32 = 2400;

/// The space around the text of a cell: 5 points.
pub const PADDING: u32 = 5_120;

/// Something went wrong that is worth telling the model about.
#[derive(Debug)]
pub enum Error {
    /// The surface could not be made or written to.
    Surface(String),
}

/// What an error says.
pub open spec fn error_text(error: Error) -> Seq<char> {
    match error {
        Error::Surface(detail) => "the PDF could not be drawn: "@ + detail@,
    }
}

impl Error {
    pub fn describe(&self) -> (r: String)
        ensures
            r@ == error_text(*self),
    {
        match self {
            Error::Surface(detail) => {
                let mut r = "the PDF could not be drawn: ".to_owned();
                r.append(detail.as_str());
                r
            },
        }
    }
}

/// A finished PDF, with how many pages it has.
pub struct Rendered {
    pub bytes: Vec<u8>,
    pub pages: usize,
}

// ---------------------------------------------------------------------------
// Marked-up text
// ---------------------------------------------------------------------------

pub const CODE_START: &'static str = "<span font_family=\"Source Code Pro, DejaVu Sans Mono, Liberation Mono, monospace\" background=\"#f2f2f2\">";

pub const LINK_START: &'static str = "<span foreground=\"#0563c1\" underline=\"single\">";

/// One span, marked up: each face opens inside the one before it, and closes
/// before it does.
pub open spec fn span_markup(span: SpanModel) -> Seq<char> {
    text::given(span.bold, "<b>"@) + text::given(span.italic, "<i>"@) + text::given(
        span.code,
        CODE_START@,
    ) + text::given(span.link is Some, LINK_START@) + escaped(span.text) + text::given(
        span.link is Some,
        "</span>"@,
    ) + text::given(span.code, "</span>"@) + text::given(span.italic, "</i>"@) + text::given(
        span.bold,
        "</b>"@,
    )
}

/// Each span, marked up.
pub open spec fn spans_markup(spans: Seq<SpanModel>) -> Seq<Seq<char>> {
    spans.map_values(|span: SpanModel| span_markup(span))
}

fn mark_up(span: &Span) -> (r: String)
    ensures
        r@ == span_markup(span@),
{
    let mut r = String::new();
    text::push_given(&mut r, span.bold, "<b>");
    assert(r@ =~= text::given(span.bold, "<b>"@));
    text::push_given(&mut r, span.italic, "<i>");
    text::push_given(&mut r, span.code, CODE_START);
    text::push_given(&mut r, span.link.is_some(), LINK_START);
    let safe = escape(span.text.as_str());
    r.append(safe.as_str());
    text::push_given(&mut r, span.link.is_some(), "</span>");
    text::push_given(&mut r, span.code, "</span>");
    text::push_given(&mut r, span.italic, "</i>");
    text::push_given(&mut r, span.bold, "</b>");
    r
}

/// Spans as markup for the layout.
///
/// The layout parses this, so an unescaped `<` from the model would render the
/// whole line as nothing.
pub fn markup(spans: &[Span]) -> (r: String)
    ensures
        r@ == text::concat(spans_markup(spans_model(spans@))),
{
    let ghost all = spans_markup(spans_model(spans@));
    let mut r = String::new();
    let mut i: usize = 0;
    while i < spans.len()
        invariant
            0 <= i <= spans.len(),
            all == spans_markup(spans_model(spans@)),
            r@ == text::concat(all.take(i as int)),
        decreases spans.len() - i,
    {
        let one = mark_up(&spans[i]);
        r.append(one.as_str());
        proof {
            text::lemma_concat_take(all, i as int);
        }
        i = i + 1;
    }
    assert(all.take(all.len() as int) =~= all);
    r
}

/// Spans of a cell: those of a header are bold.
pub open spec fn weighted(spans: Seq<SpanModel>, header: bool) -> Seq<SpanModel> {
    spans.map_values(|span: SpanModel| SpanModel { bold: span.bold || header, ..span })
}

/// The text of a cell as markup for the layout.
pub fn cell_markup(text: &str, header: bool) -> (r: String)
    ensures
        r@ == text::concat(spans_markup(weighted(spans_of(text@), header))),
{
    let plain = spans(text);
    let ghost all = spans_model(plain@);
    let mut bold: Vec<Span> = Vec::new();
    let mut i: usize = 0;
    while i < plain.len()
        invariant
            0 <= i <= plain.len(),
            all == spans_model(plain@),
            bold.len() == i,
            forall|j: int|
                0 <= j < i ==> (#[trigger] bold[j])@ == (SpanModel {
                    bold: all[j].bold || header,
                    ..all[j]
                }),
        decreases plain.len() - i,
    {
        let span = &plain[i];
        bold.push(
            Span {
                text: span.text.clone(),
                bold: span.bold || header,
                italic: span.italic,
                code: span.code,
                link: match &span.link {
                    Some(target) => Some(target.clone()),
                    None => None,
                },
            },
        );
        i = i + 1;
    }
    assert(spans_model(bold@) =~= weighted(all, header));
    markup(bold.as_slice())
}

/// The title that is drawn: trimmed, and none where it is empty.
pub open spec fn title_text(title: Option<Seq<char>>) -> Option<Seq<char>> {
    match title {
        Some(t) => if text::trim(t).len() > 0 {
            Some(text::trim(t))
        } else {
            None
        },
        None => None,
    }
}

pub fn title_of(title: Option<&str>) -> (r: Option<String>)
    ensures
        optional(r) == title_text(crate::office::docx::title_model(title)),
{
    match title {
        Some(t) => {
            let chars = text::chars_of(t);
            let trimmed = text::trimmed(chars.as_slice());
            if trimmed.len() > 0 {
                Some(text::string_of(trimmed))
            } else {
                None
            }
        },
        None => None,
    }
}

// ---------------------------------------------------------------------------
// Numbered lists
// ---------------------------------------------------------------------------

/// How deep a list can go: five levels.
pub open spec fn list_level(level: int) -> int {
    if level < 4 {
        level
    } else {
        4
    }
}

/// The first counters, with a zero for each that is missing up to `n` of them.
pub open spec fn padded(counters: Seq<int>, n: int) -> Seq<int> {
    Seq::new(
        n as nat,
        |i: int|
            if i < counters.len() {
                counters[i]
            } else {
                0
            },
    )
}

/// The counters behind a block: one for each level of the list that is open. A
/// bullet inside a numbered list does not restart it; anything else does.
pub open spec fn counters_after(counters: Seq<int>, block: BlockModel) -> Seq<int> {
    match block {
        BlockModel::Numbered { level, spans } => {
            let n = list_level(level);
            let c = padded(counters, n + 1);
            c.update(n, c[n] + 1)
        },
        BlockModel::Bullet { level, spans } => counters,
        _ => Seq::empty(),
    }
}

/// The counters behind the first `n` blocks.
pub open spec fn counters_at(blocks: Seq<BlockModel>, n: int) -> Seq<int>
    decreases n,
{
    if n <= 0 {
        Seq::empty()
    } else {
        counters_after(counters_at(blocks, n - 1), blocks[n - 1])
    }
}

/// The number that a block is drawn with, where it is a numbered one.
pub open spec fn number_at(blocks: Seq<BlockModel>, i: int) -> int {
    let c = counters_at(blocks, i + 1);
    if c.len() == 0 {
        1
    } else {
        c.last()
    }
}

/// The numbers of a document's blocks.
///
/// The parser takes the number of a list item off its text, so this is the
/// place where it is put back.
pub fn numbers(blocks: &[Block]) -> (r: Vec<usize>)
    ensures
        r.len() == blocks.len(),
        forall|i: int|
            0 <= i < r.len() ==> (#[trigger] r[i]) as int == number_at(blocks_model(blocks@), i),
{
    let ghost all = blocks_model(blocks@);
    let mut counters: Vec<usize> = Vec::new();
    let mut r: Vec<usize> = Vec::new();
    let mut i: usize = 0;
    while i < blocks.len()
        invariant
            0 <= i <= blocks.len(),
            all == blocks_model(blocks@),
            r.len() == i,
            forall|j: int| 0 <= j < i ==> (#[trigger] r[j]) as int == number_at(all, j),
            counters@.map_values(|n: usize| n as int) =~= counters_at(all, i as int),
            forall|j: int| 0 <= j < counters.len() ==> (#[trigger] counters[j]) <= i,
        decreases blocks.len() - i,
    {
        let ghost before = counters@.map_values(|n: usize| n as int);
        match &blocks[i] {
            Block::Numbered { level, spans: _ } => {
                let level: usize = if *level < 4 {
                    *level as usize
                } else {
                    4
                };
                if counters.len() > level + 1 {
                    counters.truncate(level + 1);
                }
                while counters.len() <= level
                    invariant
                        level <= 4,
                        counters.len() <= level + 1,
                        counters.len() >= before.len() || counters.len() == level + 1,
                        i < usize::MAX,
                        forall|j: int| 0 <= j < counters.len() ==> (#[trigger] counters[j]) <= i,
                        counters@.map_values(|n: usize| n as int) =~= padded(
                            before,
                            counters.len() as int,
                        ),
                    decreases level + 1 - counters.len(),
                {
                    let ghost shorter = counters@;
                    counters.push(0);
                    assert(counters@.map_values(|n: usize| n as int)
                        =~= shorter.map_values(|n: usize| n as int).push(0));
                    assert(padded(before, (shorter.len() + 1) as int) =~= padded(
                        before,
                        shorter.len() as int,
                    ).push(0));
                }
                let n: usize = counters[level];
                counters.set(level, n + 1);
                assert(counters@.map_values(|n: usize| n as int) =~= counters_after(
                    before,
                    all[i as int],
                ));
            },
            Block::Bullet { level: _, spans: _ } => {},
            _ => {
                counters.clear();
            },
        }
        let number: usize = if counters.len() == 0 {
            1
        } else {
            counters[counters.len() - 1]
        };
        assert(number == number_at(all, i as int)) by {
            let c = counters_at(all, i + 1);
            assert(counters@.map_values(|n: usize| n as int) =~= c);
            assert(c.len() == counters.len());
            assert(counters.len() > 0 ==> c.last() == counters@.last() as int);
        }
        r.push(number);
        i = i + 1;
    }
    r
}

/// Two numbered items in a row, at the same depth, are numbered one after the
/// other.
pub proof fn items_in_a_row_count_up(blocks: Seq<BlockModel>, i: int)
    requires
        0 <= i,
        i + 1 < blocks.len(),
        blocks[i] is Numbered,
        blocks[i + 1] is Numbered,
        0 <= blocks[i]->Numbered_level,
        0 <= blocks[i + 1]->Numbered_level,
        list_level(blocks[i]->Numbered_level) == list_level(blocks[i + 1]->Numbered_level),
    ensures
        number_at(blocks, i + 1) == number_at(blocks, i) + 1,
{
    let c = counters_at(blocks, i + 1);
    let n = list_level(blocks[i]->Numbered_level);
    assert(c.len() == n + 1);
    let d = counters_at(blocks, i + 2);
    assert(d == counters_after(c, blocks[i + 1]));
    assert(d.len() == n + 1);
    assert(padded(c, n + 1)[n] == c[n]);
}

/// An item right behind anything that is not part of a list starts at one.
pub proof fn a_paragraph_restarts_the_numbering(blocks: Seq<BlockModel>, i: int)
    requires
        0 <= i,
        i + 1 < blocks.len(),
        !(blocks[i] is Numbered) && !(blocks[i] is Bullet),
        blocks[i + 1] is Numbered,
        0 <= blocks[i + 1]->Numbered_level,
    ensures
        number_at(blocks, i + 1) == 1,
{
    let c = counters_at(blocks, i + 1);
    assert(c.len() == 0);
    let n = list_level(blocks[i + 1]->Numbered_level);
    let d = counters_at(blocks, i + 2);
    assert(d == counters_after(c, blocks[i + 1]));
    assert(padded(c, n + 1)[n] == 0);
}

/// A bullet between two numbered items does not disturb the count.
pub proof fn a_bullet_does_not_restart_the_numbering(blocks: Seq<BlockModel>, i: int)
    requires
        0 <= i < blocks.len(),
        blocks[i] is Bullet,
    ensures
        counters_at(blocks, i + 1) == counters_at(blocks, i),
{
}

// ---------------------------------------------------------------------------
// What draws a block
// ---------------------------------------------------------------------------

/// The colour of some text.
#[derive(Debug, Clone, Copy, PartialEq, Eq, Structural)]
pub enum Ink {
    Black,
    /// The blue-grey of headings.
    Heading,
    /// The dark grey of quotes.
    Quote,
}

/// Some text to lay out and draw, line by line.
#[derive(Debug, Clone, PartialEq, Eq)]
pub struct Lines {
    pub words: String,
    /// Whether the words are markup; plain text otherwise.
    pub marked_up: bool,
    pub mono: bool,
    pub size: u32,
    pub bold: bool,
    /// How far every line is shifted to the right.
    pub indent: u32,
    /// How much narrower than the text area the lines are.
    pub inset: u32,
    /// What stands before the first line.
    pub marker: Option<String>,
    pub ink: Ink,
    /// Whether a rule is drawn beside the text.
    pub barred: bool,
    /// Whether the text is shaded.
    pub shaded: bool,
}

/// What some text to draw says.
#[verifier::ext_equal]
pub struct LinesModel {
    pub words: Seq<char>,
    pub marked_up: bool,
    pub mono: bool,
    pub size: int,
    pub bold: bool,
    pub indent: int,
    pub inset: int,
    pub marker: Option<Seq<char>>,
    pub ink: Ink,
    pub barred: bool,
    pub shaded: bool,
}

impl View for Lines {
    type V = LinesModel;

    open spec fn view(&self) -> LinesModel {
        LinesModel {
            words: self.words@,
            marked_up: self.marked_up,
            mono: self.mono,
            size: self.size as int,
            bold: self.bold,
            indent: self.indent as int,
            inset: self.inset as int,
            marker: optional(self.marker),
            ink: self.ink,
            barred: self.barred,
            shaded: self.shaded,
        }
    }
}

/// One step of drawing a block.
#[derive(Debug, Clone, PartialEq, Eq)]
pub enum Step {
    /// Move down.
    Gap(u32),
    /// Start a page unless there is this much room.
    Room(u32),
    /// Draw some text.
    Text(Lines),
    /// Draw a line across the page.
    Rule,
    /// Start a page.
    Break,
    /// Draw a table, row by row.
    Table,
}

/// What a step does.
#[verifier::ext_equal]
pub enum StepModel {
    Gap(int),
    Room(int),
    Text(LinesModel),
    Rule,
    Break,
    Table,
}

impl View for Step {
    type V = StepModel;

    open spec fn view(&self) -> StepModel {
        match self {
            Step::Gap(n) => StepModel::Gap(*n as int),
            Step::Room(n) => StepModel::Room(*n as int),
            Step::Text(lines) => StepModel::Text(lines@),
            Step::Rule => StepModel::Rule,
            Step::Break => StepModel::Break,
            Step::Table => StepModel::Table,
        }
    }
}

/// What each step does.
pub open spec fn steps_model(steps: Seq<Step>) -> Seq<StepModel> {
    Seq::new(steps.len(), |i: int| steps[i]@)
}

/// The size of a heading and the space above it, by level.
pub open spec fn heading_sizes(level: int) -> (int, int) {
    if level <= 1 {
        (2000, 1800)
    } else if level == 2 {
        (1600, 1600)
    } else if level == 3 {
        (1300, 1400)
    } else if level == 4 {
        (1150, 1200)
    } else {
        (1050, 1000)
    }
}

fn heading_style(level: u8) -> (r: (u32, u32))
    ensures
        (r.0 as int, r.1 as int) == heading_sizes(level as int),
        r.0 <= 2000,
{
    if level <= 1 {
        (2000, 1800)
    } else if level == 2 {
        (1600, 1600)
    } else if level == 3 {
        (1300, 1400)
    } else if level == 4 {
        (1150, 1200)
    } else {
        (1050, 1000)
    }
}

/// Marked-up text of the body's size.
pub open spec fn body_lines(spans: Seq<SpanModel>) -> LinesModel {
    LinesModel {
        words: text::concat(spans_markup(spans)),
        marked_up: true,
        mono: false,
        size: BODY_SIZE as int,
        bold: false,
        indent: 0,
        inset: 0,
        marker: None,
        ink: Ink::Black,
        barred: false,
        shaded: false,
    }
}

/// How far a list item is indented.
pub open spec fn item_indent(level: int) -> int {
    1800 + level * 1800
}

/// The glyph before a bullet, by depth.
pub open spec fn bullet_glyph(level: int) -> Seq<char> {
    if level == 0 {
        "•"@
    } else if level == 1 {
        "◦"@
    } else {
        "▪"@
    }
}

/// A list item: its marker and its text.
pub open spec fn item_steps(spans: Seq<SpanModel>, level: int, marker: Seq<char>) -> Seq<
    StepModel,
> {
    seq![
        StepModel::Text(
            LinesModel {
                indent: item_indent(level),
                inset: item_indent(level),
                marker: Some(marker),
                ..body_lines(spans)
            },
        ),
        StepModel::Gap(400),
    ]
}

/// The steps that draw a block, which has the given number if it is a numbered
/// item.
pub open spec fn block_steps(block: BlockModel, number: nat) -> Seq<StepModel> {
    match block {
        BlockModel::Heading { level, spans } => {
            let (size, above) = heading_sizes(level);
            // Room for a couple of lines, not just for itself: a heading at the
            // very bottom of a page is kept with what follows.
            seq![
                StepModel::Gap(above),
                StepModel::Room(size * 3),
                StepModel::Text(
                    LinesModel { size, bold: true, ink: Ink::Heading, ..body_lines(spans) },
                ),
                StepModel::Gap(600),
            ]
        },
        BlockModel::Paragraph { spans } => seq![
            StepModel::Text(body_lines(spans)),
            StepModel::Gap(800),
        ],
        BlockModel::Quote { spans } => seq![
            StepModel::Text(
                LinesModel {
                    indent: 2400,
                    inset: 2400,
                    ink: Ink::Quote,
                    barred: true,
                    ..body_lines(spans)
                },
            ),
            StepModel::Gap(1000),
        ],
        BlockModel::Bullet { level, spans } => item_steps(spans, level, bullet_glyph(level)),
        BlockModel::Numbered { level, spans } => item_steps(
            spans,
            level,
            text::decimal(number) + "."@,
        ),
        BlockModel::Code { language, text } => seq![
            StepModel::Gap(400),
            StepModel::Text(
                LinesModel {
                    words: text,
                    marked_up: false,
                    mono: true,
                    size: CODE_SIZE as int,
                    bold: false,
                    indent: 1000,
                    inset: 2000,
                    marker: None,
                    ink: Ink::Black,
                    barred: false,
                    shaded: true,
                },
            ),
            StepModel::Gap(1000),
        ],
        BlockModel::Table { header, rows } => if columns_of(header, rows) == 0 {
            Seq::empty()
        } else {
            seq![StepModel::Gap(600), StepModel::Table, StepModel::Gap(1000)]
        },
        BlockModel::Rule => seq![
            StepModel::Room(1400),
            StepModel::Gap(600),
            StepModel::Rule,
            StepModel::Gap(800),
        ],
        BlockModel::PageBreak => seq![StepModel::Break],
    }
}

fn body_of(spans: &Vec<Span>) -> (r: Lines)
    ensures
        r@ == body_lines(spans_model(spans@)),
{
    Lines {
        words: markup(spans.as_slice()),
        marked_up: true,
        mono: false,
        size: BODY_SIZE,
        bold: false,
        indent: 0,
        inset: 0,
        marker: None,
        ink: Ink::Black,
        barred: false,
        shaded: false,
    }
}

fn item_of(spans: &Vec<Span>, level: u8, marker: String) -> (r: Vec<Step>)
    ensures
        steps_model(r@) == item_steps(spans_model(spans@), level as int, marker@),
{
    let indent: u32 = 1800 + level as u32 * 1800;
    let mut lines = body_of(spans);
    lines.indent = indent;
    lines.inset = indent;
    lines.marker = Some(marker);
    let mut r: Vec<Step> = Vec::new();
    r.push(Step::Text(lines));
    r.push(Step::Gap(400));
    assert(steps_model(r@) =~= item_steps(spans_model(spans@), level as int, marker@));
    r
}

fn heading_steps(level: u8, spans: &Vec<Span>) -> (r: Vec<Step>)
    ensures
        steps_model(r@) == block_steps(
            (BlockModel::Heading { level: level as int, spans: spans_model(spans@) }),
            1,
        ),
{
    let (size, above) = heading_style(level);
    let mut lines = body_of(spans);
    lines.size = size;
    lines.bold = true;
    lines.ink = Ink::Heading;
    let mut r: Vec<Step> = Vec::new();
    r.push(Step::Gap(above));
    r.push(Step::Room(size * 3));
    r.push(Step::Text(lines));
    r.push(Step::Gap(600));
    assert(steps_model(r@) =~= block_steps(
        (BlockModel::Heading { level: level as int, spans: spans_model(spans@) }),
        1,
    ));
    r
}

fn code_steps(source: &String) -> (r: Vec<Step>)
    ensures
        steps_model(r@) == block_steps((BlockModel::Code { language: None, text: source@ }), 1),
{
    let lines = Lines {
        words: source.clone(),
        marked_up: false,
        mono: true,
        size: CODE_SIZE,
        bold: false,
        indent: 1000,
        inset: 2000,
        marker: None,
        ink: Ink::Black,
        barred: false,
        shaded: true,
    };
    let mut r: Vec<Step> = Vec::new();
    r.push(Step::Gap(400));
    r.push(Step::Text(lines));
    r.push(Step::Gap(1000));
    assert(steps_model(r@) =~= block_steps(
        (BlockModel::Code { language: None, text: source@ }),
        1,
    ));
    r
}

/// The steps that draw a block. `number` is what the block is numbered with, if
/// it is a numbered item.
pub fn steps(block: &Block, number: usize) -> (r: Vec<Step>)
    ensures
        steps_model(r@) == block_steps(block@, number as nat),
{
    let mut r: Vec<Step> = Vec::new();
    match block {
        Block::Heading { level, spans } => {
            return heading_steps(*level, spans);
        },
        Block::Paragraph { spans } => {
            r.push(Step::Text(body_of(spans)));
            r.push(Step::Gap(800));
        },
        Block::Quote { spans } => {
            let mut lines = body_of(spans);
            lines.indent = 2400;
            lines.inset = 2400;
            lines.ink = Ink::Quote;
            lines.barred = true;
            r.push(Step::Text(lines));
            r.push(Step::Gap(1000));
        },
        Block::Bullet { level, spans } => {
            let glyph = if *level == 0 {
                "•"
            } else if *level == 1 {
                "◦"
            } else {
                "▪"
            };
            return item_of(spans, *level, glyph.to_owned());
        },
        Block::Numbered { level, spans } => {
            let mut marker = text::decimal_of(number as u128);
            marker.append(".");
            return item_of(spans, *level, marker);
        },
        Block::Code { language: _, text } => {
            return code_steps(text);
        },
        Block::Table { header, rows } => {
            if table_columns(header, rows) > 0 {
                r.push(Step::Gap(600));
                r.push(Step::Table);
                r.push(Step::Gap(1000));
            }
        },
        Block::Rule => {
            r.push(Step::Room(1400));
            r.push(Step::Gap(600));
            r.push(Step::Rule);
            r.push(Step::Gap(800));
        },
        Block::PageBreak => {
            r.push(Step::Break);
        },
    }
    assert(steps_model(r@) =~= block_steps(block@, number as nat));
    r
}

/// The steps that draw the title, at the top of the first page.
pub fn title_steps(title: &str) -> (r: Vec<Step>)
    ensures
        steps_model(r@) == seq![
            StepModel::Text(
                LinesModel {
                    words: title@,
                    marked_up: false,
                    size: TITLE_SIZE as int,
                    bold: true,
                    ink: Ink::Heading,
                    ..body_lines(Seq::empty())
                },
            ),
            StepModel::Gap(1800),
        ],
{
    let mut lines = body_of(&Vec::new());
    lines.words = title.to_owned();
    lines.marked_up = false;
    lines.size = TITLE_SIZE;
    lines.bold = true;
    lines.ink = Ink::Heading;
    let mut r: Vec<Step> = Vec::new();
    r.push(Step::Text(lines));
    r.push(Step::Gap(1800));
    assert(steps_model(r@) =~= seq![
        StepModel::Text(
            LinesModel {
                words: title@,
                marked_up: false,
                size: TITLE_SIZE as int,
                bold: true,
                ink: Ink::Heading,
                ..body_lines(Seq::empty())
            },
        ),
        StepModel::Gap(1800),
    ]);
    r
}

/// How many columns a table is drawn with.
pub fn table_columns(header: &Vec<String>, rows: &Vec<Vec<String>>) -> (r: usize)
    ensures
        r == columns_of(text::texts(header@), rows_model(rows@)),
{
    crate::office::docx::columns_in(header, rows)
}

// ---------------------------------------------------------------------------
// Pages
// ---------------------------------------------------------------------------

/// Where the next thing goes.
#[derive(Debug, Clone, Copy, PartialEq, Eq, Structural)]
pub struct Cursor {
    pub y: u64,
    pub page: u64,
}

/// Where something has been placed: the page it is on, and where its top is.
#[derive(Debug, Clone, Copy, PartialEq, Eq, Structural)]
pub struct Place {
    pub page: u64,
    pub y: u64,
}

/// A cursor, and a place, in a contract.
#[verifier::ext_equal]
pub struct Spot {
    pub page: int,
    pub y: int,
}

impl View for Cursor {
    type V = Spot;

    open spec fn view(&self) -> Spot {
        Spot { page: self.page as int, y: self.y as int }
    }
}

impl View for Place {
    type V = Spot;

    open spec fn view(&self) -> Spot {
        Spot { page: self.page as int, y: self.y as int }
    }
}

/// The top of the next page.
pub open spec fn next_page(at: Spot) -> Spot {
    Spot { page: at.page + 1, y: MARGIN as int }
}

/// Whether something fits on what is left of the page.
pub open spec fn fits_at(at: Spot, height: int) -> bool {
    at.y + height <= BOTTOM
}

/// Where something goes: here where it fits, else at the top of the next page.
pub open spec fn spot_for(at: Spot, height: int) -> Spot {
    if fits_at(at, height) {
        at
    } else {
        next_page(at)
    }
}

/// Further down the page.
pub open spec fn below(at: Spot, height: int) -> Spot {
    Spot { page: at.page, y: at.y + height }
}

/// Where each of some lines goes.
pub open spec fn lines_placed(at: Spot, heights: Seq<int>) -> Seq<Spot>
    decreases heights.len(),
{
    if heights.len() == 0 {
        Seq::empty()
    } else {
        let here = spot_for(at, heights[0]);
        seq![here] + lines_placed(below(here, heights[0]), heights.drop_first())
    }
}

/// Where the cursor is behind some lines.
pub open spec fn behind_lines(at: Spot, heights: Seq<int>) -> Spot
    decreases heights.len(),
{
    if heights.len() == 0 {
        at
    } else {
        behind_lines(below(spot_for(at, heights[0]), heights[0]), heights.drop_first())
    }
}

/// Places in a contract.
pub open spec fn spots(places: Seq<Place>) -> Seq<Spot> {
    Seq::new(places.len(), |i: int| places[i]@)
}

/// Measured heights in a contract.
pub open spec fn measures(heights: Seq<u32>) -> Seq<int> {
    Seq::new(heights.len(), |i: int| heights[i] as int)
}

impl Cursor {
    /// The top of the first page.
    pub fn start() -> (r: Self)
        ensures
            r@ == (Spot { page: 1, y: MARGIN as int }),
    {
        Cursor { y: MARGIN, page: 1 }
    }

    /// Whether something fits on what is left of the page.
    pub fn fits(&self, height: u32) -> (r: bool)
        ensures
            r == fits_at(self@, height as int),
    {
        self.y <= BOTTOM && height as u64 <= BOTTOM - self.y
    }

    /// How much of a block as tall as `height` is shaded on this page: all of it
    /// where it fits, and else what is left of the page.
    pub fn shaded(&self, height: u32) -> (r: u64)
        ensures
            r == if fits_at(self@, height as int) {
                height as int
            } else if self.y <= BOTTOM {
                BOTTOM - self.y
            } else {
                0
            },
    {
        if self.fits(height) {
            height as u64
        } else if self.y <= BOTTOM {
            BOTTOM - self.y
        } else {
            0
        }
    }

    /// Moves to the top of the next page.
    pub fn break_page(&mut self)
        requires
            old(self).page < u64::MAX,
        ensures
            final(self)@ == next_page(old(self)@),
    {
        self.page = self.page + 1;
        self.y = MARGIN;
    }

    /// Makes room for `height` more: says whether that took a new page.
    pub fn ensure(&mut self, height: u32) -> (r: bool)
        requires
            old(self).page < u64::MAX,
        ensures
            final(self)@ == spot_for(old(self)@, height as int),
            r == !fits_at(old(self)@, height as int),
    {
        if self.fits(height) {
            false
        } else {
            self.break_page();
            true
        }
    }

    /// Moves down.
    pub fn skip(&mut self, height: u32)
        requires
            old(self).y + height <= u64::MAX,
        ensures
            final(self)@ == below(old(self)@, height as int),
    {
        self.y = self.y + height as u64;
    }

    /// Places some lines, given how tall each is, breaking pages between them.
    pub fn place(&mut self, heights: &[u32]) -> (r: Vec<Place>)
        requires
            old(self).page + heights.len() <= u64::MAX,
        ensures
            spots(r@) == lines_placed(old(self)@, measures(heights@)),
            final(self)@ == behind_lines(old(self)@, measures(heights@)),
    {
        let ghost all = measures(heights@);
        let ghost start = self@;
        let mut r: Vec<Place> = Vec::new();
        let mut i: usize = 0;
        assert(all.skip(0) =~= all);
        assert(spots(r@) + lines_placed(start, all) =~= lines_placed(start, all));
        while i < heights.len()
            invariant
                0 <= i <= heights.len(),
                all == measures(heights@),
                self.page + (heights.len() - i) <= u64::MAX,
                lines_placed(start, all) == spots(r@) + lines_placed(self@, all.skip(i as int)),
                behind_lines(start, all) == behind_lines(self@, all.skip(i as int)),
            decreases heights.len() - i,
        {
            let ghost before = self@;
            let ghost done = spots(r@);
            let ghost rest = all.skip(i as int);
            self.ensure(heights[i]);
            let ghost here = self@;
            assert(here.y <= BOTTOM);
            r.push(Place { page: self.page, y: self.y });
            self.skip(heights[i]);
            proof {
                assert(rest[0] == heights@[i as int] as int);
                assert(rest.drop_first() =~= all.skip(i + 1));
                assert(spots(r@) =~= done.push(here));
                let tail = lines_placed(self@, all.skip(i + 1));
                assert(done + (seq![here] + tail) =~= done.push(here) + tail);
            }
            i = i + 1;
        }
        assert(all.skip(all.len() as int) =~= Seq::empty());
        assert(spots(r@) + Seq::<Spot>::empty() =~= spots(r@));
        r
    }
}

/// Every line that is no taller than the page's text area stands inside the
/// margins, wherever the text before it ended.
pub proof fn lines_stay_inside_the_margins(at: Spot, heights: Seq<int>, i: int)
    requires
        at.y >= MARGIN,
        forall|j: int|
            0 <= j < heights.len() ==> 0 <= #[trigger] heights[j] <= BOTTOM - MARGIN,
        0 <= i < heights.len(),
    ensures
        lines_placed(at, heights).len() == heights.len(),
        MARGIN <= lines_placed(at, heights)[i].y,
        lines_placed(at, heights)[i].y + heights[i] <= BOTTOM,
    decreases heights.len(),
{
    let here = spot_for(at, heights[0]);
    let next = below(here, heights[0]);
    let rest = heights.drop_first();
    lemma_placed_len(next, rest);
    if i > 0 {
        assert forall|j: int| 0 <= j < rest.len() implies 0 <= #[trigger] rest[j] <= BOTTOM
            - MARGIN by {
            assert(rest[j] == heights[j + 1]);
        }
        lines_stay_inside_the_margins(next, rest, i - 1);
        assert(lines_placed(at, heights)[i] == lines_placed(next, rest)[i - 1]);
        assert(rest[i - 1] == heights[i]);
    }
}

proof fn lemma_placed_len(at: Spot, heights: Seq<int>)
    ensures
        lines_placed(at, heights).len() == heights.len(),
    decreases heights.len(),
{
    if heights.len() > 0 {
        lemma_placed_len(
            below(spot_for(at, heights[0]), heights[0]),
            heights.drop_first(),
        );
    }
}

/// Lines follow one another: each stands right below the one before it, or at
/// the top of the next page.
pub proof fn lines_follow_one_another(at: Spot, heights: Seq<int>, i: int)
    requires
        0 <= i,
        i + 1 < heights.len(),
    ensures
        ({
            let placed = lines_placed(at, heights);
            let under = below(placed[i], heights[i]);
            placed[i + 1] == under || placed[i + 1] == next_page(placed[i])
        }),
    decreases heights.len(),
{
    let here = spot_for(at, heights[0]);
    let next = below(here, heights[0]);
    let rest = heights.drop_first();
    lemma_placed_len(next, rest);
    assert(lines_placed(at, heights)[i + 1] == lines_placed(next, rest)[i]);
    if i > 0 {
        lines_follow_one_another(next, rest, i - 1);
        assert(lines_placed(at, heights)[i] == lines_placed(next, rest)[i - 1]);
        assert(rest[i - 1] == heights[i]);
    } else {
        assert(rest[0] == heights[1]);
        assert(lines_placed(next, rest)[0] == spot_for(next, rest[0]));
    }
}

/// A row of a table where it was placed: its number, or none for the header.
#[derive(Debug, Clone, Copy, PartialEq, Eq)]
pub struct RowPlace {
    pub row: Option<usize>,
    pub place: Place,
}

/// The tallest of some cells.
pub open spec fn tallest(cells: Seq<u32>) -> int
    decreases cells.len(),
{
    if cells.len() == 0 {
        0
    } else if cells.last() > tallest(cells.drop_last()) {
        cells.last() as int
    } else {
        tallest(cells.drop_last())
    }
}

/// How tall a row is: as tall as its tallest cell, with the space around it.
pub fn row_height(cells: &[u32]) -> (r: u32)
    requires
        forall|i: int| 0 <= i < cells.len() ==> (#[trigger] cells[i]) <= u32::MAX - 2 * PADDING,
    ensures
        r == tallest(cells@) + 2 * PADDING,
{
    let mut most: u32 = 0;
    let mut i: usize = 0;
    while i < cells.len()
        invariant
            0 <= i <= cells.len(),
            most == tallest(cells@.take(i as int)),
            most <= u32::MAX - 2 * PADDING,
            forall|j: int|
                0 <= j < cells.len() ==> (#[trigger] cells[j]) <= u32::MAX - 2 * PADDING,
        decreases cells.len() - i,
    {
        assert(cells@.take(i + 1).drop_last() =~= cells@.take(i as int));
        if cells[i] > most {
            most = cells[i];
        }
        i = i + 1;
    }
    assert(cells@.take(cells@.len() as int) =~= cells@);
    most + 2 * PADDING
}

/// A placed row in a contract.
#[verifier::ext_equal]
pub struct RowSpot {
    pub row: Option<int>,
    pub spot: Spot,
}

impl View for RowPlace {
    type V = RowSpot;

    open spec fn view(&self) -> RowSpot {
        RowSpot {
            row: match self.row {
                Some(n) => Some(n as int),
                None => None,
            },
            spot: self.place@,
        }
    }
}

/// Placed rows in a contract.
pub open spec fn row_spots(places: Seq<RowPlace>) -> Seq<RowSpot> {
    Seq::new(places.len(), |i: int| places[i]@)
}

/// The header of a table, placed, where it has one.
pub open spec fn header_placed(at: Spot, header: Option<int>) -> Seq<RowSpot> {
    match header {
        Some(h) => seq![RowSpot { row: None, spot: spot_for(at, h) }],
        None => Seq::empty(),
    }
}

/// Where the cursor is behind the header.
pub open spec fn behind_header(at: Spot, header: Option<int>) -> Spot {
    match header {
        Some(h) => below(spot_for(at, h), h),
        None => at,
    }
}

/// Where the rows from the `i`th on go. Not enough room for a row means a new
/// page, and the header comes with it, or the columns on that page mean
/// nothing.
pub open spec fn rows_placed(at: Spot, header: Option<int>, heights: Seq<int>, i: int) -> Seq<
    RowSpot,
>
    decreases heights.len() - i,
{
    if i >= heights.len() {
        Seq::empty()
    } else {
        let crowded = !fits_at(at, ROW_ROOM as int);
        let carried = if crowded {
            header_placed(next_page(at), header)
        } else {
            Seq::empty()
        };
        let ready = if crowded {
            behind_header(next_page(at), header)
        } else {
            at
        };
        let here = spot_for(ready, heights[i]);
        carried + seq![RowSpot { row: Some(i), spot: here }] + rows_placed(
            below(here, heights[i]),
            header,
            heights,
            i + 1,
        )
    }
}

/// Where the cursor is behind the rows from the `i`th on.
pub open spec fn behind_rows(at: Spot, header: Option<int>, heights: Seq<int>, i: int) -> Spot
    decreases heights.len() - i,
{
    if i >= heights.len() {
        at
    } else {
        let ready = if fits_at(at, ROW_ROOM as int) {
            at
        } else {
            behind_header(next_page(at), header)
        };
        behind_rows(below(spot_for(ready, heights[i]), heights[i]), header, heights, i + 1)
    }
}

/// An optional height in a contract.
pub open spec fn measure(height: Option<u32>) -> Option<int> {
    match height {
        Some(h) => Some(h as int),
        None => None,
    }
}

impl Cursor {
    fn place_header(&mut self, header: Option<u32>, out: &mut Vec<RowPlace>)
        requires
            old(self).page < u64::MAX,
        ensures
            final(self)@ == behind_header(old(self)@, measure(header)),
            row_spots(final(out)@) == row_spots(old(out)@) + header_placed(
                old(self)@,
                measure(header),
            ),
            final(self).page <= old(self).page + 1,
    {
        if let Some(height) = header {
            self.ensure(height);
            out.push(RowPlace { row: None, place: Place { page: self.page, y: self.y } });
            self.skip(height);
        }
        assert(row_spots(out@) =~= row_spots(old(out)@) + header_placed(
            old(self)@,
            measure(header),
        ));
    }

    /// Places the rows of a table, given how tall each is and how tall the
    /// header is where there is one.
    pub fn place_rows(&mut self, header: Option<u32>, heights: &[u32]) -> (r: Vec<RowPlace>)
        requires
            old(self).page + 3 * heights.len() + 1 <= u64::MAX,
        ensures
            row_spots(r@) == header_placed(old(self)@, measure(header)) + rows_placed(
                behind_header(old(self)@, measure(header)),
                measure(header),
                measures(heights@),
                0,
            ),
            final(self)@ == behind_rows(
                behind_header(old(self)@, measure(header)),
                measure(header),
                measures(heights@),
                0,
            ),
    {
        let ghost all = measures(heights@);
        let ghost head = measure(header);
        let mut r: Vec<RowPlace> = Vec::new();
        self.place_header(header, &mut r);
        let ghost start = self@;
        let ghost first = row_spots(r@);
        assert(first =~= header_placed(old(self)@, head));
        let mut i: usize = 0;
        while i < heights.len()
            invariant
                0 <= i <= heights.len(),
                all == measures(heights@),
                head == measure(header),
                self.page + 3 * (heights.len() - i) <= u64::MAX,
                first + rows_placed(start, head, all, 0) == row_spots(r@) + rows_placed(
                    self@,
                    head,
                    all,
                    i as int,
                ),
                behind_rows(start, head, all, 0) == behind_rows(self@, head, all, i as int),
            decreases heights.len() - i,
        {
            let ghost at = self@;
            let ghost done = row_spots(r@);
            let ghost carried = if fits_at(at, ROW_ROOM as int) {
                Seq::<RowSpot>::empty()
            } else {
                header_placed(next_page(at), head)
            };
            if !self.fits(30_720) {
                self.break_page();
                self.place_header(header, &mut r);
            }
            assert(row_spots(r@) =~= done + carried);
            self.ensure(heights[i]);
            let ghost here = self@;
            assert(here.y <= BOTTOM);
            r.push(RowPlace { row: Some(i), place: Place { page: self.page, y: self.y } });
            self.skip(heights[i]);
            proof {
                let mine = RowSpot { row: Some(i as int), spot: here };
                assert(row_spots(r@) =~= (done + carried).push(mine));
                let tail = rows_placed(self@, head, all, i + 1);
                assert(done + (carried + seq![mine] + tail) =~= (done + carried).push(mine) + tail);
            }
            i = i + 1;
        }
        assert(row_spots(r@) + Seq::<RowSpot>::empty() =~= row_spots(r@));
        r
    }
}

// ---------------------------------------------------------------------------
// What is drawn
// ---------------------------------------------------------------------------

/// What is said in a span is drawn, in bold type, in italics, or as code or a link
/// where it is marked so, and else as it is.
pub proof fn a_span_is_drawn_as_it_is_marked(span: SpanModel)
    ensures
        text::holds(span_markup(span), escaped(span.text)),
        span.bold ==> text::starts(span_markup(span), "<b>"@) && text::ends(
            span_markup(span),
            "</b>"@,
        ),
        span.italic && !span.bold ==> text::starts(span_markup(span), "<i>"@) && text::ends(
            span_markup(span),
            "</i>"@,
        ),
        span.italic && span.bold ==> text::starts(span_markup(span), "<b><i>"@) && text::ends(
            span_markup(span),
            "</i></b>"@,
        ),
        span.code ==> text::holds(span_markup(span), CODE_START@),
        span.link is Some ==> text::holds(span_markup(span), LINK_START@ + escaped(span.text)),
        !span.bold && !span.italic && !span.code && span.link is None ==> span_markup(span)
            == escaped(span.text),
{
    let bold = text::given(span.bold, "<b>"@);
    let italic = text::given(span.italic, "<i>"@);
    let code = text::given(span.code, CODE_START@);
    let link = text::given(span.link is Some, LINK_START@);
    let words = escaped(span.text);
    let end_link = text::given(span.link is Some, "</span>"@);
    let end_code = text::given(span.code, "</span>"@);
    let end_italic = text::given(span.italic, "</i>"@);
    let end_bold = text::given(span.bold, "</b>"@);
    let inner = code + link + words + end_link + end_code;
    lemma_span_parts(bold, italic, code, link, words, end_link, end_code, end_italic, end_bold);
    lemma_marks_around(span.bold, span.italic, inner);
    if !span.bold && !span.italic && !span.code && span.link is None {
        let none = Seq::<char>::empty();
        assert(none + none + none + none + words + none + none + none + none =~= words);
    }
}

proof fn lemma_span_parts(
    bold: Seq<char>,
    italic: Seq<char>,
    code: Seq<char>,
    link: Seq<char>,
    words: Seq<char>,
    end_link: Seq<char>,
    end_code: Seq<char>,
    end_italic: Seq<char>,
    end_bold: Seq<char>,
)
    ensures
        ({
            let whole = bold + italic + code + link + words + end_link + end_code + end_italic
                + end_bold;
            &&& whole == bold + italic + (code + link + words + end_link + end_code) + end_italic
                + end_bold
            &&& text::holds(whole, words)
            &&& text::holds(whole, link + words)
            &&& text::holds(whole, code)
        }),
{
    let whole = bold + italic + code + link + words + end_link + end_code + end_italic + end_bold;
    let behind = end_link + end_code + end_italic + end_bold;
    assert(whole =~= bold + italic + (code + link + words + end_link + end_code) + end_italic
        + end_bold);
    assert(text::holds(whole, words)) by {
        text::lemma_holds_between(bold + italic + code + link, words, behind);
        assert(whole =~= bold + italic + code + link + words + behind);
    }
    assert(text::holds(whole, link + words)) by {
        text::lemma_holds_between(bold + italic + code, link + words, behind);
        assert(whole =~= bold + italic + code + (link + words) + behind);
    }
    assert(text::holds(whole, code)) by {
        text::lemma_holds_between(bold + italic, code, link + words + behind);
        assert(whole =~= bold + italic + code + (link + words + behind));
    }
}

proof fn lemma_marks_around(bold: bool, italic: bool, inner: Seq<char>)
    ensures
        ({
            let whole = text::given(bold, "<b>"@) + text::given(italic, "<i>"@) + inner
                + text::given(italic, "</i>"@) + text::given(bold, "</b>"@);
            &&& bold ==> text::starts(whole, "<b>"@) && text::ends(whole, "</b>"@)
            &&& italic && !bold ==> text::starts(whole, "<i>"@) && text::ends(whole, "</i>"@)
            &&& italic && bold ==> text::starts(whole, "<b><i>"@) && text::ends(
                whole,
                "</i></b>"@,
            )
        }),
{
    reveal_strlit("<b>");
    reveal_strlit("</b>");
    reveal_strlit("<i>");
    reveal_strlit("</i>");
    reveal_strlit("<b><i>");
    reveal_strlit("</i></b>");
    let whole = text::given(bold, "<b>"@) + text::given(italic, "<i>"@) + inner + text::given(
        italic,
        "</i>"@,
    ) + text::given(bold, "</b>"@);
    if bold {
        assert(whole.take(3) =~= "<b>"@);
        assert(whole.skip(whole.len() - 4) =~= "</b>"@);
        if italic {
            assert(whole.take(6) =~= "<b><i>"@);
            assert(whole.skip(whole.len() - 8) =~= "</i></b>"@);
        }
    } else if italic {
        assert(whole.take(3) =~= "<i>"@);
        assert(whole.skip(whole.len() - 4) =~= "</i>"@);
    }
}

/// The spans of a block.
pub open spec fn spans_in(block: BlockModel) -> Seq<SpanModel> {
    match block {
        BlockModel::Heading { level, spans } => spans,
        BlockModel::Paragraph { spans } => spans,
        BlockModel::Quote { spans } => spans,
        BlockModel::Bullet { level, spans } => spans,
        BlockModel::Numbered { level, spans } => spans,
        _ => Seq::empty(),
    }
}

/// Whether some steps draw one text.
pub open spec fn draws(steps: Seq<StepModel>, lines: LinesModel) -> bool {
    exists|i: int| 0 <= i < steps.len() && #[trigger] steps[i] == StepModel::Text(lines)
}

/// Of whatever is said, each span is drawn: a heading larger than the rest and in bold
/// type, a quotation beside a rule, a bullet behind a dot, an item of a list behind its
/// number.
pub proof fn what_is_said_is_drawn(block: BlockModel, number: nat, k: int)
    requires
        0 <= k < spans_in(block).len(),
    ensures
        exists|lines: LinesModel| #[trigger]
            draws(block_steps(block, number), lines) && lines.marked_up && text::holds(
                lines.words,
                span_markup(spans_in(block)[k]),
            ) && text::holds(lines.words, escaped(spans_in(block)[k].text)) && {
                &&& block is Heading ==> lines.bold && lines.ink == Ink::Heading && (
                block->Heading_level <= 4 ==> lines.size > BODY_SIZE)
                &&& block is Quote ==> lines.barred && lines.ink == Ink::Quote
                &&& block is Bullet ==> lines.marker is Some && lines.marker->0.len() == 1
                    && lines.marker != Some(text::decimal(number) + "."@)
                &&& block is Bullet && block->Bullet_level == 0 ==> lines.marker == Some("•"@)
                &&& block is Bullet && block->Bullet_level == 1 ==> lines.marker == Some("◦"@)
                &&& block is Bullet && block->Bullet_level > 1 ==> lines.marker == Some("▪"@)
                &&& block is Numbered ==> lines.marker == Some(text::decimal(number) + "."@)
                &&& block is Paragraph ==> lines.marker is None && !lines.barred && !lines.bold
                    && lines.indent == 0
            },
{
    let spans = spans_in(block);
    let parts = spans_markup(spans);
    let words = text::concat(parts);
    let none = Seq::<char>::empty();
    text::lemma_concat_holds(none, parts, k, none);
    assert(none + words + none =~= words);
    assert(parts[k] == span_markup(spans[k]));
    a_span_is_drawn_as_it_is_marked(spans[k]);
    text::lemma_holds_within(words, parts[k], escaped(spans[k].text));
    let steps = block_steps(block, number);
    let at: int = if block is Heading {
        2
    } else {
        0
    };
    assert(steps[at] is Text);
    let lines = steps[at]->Text_0;
    assert(steps[at] == StepModel::Text(lines));
    assert(draws(steps, lines));
    if block is Bullet {
        reveal_strlit("•");
        reveal_strlit("◦");
        reveal_strlit("▪");
        reveal_strlit(".");
        text::lemma_decimal(number);
        let glyph = bullet_glyph(block->Bullet_level);
        assert(glyph.len() == 1);
        assert((text::decimal(number) + "."@).len() > 1);
    }
}

/// Code is drawn as it is written, in a type of even width.
pub proof fn code_is_drawn_as_it_is_written(language: Option<Seq<char>>, source: Seq<char>, number: nat)
    ensures
        exists|lines: LinesModel| #[trigger]
            draws(block_steps(BlockModel::Code { language, text: source }, number), lines)
                && lines.words == source && lines.mono && !lines.marked_up,
{
    let steps = block_steps(BlockModel::Code { language, text: source }, number);
    let lines = steps[1]->Text_0;
    assert(steps[1] == StepModel::Text(lines));
    assert(draws(steps, lines));
}

/// A heading is larger than one below it.
pub proof fn higher_headings_are_larger(a: int, b: int)
    requires
        1 <= a < b <= 5,
    ensures
        heading_sizes(a).0 > heading_sizes(b).0,
        heading_sizes(a).1 > heading_sizes(b).1,
{
}

/// An item goes on counting behind a list that stands inside the one before it, and
/// that list counts for itself.
pub proof fn a_list_inside_a_list_counts_for_itself(blocks: Seq<BlockModel>, i: int, level: int)
    requires
        0 <= i,
        i + 2 < blocks.len(),
        0 <= level < 4,
        blocks[i] is Numbered && blocks[i]->Numbered_level == level,
        blocks[i + 1] is Numbered && blocks[i + 1]->Numbered_level == level + 1,
        blocks[i + 2] is Numbered && blocks[i + 2]->Numbered_level == level,
    ensures
        number_at(blocks, i + 1) == 1,
        number_at(blocks, i + 2) == number_at(blocks, i) + 1,
{
    let a = counters_at(blocks, i + 1);
    let b = counters_at(blocks, i + 2);
    let c = counters_at(blocks, i + 3);
    assert(a == counters_after(counters_at(blocks, i), blocks[i]));
    assert(b == counters_after(a, blocks[i + 1]));
    assert(c == counters_after(b, blocks[i + 2]));
    assert(a.len() == level + 1);
    assert(b.len() == level + 2);
    assert(b[level] == a[level]);
    assert(c.len() == level + 1);
}

/// The rows of a table are drawn in their order, each once, and a row that begins a page
/// has the header above it.
pub proof fn every_row_is_drawn(at: Spot, header: Option<int>, heights: Seq<int>, i: int)
    requires
        0 <= i <= heights.len(),
    ensures
        rows_placed(at, header, heights, i).filter(|place: RowSpot| place.row is Some).map_values(
            |place: RowSpot| place.row->0,
        ) == Seq::new((heights.len() - i) as nat, |k: int| i + k),
    decreases heights.len() - i,
{
    let keep = |place: RowSpot| place.row is Some;
    let say = |place: RowSpot| place.row->0;
    let whole = rows_placed(at, header, heights, i);
    let want = Seq::new((heights.len() - i) as nat, |k: int| i + k);
    reveal(Seq::filter);
    if i == heights.len() {
        assert(whole.filter(keep).map_values(say) =~= want);
    } else {
        let crowded = !fits_at(at, ROW_ROOM as int);
        let carried = if crowded {
            header_placed(next_page(at), header)
        } else {
            Seq::empty()
        };
        let ready = if crowded {
            behind_header(next_page(at), header)
        } else {
            at
        };
        let here = spot_for(ready, heights[i]);
        let one = RowSpot { row: Some(i), spot: here };
        let rest = rows_placed(below(here, heights[i]), header, heights, i + 1);
        every_row_is_drawn(below(here, heights[i]), header, heights, i + 1);
        assert(whole =~= carried + seq![one] + rest);
        Seq::filter_distributes_over_add(carried + seq![one], rest, keep);
        Seq::filter_distributes_over_add(carried, seq![one], keep);
        assert(carried.filter(keep) =~= Seq::empty()) by {
            if carried.len() > 0 {
                assert(carried.drop_last() =~= Seq::empty());
                assert(carried.drop_last().filter(keep) =~= Seq::empty());
            }
        }
        assert(seq![one].drop_last() =~= Seq::empty());
        assert(seq![one].drop_last().filter(keep) =~= Seq::empty());
        assert(seq![one].filter(keep) =~= seq![one]);
        assert(whole.filter(keep) =~= seq![one] + rest.filter(keep));
        assert((seq![one] + rest.filter(keep)).map_values(say) =~= seq![i] + rest.filter(
            keep,
        ).map_values(say));
        assert(want =~= seq![i] + Seq::new((heights.len() - i - 1) as nat, |k: int| i + 1 + k));
    }
}

} // verus!
