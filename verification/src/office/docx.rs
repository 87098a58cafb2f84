//! Writing a Word document.
//!
//! A `.docx` is a ZIP of XML parts: a content-type map, two relationship parts,
//! the document body, a style sheet, a numbering definition and the document's
//! properties. Styles are named rather than inline, which is what makes a
//! word processor's navigation pane and its table of contents work.

use crate::office::markup::{
    plain_span, rows_model, spans, spans_model, spans_of, Block, BlockModel, Span, SpanModel,
};
use crate::office::xml::{escape, escaped};
use crate::office::zip::{archive_bytes, slashed, text_part, Archive, Part};
use crate::text;
use vstd::prelude::*;

verus! {

/// How far each level of a list indents, in twentieths of a point.
pub const INDENT_PER_LEVEL: u32 = 360;

/// The width of the text area of a page, in twentieths of a point.
pub const CONTENT_WIDTH: u128 = 9026;

pub const W: &'static str = "http://schemas.openxmlformats.org/wordprocessingml/2006/main";

pub const TYPES_START: &'static str = r#"<?xml version="1.0" encoding="UTF-8" standalone="yes"?>
<Types xmlns="http://schemas.openxmlformats.org/package/2006/content-types">"#;

pub const LINKS_START: &'static str = r#"<?xml version="1.0" encoding="UTF-8" standalone="yes"?>
<Relationships xmlns="http://schemas.openxmlformats.org/package/2006/relationships">"#;

/// Whose type is declared: all parts with an extension, or one part.
pub enum Typed {
    Extension(Seq<char>),
    Part(Seq<char>),
}

/// The declaration of a type.
pub open spec fn type_xml(of: Typed, kind: Seq<char>) -> Seq<char> {
    match of {
        Typed::Extension(extension) => r#"<Default Extension=""#@ + extension
            + r#"" ContentType=""#@ + kind + r#""/>"#@,
        Typed::Part(name) => r#"<Override PartName="/"#@ + name + r#"" ContentType=""#@ + kind
            + r#""/>"#@,
    }
}

/// Every type that a document declares.
pub open spec fn types() -> Seq<(Typed, Seq<char>)> {
    seq![
        (
            Typed::Extension("rels"@),
            "application/vnd.openxmlformats-package.relationships+xml"@,
        ),
        (Typed::Extension("xml"@), "application/xml"@),
        (
            Typed::Part("word/document.xml"@),
            "application/vnd.openxmlformats-officedocument.wordprocessingml.document.main+xml"@,
        ),
        (
            Typed::Part("word/styles.xml"@),
            "application/vnd.openxmlformats-officedocument.wordprocessingml.styles+xml"@,
        ),
        (
            Typed::Part("word/numbering.xml"@),
            "application/vnd.openxmlformats-officedocument.wordprocessingml.numbering+xml"@,
        ),
        (
            Typed::Part("docProps/core.xml"@),
            "application/vnd.openxmlformats-package.core-properties+xml"@,
        ),
    ]
}

/// The part that declares types.
pub open spec fn types_part(types: Seq<(Typed, Seq<char>)>) -> Seq<char> {
    TYPES_START@ + text::concat(types.map_values(|t: (Typed, Seq<char>)| type_xml(t.0, t.1)))
        + "</Types>"@
}

/// A relationship: its name, what it is, and the part that it points at.
pub struct Link {
    pub id: Seq<char>,
    pub kind: Seq<char>,
    pub target: Seq<char>,
}

pub open spec fn link_xml(link: Link) -> Seq<char> {
    r#"<Relationship Id=""#@ + link.id + r#"" Type=""#@ + link.kind + r#"" Target=""#@
        + link.target + r#""/>"#@
}

/// The part that holds some relationships.
pub open spec fn links_part(links: Seq<Link>) -> Seq<char> {
    LINKS_START@ + text::concat(links.map_values(|link: Link| link_xml(link)))
        + "</Relationships>"@
}

/// The relationships of the package, whose targets are named in full.
pub open spec fn package_links() -> Seq<Link> {
    seq![
        Link {
            id: "rId1"@,
            kind: "http://schemas.openxmlformats.org/officeDocument/2006/relationships/officeDocument"@,
            target: "word/document.xml"@,
        },
        Link {
            id: "rId2"@,
            kind: "http://schemas.openxmlformats.org/package/2006/relationships/metadata/core-properties"@,
            target: "docProps/core.xml"@,
        },
    ]
}

/// The relationships of the text, whose targets are named from its folder.
pub open spec fn text_links() -> Seq<Link> {
    seq![
        Link {
            id: "rId1"@,
            kind: "http://schemas.openxmlformats.org/officeDocument/2006/relationships/styles"@,
            target: "styles.xml"@,
        },
        Link {
            id: "rId2"@,
            kind: "http://schemas.openxmlformats.org/officeDocument/2006/relationships/numbering"@,
            target: "numbering.xml"@,
        },
    ]
}

fn push_extension(out: &mut String, extension: &str, kind: &str)
    ensures
        final(out)@ == old(out)@ + type_xml(Typed::Extension(extension@), kind@),
{
    let mut one = r#"<Default Extension=""#.to_owned();
    one.append(extension);
    one.append(r#"" ContentType=""#);
    one.append(kind);
    one.append(r#""/>"#);
    out.append(one.as_str());
}

fn push_type(out: &mut String, part: &str, kind: &str)
    ensures
        final(out)@ == old(out)@ + type_xml(Typed::Part(part@), kind@),
{
    let mut one = r#"<Override PartName="/"#.to_owned();
    one.append(part);
    one.append(r#"" ContentType=""#);
    one.append(kind);
    one.append(r#""/>"#);
    out.append(one.as_str());
}

fn push_link(out: &mut String, id: &str, kind: &str, target: &str)
    ensures
        final(out)@ == old(out)@ + link_xml(Link { id: id@, kind: kind@, target: target@ }),
{
    let mut one = r#"<Relationship Id=""#.to_owned();
    one.append(id);
    one.append(r#"" Type=""#);
    one.append(kind);
    one.append(r#"" Target=""#);
    one.append(target);
    one.append(r#""/>"#);
    out.append(one.as_str());
}

fn content_types() -> (r: String)
    ensures
        r@ == types_part(types()),
{
    let mut r = TYPES_START.to_owned();
    push_extension(&mut r, "rels", "application/vnd.openxmlformats-package.relationships+xml");
    push_extension(&mut r, "xml", "application/xml");
    push_type(
        &mut r,
        "word/document.xml",
        "application/vnd.openxmlformats-officedocument.wordprocessingml.document.main+xml",
    );
    push_type(
        &mut r,
        "word/styles.xml",
        "application/vnd.openxmlformats-officedocument.wordprocessingml.styles+xml",
    );
    push_type(
        &mut r,
        "word/numbering.xml",
        "application/vnd.openxmlformats-officedocument.wordprocessingml.numbering+xml",
    );
    push_type(
        &mut r,
        "docProps/core.xml",
        "application/vnd.openxmlformats-package.core-properties+xml",
    );
    proof {
        let all = types().map_values(|t: (Typed, Seq<char>)| type_xml(t.0, t.1));
        lemma_six(all);
        assert(r@ =~= TYPES_START@ + text::concat(all));
    }
    r.append("</Types>");
    r
}

proof fn lemma_six(all: Seq<Seq<char>>)
    requires
        all.len() == 6,
    ensures
        text::concat(all) == all[0] + all[1] + all[2] + all[3] + all[4] + all[5],
{
    assert(text::concat(all.take(0)) =~= Seq::empty());
    text::lemma_concat_take(all, 0);
    text::lemma_concat_take(all, 1);
    text::lemma_concat_take(all, 2);
    text::lemma_concat_take(all, 3);
    text::lemma_concat_take(all, 4);
    text::lemma_concat_take(all, 5);
    assert(all.take(6) =~= all);
    assert(text::concat(all) =~= all[0] + all[1] + all[2] + all[3] + all[4] + all[5]);
}

proof fn lemma_two(all: Seq<Seq<char>>)
    requires
        all.len() == 2,
    ensures
        text::concat(all) == all[0] + all[1],
{
    assert(text::concat(all.take(0)) =~= Seq::empty());
    text::lemma_concat_take(all, 0);
    text::lemma_concat_take(all, 1);
    assert(all.take(2) =~= all);
    assert(text::concat(all) =~= all[0] + all[1]);
}

fn package_relationships() -> (r: String)
    ensures
        r@ == links_part(package_links()),
{
    let mut r = LINKS_START.to_owned();
    push_link(
        &mut r,
        "rId1",
        "http://schemas.openxmlformats.org/officeDocument/2006/relationships/officeDocument",
        "word/document.xml",
    );
    push_link(
        &mut r,
        "rId2",
        "http://schemas.openxmlformats.org/package/2006/relationships/metadata/core-properties",
        "docProps/core.xml",
    );
    proof {
        let all = package_links().map_values(|link: Link| link_xml(link));
        lemma_two(all);
        assert(r@ =~= LINKS_START@ + text::concat(all));
    }
    r.append("</Relationships>");
    r
}

fn text_relationships() -> (r: String)
    ensures
        r@ == links_part(text_links()),
{
    let mut r = LINKS_START.to_owned();
    push_link(
        &mut r,
        "rId1",
        "http://schemas.openxmlformats.org/officeDocument/2006/relationships/styles",
        "styles.xml",
    );
    push_link(
        &mut r,
        "rId2",
        "http://schemas.openxmlformats.org/officeDocument/2006/relationships/numbering",
        "numbering.xml",
    );
    proof {
        let all = text_links().map_values(|link: Link| link_xml(link));
        lemma_two(all);
        assert(r@ =~= LINKS_START@ + text::concat(all));
    }
    r.append("</Relationships>");
    r
}

/// The style sheet. Sizes are half-points, spacing is twentieths of a point.
pub const STYLES: &'static str = r#"<?xml version="1.0" encoding="UTF-8" standalone="yes"?>
<w:styles xmlns:w="http://schemas.openxmlformats.org/wordprocessingml/2006/main"><w:docDefaults><w:rPrDefault><w:rPr><w:rFonts w:ascii="Calibri" w:hAnsi="Calibri" w:cs="Calibri"/><w:sz w:val="22"/></w:rPr></w:rPrDefault><w:pPrDefault><w:pPr><w:spacing w:after="160" w:line="259" w:lineRule="auto"/></w:pPr></w:pPrDefault></w:docDefaults><w:style w:type="paragraph" w:default="1" w:styleId="Normal"><w:name w:val="Normal"/><w:qFormat/></w:style><w:style w:type="paragraph" w:styleId="Title"><w:name w:val="Title"/><w:basedOn w:val="Normal"/><w:qFormat/><w:pPr><w:spacing w:before="0" w:after="320"/></w:pPr><w:rPr><w:sz w:val="56"/><w:color w:val="1F3864"/></w:rPr></w:style><w:style w:type="paragraph" w:styleId="Heading1"><w:name w:val="heading 1"/><w:basedOn w:val="Normal"/><w:qFormat/><w:pPr><w:outlineLvl w:val="0"/><w:spacing w:before="360" w:after="120"/><w:keepNext/></w:pPr><w:rPr><w:b/><w:sz w:val="36"/><w:color w:val="1F3864"/></w:rPr></w:style><w:style w:type="paragraph" w:styleId="Heading2"><w:name w:val="heading 2"/><w:basedOn w:val="Normal"/><w:qFormat/><w:pPr><w:outlineLvl w:val="1"/><w:spacing w:before="280" w:after="100"/><w:keepNext/></w:pPr><w:rPr><w:b/><w:sz w:val="30"/><w:color w:val="2E5496"/></w:rPr></w:style><w:style w:type="paragraph" w:styleId="Heading3"><w:name w:val="heading 3"/><w:basedOn w:val="Normal"/><w:qFormat/><w:pPr><w:outlineLvl w:val="2"/><w:spacing w:before="240" w:after="80"/><w:keepNext/></w:pPr><w:rPr><w:b/><w:sz w:val="26"/><w:color w:val="2E5496"/></w:rPr></w:style><w:style w:type="paragraph" w:styleId="Heading4"><w:name w:val="heading 4"/><w:basedOn w:val="Normal"/><w:qFormat/><w:pPr><w:outlineLvl w:val="3"/><w:spacing w:before="200" w:after="80"/><w:keepNext/></w:pPr><w:rPr><w:b/><w:i/><w:sz w:val="24"/><w:color w:val="2E5496"/></w:rPr></w:style><w:style w:type="paragraph" w:styleId="Heading5"><w:name w:val="heading 5"/><w:basedOn w:val="Heading4"/><w:qFormat/><w:pPr><w:outlineLvl w:val="4"/></w:pPr></w:style><w:style w:type="paragraph" w:styleId="Heading6"><w:name w:val="heading 6"/><w:basedOn w:val="Heading4"/><w:qFormat/><w:pPr><w:outlineLvl w:val="5"/></w:pPr></w:style><w:style w:type="paragraph" w:styleId="ListParagraph"><w:name w:val="List Paragraph"/><w:basedOn w:val="Normal"/><w:qFormat/><w:pPr><w:spacing w:after="60"/><w:contextualSpacing/></w:pPr></w:style><w:style w:type="paragraph" w:styleId="Quote"><w:name w:val="Quote"/><w:basedOn w:val="Normal"/><w:qFormat/><w:pPr><w:ind w:left="720" w:right="720"/><w:spacing w:before="160" w:after="160"/></w:pPr><w:rPr><w:i/><w:color w:val="404040"/></w:rPr></w:style><w:style w:type="paragraph" w:styleId="Code"><w:name w:val="HTML Preformatted"/><w:basedOn w:val="Normal"/><w:qFormat/><w:pPr><w:spacing w:after="0" w:line="240" w:lineRule="auto"/><w:ind w:left="360"/><w:shd w:val="clear" w:color="auto" w:fill="F5F5F5"/></w:pPr><w:rPr><w:rFonts w:ascii="Consolas" w:hAnsi="Consolas" w:cs="Consolas"/><w:sz w:val="20"/></w:rPr></w:style><w:style w:type="paragraph" w:styleId="TableText"><w:name w:val="Table Text"/><w:basedOn w:val="Normal"/><w:pPr><w:spacing w:before="40" w:after="40" w:line="240" w:lineRule="auto"/></w:pPr></w:style><w:style w:type="table" w:styleId="TableGrid"><w:name w:val="Table Grid"/><w:tblPr><w:tblBorders><w:top w:val="single" w:sz="4" w:space="0" w:color="BFBFBF"/><w:left w:val="single" w:sz="4" w:space="0" w:color="BFBFBF"/><w:bottom w:val="single" w:sz="4" w:space="0" w:color="BFBFBF"/><w:right w:val="single" w:sz="4" w:space="0" w:color="BFBFBF"/><w:insideH w:val="single" w:sz="4" w:space="0" w:color="BFBFBF"/><w:insideV w:val="single" w:sz="4" w:space="0" w:color="BFBFBF"/></w:tblBorders></w:tblPr></w:style></w:styles>"#;

/// Two lists: `numId` 1 is bulleted, 2 is numbered, five levels each.
pub const NUMBERING: &'static str = r#"<?xml version="1.0" encoding="UTF-8" standalone="yes"?>
<w:numbering xmlns:w="http://schemas.openxmlformats.org/wordprocessingml/2006/main"><w:abstractNum w:abstractNumId="1"><w:multiLevelType w:val="hybridMultilevel"/><w:lvl w:ilvl="0"><w:start w:val="1"/><w:numFmt w:val="bullet"/><w:lvlText w:val="•"/><w:lvlJc w:val="left"/><w:pPr><w:ind w:left="360" w:hanging="360"/></w:pPr><w:rPr><w:rFonts w:ascii="Symbol" w:hAnsi="Symbol" w:hint="default"/></w:rPr></w:lvl><w:lvl w:ilvl="1"><w:start w:val="1"/><w:numFmt w:val="bullet"/><w:lvlText w:val="◦"/><w:lvlJc w:val="left"/><w:pPr><w:ind w:left="720" w:hanging="360"/></w:pPr></w:lvl><w:lvl w:ilvl="2"><w:start w:val="1"/><w:numFmt w:val="bullet"/><w:lvlText w:val="▪"/><w:lvlJc w:val="left"/><w:pPr><w:ind w:left="1080" w:hanging="360"/></w:pPr></w:lvl><w:lvl w:ilvl="3"><w:start w:val="1"/><w:numFmt w:val="bullet"/><w:lvlText w:val="•"/><w:lvlJc w:val="left"/><w:pPr><w:ind w:left="1440" w:hanging="360"/></w:pPr></w:lvl><w:lvl w:ilvl="4"><w:start w:val="1"/><w:numFmt w:val="bullet"/><w:lvlText w:val="◦"/><w:lvlJc w:val="left"/><w:pPr><w:ind w:left="1800" w:hanging="360"/></w:pPr></w:lvl></w:abstractNum><w:abstractNum w:abstractNumId="2"><w:multiLevelType w:val="hybridMultilevel"/><w:lvl w:ilvl="0"><w:start w:val="1"/><w:numFmt w:val="decimal"/><w:lvlText w:val="%1."/><w:lvlJc w:val="left"/><w:pPr><w:ind w:left="360" w:hanging="360"/></w:pPr></w:lvl><w:lvl w:ilvl="1"><w:start w:val="1"/><w:numFmt w:val="lowerLetter"/><w:lvlText w:val="%2."/><w:lvlJc w:val="left"/><w:pPr><w:ind w:left="720" w:hanging="360"/></w:pPr></w:lvl><w:lvl w:ilvl="2"><w:start w:val="1"/><w:numFmt w:val="lowerRoman"/><w:lvlText w:val="%3."/><w:lvlJc w:val="right"/><w:pPr><w:ind w:left="1080" w:hanging="180"/></w:pPr></w:lvl><w:lvl w:ilvl="3"><w:start w:val="1"/><w:numFmt w:val="decimal"/><w:lvlText w:val="%4."/><w:lvlJc w:val="left"/><w:pPr><w:ind w:left="1440" w:hanging="360"/></w:pPr></w:lvl><w:lvl w:ilvl="4"><w:start w:val="1"/><w:numFmt w:val="lowerLetter"/><w:lvlText w:val="%5."/><w:lvlJc w:val="left"/><w:pPr><w:ind w:left="1800" w:hanging="360"/></w:pPr></w:lvl></w:abstractNum><w:num w:numId="1"><w:abstractNumId w:val="1"/></w:num><w:num w:numId="2"><w:abstractNumId w:val="2"/></w:num></w:numbering>"#;

/// The text of a span: where a link points stands behind its text, unless the
/// text is that address already.
pub open spec fn shown(span: SpanModel) -> Seq<char> {
    match span.link {
        Some(url) => if url != span.text {
            span.text + " ("@ + url + ")"@
        } else {
            span.text
        },
        None => span.text,
    }
}

/// How a span looks.
pub open spec fn run_properties(span: SpanModel) -> Seq<char> {
    text::given(span.bold, "<w:b/>"@) + text::given(span.italic, "<w:i/>"@) + text::given(
        span.code,
        r#"<w:rFonts w:ascii="Consolas" w:hAnsi="Consolas" w:cs="Consolas"/><w:sz w:val="20"/>"#@,
    ) + text::given(span.link is Some, r#"<w:color w:val="0563C1"/><w:u w:val="single"/>"#@)
}

/// A span as a run.
pub open spec fn run_xml(span: SpanModel) -> Seq<char> {
    "<w:r><w:rPr>"@ + run_properties(span) + r#"</w:rPr><w:t xml:space="preserve">"#@ + escaped(
        shown(span),
    ) + "</w:t></w:r>"@
}

/// Each span as a run.
pub open spec fn runs_xml(spans: Seq<SpanModel>) -> Seq<Seq<char>> {
    spans.map_values(|span: SpanModel| run_xml(span))
}

/// How deep a list can go: five levels.
pub open spec fn list_level(level: int) -> int {
    if level < 4 {
        level
    } else {
        4
    }
}

/// Which list a paragraph belongs to, and how deep in it.
pub open spec fn numbering_xml(numbering: Option<(int, int)>) -> Seq<char> {
    match numbering {
        Some((list, level)) => r#"<w:numPr><w:ilvl w:val=""#@ + text::decimal(
            list_level(level) as nat,
        ) + r#""/><w:numId w:val=""#@ + text::decimal(list as nat)
            + r#""/></w:numPr><w:ind w:left=""#@ + text::decimal(
            ((list_level(level) + 1) * INDENT_PER_LEVEL) as nat,
        ) + r#"" w:hanging=""#@ + text::decimal(INDENT_PER_LEVEL as nat) + r#""/>"#@,
        None => Seq::empty(),
    }
}

/// One paragraph: a style, optional list membership, and its runs.
pub open spec fn paragraph_xml(
    style: Seq<char>,
    spans: Seq<SpanModel>,
    numbering: Option<(int, int)>,
) -> Seq<char> {
    r#"<w:p><w:pPr><w:pStyle w:val=""#@ + style + r#""/>"#@ + numbering_xml(numbering)
        + "</w:pPr>"@ + text::concat(runs_xml(spans)) + "</w:p>"@
}

/// A line of code.
pub open spec fn code_line(line: Seq<char>) -> Seq<char> {
    paragraph_xml("Code"@, seq![SpanModel { code: true, ..plain_span(line) }], None)
}

/// Each line of code as a paragraph of its own.
pub open spec fn code_lines(lines: Seq<Seq<char>>) -> Seq<Seq<char>> {
    lines.map_values(|line: Seq<char>| code_line(line))
}

/// The text of a cell, which is empty where a row is short.
pub open spec fn cell_at(cells: Seq<Seq<char>>, column: int) -> Seq<char> {
    if 0 <= column < cells.len() {
        cells[column]
    } else {
        Seq::empty()
    }
}

/// The spans of a cell: all bold in a header.
pub open spec fn cell_spans(text: Seq<char>, header: bool) -> Seq<SpanModel> {
    spans_of(text).map_values(
        |span: SpanModel| SpanModel { bold: span.bold || header, ..span },
    )
}

/// One cell of a table.
pub open spec fn cell_xml(text: Seq<char>, width: nat, header: bool) -> Seq<char> {
    r#"<w:tc><w:tcPr><w:tcW w:w=""#@ + text::decimal(width) + r#"" w:type="dxa"/>"#@ + text::given(
        header,
        r#"<w:shd w:val="clear" w:color="auto" w:fill="F2F2F2"/>"#@,
    ) + "</w:tcPr>"@ + paragraph_xml("TableText"@, cell_spans(text, header), None) + "</w:tc>"@
}

/// The cells of a row, as many as the table has columns.
pub open spec fn cells_xml(
    cells: Seq<Seq<char>>,
    columns: nat,
    width: nat,
    header: bool,
) -> Seq<Seq<char>> {
    Seq::new(columns, |column: int| cell_xml(cell_at(cells, column), width, header))
}

/// One row of a table. A header repeats on every page.
pub open spec fn row_xml(
    cells: Seq<Seq<char>>,
    columns: nat,
    width: nat,
    header: bool,
) -> Seq<char> {
    "<w:tr>"@ + text::given(header, "<w:trPr><w:tblHeader/></w:trPr>"@) + text::concat(
        cells_xml(cells, columns, width, header),
    ) + "</w:tr>"@
}

/// Each row of a table.
pub open spec fn rows_xml(
    rows: Seq<Seq<Seq<char>>>,
    columns: nat,
    width: nat,
) -> Seq<Seq<char>> {
    rows.map_values(|row: Seq<Seq<char>>| row_xml(row, columns, width, false))
}

/// The length of the longest row.
pub open spec fn widest(rows: Seq<Seq<Seq<char>>>) -> nat
    decreases rows.len(),
{
    if rows.len() == 0 {
        0
    } else if rows.last().len() > widest(rows.drop_last()) {
        rows.last().len()
    } else {
        widest(rows.drop_last())
    }
}

/// How many columns a table has.
pub open spec fn columns_of(header: Seq<Seq<char>>, rows: Seq<Seq<Seq<char>>>) -> nat {
    if header.len() > widest(rows) {
        header.len()
    } else {
        widest(rows)
    }
}

pub const TABLE_START: &'static str = r#"<w:tbl><w:tblPr><w:tblStyle w:val="TableGrid"/><w:tblW w:w="0" w:type="auto"/><w:tblBorders><w:top w:val="single" w:sz="4" w:space="0" w:color="BFBFBF"/><w:left w:val="single" w:sz="4" w:space="0" w:color="BFBFBF"/><w:bottom w:val="single" w:sz="4" w:space="0" w:color="BFBFBF"/><w:right w:val="single" w:sz="4" w:space="0" w:color="BFBFBF"/><w:insideH w:val="single" w:sz="4" w:space="0" w:color="BFBFBF"/><w:insideV w:val="single" w:sz="4" w:space="0" w:color="BFBFBF"/></w:tblBorders></w:tblPr><w:tblGrid>"#;

/// One column of a table's grid.
pub open spec fn grid_column(width: nat) -> Seq<char> {
    r#"<w:gridCol w:w=""#@ + text::decimal(width) + r#""/>"#@
}

/// A table: nothing where it has no columns. The width is shared out evenly,
/// and an empty paragraph behind it keeps it apart from the next table.
pub open spec fn table_xml(header: Seq<Seq<char>>, rows: Seq<Seq<Seq<char>>>) -> Seq<char> {
    let columns = columns_of(header, rows);
    let width = CONTENT_WIDTH as nat / columns;
    if columns == 0 {
        Seq::empty()
    } else {
        TABLE_START@ + text::concat(Seq::new(columns, |column: int| grid_column(width)))
            + "</w:tblGrid>"@ + text::given(
            header.len() > 0,
            row_xml(header, columns, width, true),
        ) + text::concat(rows_xml(rows, columns, width)) + "</w:tbl>"@
            + r#"<w:p><w:pPr><w:pStyle w:val="Normal"/></w:pPr></w:p>"#@
    }
}

/// The level of a heading style, from one to six.
pub open spec fn heading_level(level: int) -> int {
    if level < 1 {
        1
    } else if level > 6 {
        6
    } else {
        level
    }
}

/// One block.
#[verifier::opaque]
pub open spec fn block_xml(block: BlockModel) -> Seq<char> {
    match block {
        BlockModel::Heading { level, spans } => paragraph_xml(
            "Heading"@ + text::decimal(heading_level(level) as nat),
            spans,
            None,
        ),
        BlockModel::Paragraph { spans } => paragraph_xml("Normal"@, spans, None),
        BlockModel::Quote { spans } => paragraph_xml("Quote"@, spans, None),
        BlockModel::Bullet { level, spans } => paragraph_xml(
            "ListParagraph"@,
            spans,
            Some((1, level)),
        ),
        BlockModel::Numbered { level, spans } => paragraph_xml(
            "ListParagraph"@,
            spans,
            Some((2, level)),
        ),
        BlockModel::Rule =>
            r#"<w:p><w:pPr><w:pBdr><w:bottom w:val="single" w:sz="6" w:space="1" w:color="BFBFBF"/></w:pBdr></w:pPr></w:p>"#@,
        BlockModel::PageBreak => r#"<w:p><w:r><w:br w:type="page"/></w:r></w:p>"#@,
        BlockModel::Code { language, text } => text::concat(code_lines(text::lines(text))),
        BlockModel::Table { header, rows } => table_xml(header, rows),
    }
}

/// Each block.
pub open spec fn blocks_xml(blocks: Seq<BlockModel>) -> Seq<Seq<char>> {
    blocks.map_values(|block: BlockModel| block_xml(block))
}

/// The title paragraph, where there is a title with anything in it.
pub open spec fn title_xml(title: Option<Seq<char>>) -> Seq<char> {
    match title {
        Some(t) => text::given(
            text::trim(t).len() > 0,
            paragraph_xml("Title"@, seq![plain_span(t)], None),
        ),
        None => Seq::empty(),
    }
}

/// The body of the document: its title, its blocks, and the page it is on.
#[verifier::opaque]
pub open spec fn document_xml(title: Option<Seq<char>>, blocks: Seq<BlockModel>) -> Seq<char> {
    r#"<?xml version="1.0" encoding="UTF-8" standalone="yes"?><w:document xmlns:w=""#@ + W@
        + r#""><w:body>"#@ + title_xml(title) + text::concat(blocks_xml(blocks))
        + r#"<w:sectPr><w:pgSz w:w="11906" w:h="16838"/><w:pgMar w:top="1440" w:right="1440" w:bottom="1440" w:left="1440" w:header="708" w:footer="708" w:gutter="0"/></w:sectPr></w:body></w:document>"#@
}

/// The document's properties.
#[verifier::opaque]
pub open spec fn properties_xml(title: Option<Seq<char>>) -> Seq<char> {
    let shown = match title {
        Some(t) => t,
        None => "Untitled"@,
    };
    r#"<?xml version="1.0" encoding="UTF-8" standalone="yes"?><cp:coreProperties xmlns:cp="http://schemas.openxmlformats.org/package/2006/metadata/core-properties" xmlns:dc="http://purl.org/dc/elements/1.1/"><dc:title>"#@
        + escaped(shown)
        + r#"</dc:title><dc:creator>Familiar</dc:creator><cp:lastModifiedBy>Familiar</cp:lastModifiedBy></cp:coreProperties>"#@
}

/// The parts of a Word document.
pub open spec fn document_parts(title: Option<Seq<char>>, blocks: Seq<BlockModel>) -> Seq<Part> {
    seq![
        text_part("[Content_Types].xml"@, types_part(types())),
        text_part("_rels/.rels"@, links_part(package_links())),
        text_part("word/_rels/document.xml.rels"@, links_part(text_links())),
        text_part("word/styles.xml"@, STYLES@),
        text_part("word/numbering.xml"@, NUMBERING@),
        text_part("docProps/core.xml"@, properties_xml(title)),
        text_part("word/document.xml"@, document_xml(title, blocks)),
    ]
}

/// The text of an optional title.
pub open spec fn title_model(title: Option<&str>) -> Option<Seq<char>> {
    match title {
        Some(t) => Some(t@),
        None => None,
    }
}

/// Builds a `.docx` from a title and a body of blocks.
///
/// `title` is the document's metadata title and, where there is one, its first
/// heading.
pub fn write(title: Option<&str>, blocks: &[Block]) -> (r: Vec<u8>)
    ensures
        r@ == archive_bytes(
            document_parts(title_model(title), crate::office::markup::blocks_model(blocks@)),
        ),
{
    let mut archive = Archive::new();
    let declared = content_types();
    archive.add_text("[Content_Types].xml", declared.as_str());
    let package = package_relationships();
    archive.add_text("_rels/.rels", package.as_str());
    let links = text_relationships();
    archive.add_text("word/_rels/document.xml.rels", links.as_str());
    archive.add_text("word/styles.xml", STYLES);
    archive.add_text("word/numbering.xml", NUMBERING);
    let properties = core_properties(title);
    archive.add_text("docProps/core.xml", properties.as_str());
    let body = document(title, blocks);
    archive.add_text("word/document.xml", body.as_str());
    assert(archive@ =~= document_parts(
        title_model(title),
        crate::office::markup::blocks_model(blocks@),
    ));
    archive.finish()
}

fn document(title: Option<&str>, blocks: &[Block]) -> (r: String)
    ensures
        r@ == document_xml(title_model(title), crate::office::markup::blocks_model(blocks@)),
{
    proof {
        reveal(document_xml);
    }
    let mut r =
        r#"<?xml version="1.0" encoding="UTF-8" standalone="yes"?><w:document xmlns:w=""#.to_owned();
    r.append(W);
    r.append(r#""><w:body>"#);
    let heading = title_paragraph(title);
    r.append(heading.as_str());
    let body = body_of(blocks);
    r.append(body.as_str());
    r.append(
        r#"<w:sectPr><w:pgSz w:w="11906" w:h="16838"/><w:pgMar w:top="1440" w:right="1440" w:bottom="1440" w:left="1440" w:header="708" w:footer="708" w:gutter="0"/></w:sectPr></w:body></w:document>"#,
    );
    r
}

fn title_paragraph(title: Option<&str>) -> (r: String)
    ensures
        r@ == title_xml(title_model(title)),
{
    match title {
        Some(t) => {
            let chars = text::chars_of(t);
            if text::trimmed(chars.as_slice()).len() > 0 {
                let mut spans: Vec<Span> = Vec::new();
                spans.push(Span::plain(t));
                assert(spans_model(spans@) =~= seq![plain_span(t@)]);
                paragraph("Title", &spans, None)
            } else {
                String::new()
            }
        },
        None => String::new(),
    }
}

fn body_of(blocks: &[Block]) -> (r: String)
    ensures
        r@ == text::concat(blocks_xml(crate::office::markup::blocks_model(blocks@))),
{
    let ghost all = blocks_xml(crate::office::markup::blocks_model(blocks@));
    let mut r = String::new();
    let mut i: usize = 0;
    while i < blocks.len()
        invariant
            0 <= i <= blocks.len(),
            all == blocks_xml(crate::office::markup::blocks_model(blocks@)),
            r@ == text::concat(all.take(i as int)),
        decreases blocks.len() - i,
    {
        let one = render(&blocks[i]);
        r.append(one.as_str());
        proof {
            text::lemma_concat_take(all, i as int);
        }
        i = i + 1;
    }
    assert(all.take(all.len() as int) =~= all);
    r
}

fn render(block: &Block) -> (r: String)
    ensures
        r@ == block_xml(block@),
{
    proof {
        reveal(block_xml);
    }
    match block {
        Block::Heading { level, spans } => {
            let level: u8 = if *level < 1 {
                1
            } else if *level > 6 {
                6
            } else {
                *level
            };
            let mut style = "Heading".to_owned();
            text::push_decimal(&mut style, level as u128);
            paragraph(style.as_str(), spans, None)
        },
        Block::Paragraph { spans } => paragraph("Normal", spans, None),
        Block::Quote { spans } => paragraph("Quote", spans, None),
        Block::Bullet { level, spans } => paragraph("ListParagraph", spans, Some((1, *level))),
        Block::Numbered { level, spans } => paragraph("ListParagraph", spans, Some((2, *level))),
        Block::Rule =>
            r#"<w:p><w:pPr><w:pBdr><w:bottom w:val="single" w:sz="6" w:space="1" w:color="BFBFBF"/></w:pBdr></w:pPr></w:p>"#.to_owned(),
        Block::PageBreak => r#"<w:p><w:r><w:br w:type="page"/></w:r></w:p>"#.to_owned(),
        Block::Code { language: _, text } => code(text.as_str()),
        Block::Table { header, rows } => table(header, rows),
    }
}

/// One paragraph per line, each shaded: a code block with soft line breaks
/// inside a single paragraph loses its indentation the first time it is
/// reflowed.
fn code(source: &str) -> (r: String)
    ensures
        r@ == text::concat(code_lines(text::lines(source@))),
{
    let chars = text::chars_of(source);
    let lines = text::lines_of(chars.as_slice());
    let ghost all = code_lines(text::lines(source@));
    let mut r = String::new();
    let mut i: usize = 0;
    while i < lines.len()
        invariant
            0 <= i <= lines.len(),
            text::runs(lines@) == text::lines(source@),
            all == code_lines(text::lines(source@)),
            r@ == text::concat(all.take(i as int)),
        decreases lines.len() - i,
    {
        let mut span = Span::default();
        span.text = text::string_of(lines[i]);
        span.code = true;
        let mut spans: Vec<Span> = Vec::new();
        spans.push(span);
        assert(text::lines(source@)[i as int] == lines@[i as int]@);
        assert(spans_model(spans@) =~= seq![
            SpanModel { code: true, ..plain_span(lines@[i as int]@) },
        ]);
        let one = paragraph("Code", &spans, None);
        r.append(one.as_str());
        proof {
            text::lemma_concat_take(all, i as int);
        }
        i = i + 1;
    }
    assert(all.take(all.len() as int) =~= all);
    r
}

/// What a list membership is in a contract.
pub open spec fn numbering_model(numbering: Option<(u32, u8)>) -> Option<(int, int)> {
    match numbering {
        Some((list, level)) => Some((list as int, level as int)),
        None => None,
    }
}

/// One paragraph: a style, optional list membership, and its runs.
fn paragraph(style: &str, spans: &Vec<Span>, numbering: Option<(u32, u8)>) -> (r: String)
    ensures
        r@ == paragraph_xml(style@, spans_model(spans@), numbering_model(numbering)),
{
    let mut r = r#"<w:p><w:pPr><w:pStyle w:val=""#.to_owned();
    r.append(style);
    r.append(r#""/>"#);
    let list = membership(numbering);
    r.append(list.as_str());
    r.append("</w:pPr>");
    let ghost start = r@;
    let ghost all = runs_xml(spans_model(spans@));
    let mut i: usize = 0;
    assert(start + text::concat(all.take(0)) =~= start);
    while i < spans.len()
        invariant
            0 <= i <= spans.len(),
            all == runs_xml(spans_model(spans@)),
            r@ == start + text::concat(all.take(i as int)),
        decreases spans.len() - i,
    {
        let one = run(&spans[i]);
        let ghost before = text::concat(all.take(i as int));
        r.append(one.as_str());
        proof {
            text::lemma_concat_take(all, i as int);
            assert(start + before + all[i as int] =~= start + (before + all[i as int]));
        }
        i = i + 1;
    }
    assert(all.take(all.len() as int) =~= all);
    r.append("</w:p>");
    r
}

fn membership(numbering: Option<(u32, u8)>) -> (r: String)
    ensures
        r@ == numbering_xml(numbering_model(numbering)),
{
    match numbering {
        Some((list, level)) => {
            let level: u128 = if level < 4 {
                level as u128
            } else {
                4
            };
            let mut r = r#"<w:numPr><w:ilvl w:val=""#.to_owned();
            text::push_decimal(&mut r, level);
            r.append(r#""/><w:numId w:val=""#);
            text::push_decimal(&mut r, list as u128);
            r.append(r#""/></w:numPr><w:ind w:left=""#);
            let left: u128 = (level + 1) * 360;
            text::push_decimal(&mut r, left);
            r.append(r#"" w:hanging=""#);
            text::push_decimal(&mut r, INDENT_PER_LEVEL as u128);
            r.append(r#""/>"#);
            r
        },
        None => String::new(),
    }
}

fn run(span: &Span) -> (r: String)
    ensures
        r@ == run_xml(span@),
{
    let mut properties = String::new();
    text::push_given(&mut properties, span.bold, "<w:b/>");
    assert(properties@ =~= text::given(span.bold, "<w:b/>"@));
    text::push_given(&mut properties, span.italic, "<w:i/>");
    text::push_given(
        &mut properties,
        span.code,
        r#"<w:rFonts w:ascii="Consolas" w:hAnsi="Consolas" w:cs="Consolas"/><w:sz w:val="20"/>"#,
    );
    // Styled as a link rather than made one: a real hyperlink needs a
    // relationship for each target. The address is kept in the text so nothing
    // is lost.
    text::push_given(
        &mut properties,
        span.link.is_some(),
        r#"<w:color w:val="0563C1"/><w:u w:val="single"/>"#,
    );
    let mut words = span.text.clone();
    if let Some(url) = &span.link {
        if !text::same(url.as_str(), span.text.as_str()) {
            words.append(" (");
            words.append(url.as_str());
            words.append(")");
        }
    }
    assert(words@ == shown(span@));
    let safe = escape(words.as_str());
    let mut r = "<w:r><w:rPr>".to_owned();
    r.append(properties.as_str());
    // Without this the space between two runs is lost.
    r.append(r#"</w:rPr><w:t xml:space="preserve">"#);
    r.append(safe.as_str());
    r.append("</w:t></w:r>");
    r
}

pub fn columns_in(header: &Vec<String>, rows: &Vec<Vec<String>>) -> (r: usize)
    ensures
        r == columns_of(text::texts(header@), rows_model(rows@)),
{
    let ghost all = rows_model(rows@);
    let mut r: usize = 0;
    let mut i: usize = 0;
    while i < rows.len()
        invariant
            0 <= i <= rows.len(),
            all == rows_model(rows@),
            r == widest(all.take(i as int)),
        decreases rows.len() - i,
    {
        assert(all.take(i + 1).drop_last() =~= all.take(i as int));
        if rows[i].len() > r {
            r = rows[i].len();
        }
        i = i + 1;
    }
    assert(all.take(all.len() as int) =~= all);
    if header.len() > r {
        header.len()
    } else {
        r
    }
}

fn grid(columns: usize, width: u128) -> (r: String)
    ensures
        r@ == text::concat(Seq::new(columns as nat, |column: int| grid_column(width as nat))),
{
    let ghost all = Seq::new(columns as nat, |column: int| grid_column(width as nat));
    let mut r = String::new();
    let mut i: usize = 0;
    while i < columns
        invariant
            0 <= i <= columns,
            all == Seq::new(columns as nat, |column: int| grid_column(width as nat)),
            r@ == text::concat(all.take(i as int)),
        decreases columns - i,
    {
        let mut one = r#"<w:gridCol w:w=""#.to_owned();
        text::push_decimal(&mut one, width);
        one.append(r#""/>"#);
        r.append(one.as_str());
        proof {
            text::lemma_concat_take(all, i as int);
        }
        i = i + 1;
    }
    assert(all.take(all.len() as int) =~= all);
    r
}

fn table(header: &Vec<String>, rows: &Vec<Vec<String>>) -> (r: String)
    ensures
        r@ == table_xml(text::texts(header@), rows_model(rows@)),
{
    let columns = columns_in(header, rows);
    if columns == 0 {
        return String::new();
    }
    // Shared out evenly; a word processor redistributes on the first edit.
    let width: u128 = CONTENT_WIDTH / columns as u128;
    let ghost head = text::texts(header@);
    let ghost body = rows_model(rows@);
    let mut r = TABLE_START.to_owned();
    let columns_xml = grid(columns, width);
    r.append(columns_xml.as_str());
    r.append("</w:tblGrid>");
    if !header.is_empty() {
        let top = row(header, columns, width, true);
        r.append(top.as_str());
    }
    proof {
        let so_far = TABLE_START@ + columns_xml@ + "</w:tblGrid>"@;
        assert(header.len() == 0 ==> r@ =~= so_far + text::given(
            head.len() > 0,
            row_xml(head, columns as nat, width as nat, true),
        ));
    }
    let ghost start = r@;
    let ghost all = rows_xml(body, columns as nat, width as nat);
    let mut i: usize = 0;
    assert(start + text::concat(all.take(0)) =~= start);
    while i < rows.len()
        invariant
            0 <= i <= rows.len(),
            body == rows_model(rows@),
            all == rows_xml(body, columns as nat, width as nat),
            r@ == start + text::concat(all.take(i as int)),
        decreases rows.len() - i,
    {
        let one = row(&rows[i], columns, width, false);
        let ghost before = text::concat(all.take(i as int));
        r.append(one.as_str());
        proof {
            text::lemma_concat_take(all, i as int);
            assert(start + before + all[i as int] =~= start + (before + all[i as int]));
        }
        i = i + 1;
    }
    assert(all.take(all.len() as int) =~= all);
    r.append("</w:tbl>");
    r.append(r#"<w:p><w:pPr><w:pStyle w:val="Normal"/></w:pPr></w:p>"#);
    r
}

fn cell_content(cells: &Vec<String>, column: usize, header: bool) -> (r: Vec<Span>)
    ensures
        spans_model(r@) == cell_spans(cell_at(text::texts(cells@), column as int), header),
{
    let found = if column < cells.len() {
        spans(cells[column].as_str())
    } else {
        proof {
            reveal_strlit("");
        }
        assert(""@ =~= Seq::<char>::empty());
        spans("")
    };
    let ghost all = spans_model(found@);
    let mut r: Vec<Span> = Vec::new();
    let mut i: usize = 0;
    while i < found.len()
        invariant
            0 <= i <= found.len(),
            all == spans_model(found@),
            spans_model(r@) == all.take(i as int).map_values(
                |span: SpanModel| SpanModel { bold: span.bold || header, ..span },
            ),
        decreases found.len() - i,
    {
        let span = &found[i];
        let ghost before = spans_model(r@);
        r.push(
            Span {
                text: span.text.clone(),
                bold: span.bold || header,
                italic: span.italic,
                code: span.code,
                link: span.link.clone(),
            },
        );
        assert(r@.last()@ == (SpanModel { bold: span.bold || header, ..all[i as int] }));
        assert(spans_model(r@) =~= before.push(r@.last()@));
        assert(spans_model(r@) =~= all.take(i + 1).map_values(
            |span: SpanModel| SpanModel { bold: span.bold || header, ..span },
        ));
        i = i + 1;
    }
    assert(all.take(all.len() as int) =~= all);
    r
}

fn row(cells: &Vec<String>, columns: usize, width: u128, header: bool) -> (r: String)
    ensures
        r@ == row_xml(text::texts(cells@), columns as nat, width as nat, header),
{
    let mut r = "<w:tr>".to_owned();
    // Repeat on every page, which is what a person means by a header row.
    text::push_given(&mut r, header, "<w:trPr><w:tblHeader/></w:trPr>");
    let ghost start = r@;
    let ghost all = cells_xml(text::texts(cells@), columns as nat, width as nat, header);
    let mut i: usize = 0;
    assert(start + text::concat(all.take(0)) =~= start);
    while i < columns
        invariant
            0 <= i <= columns,
            all == cells_xml(text::texts(cells@), columns as nat, width as nat, header),
            r@ == start + text::concat(all.take(i as int)),
        decreases columns - i,
    {
        let content = cell_content(cells, i, header);
        let inner = paragraph("TableText", &content, None);
        let mut one = r#"<w:tc><w:tcPr><w:tcW w:w=""#.to_owned();
        text::push_decimal(&mut one, width);
        one.append(r#"" w:type="dxa"/>"#);
        text::push_given(
            &mut one,
            header,
            r#"<w:shd w:val="clear" w:color="auto" w:fill="F2F2F2"/>"#,
        );
        one.append("</w:tcPr>");
        one.append(inner.as_str());
        one.append("</w:tc>");
        let ghost before = text::concat(all.take(i as int));
        r.append(one.as_str());
        proof {
            text::lemma_concat_take(all, i as int);
            assert(start + before + all[i as int] =~= start + (before + all[i as int]));
        }
        i = i + 1;
    }
    assert(all.take(all.len() as int) =~= all);
    r.append("</w:tr>");
    r
}

fn core_properties(title: Option<&str>) -> (r: String)
    ensures
        r@ == properties_xml(title_model(title)),
{
    proof {
        reveal(properties_xml);
    }
    let words = match title {
        Some(t) => t,
        None => "Untitled",
    };
    let safe = escape(words);
    let mut r =
        r#"<?xml version="1.0" encoding="UTF-8" standalone="yes"?><cp:coreProperties xmlns:cp="http://schemas.openxmlformats.org/package/2006/metadata/core-properties" xmlns:dc="http://purl.org/dc/elements/1.1/"><dc:title>"#.to_owned();
    r.append(safe.as_str());
    r.append(
        r#"</dc:title><dc:creator>Familiar</dc:creator><cp:lastModifiedBy>Familiar</cp:lastModifiedBy></cp:coreProperties>"#,
    );
    r
}

/// The names of a document's parts.
pub open spec fn part_names() -> Seq<Seq<char>> {
    seq![
        "[Content_Types].xml"@,
        "_rels/.rels"@,
        "word/_rels/document.xml.rels"@,
        "word/styles.xml"@,
        "word/numbering.xml"@,
        "docProps/core.xml"@,
        "word/document.xml"@,
    ]
}

/// Whether a document declares a type for a part, by its name or by its
/// extension.
pub open spec fn is_typed(name: Seq<char>) -> bool {
    exists|i: int|
        0 <= i < types().len() && match (#[trigger] types()[i]).0 {
            Typed::Part(part) => part == name,
            Typed::Extension(extension) => text::ends(name, "."@ + extension),
        }
}

/// Every document has the same parts, each of a type that is declared, and every
/// relationship points at one of them.
pub proof fn every_part_is_typed_and_every_link_resolves(
    title: Option<Seq<char>>,
    blocks: Seq<BlockModel>,
)
    ensures
        document_parts(title, blocks).len() == part_names().len(),
        forall|i: int|
            0 <= i < part_names().len() ==> (#[trigger] document_parts(title, blocks)[i]).name
                == slashed(part_names()[i]),
        forall|i: int| 0 <= i < part_names().len() ==> is_typed(#[trigger] part_names()[i]),
        forall|i: int|
            0 <= i < package_links().len() ==> part_names().contains(
                (#[trigger] package_links()[i]).target,
            ),
        forall|i: int|
            0 <= i < text_links().len() ==> part_names().contains(
                "word/"@ + (#[trigger] text_links()[i]).target,
            ),
{
    reveal_strlit("rels");
    reveal_strlit("xml");
    reveal_strlit(".");
    reveal_strlit("[Content_Types].xml");
    reveal_strlit("_rels/.rels");
    reveal_strlit("word/_rels/document.xml.rels");
    let names = part_names();
    let all = types();
    let rels = "."@ + "rels"@;
    let xml = "."@ + "xml"@;
    assert(names[0].skip(names[0].len() - 4) =~= xml);
    assert(names[1].skip(names[1].len() - 5) =~= rels);
    assert(names[2].skip(names[2].len() - 5) =~= rels);
    assert(all[0].0 == Typed::Extension("rels"@));
    assert(all[1].0 == Typed::Extension("xml"@));
    assert(is_typed(names[0]) && is_typed(names[1]) && is_typed(names[2]));
    assert(all[3].0 == Typed::Part(names[3]));
    assert(all[4].0 == Typed::Part(names[4]));
    assert(all[5].0 == Typed::Part(names[5]));
    assert(all[2].0 == Typed::Part(names[6]));
    assert(is_typed(names[3]) && is_typed(names[4]) && is_typed(names[5]) && is_typed(names[6]));
    assert(package_links()[0].target == names[6]);
    assert(package_links()[1].target == names[5]);
    reveal_strlit("word/");
    reveal_strlit("styles.xml");
    reveal_strlit("numbering.xml");
    reveal_strlit("word/styles.xml");
    reveal_strlit("word/numbering.xml");
    assert("word/"@ + text_links()[0].target =~= names[3]);
    assert("word/"@ + text_links()[1].target =~= names[4]);
}

// ---------------------------------------------------------------------------
// A list is shown as the list it is
// ---------------------------------------------------------------------------

/// How a level of a list begins: which level it is, and how it counts.
pub open spec fn level_start(level: nat, format: Seq<char>) -> Seq<char> {
    r#"<w:lvl w:ilvl=""#@ + text::decimal(level) + r#""><w:start w:val="1"/><w:numFmt w:val=""#@
        + format + r#""/>"#@
}

/// Whether a part says that a list is of a kind, by its number.
pub open spec fn is_of_kind(part: Seq<char>, list: Seq<char>, kind: Seq<char>) -> bool {
    text::holds(
        part,
        r#"<w:num w:numId=""#@ + list + r#""><w:abstractNumId w:val=""#@ + kind
            + r#""/></w:num>"#@,
    )
}

/// Whether a part gives a kind of list these levels.
pub open spec fn has_levels(part: Seq<char>, kind: Seq<char>, levels: Seq<Seq<char>>) -> bool {
    text::holds(
        part,
        r#"<w:abstractNum w:abstractNumId=""#@ + kind
            + r#""><w:multiLevelType w:val="hybridMultilevel"/>"#@ + text::concat(levels)
            + "</w:abstractNum>"@,
    )
}

/// Whether a part declares a list whose levels count in these ways.
pub open spec fn declares(part: Seq<char>, list: Seq<char>, formats: Seq<Seq<char>>) -> bool {
    exists|kind: Seq<char>, levels: Seq<Seq<char>>| #[trigger]
        is_of_kind(part, list, kind) && #[trigger] has_levels(part, kind, levels) && levels.len()
            == formats.len() && forall|k: int|
            0 <= k < levels.len() ==> text::starts(
                #[trigger] levels[k],
                level_start(k as nat, formats[k]),
            ) && text::ends(levels[k], "</w:lvl>"@)
}

/// How a paragraph of a list begins: which list it belongs to, and how deep in it.
pub open spec fn list_start(list: Seq<char>, level: nat) -> Seq<char> {
    r#"<w:p><w:pPr><w:pStyle w:val="ListParagraph"/><w:numPr><w:ilvl w:val=""#@ + text::decimal(
        level,
    ) + r#""/><w:numId w:val=""#@ + list + r#""/></w:numPr>"#@
}

/// Whether a paragraph belongs to a list that the document declares, whose levels count
/// in these ways.
pub open spec fn is_listed(
    parts: Seq<Part>,
    paragraph: Seq<char>,
    level: nat,
    formats: Seq<Seq<char>>,
) -> bool {
    exists|numbering: Seq<char>, list: Seq<char>|
        parts.contains(text_part("word/numbering.xml"@, numbering)) && #[trigger] declares(
            numbering,
            list,
            formats,
        ) && text::starts(paragraph, list_start(list, level))
}

/// A bullet is a paragraph of a list that the document declares with bullets at every
/// level; a numbered item is one of a list that counts in figures at its first level, and
/// in letters and Roman figures further in. Either is as deep in its list as the block is,
/// as far as the list goes.
pub proof fn lists_are_shown_as_what_they_are(
    title: Option<Seq<char>>,
    blocks: Seq<BlockModel>,
    level: int,
    spans: Seq<SpanModel>,
)
    requires
        0 <= level,
    ensures
        is_listed(
            document_parts(title, blocks),
            block_xml(BlockModel::Bullet { level, spans }),
            (if level < 4 {
                level
            } else {
                4
            }) as nat,
            seq!["bullet"@, "bullet"@, "bullet"@, "bullet"@, "bullet"@],
        ),
        is_listed(
            document_parts(title, blocks),
            block_xml(BlockModel::Numbered { level, spans }),
            (if level < 4 {
                level
            } else {
                4
            }) as nat,
            seq!["decimal"@, "lowerLetter"@, "lowerRoman"@, "decimal"@, "lowerLetter"@],
        ),
{
    let parts = document_parts(title, blocks);
    assert(parts[4] == text_part("word/numbering.xml"@, NUMBERING@));
    lemma_bulleted();
    lemma_counted();
    lemma_list_start(level, spans);
}

proof fn lemma_list_start(level: int, spans: Seq<SpanModel>)
    requires
        0 <= level,
    ensures
        text::starts(
            block_xml(BlockModel::Bullet { level, spans }),
            list_start(seq!['1'], list_level(level) as nat),
        ),
        text::starts(
            block_xml(BlockModel::Numbered { level, spans }),
            list_start(seq!['2'], list_level(level) as nat),
        ),
{
    reveal(block_xml);
    reveal_strlit(r#"<w:p><w:pPr><w:pStyle w:val="ListParagraph"/><w:numPr><w:ilvl w:val=""#);
    reveal_strlit(r#"<w:p><w:pPr><w:pStyle w:val=""#);
    reveal_strlit("ListParagraph");
    reveal_strlit(r#""/>"#);
    reveal_strlit(r#"<w:numPr><w:ilvl w:val=""#);
    reveal_strlit(r#""/></w:numPr>"#);
    reveal_strlit(r#""/></w:numPr><w:ind w:left=""#);
    let a = block_xml(BlockModel::Bullet { level, spans });
    let b = block_xml(BlockModel::Numbered { level, spans });
    let x = list_start(seq!['1'], list_level(level) as nat);
    let y = list_start(seq!['2'], list_level(level) as nat);
    assert(text::decimal(1) =~= seq!['1']);
    assert(text::decimal(2) =~= seq!['2']);
    assert(a.take(x.len() as int) =~= x);
    assert(b.take(y.len() as int) =~= y);
}

proof fn lemma_bulleted()
    ensures
        declares(NUMBERING@, seq!['1'], seq!["bullet"@, "bullet"@, "bullet"@, "bullet"@, "bullet"@]),
{
    reveal_strlit(
        r#"<?xml version="1.0" encoding="UTF-8" standalone="yes"?>
<w:numbering xmlns:w="http://schemas.openxmlformats.org/wordprocessingml/2006/main"><w:abstractNum w:abstractNumId="1"><w:multiLevelType w:val="hybridMultilevel"/><w:lvl w:ilvl="0"><w:start w:val="1"/><w:numFmt w:val="bullet"/><w:lvlText w:val="•"/><w:lvlJc w:val="left"/><w:pPr><w:ind w:left="360" w:hanging="360"/></w:pPr><w:rPr><w:rFonts w:ascii="Symbol" w:hAnsi="Symbol" w:hint="default"/></w:rPr></w:lvl><w:lvl w:ilvl="1"><w:start w:val="1"/><w:numFmt w:val="bullet"/><w:lvlText w:val="◦"/><w:lvlJc w:val="left"/><w:pPr><w:ind w:left="720" w:hanging="360"/></w:pPr></w:lvl><w:lvl w:ilvl="2"><w:start w:val="1"/><w:numFmt w:val="bullet"/><w:lvlText w:val="▪"/><w:lvlJc w:val="left"/><w:pPr><w:ind w:left="1080" w:hanging="360"/></w:pPr></w:lvl><w:lvl w:ilvl="3"><w:start w:val="1"/><w:numFmt w:val="bullet"/><w:lvlText w:val="•"/><w:lvlJc w:val="left"/><w:pPr><w:ind w:left="1440" w:hanging="360"/></w:pPr></w:lvl><w:lvl w:ilvl="4"><w:start w:val="1"/><w:numFmt w:val="bullet"/><w:lvlText w:val="◦"/><w:lvlJc w:val="left"/><w:pPr><w:ind w:left="1800" w:hanging="360"/></w:pPr></w:lvl></w:abstractNum><w:abstractNum w:abstractNumId="2"><w:multiLevelType w:val="hybridMultilevel"/><w:lvl w:ilvl="0"><w:start w:val="1"/><w:numFmt w:val="decimal"/><w:lvlText w:val="%1."/><w:lvlJc w:val="left"/><w:pPr><w:ind w:left="360" w:hanging="360"/></w:pPr></w:lvl><w:lvl w:ilvl="1"><w:start w:val="1"/><w:numFmt w:val="lowerLetter"/><w:lvlText w:val="%2."/><w:lvlJc w:val="left"/><w:pPr><w:ind w:left="720" w:hanging="360"/></w:pPr></w:lvl><w:lvl w:ilvl="2"><w:start w:val="1"/><w:numFmt w:val="lowerRoman"/><w:lvlText w:val="%3."/><w:lvlJc w:val="right"/><w:pPr><w:ind w:left="1080" w:hanging="180"/></w:pPr></w:lvl><w:lvl w:ilvl="3"><w:start w:val="1"/><w:numFmt w:val="decimal"/><w:lvlText w:val="%4."/><w:lvlJc w:val="left"/><w:pPr><w:ind w:left="1440" w:hanging="360"/></w:pPr></w:lvl><w:lvl w:ilvl="4"><w:start w:val="1"/><w:numFmt w:val="lowerLetter"/><w:lvlText w:val="%5."/><w:lvlJc w:val="left"/><w:pPr><w:ind w:left="1800" w:hanging="360"/></w:pPr></w:lvl></w:abstractNum><w:num w:numId="1"><w:abstractNumId w:val="1"/></w:num><w:num w:numId="2"><w:abstractNumId w:val="2"/></w:num></w:numbering>"#,
    );
    let part = NUMBERING@;
    let formats = seq!["bullet"@, "bullet"@, "bullet"@, "bullet"@, "bullet"@];
    let cut = |k: int| seq![219int, 465int, 634int, 804int, 974int, 1144int][k];
    let levels = Seq::new(5, |k: int| part.subrange(cut(k), cut(k + 1)));
    reveal_strlit("bullet");
    reveal_strlit(r#"<w:lvl w:ilvl=""#);
    reveal_strlit(r#""><w:start w:val="1"/><w:numFmt w:val=""#);
    reveal_strlit(r#""/>"#);
    reveal_strlit("</w:lvl>");
    assert(text::decimal(0) =~= seq!['0']);
    assert(levels[0].take(64) =~= level_start(0, formats[0]));
    assert(levels[0].skip(levels[0].len() - 8) =~= "</w:lvl>"@);
    assert(text::decimal(1) =~= seq!['1']);
    assert(levels[1].take(64) =~= level_start(1, formats[1]));
    assert(levels[1].skip(levels[1].len() - 8) =~= "</w:lvl>"@);
    assert(text::decimal(2) =~= seq!['2']);
    assert(levels[2].take(64) =~= level_start(2, formats[2]));
    assert(levels[2].skip(levels[2].len() - 8) =~= "</w:lvl>"@);
    assert(text::decimal(3) =~= seq!['3']);
    assert(levels[3].take(64) =~= level_start(3, formats[3]));
    assert(levels[3].skip(levels[3].len() - 8) =~= "</w:lvl>"@);
    assert(text::decimal(4) =~= seq!['4']);
    assert(levels[4].take(64) =~= level_start(4, formats[4]));
    assert(levels[4].skip(levels[4].len() - 8) =~= "</w:lvl>"@);
    reveal_strlit(r#"<w:num w:numId=""#);
    reveal_strlit(r#""><w:abstractNumId w:val=""#);
    reveal_strlit(r#""/></w:num>"#);
    let kind = seq!['1'];
    let entry = r#"<w:num w:numId=""#@ + kind + r#""><w:abstractNumId w:val=""#@ + kind
        + r#""/></w:num>"#@;
    assert(part.subrange(2130, 2185) =~= entry);
    assert(text::stands_at(part, entry, 2130));
    reveal_strlit(r#"<w:abstractNum w:abstractNumId=""#);
    reveal_strlit(r#""><w:multiLevelType w:val="hybridMultilevel"/>"#);
    reveal_strlit("</w:abstractNum>");
    let head = r#"<w:abstractNum w:abstractNumId=""#@ + kind
        + r#""><w:multiLevelType w:val="hybridMultilevel"/>"#@;
    assert(part.subrange(140, 219) =~= head);
    assert(part.subrange(1144, 1160) =~= "</w:abstractNum>"@);
    lemma_five(levels);
    assert(text::concat(levels) =~= part.subrange(219, 1144));
    let whole = head + text::concat(levels) + "</w:abstractNum>"@;
    assert(part.subrange(140, 1160) =~= part.subrange(140, 219) + part.subrange(
        219,
        1144,
    ) + part.subrange(1144, 1160));
    assert(text::stands_at(part, whole, 140));
    assert(is_of_kind(part, seq!['1'], kind) && has_levels(part, kind, levels));
    assert forall|k: int| 0 <= k < levels.len() implies text::starts(
        #[trigger] levels[k],
        level_start(k as nat, formats[k]),
    ) && text::ends(levels[k], "</w:lvl>"@) by {
        assert(k == 0 || k == 1 || k == 2 || k == 3 || k == 4);
    }
}

proof fn lemma_counted()
    ensures
        declares(NUMBERING@, seq!['2'], seq!["decimal"@, "lowerLetter"@, "lowerRoman"@, "decimal"@, "lowerLetter"@]),
{
    reveal_strlit(
        r#"<?xml version="1.0" encoding="UTF-8" standalone="yes"?>
<w:numbering xmlns:w="http://schemas.openxmlformats.org/wordprocessingml/2006/main"><w:abstractNum w:abstractNumId="1"><w:multiLevelType w:val="hybridMultilevel"/><w:lvl w:ilvl="0"><w:start w:val="1"/><w:numFmt w:val="bullet"/><w:lvlText w:val="•"/><w:lvlJc w:val="left"/><w:pPr><w:ind w:left="360" w:hanging="360"/></w:pPr><w:rPr><w:rFonts w:ascii="Symbol" w:hAnsi="Symbol" w:hint="default"/></w:rPr></w:lvl><w:lvl w:ilvl="1"><w:start w:val="1"/><w:numFmt w:val="bullet"/><w:lvlText w:val="◦"/><w:lvlJc w:val="left"/><w:pPr><w:ind w:left="720" w:hanging="360"/></w:pPr></w:lvl><w:lvl w:ilvl="2"><w:start w:val="1"/><w:numFmt w:val="bullet"/><w:lvlText w:val="▪"/><w:lvlJc w:val="left"/><w:pPr><w:ind w:left="1080" w:hanging="360"/></w:pPr></w:lvl><w:lvl w:ilvl="3"><w:start w:val="1"/><w:numFmt w:val="bullet"/><w:lvlText w:val="•"/><w:lvlJc w:val="left"/><w:pPr><w:ind w:left="1440" w:hanging="360"/></w:pPr></w:lvl><w:lvl w:ilvl="4"><w:start w:val="1"/><w:numFmt w:val="bullet"/><w:lvlText w:val="◦"/><w:lvlJc w:val="left"/><w:pPr><w:ind w:left="1800" w:hanging="360"/></w:pPr></w:lvl></w:abstractNum><w:abstractNum w:abstractNumId="2"><w:multiLevelType w:val="hybridMultilevel"/><w:lvl w:ilvl="0"><w:start w:val="1"/><w:numFmt w:val="decimal"/><w:lvlText w:val="%1."/><w:lvlJc w:val="left"/><w:pPr><w:ind w:left="360" w:hanging="360"/></w:pPr></w:lvl><w:lvl w:ilvl="1"><w:start w:val="1"/><w:numFmt w:val="lowerLetter"/><w:lvlText w:val="%2."/><w:lvlJc w:val="left"/><w:pPr><w:ind w:left="720" w:hanging="360"/></w:pPr></w:lvl><w:lvl w:ilvl="2"><w:start w:val="1"/><w:numFmt w:val="lowerRoman"/><w:lvlText w:val="%3."/><w:lvlJc w:val="right"/><w:pPr><w:ind w:left="1080" w:hanging="180"/></w:pPr></w:lvl><w:lvl w:ilvl="3"><w:start w:val="1"/><w:numFmt w:val="decimal"/><w:lvlText w:val="%4."/><w:lvlJc w:val="left"/><w:pPr><w:ind w:left="1440" w:hanging="360"/></w:pPr></w:lvl><w:lvl w:ilvl="4"><w:start w:val="1"/><w:numFmt w:val="lowerLetter"/><w:lvlText w:val="%5."/><w:lvlJc w:val="left"/><w:pPr><w:ind w:left="1800" w:hanging="360"/></w:pPr></w:lvl></w:abstractNum><w:num w:numId="1"><w:abstractNumId w:val="1"/></w:num><w:num w:numId="2"><w:abstractNumId w:val="2"/></w:num></w:numbering>"#,
    );
    let part = NUMBERING@;
    let formats = seq!["decimal"@, "lowerLetter"@, "lowerRoman"@, "decimal"@, "lowerLetter"@];
    let cut = |k: int| seq![1239int, 1411int, 1587int, 1764int, 1937int, 2114int][k];
    let levels = Seq::new(5, |k: int| part.subrange(cut(k), cut(k + 1)));
    reveal_strlit("decimal");
    reveal_strlit("lowerLetter");
    reveal_strlit("lowerRoman");
    reveal_strlit(r#"<w:lvl w:ilvl=""#);
    reveal_strlit(r#""><w:start w:val="1"/><w:numFmt w:val=""#);
    reveal_strlit(r#""/>"#);
    reveal_strlit("</w:lvl>");
    assert(text::decimal(0) =~= seq!['0']);
    assert(levels[0].take(65) =~= level_start(0, formats[0]));
    assert(levels[0].skip(levels[0].len() - 8) =~= "</w:lvl>"@);
    assert(text::decimal(1) =~= seq!['1']);
    assert(levels[1].take(69) =~= level_start(1, formats[1]));
    assert(levels[1].skip(levels[1].len() - 8) =~= "</w:lvl>"@);
    assert(text::decimal(2) =~= seq!['2']);
    assert(levels[2].take(68) =~= level_start(2, formats[2]));
    assert(levels[2].skip(levels[2].len() - 8) =~= "</w:lvl>"@);
    assert(text::decimal(3) =~= seq!['3']);
    assert(levels[3].take(65) =~= level_start(3, formats[3]));
    assert(levels[3].skip(levels[3].len() - 8) =~= "</w:lvl>"@);
    assert(text::decimal(4) =~= seq!['4']);
    assert(levels[4].take(69) =~= level_start(4, formats[4]));
    assert(levels[4].skip(levels[4].len() - 8) =~= "</w:lvl>"@);
    reveal_strlit(r#"<w:num w:numId=""#);
    reveal_strlit(r#""><w:abstractNumId w:val=""#);
    reveal_strlit(r#""/></w:num>"#);
    let kind = seq!['2'];
    let entry = r#"<w:num w:numId=""#@ + kind + r#""><w:abstractNumId w:val=""#@ + kind
        + r#""/></w:num>"#@;
    assert(part.subrange(2185, 2240) =~= entry);
    assert(text::stands_at(part, entry, 2185));
    reveal_strlit(r#"<w:abstractNum w:abstractNumId=""#);
    reveal_strlit(r#""><w:multiLevelType w:val="hybridMultilevel"/>"#);
    reveal_strlit("</w:abstractNum>");
    let head = r#"<w:abstractNum w:abstractNumId=""#@ + kind
        + r#""><w:multiLevelType w:val="hybridMultilevel"/>"#@;
    assert(part.subrange(1160, 1239) =~= head);
    assert(part.subrange(2114, 2130) =~= "</w:abstractNum>"@);
    lemma_five(levels);
    assert(text::concat(levels) =~= part.subrange(1239, 2114));
    let whole = head + text::concat(levels) + "</w:abstractNum>"@;
    assert(part.subrange(1160, 2130) =~= part.subrange(1160, 1239) + part.subrange(
        1239,
        2114,
    ) + part.subrange(2114, 2130));
    assert(text::stands_at(part, whole, 1160));
    assert(is_of_kind(part, seq!['2'], kind) && has_levels(part, kind, levels));
    assert forall|k: int| 0 <= k < levels.len() implies text::starts(
        #[trigger] levels[k],
        level_start(k as nat, formats[k]),
    ) && text::ends(levels[k], "</w:lvl>"@) by {
        assert(k == 0 || k == 1 || k == 2 || k == 3 || k == 4);
    }
}

proof fn lemma_five(parts: Seq<Seq<char>>)
    requires
        parts.len() == 5,
    ensures
        text::concat(parts) == parts[0] + parts[1] + parts[2] + parts[3] + parts[4],
{
    reveal_with_fuel(text::concat, 6);
    assert(text::concat(parts) =~= parts[0] + parts[1] + parts[2] + parts[3] + parts[4]);
}

// ---------------------------------------------------------------------------
// A document says what its blocks say
// ---------------------------------------------------------------------------

/// Whether a paragraph of a style says some text, in one of its runs.
pub open spec fn says_in(paragraph: Seq<char>, style: Seq<char>, said: Seq<char>) -> bool {
    &&& text::starts(paragraph, r#"<w:p><w:pPr><w:pStyle w:val=""#@ + style + r#""/>"#@)
    &&& text::holds(
        paragraph,
        r#"<w:t xml:space="preserve">"#@ + escaped(said) + "</w:t></w:r>"@,
    )
}

/// What is shown of a span: its text, and where it points if that is not the same.
pub open spec fn shows_span(span: SpanModel) -> Seq<char> {
    if span.link is Some && span.link->0 != span.text {
        span.text + " ("@ + span.link->0 + ")"@
    } else {
        span.text
    }
}

/// Every paragraph says what each of its spans says, in the style of its block: a heading
/// of its level, a quotation, an item of a list, or ordinary text.
pub proof fn paragraphs_say_what_their_blocks_say(level: int, spans: Seq<SpanModel>, k: int)
    requires
        0 <= k < spans.len(),
    ensures
        1 <= level <= 6 ==> says_in(
            block_xml(BlockModel::Heading { level, spans }),
            "Heading"@ + seq![(0x30 + level) as char],
            shows_span(spans[k]),
        ),
        says_in(block_xml(BlockModel::Paragraph { spans }), "Normal"@, shows_span(spans[k])),
        says_in(block_xml(BlockModel::Quote { spans }), "Quote"@, shows_span(spans[k])),
        says_in(
            block_xml(BlockModel::Bullet { level, spans }),
            "ListParagraph"@,
            shows_span(spans[k]),
        ),
        says_in(
            block_xml(BlockModel::Numbered { level, spans }),
            "ListParagraph"@,
            shows_span(spans[k]),
        ),
{
    reveal(block_xml);
    lemma_paragraph_says("Normal"@, spans, None, k);
    lemma_paragraph_says("Quote"@, spans, None, k);
    lemma_paragraph_says("ListParagraph"@, spans, Some((1, level)), k);
    lemma_paragraph_says("ListParagraph"@, spans, Some((2, level)), k);
    if 1 <= level <= 6 {
        assert(text::decimal(level as nat) =~= seq![(0x30 + level) as char]);
        lemma_paragraph_says("Heading"@ + text::decimal(level as nat), spans, None, k);
    }
}

proof fn lemma_paragraph_says(
    style: Seq<char>,
    spans: Seq<SpanModel>,
    numbering: Option<(int, int)>,
    k: int,
)
    requires
        0 <= k < spans.len(),
    ensures
        says_in(paragraph_xml(style, spans, numbering), style, shows_span(spans[k])),
{
    let whole = paragraph_xml(style, spans, numbering);
    let front = r#"<w:p><w:pPr><w:pStyle w:val=""#@ + style + r#""/>"#@;
    let head = front + numbering_xml(numbering) + "</w:pPr>"@;
    assert(whole.take(front.len() as int) =~= front);
    let runs = runs_xml(spans);
    text::lemma_concat_holds(head, runs, k, "</w:p>"@);
    assert(whole =~= head + text::concat(runs) + "</w:p>"@);
    let run = run_xml(spans[k]);
    let start = "<w:r><w:rPr>"@ + run_properties(spans[k]) + "</w:rPr>"@;
    let said = r#"<w:t xml:space="preserve">"#@ + escaped(shown(spans[k])) + "</w:t></w:r>"@;
    assert(run =~= start + said + Seq::<char>::empty()) by {
        reveal_strlit(r#"</w:rPr><w:t xml:space="preserve">"#);
        reveal_strlit("</w:rPr>");
        reveal_strlit(r#"<w:t xml:space="preserve">"#);
        assert(r#"</w:rPr><w:t xml:space="preserve">"#@ =~= "</w:rPr>"@
            + r#"<w:t xml:space="preserve">"#@);
    }
    text::lemma_holds_between(start, said, Seq::empty());
    text::lemma_holds_within(whole, run, said);
}

/// How a run looks is how its span looks: each of the marks that the span has is there, and
/// there is nothing besides.
pub proof fn runs_look_as_their_spans(span: SpanModel)
    ensures
        text::starts(run_xml(span), "<w:r><w:rPr>"@ + run_properties(span) + "</w:rPr>"@),
        span.bold ==> text::holds(run_properties(span), "<w:b/>"@),
        span.italic ==> text::holds(run_properties(span), "<w:i/>"@),
        span.code ==> text::holds(run_properties(span), r#"w:ascii="Consolas""#@),
        span.link is Some ==> text::holds(run_properties(span), r#"<w:u w:val="single"/>"#@),
        run_properties(span).len() == (if span.bold {
            6int
        } else {
            0
        }) + (if span.italic {
            6int
        } else {
            0
        }) + (if span.code {
            83int
        } else {
            0
        }) + (if span.link is Some {
            46int
        } else {
            0
        }),
{
    let bold = text::given(span.bold, "<w:b/>"@);
    let italic = text::given(span.italic, "<w:i/>"@);
    let face = r#"<w:rFonts w:ascii="Consolas" w:hAnsi="Consolas" w:cs="Consolas"/><w:sz w:val="20"/>"#@;
    let code = text::given(span.code, face);
    let under = r#"<w:color w:val="0563C1"/><w:u w:val="single"/>"#@;
    let link = text::given(span.link is Some, under);
    let all = run_properties(span);
    assert(all =~= bold + italic + code + link);
    reveal_strlit("<w:b/>");
    reveal_strlit("<w:i/>");
    let none = Seq::<char>::empty();
    if span.bold {
        text::lemma_holds_between(none, bold, italic + code + link);
        assert(all =~= none + bold + (italic + code + link));
    }
    if span.italic {
        text::lemma_holds_between(bold, italic, code + link);
        assert(all =~= bold + italic + (code + link));
    }
    assert(face.len() == 83 && text::holds(face, r#"w:ascii="Consolas""#@)) by {
        reveal_strlit(
            r#"<w:rFonts w:ascii="Consolas" w:hAnsi="Consolas" w:cs="Consolas"/><w:sz w:val="20"/>"#,
        );
        reveal_strlit(r#"w:ascii="Consolas""#);
        assert(face.subrange(10, 28) =~= r#"w:ascii="Consolas""#@);
        assert(text::stands_at(face, r#"w:ascii="Consolas""#@, 10));
    }
    assert(under.len() == 46 && text::holds(under, r#"<w:u w:val="single"/>"#@)) by {
        reveal_strlit(r#"<w:color w:val="0563C1"/><w:u w:val="single"/>"#);
        reveal_strlit(r#"<w:u w:val="single"/>"#);
        assert(under.subrange(25, 46) =~= r#"<w:u w:val="single"/>"#@);
        assert(text::stands_at(under, r#"<w:u w:val="single"/>"#@, 25));
    }
    if span.code {
        text::lemma_holds_between(bold + italic, code, link);
        text::lemma_holds_within(all, code, r#"w:ascii="Consolas""#@);
    }
    if span.link is Some {
        text::lemma_holds_between(bold + italic + code, link, none);
        assert(all =~= bold + italic + code + link + none);
        text::lemma_holds_within(all, link, r#"<w:u w:val="single"/>"#@);
    }
    assert(text::starts(run_xml(span), "<w:r><w:rPr>"@ + all + "</w:rPr>"@)) by {
        reveal_strlit(r#"</w:rPr><w:t xml:space="preserve">"#);
        reveal_strlit("</w:rPr>");
        let front = "<w:r><w:rPr>"@ + all + "</w:rPr>"@;
        assert(run_xml(span).take(front.len() as int) =~= front);
    }
}

/// Every block is in the document, and two blocks stand in it in their order.
pub proof fn blocks_stand_in_their_order(
    title: Option<Seq<char>>,
    blocks: Seq<BlockModel>,
    i: int,
    j: int,
)
    requires
        0 <= i < j < blocks.len(),
    ensures
        exists|a: int, b: int| #[trigger]
            text::stands_at(document_xml(title, blocks), block_xml(blocks[i]), a)
                && #[trigger] text::stands_at(
                document_xml(title, blocks),
                block_xml(blocks[j]),
                b,
            ) && a + block_xml(blocks[i]).len() <= b,
{
    reveal(document_xml);
    let whole = document_xml(title, blocks);
    let parts = blocks_xml(blocks);
    let head = r#"<?xml version="1.0" encoding="UTF-8" standalone="yes"?><w:document xmlns:w=""#@
        + W@ + r#""><w:body>"#@ + title_xml(title);
    let tail = r#"<w:sectPr><w:pgSz w:w="11906" w:h="16838"/><w:pgMar w:top="1440" w:right="1440" w:bottom="1440" w:left="1440" w:header="708" w:footer="708" w:gutter="0"/></w:sectPr></w:body></w:document>"#@;
    assert(whole =~= head + text::concat(parts) + tail);
    lemma_concat_cut(parts, i);
    lemma_concat_cut(parts, j);
    let a = (head.len() + text::concat(parts.take(i)).len()) as int;
    let b = (head.len() + text::concat(parts.take(j)).len()) as int;
    assert(whole.subrange(a, a + parts[i].len()) =~= parts[i]);
    assert(whole.subrange(b, b + parts[j].len()) =~= parts[j]);
    lemma_concat_grows(parts, i + 1, j);
    text::lemma_concat_take(parts, i);
    assert(text::stands_at(whole, block_xml(blocks[i]), a));
    assert(text::stands_at(whole, block_xml(blocks[j]), b));
}

proof fn lemma_concat_cut(parts: Seq<Seq<char>>, i: int)
    requires
        0 <= i < parts.len(),
    ensures
        exists|behind: Seq<char>|
            text::concat(parts) == #[trigger] (text::concat(parts.take(i)) + parts[i] + behind),
    decreases parts.len(),
{
    if i == parts.len() - 1 {
        assert(parts.take(i) =~= parts.drop_last());
        assert(text::concat(parts) =~= text::concat(parts.take(i)) + parts[i] + Seq::empty());
    } else {
        let front = parts.drop_last();
        lemma_concat_cut(front, i);
        assert(front.take(i) =~= parts.take(i));
        let behind = choose|behind: Seq<char>|
            text::concat(front) == #[trigger] (text::concat(front.take(i)) + front[i] + behind);
        assert(text::concat(parts) =~= text::concat(parts.take(i)) + parts[i] + (behind
            + parts.last()));
    }
}

proof fn lemma_concat_grows(parts: Seq<Seq<char>>, i: int, j: int)
    requires
        0 <= i <= j <= parts.len(),
    ensures
        text::concat(parts.take(i)).len() <= text::concat(parts.take(j)).len(),
    decreases j - i,
{
    if i < j {
        text::lemma_concat_take(parts, j - 1);
        lemma_concat_grows(parts, i, j - 1);
    }
}

/// Every line of code is a paragraph of its own, in the style of code.
pub proof fn code_is_written_line_by_line(language: Option<Seq<char>>, source: Seq<char>, k: int)
    requires
        0 <= k < text::lines(source).len(),
    ensures
        exists|paragraph: Seq<char>| #[trigger]
            says_in(paragraph, "Code"@, text::lines(source)[k]) && text::holds(
                block_xml(BlockModel::Code { language, text: source }),
                paragraph,
            ),
{
    reveal(block_xml);
    let line = text::lines(source)[k];
    let spans = seq![SpanModel { code: true, ..plain_span(line) }];
    lemma_paragraph_says("Code"@, spans, None, 0);
    let parts = code_lines(text::lines(source));
    let none = Seq::<char>::empty();
    text::lemma_concat_holds(none, parts, k, none);
    assert(none + text::concat(parts) + none =~= text::concat(parts));
    assert(says_in(code_line(line), "Code"@, line));
}

/// Every cell of a table that holds plain words says them, in its row.
pub proof fn cells_say_what_they_hold(
    header: Seq<Seq<char>>,
    rows: Seq<Seq<Seq<char>>>,
    row: int,
    column: int,
)
    requires
        0 <= row < rows.len(),
        0 <= column < rows[row].len(),
        forall|k: int|
            0 <= k < rows[row][column].len() ==> !crate::office::markup::opens_markup(
                #[trigger] rows[row][column][k],
            ),
    ensures
        exists|line: Seq<char>, paragraph: Seq<char>|
            #![trigger text::starts(line, "<w:tr>"@), says_in(paragraph, "TableText"@, rows[row][column])]
            text::starts(line, "<w:tr>"@) && text::ends(line, "</w:tr>"@) && text::holds(
                block_xml(BlockModel::Table { header, rows }),
                line,
            ) && text::holds(line, paragraph) && says_in(
                paragraph,
                "TableText"@,
                rows[row][column],
            ),
{
    reveal(block_xml);
    let columns = columns_of(header, rows);
    lemma_widest(rows, row);
    let width = CONTENT_WIDTH as nat / columns;
    let said = rows[row][column];
    let line = row_xml(rows[row], columns, width, false);
    let whole = table_xml(header, rows);
    let lines = rows_xml(rows, columns, width);
    let head = TABLE_START@ + text::concat(Seq::new(columns, |column: int| grid_column(width)))
        + "</w:tblGrid>"@ + text::given(header.len() > 0, row_xml(header, columns, width, true));
    let tail = "</w:tbl>"@ + r#"<w:p><w:pPr><w:pStyle w:val="Normal"/></w:pPr></w:p>"#@;
    text::lemma_concat_holds(head, lines, row, tail);
    assert(whole =~= head + text::concat(lines) + tail);
    assert(lines[row] == line);
    let cells = cells_xml(rows[row], columns, width, false);
    let front = "<w:tr>"@ + text::given(false, "<w:trPr><w:tblHeader/></w:trPr>"@);
    text::lemma_concat_holds(front, cells, column, "</w:tr>"@);
    assert(line.take("<w:tr>"@.len() as int) =~= "<w:tr>"@);
    assert(line.skip(line.len() - "</w:tr>"@.len()) =~= "</w:tr>"@);
    crate::office::markup::a_line_without_markup_is_one_span(said);
    let spans = cell_spans(said, false);
    assert(spans =~= seq![plain_span(said)]);
    let paragraph = paragraph_xml("TableText"@, spans, None);
    lemma_paragraph_says("TableText"@, spans, None, 0);
    assert(shows_span(spans[0]) == said);
    assert(says_in(paragraph, "TableText"@, rows[row][column]));
    let cell = cell_xml(said, width, false);
    let start = r#"<w:tc><w:tcPr><w:tcW w:w=""#@ + text::decimal(width) + r#"" w:type="dxa"/>"#@
        + text::given(false, r#"<w:shd w:val="clear" w:color="auto" w:fill="F2F2F2"/>"#@)
        + "</w:tcPr>"@;
    text::lemma_holds_between(start, paragraph, "</w:tc>"@);
    assert(cell =~= start + paragraph + "</w:tc>"@);
    assert(cells[column] == cell);
    text::lemma_holds_within(line, cell, paragraph);
    assert(text::starts(line, "<w:tr>"@));
}

proof fn lemma_widest(rows: Seq<Seq<Seq<char>>>, row: int)
    requires
        0 <= row < rows.len(),
    ensures
        rows[row].len() <= widest(rows),
    decreases rows.len(),
{
    if row < rows.len() - 1 {
        lemma_widest(rows.drop_last(), row);
    }
}

} // verus!
