//! Writing a presentation.
//!
//! A presentation points at slides, every slide points at a layout, every
//! layout points at a master, and the master carries the theme. The master, the
//! layout and the theme are written once, and every slide hangs off the same
//! pair. Where a slide has no bullets the body placeholder is left out.
//!
//! Everything is measured in EMUs: 914,400 to the inch, 12,192,000 across a
//! 16:9 slide.

use crate::office::markup::{optional, spans, spans_model, spans_of, Span, SpanModel};
use crate::office::xml::{escape, escaped};
use crate::office::zip::{archive_bytes, text_part, Archive, Part};
use crate::text;
use vstd::prelude::*;

verus! {

/// English Metric Units per inch.
pub const EMU: u128 = 914_400;

/// A 16:9 slide, 13.333in by 7.5in.
pub const WIDTH: u128 = 12_192_000;

pub const HEIGHT: u128 = 6_858_000;

pub const A: &'static str = "http://schemas.openxmlformats.org/drawingml/2006/main";

pub const R: &'static str = "http://schemas.openxmlformats.org/officeDocument/2006/relationships";

pub const P: &'static str = "http://schemas.openxmlformats.org/presentationml/2006/main";

pub const OFFICE: &'static str = "http://schemas.openxmlformats.org/officeDocument/2006/relationships";

pub const PACKAGE: &'static str = "http://schemas.openxmlformats.org/package/2006/relationships";

pub const ROOT_RELATIONSHIPS: &'static str = r#"<?xml version="1.0" encoding="UTF-8" standalone="yes"?>
<Relationships xmlns="http://schemas.openxmlformats.org/package/2006/relationships"><Relationship Id="rId1" Type="http://schemas.openxmlformats.org/officeDocument/2006/relationships/officeDocument" Target="ppt/presentation.xml"/></Relationships>"#;

pub const MASTER_RELATIONSHIPS: &'static str = r#"<?xml version="1.0" encoding="UTF-8" standalone="yes"?>
<Relationships xmlns="http://schemas.openxmlformats.org/package/2006/relationships"><Relationship Id="rId1" Type="http://schemas.openxmlformats.org/officeDocument/2006/relationships/slideLayout" Target="../slideLayouts/slideLayout1.xml"/><Relationship Id="rId2" Type="http://schemas.openxmlformats.org/officeDocument/2006/relationships/theme" Target="../theme/theme1.xml"/></Relationships>"#;

pub const LAYOUT_RELATIONSHIPS: &'static str = r#"<?xml version="1.0" encoding="UTF-8" standalone="yes"?>
<Relationships xmlns="http://schemas.openxmlformats.org/package/2006/relationships"><Relationship Id="rId1" Type="http://schemas.openxmlformats.org/officeDocument/2006/relationships/slideMaster" Target="../slideMasters/slideMaster1.xml"/></Relationships>"#;

/// The master: the colour map, the two placeholders and the text styles every
/// slide inherits. Sizes are hundredths of a point.
pub const MASTER: &'static str = r#"<?xml version="1.0" encoding="UTF-8" standalone="yes"?>
<p:sldMaster xmlns:a="http://schemas.openxmlformats.org/drawingml/2006/main" xmlns:r="http://schemas.openxmlformats.org/officeDocument/2006/relationships" xmlns:p="http://schemas.openxmlformats.org/presentationml/2006/main"><p:cSld><p:bg><p:bgPr><a:solidFill><a:srgbClr val="FFFFFF"/></a:solidFill><a:effectLst/></p:bgPr></p:bg><p:spTree><p:nvGrpSpPr><p:cNvPr id="1" name=""/><p:cNvGrpSpPr/><p:nvPr/></p:nvGrpSpPr><p:grpSpPr><a:xfrm><a:off x="0" y="0"/><a:ext cx="0" cy="0"/><a:chOff x="0" y="0"/><a:chExt cx="0" cy="0"/></a:xfrm></p:grpSpPr><p:sp><p:nvSpPr><p:cNvPr id="2" name="Title Placeholder 1"/><p:cNvSpPr><a:spLocks noGrp="1"/></p:cNvSpPr><p:nvPr><p:ph type="title"/></p:nvPr></p:nvSpPr><p:spPr><a:xfrm><a:off x="457200" y="457200"/><a:ext cx="11277600" cy="1143000"/></a:xfrm></p:spPr><p:txBody><a:bodyPr anchor="b"/><a:lstStyle/><a:p><a:r><a:rPr lang="en-GB"/><a:t>Title</a:t></a:r></a:p></p:txBody></p:sp><p:sp><p:nvSpPr><p:cNvPr id="3" name="Text Placeholder 2"/><p:cNvSpPr><a:spLocks noGrp="1"/></p:cNvSpPr><p:nvPr><p:ph type="body" idx="1"/></p:nvPr></p:nvSpPr><p:spPr><a:xfrm><a:off x="457200" y="1828800"/><a:ext cx="11277600" cy="4572000"/></a:xfrm></p:spPr><p:txBody><a:bodyPr/><a:lstStyle/><a:p><a:r><a:rPr lang="en-GB"/><a:t>Body</a:t></a:r></a:p></p:txBody></p:sp></p:spTree></p:cSld><p:clrMap bg1="lt1" tx1="dk1" bg2="lt2" tx2="dk2" accent1="accent1" accent2="accent2" accent3="accent3" accent4="accent4" accent5="accent5" accent6="accent6" hlink="hlink" folHlink="folHlink"/><p:sldLayoutIdLst><p:sldLayoutId id="2147483649" r:id="rId1"/></p:sldLayoutIdLst><p:txStyles><p:titleStyle><a:lvl1pPr algn="l"><a:defRPr sz="4000" b="1"><a:solidFill><a:srgbClr val="1F3864"/></a:solidFill><a:latin typeface="+mj-lt"/></a:defRPr></a:lvl1pPr></p:titleStyle><p:bodyStyle><a:lvl1pPr marL="285750" indent="-285750"><a:buFont typeface="Arial"/><a:buChar char="•"/><a:defRPr sz="2000"><a:solidFill><a:srgbClr val="262626"/></a:solidFill><a:latin typeface="+mn-lt"/></a:defRPr></a:lvl1pPr><a:lvl2pPr marL="742950" indent="-285750"><a:buFont typeface="Arial"/><a:buChar char="◦"/><a:defRPr sz="1800"><a:solidFill><a:srgbClr val="404040"/></a:solidFill></a:defRPr></a:lvl2pPr><a:lvl3pPr marL="1200150" indent="-285750"><a:buFont typeface="Arial"/><a:buChar char="▪"/><a:defRPr sz="1600"><a:solidFill><a:srgbClr val="404040"/></a:solidFill></a:defRPr></a:lvl3pPr><a:lvl4pPr marL="1657350" indent="-285750"><a:buFont typeface="Arial"/><a:buChar char="•"/><a:defRPr sz="1400"><a:solidFill><a:srgbClr val="595959"/></a:solidFill></a:defRPr></a:lvl4pPr><a:lvl5pPr marL="2114550" indent="-285750"><a:buFont typeface="Arial"/><a:buChar char="◦"/><a:defRPr sz="1400"><a:solidFill><a:srgbClr val="595959"/></a:solidFill></a:defRPr></a:lvl5pPr></p:bodyStyle><p:otherStyle><a:lvl1pPr><a:defRPr sz="1800"/></a:lvl1pPr></p:otherStyle></p:txStyles></p:sldMaster>"#;

/// The one layout: title and content.
pub const LAYOUT: &'static str = r#"<?xml version="1.0" encoding="UTF-8" standalone="yes"?>
<p:sldLayout xmlns:a="http://schemas.openxmlformats.org/drawingml/2006/main" xmlns:r="http://schemas.openxmlformats.org/officeDocument/2006/relationships" xmlns:p="http://schemas.openxmlformats.org/presentationml/2006/main" type="obj" preserve="1"><p:cSld name="Title and Content"><p:spTree><p:nvGrpSpPr><p:cNvPr id="1" name=""/><p:cNvGrpSpPr/><p:nvPr/></p:nvGrpSpPr><p:grpSpPr><a:xfrm><a:off x="0" y="0"/><a:ext cx="0" cy="0"/><a:chOff x="0" y="0"/><a:chExt cx="0" cy="0"/></a:xfrm></p:grpSpPr><p:sp><p:nvSpPr><p:cNvPr id="2" name="Title 1"/><p:cNvSpPr><a:spLocks noGrp="1"/></p:cNvSpPr><p:nvPr><p:ph type="title"/></p:nvPr></p:nvSpPr><p:spPr/><p:txBody><a:bodyPr/><a:lstStyle/><a:p><a:endParaRPr lang="en-GB"/></a:p></p:txBody></p:sp><p:sp><p:nvSpPr><p:cNvPr id="3" name="Content Placeholder 2"/><p:cNvSpPr><a:spLocks noGrp="1"/></p:cNvSpPr><p:nvPr><p:ph idx="1"/></p:nvPr></p:nvSpPr><p:spPr/><p:txBody><a:bodyPr/><a:lstStyle/><a:p><a:endParaRPr lang="en-GB"/></a:p></p:txBody></p:sp></p:spTree></p:cSld><p:clrMapOvr><a:masterClrMapping/></p:clrMapOvr></p:sldLayout>"#;

/// The theme, without which a deck will not open.
pub const THEME: &'static str = r#"<?xml version="1.0" encoding="UTF-8" standalone="yes"?>
<a:theme xmlns:a="http://schemas.openxmlformats.org/drawingml/2006/main" name="Familiar"><a:themeElements><a:clrScheme name="Familiar"><a:dk1><a:sysClr val="windowText" lastClr="000000"/></a:dk1><a:lt1><a:sysClr val="window" lastClr="FFFFFF"/></a:lt1><a:dk2><a:srgbClr val="1F3864"/></a:dk2><a:lt2><a:srgbClr val="F2F2F2"/></a:lt2><a:accent1><a:srgbClr val="2E5496"/></a:accent1><a:accent2><a:srgbClr val="C55A11"/></a:accent2><a:accent3><a:srgbClr val="548235"/></a:accent3><a:accent4><a:srgbClr val="7030A0"/></a:accent4><a:accent5><a:srgbClr val="BF8F00"/></a:accent5><a:accent6><a:srgbClr val="C00000"/></a:accent6><a:hlink><a:srgbClr val="0563C1"/></a:hlink><a:folHlink><a:srgbClr val="954F72"/></a:folHlink></a:clrScheme><a:fontScheme name="Familiar"><a:majorFont><a:latin typeface="Calibri Light"/><a:ea typeface=""/><a:cs typeface=""/></a:majorFont><a:minorFont><a:latin typeface="Calibri"/><a:ea typeface=""/><a:cs typeface=""/></a:minorFont></a:fontScheme><a:fmtScheme name="Familiar"><a:fillStyleLst><a:solidFill><a:schemeClr val="phClr"/></a:solidFill><a:solidFill><a:schemeClr val="phClr"/></a:solidFill><a:solidFill><a:schemeClr val="phClr"/></a:solidFill></a:fillStyleLst><a:lnStyleLst><a:ln w="6350"><a:solidFill><a:schemeClr val="phClr"/></a:solidFill></a:ln><a:ln w="12700"><a:solidFill><a:schemeClr val="phClr"/></a:solidFill></a:ln><a:ln w="19050"><a:solidFill><a:schemeClr val="phClr"/></a:solidFill></a:ln></a:lnStyleLst><a:effectStyleLst><a:effectStyle><a:effectLst/></a:effectStyle><a:effectStyle><a:effectLst/></a:effectStyle><a:effectStyle><a:effectLst/></a:effectStyle></a:effectStyleLst><a:bgFillStyleLst><a:solidFill><a:schemeClr val="phClr"/></a:solidFill><a:solidFill><a:schemeClr val="phClr"/></a:solidFill><a:solidFill><a:schemeClr val="phClr"/></a:solidFill></a:bgFillStyleLst></a:fmtScheme></a:themeElements><a:objectDefaults/><a:extraClrSchemeLst/></a:theme>"#;

/// One slide.
#[derive(Debug, Clone, PartialEq, Eq)]
pub struct Slide {
    pub title: String,
    /// Bullets, with `level` as the nesting depth from 0.
    pub bullets: Vec<Bullet>,
    /// The speaker notes, which is where the detail belongs.
    pub notes: Option<String>,
}

#[derive(Debug, Clone, PartialEq, Eq)]
pub struct Bullet {
    pub level: u8,
    pub text: String,
}

/// What a bullet says.
#[verifier::ext_equal]
pub struct BulletModel {
    pub level: int,
    pub text: Seq<char>,
}

/// What a slide says.
#[verifier::ext_equal]
pub struct SlideModel {
    pub title: Seq<char>,
    pub bullets: Seq<BulletModel>,
    pub notes: Option<Seq<char>>,
}

impl View for Bullet {
    type V = BulletModel;

    open spec fn view(&self) -> BulletModel {
        BulletModel { level: self.level as int, text: self.text@ }
    }
}

/// What each bullet says.
pub open spec fn bullets_model(bullets: Seq<Bullet>) -> Seq<BulletModel> {
    Seq::new(bullets.len(), |i: int| bullets[i]@)
}

impl View for Slide {
    type V = SlideModel;

    open spec fn view(&self) -> SlideModel {
        SlideModel {
            title: self.title@,
            bullets: bullets_model(self.bullets@),
            notes: optional(self.notes),
        }
    }
}

/// What each slide says.
pub open spec fn slides_model(slides: Seq<Slide>) -> Seq<SlideModel> {
    Seq::new(slides.len(), |i: int| slides[i]@)
}

/// A slide with a title and nothing else.
pub open spec fn titled_model(title: Seq<char>) -> SlideModel {
    SlideModel { title, bullets: Seq::empty(), notes: None }
}

/// How deep a bullet can go: five levels.
pub open spec fn bullet_level(level: int) -> int {
    if level < 4 {
        level
    } else {
        4
    }
}

impl Default for Bullet {
    fn default() -> (r: Self)
        ensures
            r@ == (BulletModel { level: 0, text: Seq::empty() }),
    {
        Bullet { level: 0, text: String::new() }
    }
}

impl Default for Slide {
    fn default() -> (r: Self)
        ensures
            r@ == titled_model(Seq::empty()),
    {
        let r = Slide { title: String::new(), bullets: Vec::new(), notes: None };
        assert(r@ =~= titled_model(Seq::empty()));
        r
    }
}

impl Bullet {
    pub fn new(level: u8, text: &str) -> (r: Self)
        ensures
            r@ == (BulletModel { level: bullet_level(level as int), text: text@ }),
    {
        let level: u8 = if level < 4 {
            level
        } else {
            4
        };
        Bullet { level, text: text.to_owned() }
    }
}

impl Slide {
    pub fn titled(title: &str) -> (r: Self)
        ensures
            r@ == titled_model(title@),
    {
        let r = Slide { title: title.to_owned(), bullets: Vec::new(), notes: None };
        assert(r@ =~= titled_model(title@));
        r
    }
}

// ---------------------------------------------------------------------------
// What a presentation is made of
// ---------------------------------------------------------------------------

/// A span as a run.
pub open spec fn run_xml(span: SpanModel) -> Seq<char> {
    r#"<a:r><a:rPr lang="en-GB" dirty="0""#@ + text::given(span.bold, r#" b="1""#@) + text::given(
        span.italic,
        r#" i="1""#@,
    ) + ">"@ + text::given(span.code, r#"<a:latin typeface="Consolas"/>"#@) + "</a:rPr><a:t>"@
        + escaped(span.text) + "</a:t></a:r>"@
}

/// Each span as a run; an empty one is left out.
pub open spec fn runs_xml(spans: Seq<SpanModel>) -> Seq<Seq<char>> {
    spans.map_values(|span: SpanModel| text::given(span.text.len() > 0, run_xml(span)))
}

/// The properties of a paragraph: its level, or that it has no bullet.
pub open spec fn paragraph_properties(level: int, bulleted: bool) -> Seq<char> {
    if bulleted {
        r#"<a:pPr lvl=""#@ + text::decimal(bullet_level(level) as nat) + r#""/>"#@
    } else {
        "<a:pPr><a:buNone/></a:pPr>"@
    }
}

/// One paragraph of runs, at a bullet level.
pub open spec fn paragraph_xml(spans: Seq<SpanModel>, level: int, bulleted: bool) -> Seq<char> {
    "<a:p>"@ + paragraph_properties(level, bulleted) + text::concat(runs_xml(spans))
        + "<a:endParaRPr/></a:p>"@
}

/// Each bullet as a paragraph.
pub open spec fn bullets_xml(bullets: Seq<BulletModel>) -> Seq<Seq<char>> {
    bullets.map_values(
        |bullet: BulletModel| paragraph_xml(spans_of(bullet.text), bullet.level, true),
    )
}

/// Where a text box stands, and how large it is.
pub struct Frame {
    pub x: u128,
    pub y: u128,
    pub width: u128,
    pub height: u128,
}

/// One text box: its placeholder role, where it sits, and its paragraphs.
pub open spec fn shape_xml(
    id: nat,
    name: Seq<char>,
    placeholder: Seq<char>,
    frame: Frame,
    paragraphs: Seq<char>,
) -> Seq<char> {
    r#"<p:sp><p:nvSpPr><p:cNvPr id=""#@ + text::decimal(id) + r#"" name=""#@ + escaped(name)
        + r#""/><p:cNvSpPr><a:spLocks noGrp="1"/></p:cNvSpPr><p:nvPr>"#@ + placeholder
        + r#"</p:nvPr></p:nvSpPr><p:spPr><a:xfrm><a:off x=""#@ + text::decimal(frame.x as nat)
        + r#"" y=""#@ + text::decimal(frame.y as nat) + r#""/><a:ext cx=""#@ + text::decimal(
        frame.width as nat,
    ) + r#"" cy=""#@ + text::decimal(frame.height as nat)
        + r#""/></a:xfrm></p:spPr><p:txBody><a:bodyPr><a:normAutofit/></a:bodyPr><a:lstStyle/>"#@
        + paragraphs + "</p:txBody></p:sp>"@
}

/// Where the title stands.
pub open spec fn title_frame() -> Frame {
    Frame {
        x: (EMU / 2) as u128,
        y: (EMU / 2) as u128,
        width: (WIDTH - EMU) as u128,
        height: (EMU * 5 / 4) as u128,
    }
}

/// Where the bullets stand.
pub open spec fn body_frame() -> Frame {
    Frame {
        x: (EMU / 2) as u128,
        y: (EMU * 2) as u128,
        width: (WIDTH - EMU) as u128,
        height: (HEIGHT - EMU * 5 / 2) as u128,
    }
}

/// The text boxes of a slide: the title always, the body where it has bullets.
#[verifier::opaque]
pub open spec fn shapes_xml(slide: SlideModel) -> Seq<char> {
    shape_xml(
        2,
        "Title 1"@,
        r#"<p:ph type="title"/>"#@,
        title_frame(),
        paragraph_xml(spans_of(slide.title), 0, false),
    ) + text::given(
        slide.bullets.len() > 0,
        shape_xml(
            3,
            "Content Placeholder 2"@,
            r#"<p:ph idx="1"/>"#@,
            body_frame(),
            text::concat(bullets_xml(slide.bullets)),
        ),
    )
}

/// A slide.
#[verifier::opaque]
pub open spec fn slide_part(slide: SlideModel) -> Seq<char> {
    r#"<?xml version="1.0" encoding="UTF-8" standalone="yes"?><p:sld xmlns:a=""#@ + A@
        + r#"" xmlns:r=""#@ + R@ + r#"" xmlns:p=""#@ + P@
        + r#""><p:cSld><p:spTree><p:nvGrpSpPr><p:cNvPr id="1" name=""/><p:cNvGrpSpPr/><p:nvPr/></p:nvGrpSpPr><p:grpSpPr><a:xfrm><a:off x="0" y="0"/><a:ext cx="0" cy="0"/><a:chOff x="0" y="0"/><a:chExt cx="0" cy="0"/></a:xfrm></p:grpSpPr>"#@
        + shapes_xml(slide)
        + r#"</p:spTree></p:cSld><p:clrMapOvr><a:masterClrMapping/></p:clrMapOvr></p:sld>"#@
}

/// Each line of some notes as a paragraph.
pub open spec fn note_lines(lines: Seq<Seq<char>>) -> Seq<Seq<char>> {
    lines.map_values(|line: Seq<char>| paragraph_xml(spans_of(line), 0, false))
}

/// Speaker notes.
#[verifier::opaque]
pub open spec fn notes_part(notes: Seq<char>) -> Seq<char> {
    r#"<?xml version="1.0" encoding="UTF-8" standalone="yes"?><p:notes xmlns:a=""#@ + A@
        + r#"" xmlns:r=""#@ + R@ + r#"" xmlns:p=""#@ + P@
        + r#""><p:cSld><p:spTree><p:nvGrpSpPr><p:cNvPr id="1" name=""/><p:cNvGrpSpPr/><p:nvPr/></p:nvGrpSpPr><p:grpSpPr/><p:sp><p:nvSpPr><p:cNvPr id="2" name="Notes Placeholder 1"/><p:cNvSpPr><a:spLocks noGrp="1"/></p:cNvSpPr><p:nvPr><p:ph type="body" idx="1"/></p:nvPr></p:nvSpPr><p:spPr/><p:txBody><a:bodyPr/><a:lstStyle/>"#@
        + text::concat(note_lines(text::lines(notes)))
        + r#"</p:txBody></p:sp></p:spTree></p:cSld><p:clrMapOvr><a:masterClrMapping/></p:clrMapOvr></p:notes>"#@
}

/// A slide's entry in the presentation. Slide ids must be at least 256.
pub open spec fn slide_id(index: int) -> Seq<char> {
    r#"<p:sldId id=""#@ + text::decimal((256 + index) as nat) + r#"" r:id="rId"#@ + text::decimal(
        (index + 2) as nat,
    ) + r#""/>"#@
}

/// The presentation.
#[verifier::opaque]
pub open spec fn presentation_part(count: nat) -> Seq<char> {
    r#"<?xml version="1.0" encoding="UTF-8" standalone="yes"?><p:presentation xmlns:a=""#@ + A@
        + r#"" xmlns:r=""#@ + R@ + r#"" xmlns:p=""#@ + P@
        + r#""><p:sldMasterIdLst><p:sldMasterId id="2147483648" r:id="rId1"/></p:sldMasterIdLst><p:sldIdLst>"#@
        + text::concat(Seq::new(count, |index: int| slide_id(index)))
        + r#"</p:sldIdLst><p:sldSz cx=""#@ + text::decimal(WIDTH as nat) + r#"" cy=""#@
        + text::decimal(HEIGHT as nat) + r#""/><p:notesSz cx=""#@ + text::decimal(HEIGHT as nat)
        + r#"" cy=""#@ + text::decimal(WIDTH as nat) + r#""/></p:presentation>"#@
}

/// Relationships, wrapped.
pub open spec fn relationships(entries: Seq<char>) -> Seq<char> {
    "<?xml version=\"1.0\" encoding=\"UTF-8\" standalone=\"yes\"?>\n<Relationships xmlns=\""@
        + PACKAGE@ + r#"">"#@ + entries + "</Relationships>"@
}

/// What points from the presentation at a slide.
pub open spec fn slide_link(index: int) -> Seq<char> {
    r#"<Relationship Id="rId"#@ + text::decimal((index + 2) as nat) + r#"" Type=""#@ + OFFICE@
        + r#"/slide" Target="slides/slide"#@ + text::decimal((index + 1) as nat) + r#".xml"/>"#@
}

/// What the presentation points at: the master and every slide.
#[verifier::opaque]
pub open spec fn presentation_links(count: nat) -> Seq<char> {
    relationships(
        r#"<Relationship Id="rId1" Type=""#@ + OFFICE@
            + r#"/slideMaster" Target="slideMasters/slideMaster1.xml"/>"#@ + text::concat(
            Seq::new(count, |index: int| slide_link(index)),
        ),
    )
}

/// What points from a slide at its notes.
pub open spec fn notes_link(number: nat) -> Seq<char> {
    r#"<Relationship Id="rId2" Type=""#@ + OFFICE@
        + r#"/notesSlide" Target="../notesSlides/notesSlide"#@ + text::decimal(number)
        + r#".xml"/>"#@
}

/// What a slide points at: the layout, and its notes where it has some.
#[verifier::opaque]
pub open spec fn slide_links(number: nat, has_notes: bool) -> Seq<char> {
    relationships(
        r#"<Relationship Id="rId1" Type=""#@ + OFFICE@
            + r#"/slideLayout" Target="../slideLayouts/slideLayout1.xml"/>"#@ + text::given(
            has_notes,
            notes_link(number),
        ),
    )
}

/// What notes point at: their slide.
#[verifier::opaque]
pub open spec fn notes_links(number: nat) -> Seq<char> {
    relationships(
        r#"<Relationship Id="rId1" Type=""#@ + OFFICE@ + r#"/slide" Target="../slides/slide"#@
            + text::decimal(number) + r#".xml"/>"#@,
    )
}

/// What a slide adds to the content types.
pub open spec fn slide_types(number: nat, has_notes: bool) -> Seq<char> {
    r#"<Override PartName="/ppt/slides/slide"#@ + text::decimal(number)
        + r#".xml" ContentType="application/vnd.openxmlformats-officedocument.presentationml.slide+xml"/>"#@
        + text::given(
        has_notes,
        r#"<Override PartName="/ppt/notesSlides/notesSlide"#@ + text::decimal(number)
            + r#".xml" ContentType="application/vnd.openxmlformats-officedocument.presentationml.notesSlide+xml"/>"#@,
    )
}

/// What each slide adds to the content types.
pub open spec fn all_slide_types(slides: Seq<SlideModel>) -> Seq<Seq<char>> {
    Seq::new(slides.len(), |i: int| slide_types((i + 1) as nat, slides[i].notes is Some))
}

/// The content types.
#[verifier::opaque]
pub open spec fn types_part(slides: Seq<SlideModel>) -> Seq<char> {
    "<?xml version=\"1.0\" encoding=\"UTF-8\" standalone=\"yes\"?>\n<Types xmlns=\"http://schemas.openxmlformats.org/package/2006/content-types\"><Default Extension=\"rels\" ContentType=\"application/vnd.openxmlformats-package.relationships+xml\"/><Default Extension=\"xml\" ContentType=\"application/xml\"/>"@
        + r#"<Override PartName="/ppt/presentation.xml" ContentType="application/vnd.openxmlformats-officedocument.presentationml.presentation.main+xml"/><Override PartName="/ppt/slideMasters/slideMaster1.xml" ContentType="application/vnd.openxmlformats-officedocument.presentationml.slideMaster+xml"/><Override PartName="/ppt/slideLayouts/slideLayout1.xml" ContentType="application/vnd.openxmlformats-officedocument.presentationml.slideLayout+xml"/><Override PartName="/ppt/theme/theme1.xml" ContentType="application/vnd.openxmlformats-officedocument.theme+xml"/>"#@
        + text::concat(all_slide_types(slides)) + "</Types>"@
}

/// A part name with a number in it.
pub open spec fn numbered(before: Seq<char>, number: nat, behind: Seq<char>) -> Seq<char> {
    before + text::decimal(number) + behind
}

/// The parts of the slide with the given number: itself and what it points at,
/// and the same of its notes where it has some.
pub open spec fn parts_of_slide(slide: SlideModel, number: nat) -> Seq<Part> {
    let own = seq![
        text_part(numbered("ppt/slides/slide"@, number, ".xml"@), slide_part(slide)),
        text_part(
            numbered("ppt/slides/_rels/slide"@, number, ".xml.rels"@),
            slide_links(number, slide.notes is Some),
        ),
    ];
    match slide.notes {
        Some(notes) => own.push(
            text_part(numbered("ppt/notesSlides/notesSlide"@, number, ".xml"@), notes_part(notes)),
        ).push(
            text_part(
                numbered("ppt/notesSlides/_rels/notesSlide"@, number, ".xml.rels"@),
                notes_links(number),
            ),
        ),
        None => own,
    }
}

/// The parts of the first slides.
pub open spec fn parts_of_slides(slides: Seq<SlideModel>) -> Seq<Part>
    decreases slides.len(),
{
    if slides.len() == 0 {
        Seq::empty()
    } else {
        parts_of_slides(slides.drop_last()) + parts_of_slide(slides.last(), slides.len())
    }
}

/// The parts that stand before the slides.
pub open spec fn frame_parts(slides: Seq<SlideModel>) -> Seq<Part> {
    seq![
        text_part("[Content_Types].xml"@, types_part(slides)),
        text_part("_rels/.rels"@, ROOT_RELATIONSHIPS@),
        text_part("ppt/_rels/presentation.xml.rels"@, presentation_links(slides.len())),
        text_part("ppt/presentation.xml"@, presentation_part(slides.len())),
        text_part("ppt/slideMasters/slideMaster1.xml"@, MASTER@),
        text_part("ppt/slideMasters/_rels/slideMaster1.xml.rels"@, MASTER_RELATIONSHIPS@),
        text_part("ppt/slideLayouts/slideLayout1.xml"@, LAYOUT@),
        text_part("ppt/slideLayouts/_rels/slideLayout1.xml.rels"@, LAYOUT_RELATIONSHIPS@),
        text_part("ppt/theme/theme1.xml"@, THEME@),
    ]
}

/// The slides that are written: one empty one where there are none, so that the
/// deck opens as a blank presentation.
pub open spec fn written(slides: Seq<SlideModel>) -> Seq<SlideModel> {
    if slides.len() == 0 {
        seq![titled_model(Seq::empty())]
    } else {
        slides
    }
}

/// The parts of a presentation.
pub open spec fn presentation_parts(slides: Seq<SlideModel>) -> Seq<Part> {
    frame_parts(written(slides)) + parts_of_slides(written(slides))
}

// ---------------------------------------------------------------------------
// Writing it
// ---------------------------------------------------------------------------

/// Builds a `.pptx`.
pub fn write(slides: &[Slide]) -> (r: Vec<u8>)
    ensures
        r@ == archive_bytes(presentation_parts(slides_model(slides@))),
{
    if slides.len() == 0 {
        let mut fallback: Vec<Slide> = Vec::new();
        fallback.push(Slide::default());
        assert(slides_model(fallback@) =~= written(slides_model(slides@)));
        write_slides(fallback.as_slice())
    } else {
        write_slides(slides)
    }
}

fn write_slides(slides: &[Slide]) -> (r: Vec<u8>)
    ensures
        r@ == archive_bytes(
            frame_parts(slides_model(slides@)) + parts_of_slides(slides_model(slides@)),
        ),
{
    let ghost all = slides_model(slides@);
    let mut archive = Archive::new();
    let types = content_types(slides);
    archive.add_text("[Content_Types].xml", types.as_str());
    archive.add_text("_rels/.rels", ROOT_RELATIONSHIPS);
    let links = presentation_relationships(slides.len());
    archive.add_text("ppt/_rels/presentation.xml.rels", links.as_str());
    let body = presentation(slides.len());
    archive.add_text("ppt/presentation.xml", body.as_str());
    archive.add_text("ppt/slideMasters/slideMaster1.xml", MASTER);
    archive.add_text("ppt/slideMasters/_rels/slideMaster1.xml.rels", MASTER_RELATIONSHIPS);
    archive.add_text("ppt/slideLayouts/slideLayout1.xml", LAYOUT);
    archive.add_text("ppt/slideLayouts/_rels/slideLayout1.xml.rels", LAYOUT_RELATIONSHIPS);
    archive.add_text("ppt/theme/theme1.xml", THEME);
    assert(archive@ =~= frame_parts(all));
    assert(archive@ =~= frame_parts(all) + parts_of_slides(all.take(0)));
    let mut i: usize = 0;
    while i < slides.len()
        invariant
            0 <= i <= slides.len(),
            all == slides_model(slides@),
            archive.wf(),
            archive@ == frame_parts(all) + parts_of_slides(all.take(i as int)),
        decreases slides.len() - i,
    {
        let ghost before = parts_of_slides(all.take(i as int));
        add_slide(&mut archive, &slides[i], i as u128 + 1);
        proof {
            assert(all.take(i + 1).drop_last() =~= all.take(i as int));
            assert(frame_parts(all) + before + parts_of_slide(all[i as int], (i + 1) as nat)
                =~= frame_parts(all) + (before + parts_of_slide(all[i as int], (i + 1) as nat)));
        }
        i = i + 1;
    }
    assert(all.take(all.len() as int) =~= all);
    archive.finish()
}

fn part_name(before: &str, number: u128, behind: &str) -> (r: String)
    ensures
        r@ == numbered(before@, number as nat, behind@),
{
    let mut r = before.to_owned();
    text::push_decimal(&mut r, number);
    r.append(behind);
    r
}

fn add_slide(archive: &mut Archive, slide: &Slide, number: u128)
    requires
        old(archive).wf(),
    ensures
        final(archive).wf(),
        final(archive)@ == old(archive)@ + parts_of_slide(slide@, number as nat),
{
    let name = part_name("ppt/slides/slide", number, ".xml");
    let body = slide_xml(slide);
    archive.add_text(name.as_str(), body.as_str());
    let name = part_name("ppt/slides/_rels/slide", number, ".xml.rels");
    let links = slide_relationships(number, slide.notes.is_some());
    archive.add_text(name.as_str(), links.as_str());
    if let Some(notes) = &slide.notes {
        let name = part_name("ppt/notesSlides/notesSlide", number, ".xml");
        let body = notes_xml(notes.as_str());
        archive.add_text(name.as_str(), body.as_str());
        let name = part_name("ppt/notesSlides/_rels/notesSlide", number, ".xml.rels");
        let links = notes_relationships(number);
        archive.add_text(name.as_str(), links.as_str());
    }
    assert(archive@ =~= old(archive)@ + parts_of_slide(slide@, number as nat));
}

fn slide_xml(slide: &Slide) -> (r: String)
    ensures
        r@ == slide_part(slide@),
{
    proof {
        reveal(slide_part);
    }
    let mut r =
        r#"<?xml version="1.0" encoding="UTF-8" standalone="yes"?><p:sld xmlns:a=""#.to_owned();
    r.append(A);
    r.append(r#"" xmlns:r=""#);
    r.append(R);
    r.append(r#"" xmlns:p=""#);
    r.append(P);
    r.append(
        r#""><p:cSld><p:spTree><p:nvGrpSpPr><p:cNvPr id="1" name=""/><p:cNvGrpSpPr/><p:nvPr/></p:nvGrpSpPr><p:grpSpPr><a:xfrm><a:off x="0" y="0"/><a:ext cx="0" cy="0"/><a:chOff x="0" y="0"/><a:chExt cx="0" cy="0"/></a:xfrm></p:grpSpPr>"#,
    );
    let inner = shapes(slide);
    r.append(inner.as_str());
    r.append(
        r#"</p:spTree></p:cSld><p:clrMapOvr><a:masterClrMapping/></p:clrMapOvr></p:sld>"#,
    );
    r
}

fn shapes(slide: &Slide) -> (r: String)
    ensures
        r@ == shapes_xml(slide@),
{
    proof {
        reveal(shapes_xml);
    }
    let heading = spans(slide.title.as_str());
    let title = paragraph(&heading, 0, false);
    let frame = Frame { x: EMU / 2, y: EMU / 2, width: WIDTH - EMU, height: EMU * 5 / 4 };
    let mut r = text_shape(2, "Title 1", r#"<p:ph type="title"/>"#, &frame, title.as_str());
    if !slide.bullets.is_empty() {
        let body = bullet_paragraphs(&slide.bullets);
        let frame = Frame {
            x: EMU / 2,
            y: EMU * 2,
            width: WIDTH - EMU,
            height: HEIGHT - EMU * 5 / 2,
        };
        let content = text_shape(
            3,
            "Content Placeholder 2",
            r#"<p:ph idx="1"/>"#,
            &frame,
            body.as_str(),
        );
        r.append(content.as_str());
    } else {
        assert(r@ =~= shapes_xml(slide@));
    }
    r
}

fn bullet_paragraphs(bullets: &Vec<Bullet>) -> (r: String)
    ensures
        r@ == text::concat(bullets_xml(bullets_model(bullets@))),
{
    let ghost all = bullets_xml(bullets_model(bullets@));
    let mut r = String::new();
    let mut i: usize = 0;
    while i < bullets.len()
        invariant
            0 <= i <= bullets.len(),
            all == bullets_xml(bullets_model(bullets@)),
            r@ == text::concat(all.take(i as int)),
        decreases bullets.len() - i,
    {
        let words = spans(bullets[i].text.as_str());
        let one = paragraph(&words, bullets[i].level, true);
        r.append(one.as_str());
        proof {
            text::lemma_concat_take(all, i as int);
        }
        i = i + 1;
    }
    assert(all.take(all.len() as int) =~= all);
    r
}

/// One text box: its placeholder role, where it sits, and its paragraphs.
fn text_shape(id: u128, name: &str, placeholder: &str, frame: &Frame, paragraphs: &str) -> (r:
    String)
    ensures
        r@ == shape_xml(id as nat, name@, placeholder@, *frame, paragraphs@),
{
    let mut r = r#"<p:sp><p:nvSpPr><p:cNvPr id=""#.to_owned();
    text::push_decimal(&mut r, id);
    r.append(r#"" name=""#);
    let safe = escape(name);
    r.append(safe.as_str());
    r.append(r#""/><p:cNvSpPr><a:spLocks noGrp="1"/></p:cNvSpPr><p:nvPr>"#);
    r.append(placeholder);
    r.append(r#"</p:nvPr></p:nvSpPr><p:spPr><a:xfrm><a:off x=""#);
    text::push_decimal(&mut r, frame.x);
    r.append(r#"" y=""#);
    text::push_decimal(&mut r, frame.y);
    r.append(r#""/><a:ext cx=""#);
    text::push_decimal(&mut r, frame.width);
    r.append(r#"" cy=""#);
    text::push_decimal(&mut r, frame.height);
    r.append(
        r#""/></a:xfrm></p:spPr><p:txBody><a:bodyPr><a:normAutofit/></a:bodyPr><a:lstStyle/>"#,
    );
    r.append(paragraphs);
    r.append("</p:txBody></p:sp>");
    r
}

/// One paragraph of runs, at a bullet level.
fn paragraph(spans: &Vec<Span>, level: u8, bulleted: bool) -> (r: String)
    ensures
        r@ == paragraph_xml(spans_model(spans@), level as int, bulleted),
{
    let mut r = "<a:p>".to_owned();
    let properties = if bulleted {
        let level: u128 = if level < 4 {
            level as u128
        } else {
            4
        };
        let mut p = r#"<a:pPr lvl=""#.to_owned();
        text::push_decimal(&mut p, level);
        p.append(r#""/>"#);
        p
    } else {
        // Without this the title inherits the master's bullet character.
        "<a:pPr><a:buNone/></a:pPr>".to_owned()
    };
    r.append(properties.as_str());
    let ghost start = r@;
    let ghost all = runs_xml(spans_model(spans@));
    let mut i: usize = 0;
    assert(start + text::concat(all.take(0)) =~= start);
    while i < spans.len()
        invariant
            0 <= i <= spans.len(),
            all == runs_xml(spans_model(spans@)),
            r@ == start + text::concat(all.take(i as int)),
        decreases spans.len() - i,
    {
        let one = run(&spans[i]);
        let ghost before = text::concat(all.take(i as int));
        text::push_given(&mut r, !spans[i].text.as_str().is_empty(), one.as_str());
        proof {
            text::lemma_concat_take(all, i as int);
            assert(start + before + all[i as int] =~= start + (before + all[i as int]));
        }
        i = i + 1;
    }
    assert(all.take(all.len() as int) =~= all);
    // An empty paragraph still needs an end-properties element, or the line is
    // lost entirely.
    r.append("<a:endParaRPr/></a:p>");
    r
}

fn run(span: &Span) -> (r: String)
    ensures
        r@ == run_xml(span@),
{
    let mut r = r#"<a:r><a:rPr lang="en-GB" dirty="0""#.to_owned();
    text::push_given(&mut r, span.bold, r#" b="1""#);
    text::push_given(&mut r, span.italic, r#" i="1""#);
    r.append(">");
    text::push_given(&mut r, span.code, r#"<a:latin typeface="Consolas"/>"#);
    r.append("</a:rPr><a:t>");
    let safe = escape(span.text.as_str());
    r.append(safe.as_str());
    r.append("</a:t></a:r>");
    r
}

fn note_paragraphs(notes: &str) -> (r: String)
    ensures
        r@ == text::concat(note_lines(text::lines(notes@))),
{
    let chars = text::chars_of(notes);
    let lines = text::lines_of(chars.as_slice());
    let ghost all = note_lines(text::lines(notes@));
    let mut r = String::new();
    let mut i: usize = 0;
    while i < lines.len()
        invariant
            0 <= i <= lines.len(),
            text::runs(lines@) == text::lines(notes@),
            all == note_lines(text::lines(notes@)),
            r@ == text::concat(all.take(i as int)),
        decreases lines.len() - i,
    {
        let line = text::string_of(lines[i]);
        assert(text::lines(notes@)[i as int] == lines@[i as int]@);
        let words = spans(line.as_str());
        let one = paragraph(&words, 0, false);
        r.append(one.as_str());
        proof {
            text::lemma_concat_take(all, i as int);
        }
        i = i + 1;
    }
    assert(all.take(all.len() as int) =~= all);
    r
}

fn notes_xml(notes: &str) -> (r: String)
    ensures
        r@ == notes_part(notes@),
{
    proof {
        reveal(notes_part);
    }
    let mut r =
        r#"<?xml version="1.0" encoding="UTF-8" standalone="yes"?><p:notes xmlns:a=""#.to_owned();
    r.append(A);
    r.append(r#"" xmlns:r=""#);
    r.append(R);
    r.append(r#"" xmlns:p=""#);
    r.append(P);
    r.append(
        r#""><p:cSld><p:spTree><p:nvGrpSpPr><p:cNvPr id="1" name=""/><p:cNvGrpSpPr/><p:nvPr/></p:nvGrpSpPr><p:grpSpPr/><p:sp><p:nvSpPr><p:cNvPr id="2" name="Notes Placeholder 1"/><p:cNvSpPr><a:spLocks noGrp="1"/></p:cNvSpPr><p:nvPr><p:ph type="body" idx="1"/></p:nvPr></p:nvSpPr><p:spPr/><p:txBody><a:bodyPr/><a:lstStyle/>"#,
    );
    let inner = note_paragraphs(notes);
    r.append(inner.as_str());
    r.append(
        r#"</p:txBody></p:sp></p:spTree></p:cSld><p:clrMapOvr><a:masterClrMapping/></p:clrMapOvr></p:notes>"#,
    );
    r
}

fn slide_ids(count: usize) -> (r: String)
    ensures
        r@ == text::concat(Seq::new(count as nat, |index: int| slide_id(index))),
{
    let ghost all = Seq::new(count as nat, |index: int| slide_id(index));
    let mut r = String::new();
    let mut i: usize = 0;
    while i < count
        invariant
            0 <= i <= count,
            all == Seq::new(count as nat, |index: int| slide_id(index)),
            r@ == text::concat(all.take(i as int)),
        decreases count - i,
    {
        let mut one = r#"<p:sldId id=""#.to_owned();
        text::push_decimal(&mut one, 256 + i as u128);
        one.append(r#"" r:id="rId"#);
        text::push_decimal(&mut one, i as u128 + 2);
        one.append(r#""/>"#);
        r.append(one.as_str());
        proof {
            text::lemma_concat_take(all, i as int);
        }
        i = i + 1;
    }
    assert(all.take(all.len() as int) =~= all);
    r
}

fn presentation(count: usize) -> (r: String)
    ensures
        r@ == presentation_part(count as nat),
{
    proof {
        reveal(presentation_part);
    }
    let mut r =
        r#"<?xml version="1.0" encoding="UTF-8" standalone="yes"?><p:presentation xmlns:a=""#.to_owned();
    r.append(A);
    r.append(r#"" xmlns:r=""#);
    r.append(R);
    r.append(r#"" xmlns:p=""#);
    r.append(P);
    r.append(
        r#""><p:sldMasterIdLst><p:sldMasterId id="2147483648" r:id="rId1"/></p:sldMasterIdLst><p:sldIdLst>"#,
    );
    let ids = slide_ids(count);
    r.append(ids.as_str());
    r.append(r#"</p:sldIdLst><p:sldSz cx=""#);
    text::push_decimal(&mut r, WIDTH);
    r.append(r#"" cy=""#);
    text::push_decimal(&mut r, HEIGHT);
    r.append(r#""/><p:notesSz cx=""#);
    text::push_decimal(&mut r, HEIGHT);
    r.append(r#"" cy=""#);
    text::push_decimal(&mut r, WIDTH);
    r.append(r#""/></p:presentation>"#);
    r
}

fn wrap_relationships(entries: &str) -> (r: String)
    ensures
        r@ == relationships(entries@),
{
    let mut r =
        "<?xml version=\"1.0\" encoding=\"UTF-8\" standalone=\"yes\"?>\n<Relationships xmlns=\"".to_owned();
    r.append(PACKAGE);
    r.append(r#"">"#);
    r.append(entries);
    r.append("</Relationships>");
    r
}

fn presentation_relationships(count: usize) -> (r: String)
    ensures
        r@ == presentation_links(count as nat),
{
    proof {
        reveal(presentation_links);
    }
    let mut entries = r#"<Relationship Id="rId1" Type=""#.to_owned();
    entries.append(OFFICE);
    entries.append(r#"/slideMaster" Target="slideMasters/slideMaster1.xml"/>"#);
    let ghost start = entries@;
    let ghost all = Seq::new(count as nat, |index: int| slide_link(index));
    let mut i: usize = 0;
    assert(start + text::concat(all.take(0)) =~= start);
    while i < count
        invariant
            0 <= i <= count,
            all == Seq::new(count as nat, |index: int| slide_link(index)),
            entries@ == start + text::concat(all.take(i as int)),
        decreases count - i,
    {
        let mut one = r#"<Relationship Id="rId"#.to_owned();
        text::push_decimal(&mut one, i as u128 + 2);
        one.append(r#"" Type=""#);
        one.append(OFFICE);
        one.append(r#"/slide" Target="slides/slide"#);
        text::push_decimal(&mut one, i as u128 + 1);
        one.append(r#".xml"/>"#);
        let ghost before = text::concat(all.take(i as int));
        entries.append(one.as_str());
        proof {
            text::lemma_concat_take(all, i as int);
            assert(start + before + all[i as int] =~= start + (before + all[i as int]));
        }
        i = i + 1;
    }
    assert(all.take(all.len() as int) =~= all);
    wrap_relationships(entries.as_str())
}

fn slide_relationships(number: u128, has_notes: bool) -> (r: String)
    ensures
        r@ == slide_links(number as nat, has_notes),
{
    proof {
        reveal(slide_links);
    }
    let mut entries = r#"<Relationship Id="rId1" Type=""#.to_owned();
    entries.append(OFFICE);
    entries.append(r#"/slideLayout" Target="../slideLayouts/slideLayout1.xml"/>"#);
    let mut link = r#"<Relationship Id="rId2" Type=""#.to_owned();
    link.append(OFFICE);
    link.append(r#"/notesSlide" Target="../notesSlides/notesSlide"#);
    text::push_decimal(&mut link, number);
    link.append(r#".xml"/>"#);
    text::push_given(&mut entries, has_notes, link.as_str());
    wrap_relationships(entries.as_str())
}

fn notes_relationships(number: u128) -> (r: String)
    ensures
        r@ == notes_links(number as nat),
{
    proof {
        reveal(notes_links);
    }
    let mut entries = r#"<Relationship Id="rId1" Type=""#.to_owned();
    entries.append(OFFICE);
    entries.append(r#"/slide" Target="../slides/slide"#);
    text::push_decimal(&mut entries, number);
    entries.append(r#".xml"/>"#);
    wrap_relationships(entries.as_str())
}

fn types_of_slide(number: u128, has_notes: bool) -> (r: String)
    ensures
        r@ == slide_types(number as nat, has_notes),
{
    let mut r = r#"<Override PartName="/ppt/slides/slide"#.to_owned();
    text::push_decimal(&mut r, number);
    r.append(
        r#".xml" ContentType="application/vnd.openxmlformats-officedocument.presentationml.slide+xml"/>"#,
    );
    let mut more = r#"<Override PartName="/ppt/notesSlides/notesSlide"#.to_owned();
    text::push_decimal(&mut more, number);
    more.append(
        r#".xml" ContentType="application/vnd.openxmlformats-officedocument.presentationml.notesSlide+xml"/>"#,
    );
    text::push_given(&mut r, has_notes, more.as_str());
    r
}

fn content_types(slides: &[Slide]) -> (r: String)
    ensures
        r@ == types_part(slides_model(slides@)),
{
    proof {
        reveal(types_part);
    }
    let mut r =
        "<?xml version=\"1.0\" encoding=\"UTF-8\" standalone=\"yes\"?>\n<Types xmlns=\"http://schemas.openxmlformats.org/package/2006/content-types\"><Default Extension=\"rels\" ContentType=\"application/vnd.openxmlformats-package.relationships+xml\"/><Default Extension=\"xml\" ContentType=\"application/xml\"/>".to_owned();
    r.append(
        r#"<Override PartName="/ppt/presentation.xml" ContentType="application/vnd.openxmlformats-officedocument.presentationml.presentation.main+xml"/><Override PartName="/ppt/slideMasters/slideMaster1.xml" ContentType="application/vnd.openxmlformats-officedocument.presentationml.slideMaster+xml"/><Override PartName="/ppt/slideLayouts/slideLayout1.xml" ContentType="application/vnd.openxmlformats-officedocument.presentationml.slideLayout+xml"/><Override PartName="/ppt/theme/theme1.xml" ContentType="application/vnd.openxmlformats-officedocument.theme+xml"/>"#,
    );
    let ghost start = r@;
    let ghost all = all_slide_types(slides_model(slides@));
    let mut i: usize = 0;
    assert(start + text::concat(all.take(0)) =~= start);
    while i < slides.len()
        invariant
            0 <= i <= slides.len(),
            all == all_slide_types(slides_model(slides@)),
            r@ == start + text::concat(all.take(i as int)),
        decreases slides.len() - i,
    {
        let one = types_of_slide(i as u128 + 1, slides[i].notes.is_some());
        let ghost before = text::concat(all.take(i as int));
        r.append(one.as_str());
        proof {
            text::lemma_concat_take(all, i as int);
            assert(start + before + all[i as int] =~= start + (before + all[i as int]));
        }
        i = i + 1;
    }
    assert(all.take(all.len() as int) =~= all);
    r.append("</Types>");
    r
}

proof fn lemma_parts_of_slides(slides: Seq<SlideModel>, i: int, part: Part)
    requires
        0 <= i < slides.len(),
        parts_of_slide(slides[i], (i + 1) as nat).contains(part),
    ensures
        parts_of_slides(slides).contains(part),
    decreases slides.len(),
{
    let before = parts_of_slides(slides.drop_last());
    let own = parts_of_slide(slides.last(), slides.len());
    if i == slides.len() - 1 {
        let k = choose|k: int| 0 <= k < own.len() && own[k] == part;
        assert((before + own)[before.len() + k] == part);
    } else {
        assert(slides.drop_last()[i] == slides[i]);
        lemma_parts_of_slides(slides.drop_last(), i, part);
        let k = choose|k: int| 0 <= k < before.len() && before[k] == part;
        assert((before + own)[k] == part);
    }
}

/// Every edge of the part graph that a slide needs is there: the slide and what
/// it points at are parts, the presentation lists it and points at it, its type
/// is declared, and its notes are there and pointed at where it has some.
pub proof fn every_slide_is_reachable(slides: Seq<SlideModel>, i: int)
    requires
        0 <= i < written(slides).len(),
    ensures
        ({
            let deck = written(slides);
            let parts = presentation_parts(slides);
            let number = (i + 1) as nat;
            &&& parts.contains(
                text_part(numbered("ppt/slides/slide"@, number, ".xml"@), slide_part(deck[i])),
            )
            &&& parts.contains(
                text_part(
                    numbered("ppt/slides/_rels/slide"@, number, ".xml.rels"@),
                    slide_links(number, deck[i].notes is Some),
                ),
            )
            &&& parts.contains(
                text_part("ppt/_rels/presentation.xml.rels"@, presentation_links(deck.len())),
            )
            &&& text::holds(presentation_links(deck.len()), slide_link(i))
            &&& parts.contains(
                text_part("ppt/presentation.xml"@, presentation_part(deck.len())),
            )
            &&& text::holds(presentation_part(deck.len()), slide_id(i))
            &&& parts.contains(text_part("[Content_Types].xml"@, types_part(deck)))
            &&& text::holds(types_part(deck), slide_types(number, deck[i].notes is Some))
            &&& match deck[i].notes {
                Some(notes) => {
                    &&& parts.contains(
                        text_part(
                            numbered("ppt/notesSlides/notesSlide"@, number, ".xml"@),
                            notes_part(notes),
                        ),
                    )
                    &&& parts.contains(
                        text_part(
                            numbered("ppt/notesSlides/_rels/notesSlide"@, number, ".xml.rels"@),
                            notes_links(number),
                        ),
                    )
                    &&& text::holds(slide_links(number, true), notes_link(number))
                },
                None => true,
            }
        }),
{
    let deck = written(slides);
    let parts = presentation_parts(slides);
    let number = (i + 1) as nat;
    let frame = frame_parts(deck);
    let own = parts_of_slide(deck[i], number);
    let all = parts_of_slides(deck);
    assert forall|part: Part| #[trigger] own.contains(part) implies parts.contains(part) by {
        lemma_parts_of_slides(deck, i, part);
        let k = choose|k: int| 0 <= k < all.len() && all[k] == part;
        assert(parts[frame.len() + k] == part);
    }
    assert(own.contains(own[0]));
    assert(own.contains(own[1]));
    assert(parts[0] == frame[0]);
    assert(parts[2] == frame[2]);
    assert(parts[3] == frame[3]);
    if deck[i].notes is Some {
        assert(own.contains(own[2]));
        assert(own.contains(own[3]));
        reveal(slide_links);
        let before = "<?xml version=\"1.0\" encoding=\"UTF-8\" standalone=\"yes\"?>\n<Relationships xmlns=\""@
            + PACKAGE@ + r#"">"#@ + (r#"<Relationship Id="rId1" Type=""#@ + OFFICE@
            + r#"/slideLayout" Target="../slideLayouts/slideLayout1.xml"/>"#@);
        let one = seq![notes_link(number)];
        text::lemma_concat_holds(before, one, 0, "</Relationships>"@);
        assert(text::concat(one) =~= notes_link(number)) by {
            assert(one.drop_last() =~= Seq::empty());
            assert(text::concat(one.drop_last()) =~= Seq::empty());
        }
        assert(slide_links(number, true) =~= before + text::concat(one) + "</Relationships>"@);
    }
    reveal(presentation_links);
    let links = Seq::new(deck.len(), |index: int| slide_link(index));
    let head = "<?xml version=\"1.0\" encoding=\"UTF-8\" standalone=\"yes\"?>\n<Relationships xmlns=\""@
        + PACKAGE@ + r#"">"#@ + (r#"<Relationship Id="rId1" Type=""#@ + OFFICE@
        + r#"/slideMaster" Target="slideMasters/slideMaster1.xml"/>"#@);
    text::lemma_concat_holds(head, links, i, "</Relationships>"@);
    assert(presentation_links(deck.len()) =~= head + text::concat(links) + "</Relationships>"@);
    assert(links[i] == slide_link(i));
    lemma_listed(deck.len(), i);
    lemma_declared(deck, i);
}

proof fn lemma_listed(count: nat, i: int)
    requires
        0 <= i < count,
    ensures
        text::holds(presentation_part(count), slide_id(i)),
{
    reveal(presentation_part);
    let ids = Seq::new(count, |index: int| slide_id(index));
    let head = r#"<?xml version="1.0" encoding="UTF-8" standalone="yes"?><p:presentation xmlns:a=""#@
        + A@ + r#"" xmlns:r=""#@ + R@ + r#"" xmlns:p=""#@ + P@
        + r#""><p:sldMasterIdLst><p:sldMasterId id="2147483648" r:id="rId1"/></p:sldMasterIdLst><p:sldIdLst>"#@;
    let tail = r#"</p:sldIdLst><p:sldSz cx=""#@ + text::decimal(WIDTH as nat) + r#"" cy=""#@
        + text::decimal(HEIGHT as nat) + r#""/><p:notesSz cx=""#@ + text::decimal(HEIGHT as nat)
        + r#"" cy=""#@ + text::decimal(WIDTH as nat) + r#""/></p:presentation>"#@;
    text::lemma_concat_holds(head, ids, i, tail);
    assert(presentation_part(count) =~= head + text::concat(ids) + tail);
    assert(ids[i] == slide_id(i));
}

proof fn lemma_declared(slides: Seq<SlideModel>, i: int)
    requires
        0 <= i < slides.len(),
    ensures
        text::holds(types_part(slides), slide_types((i + 1) as nat, slides[i].notes is Some)),
{
    reveal(types_part);
    let types = all_slide_types(slides);
    let head = choose|head: Seq<char>|
        types_part(slides) == #[trigger] (head + text::concat(types)) + "</Types>"@;
    text::lemma_concat_holds(head, types, i, "</Types>"@);
}

// ---------------------------------------------------------------------------
// A deck says what its slides say
// ---------------------------------------------------------------------------

/// What a run says.
pub open spec fn said_text(said: Seq<char>) -> Seq<char> {
    "<a:t>"@ + escaped(said) + "</a:t>"@
}

/// Whether a paragraph says some text as a bullet of a level, down to the fifth.
pub open spec fn is_bullet(paragraph: Seq<char>, level: int, said: Seq<char>) -> bool {
    &&& text::starts(
        paragraph,
        r#"<a:p><a:pPr lvl=""#@ + text::decimal(
            (if level < 4 {
                level
            } else {
                4
            }) as nat,
        ) + r#""/>"#@,
    )
    &&& text::holds(paragraph, said_text(said))
}

/// Whether a paragraph says some text without a bullet.
pub open spec fn is_unmarked(paragraph: Seq<char>, said: Seq<char>) -> bool {
    &&& text::starts(paragraph, "<a:p><a:pPr><a:buNone/></a:pPr>"@)
    &&& text::holds(paragraph, said_text(said))
}

/// Text without markup.
pub open spec fn is_plain(s: Seq<char>) -> bool {
    s.len() > 0 && forall|k: int|
        0 <= k < s.len() ==> !crate::office::markup::opens_markup(#[trigger] s[k])
}

proof fn lemma_paragraph_says(said: Seq<char>, level: int, bulleted: bool)
    requires
        is_plain(said),
    ensures
        text::holds(paragraph_xml(spans_of(said), level, bulleted), said_text(said)),
{
    crate::office::markup::a_line_without_markup_is_one_span(said);
    let spans = spans_of(said);
    let runs = runs_xml(spans);
    let whole = paragraph_xml(spans, level, bulleted);
    let head = "<a:p>"@ + paragraph_properties(level, bulleted);
    let tail = "<a:endParaRPr/></a:p>"@;
    text::lemma_concat_holds(head, runs, 0, tail);
    assert(whole =~= head + text::concat(runs) + tail);
    let span = spans[0];
    let run = run_xml(span);
    assert(runs[0] == run);
    let start = r#"<a:r><a:rPr lang="en-GB" dirty="0""#@ + text::given(span.bold, r#" b="1""#@)
        + text::given(span.italic, r#" i="1""#@) + ">"@ + text::given(
        span.code,
        r#"<a:latin typeface="Consolas"/>"#@,
    ) + "</a:rPr>"@;
    assert(run =~= start + said_text(said) + "</a:r>"@) by {
        reveal_strlit("</a:rPr><a:t>");
        reveal_strlit("</a:rPr>");
        reveal_strlit("<a:t>");
        reveal_strlit("</a:t></a:r>");
        reveal_strlit("</a:t>");
        reveal_strlit("</a:r>");
        assert("</a:rPr><a:t>"@ =~= "</a:rPr>"@ + "<a:t>"@);
        assert("</a:t></a:r>"@ =~= "</a:t>"@ + "</a:r>"@);
    }
    text::lemma_holds_between(start, said_text(said), "</a:r>"@);
    text::lemma_holds_within(whole, run, said_text(said));
}

proof fn lemma_slide_holds(slide: SlideModel, inner: Seq<char>)
    requires
        text::holds(shapes_xml(slide), inner),
    ensures
        text::holds(slide_part(slide), inner),
{
    reveal(slide_part);
    let shapes = shapes_xml(slide);
    let whole = slide_part(slide);
    let tail = r#"</p:spTree></p:cSld><p:clrMapOvr><a:masterClrMapping/></p:clrMapOvr></p:sld>"#@;
    let head = choose|head: Seq<char>| whole == #[trigger] (head + shapes) + tail;
    text::lemma_holds_between(head, shapes, tail);
    text::lemma_holds_within(whole, shapes, inner);
}

proof fn lemma_shape_holds(
    id: nat,
    name: Seq<char>,
    placeholder: Seq<char>,
    frame: Frame,
    paragraphs: Seq<char>,
)
    ensures
        text::holds(shape_xml(id, name, placeholder, frame, paragraphs), paragraphs),
{
    let whole = shape_xml(id, name, placeholder, frame, paragraphs);
    let tail = "</p:txBody></p:sp>"@;
    let head = choose|head: Seq<char>| whole == #[trigger] (head + paragraphs) + tail;
    text::lemma_holds_between(head, paragraphs, tail);
}

/// A slide says its title, without a bullet.
pub proof fn a_slide_says_its_title(slide: SlideModel)
    requires
        is_plain(slide.title),
    ensures
        exists|paragraph: Seq<char>| #[trigger]
            is_unmarked(paragraph, slide.title) && text::holds(slide_part(slide), paragraph),
{
    let paragraph = paragraph_xml(spans_of(slide.title), 0, false);
    lemma_paragraph_says(slide.title, 0, false);
    lemma_unmarked_start(spans_of(slide.title));
    lemma_shape_holds(2, "Title 1"@, r#"<p:ph type="title"/>"#@, title_frame(), paragraph);
    let shape = shape_xml(2, "Title 1"@, r#"<p:ph type="title"/>"#@, title_frame(), paragraph);
    let rest = text::given(
        slide.bullets.len() > 0,
        shape_xml(
            3,
            "Content Placeholder 2"@,
            r#"<p:ph idx="1"/>"#@,
            body_frame(),
            text::concat(bullets_xml(slide.bullets)),
        ),
    );
    let none = Seq::<char>::empty();
    text::lemma_holds_between(none, shape, rest);
    assert(shapes_xml(slide) =~= none + shape + rest) by {
        reveal(shapes_xml);
    }
    text::lemma_holds_within(shapes_xml(slide), shape, paragraph);
    lemma_slide_holds(slide, paragraph);
    assert(is_unmarked(paragraph, slide.title));
}

proof fn lemma_unmarked_start(spans: Seq<SpanModel>)
    ensures
        text::starts(paragraph_xml(spans, 0, false), "<a:p><a:pPr><a:buNone/></a:pPr>"@),
{
    reveal_strlit("<a:p>");
    reveal_strlit("<a:pPr><a:buNone/></a:pPr>");
    reveal_strlit("<a:p><a:pPr><a:buNone/></a:pPr>");
    let front = "<a:p><a:pPr><a:buNone/></a:pPr>"@;
    assert(front =~= "<a:p>"@ + "<a:pPr><a:buNone/></a:pPr>"@);
    assert(paragraph_xml(spans, 0, false).take(front.len() as int) =~= front);
}

/// Every bullet of a slide is a bullet of its level that says its text, down to the fifth
/// level.
pub proof fn a_slide_says_its_bullets(slide: SlideModel, k: int)
    requires
        0 <= k < slide.bullets.len(),
        0 <= slide.bullets[k].level,
        is_plain(slide.bullets[k].text),
    ensures
        exists|paragraph: Seq<char>| #[trigger]
            is_bullet(paragraph, slide.bullets[k].level, slide.bullets[k].text) && text::holds(
                slide_part(slide),
                paragraph,
            ),
{
    let bullet = slide.bullets[k];
    let paragraph = paragraph_xml(spans_of(bullet.text), bullet.level, true);
    lemma_paragraph_says(bullet.text, bullet.level, true);
    let level = bullet_level(bullet.level) as nat;
    let front = r#"<a:p><a:pPr lvl=""#@ + text::decimal(level) + r#""/>"#@;
    assert(text::starts(paragraph, front)) by {
        reveal_strlit("<a:p>");
        reveal_strlit(r#"<a:pPr lvl=""#);
        reveal_strlit(r#"<a:p><a:pPr lvl=""#);
        assert(r#"<a:p><a:pPr lvl=""#@ =~= "<a:p>"@ + r#"<a:pPr lvl=""#@);
        assert(paragraph.take(front.len() as int) =~= front);
    }
    let bullets = bullets_xml(slide.bullets);
    let none = Seq::<char>::empty();
    text::lemma_concat_holds(none, bullets, k, none);
    assert(none + text::concat(bullets) + none =~= text::concat(bullets));
    let body = shape_xml(
        3,
        "Content Placeholder 2"@,
        r#"<p:ph idx="1"/>"#@,
        body_frame(),
        text::concat(bullets),
    );
    lemma_shape_holds(
        3,
        "Content Placeholder 2"@,
        r#"<p:ph idx="1"/>"#@,
        body_frame(),
        text::concat(bullets),
    );
    text::lemma_holds_within(body, text::concat(bullets), paragraph);
    let title = shape_xml(
        2,
        "Title 1"@,
        r#"<p:ph type="title"/>"#@,
        title_frame(),
        paragraph_xml(spans_of(slide.title), 0, false),
    );
    text::lemma_holds_between(title, body, none);
    assert(shapes_xml(slide) =~= title + body + none) by {
        reveal(shapes_xml);
    }
    text::lemma_holds_within(shapes_xml(slide), body, paragraph);
    lemma_slide_holds(slide, paragraph);
    assert(is_bullet(paragraph, bullet.level, bullet.text));
}

/// The notes of a slide say each of their lines.
pub proof fn notes_say_their_lines(notes: Seq<char>, k: int)
    requires
        0 <= k < text::lines(notes).len(),
        is_plain(text::lines(notes)[k]),
    ensures
        exists|paragraph: Seq<char>| #[trigger]
            is_unmarked(paragraph, text::lines(notes)[k]) && text::holds(
                notes_part(notes),
                paragraph,
            ),
{
    reveal(notes_part);
    let line = text::lines(notes)[k];
    let paragraph = paragraph_xml(spans_of(line), 0, false);
    lemma_paragraph_says(line, 0, false);
    lemma_unmarked_start(spans_of(line));
    let lines = note_lines(text::lines(notes));
    let whole = notes_part(notes);
    let tail = r#"</p:txBody></p:sp></p:spTree></p:cSld><p:clrMapOvr><a:masterClrMapping/></p:clrMapOvr></p:notes>"#@;
    let head = choose|head: Seq<char>| whole == #[trigger] (head + text::concat(lines)) + tail;
    text::lemma_concat_holds(head, lines, k, tail);
    assert(is_unmarked(paragraph, line));
}

/// Each slide of a deck is shown in its place: what the deck lists there points at the part
/// with the number of the slide, which is the slide's, and at nothing else.
pub proof fn slides_are_shown_in_their_places(slides: Seq<SlideModel>, i: int)
    requires
        0 <= i < slides.len(),
    ensures
        exists|list: Seq<char>, links: Seq<char>, digits: Seq<char>|
            #![trigger is_shown(presentation_parts(slides), list, links, digits, i)]
            is_shown(presentation_parts(slides), list, links, digits, i),
        presentation_parts(slides).contains(
            text_part(
                "ppt/slides/slide"@ + text::decimal((i + 1) as nat) + ".xml"@,
                slide_part(slides[i]),
            ),
        ),
{
    every_slide_is_reachable(slides, i);
    let deck = written(slides);
    let digits = text::decimal((i + 2) as nat);
    text::a_decimal_reads_back((i + 2) as nat);
    text::a_decimal_reads_back((256 + i) as nat);
    let list = presentation_part(deck.len());
    let links = presentation_links(deck.len());
    let entry = r#"r:id="rId"#@ + digits + r#""/>"#@;
    let start = r#"<p:sldId id=""#@ + text::decimal((256 + i) as nat) + r#"" "#@;
    assert(slide_id(i) =~= start + entry + Seq::<char>::empty()) by {
        reveal_strlit(r#"" r:id="rId"#);
        reveal_strlit(r#"" "#);
        reveal_strlit(r#"r:id="rId"#);
        assert(r#"" r:id="rId"#@ =~= r#"" "#@ + r#"r:id="rId"#@);
    }
    text::lemma_holds_between(start, entry, Seq::empty());
    text::lemma_holds_within(list, slide_id(i), entry);
    assert(is_shown(presentation_parts(slides), list, links, digits, i));
}

/// Whether a deck lists a slide under digits that its links tie to the part with the number
/// of the slide. The first of the links is the master's.
pub open spec fn is_shown(
    parts: Seq<Part>,
    list: Seq<char>,
    links: Seq<char>,
    digits: Seq<char>,
    i: int,
) -> bool {
    &&& parts.contains(text_part("ppt/presentation.xml"@, list))
    &&& parts.contains(text_part("ppt/_rels/presentation.xml.rels"@, links))
    &&& text::is_digits(digits)
    &&& text::digits_value(digits) >= 2
    &&& text::holds(list, r#"r:id="rId"#@ + digits + r#""/>"#@)
    &&& text::holds(
        links,
        r#"<Relationship Id="rId"#@ + digits + r#"" Type=""#@ + OFFICE@
            + r#"/slide" Target="slides/slide"#@ + text::decimal((i + 1) as nat) + r#".xml"/>"#@,
    )
}

} // verus!
