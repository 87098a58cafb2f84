use familiar::office::markup::{self, Block, Span};
use familiar::office::pdf::{
    cell_markup, markup, numbers, row_height, steps, table_columns, title_of, title_steps, Cursor,
    Error, Ink, Place, Rendered, Step, BODY_SIZE, BOTTOM, MARGIN, PADDING, TITLE_SIZE,
};

/// How tall the lines of a text are, as a page would lay it out in a plain face:
/// ninety characters to a line, and a third more than the size to each.
fn heights(words: &str, size: u32) -> Vec<u32> {
    let mut lines = Vec::new();
    for line in words.split('\n') {
        for _ in 0..(line.chars().count() / 90 + 1) {
            lines.push(size * 1024 / 75);
        }
    }
    lines
}

/// The units of a page in a distance given in hundredths of a point.
fn units(hundredths: u32) -> u32 {
    hundredths * 1024 / 100
}

/// How a document breaks into pages, with nothing drawn.
fn build(markdown: &str) -> Rendered {
    let blocks = markup::parse(markdown);
    let counted = numbers(&blocks);
    let mut cursor = Cursor::start();
    if let Some(title) = title_of(Some("A Report")) {
        for step in title_steps(&title) {
            match step {
                Step::Text(lines) => {
                    cursor.place(&heights(&lines.words, lines.size));
                }
                Step::Gap(height) => cursor.skip(units(height)),
                other => panic!("a title is text: {other:?}"),
            }
        }
    }
    for (block, number) in blocks.iter().zip(counted) {
        for step in steps(block, number) {
            match step {
                Step::Gap(height) => cursor.skip(units(height)),
                Step::Room(height) => {
                    cursor.ensure(units(height));
                }
                Step::Text(lines) => {
                    cursor.place(&heights(&lines.words, lines.size));
                }
                Step::Rule => {}
                Step::Break => cursor.break_page(),
                Step::Table => {
                    if let Block::Table { header, rows } = block {
                        assert!(table_columns(header, rows) > 0);
                        let row = row_height(&[units(950) * 4 / 3]);
                        cursor.place_rows(Some(row), &vec![row; rows.len()]);
                    }
                }
            }
        }
    }
    Rendered { bytes: Vec::new(), pages: cursor.page as usize }
}

fn numbering(markdown: &str) -> Vec<usize> {
    let blocks = markup::parse(markdown);
    let counted = numbers(&blocks);
    blocks
        .iter()
        .zip(counted)
        .filter(|(block, _)| matches!(block, Block::Numbered { .. }))
        .map(|(_, number)| number)
        .collect()
}

#[test]
fn a_short_document_is_one_page() {
    assert_eq!(build("# Title\n\nA sentence.").pages, 1);
}

#[test]
fn a_long_document_breaks_across_pages_by_itself() {
    // The reason text is placed a line at a time: a paragraph longer than
    // the page must continue on the next one rather than overflow the
    // margin or push the whole paragraph down and leave a hole.
    let long = "Familiar renders an answer with Brain's scanner. ".repeat(400);
    assert!(build(&long).pages > 2);
}

#[test]
fn an_explicit_page_break_starts_a_page() {
    assert_eq!(build("one\n\n\\pagebreak\n\ntwo").pages, 2);
}

#[test]
fn a_table_longer_than_a_page_breaks_and_carries_its_header_over() {
    let mut markdown = String::from("| Name | Value |\n|---|---|\n");
    for row in 0..90 {
        markdown.push_str(&format!("| row {row} | {row} |\n"));
    }
    assert!(
        build(&markdown).pages > 1,
        "90 rows should not fit on one page"
    );
}

#[test]
fn a_numbered_list_keeps_its_numbers() {
    // The parser moves the number out of the text and into the block type,
    // so drawing a bullet glyph here silently turned "1. 2. 3." into three
    // identical dots.
    assert_eq!(numbering("1. one\n2. two\n3. three"), [1, 2, 3]);
}

#[test]
fn a_model_that_numbers_everything_one_still_gets_one_two_three() {
    // Markdown says a list numbered "1. 1. 1." renders 1, 2, 3, and a model
    // writes it that way often enough to matter.
    assert_eq!(numbering("1. one\n1. two\n1. three"), [1, 2, 3]);
}

#[test]
fn a_paragraph_between_two_lists_restarts_the_numbering() {
    assert_eq!(numbering("1. one\n2. two\n\nAside.\n\n1. fresh"), [1, 2, 1]);
}

#[test]
fn a_bullet_inside_a_numbered_list_does_not_restart_it() {
    assert_eq!(numbering("1. one\n  - a note\n2. two"), [1, 2]);
}

#[test]
fn a_nested_numbered_list_counts_per_level() {
    assert_eq!(
        numbering("1. one\n  1. inner\n  2. inner\n2. two"),
        [1, 1, 2, 2]
    );
}

#[test]
fn markup_that_pango_would_parse_is_escaped() {
    // An unescaped `<` makes Pango reject the markup and the line renders
    // as nothing at all — a silently blank paragraph.
    let escaped = markup(&[Span::plain("a < b & c")]);
    assert_eq!(escaped, "a &lt; b &amp; c");
}

#[test]
fn faces_become_nested_markup_that_closes_in_order() {
    let out = markup(&[Span {
        text: "x".into(),
        bold: true,
        italic: true,
        ..Default::default()
    }]);
    assert_eq!(out, "<b><i>x</i></b>");
}

#[test]
fn an_item_is_drawn_with_its_number_before_it() {
    let blocks = markup::parse("1. one");
    let drawn = steps(&blocks[0], 7);
    let Step::Text(lines) = &drawn[0] else {
        panic!("an item is text: {drawn:?}");
    };
    assert_eq!(lines.marker.as_deref(), Some("7."));
    assert_eq!((lines.indent, lines.inset, lines.size, lines.ink), (1800, 1800, BODY_SIZE, Ink::Black));
    assert_eq!(drawn[1], Step::Gap(400));
    assert_eq!(steps(&Block::PageBreak, 1), vec![Step::Break]);
    assert_eq!(steps(&Block::Table { header: vec![], rows: vec![] }, 1), vec![]);
    assert_eq!(
        steps(&Block::Table { header: vec!["a".to_string()], rows: vec![] }, 1),
        vec![Step::Gap(600), Step::Table, Step::Gap(1000)]
    );
    assert_eq!(
        steps(&Block::Rule, 1),
        vec![Step::Room(1400), Step::Gap(600), Step::Rule, Step::Gap(800)]
    );
}

#[test]
fn lines_stay_between_the_margins() {
    let mut cursor = Cursor::start();
    let placed = cursor.place(&[300_000, 300_000, 300_000, 800_000]);
    assert_eq!(
        placed,
        vec![
            Place { page: 1, y: MARGIN },
            Place { page: 1, y: MARGIN + 300_000 },
            Place { page: 2, y: MARGIN },
            Place { page: 3, y: MARGIN },
        ]
    );
    assert_eq!(cursor, Cursor { page: 3, y: MARGIN + 800_000 });
    assert!(!cursor.fits(1));
    assert!(Cursor { page: 1, y: BOTTOM - 1 }.fits(1));
}

#[test]
fn a_table_carries_its_header_onto_the_next_page() {
    let mut cursor = Cursor { page: 1, y: BOTTOM - 60_000 };
    let placed = cursor.place_rows(Some(20_000), &[20_000, 20_000]);
    let rows: Vec<(Option<usize>, u64)> = placed.iter().map(|p| (p.row, p.place.page)).collect();
    assert_eq!(rows, vec![(None, 1), (Some(0), 1), (None, 2), (Some(1), 2)]);
    assert_eq!(cursor.page, 2);
}

#[test]
fn a_title_is_trimmed_and_an_error_says_what_failed() {
    assert_eq!(title_of(Some("  A Report ")), Some("A Report".to_string()));
    assert_eq!(title_of(Some("   ")), None);
    assert_eq!(title_of(None), None);
    assert_eq!(
        Error::Surface("no surface".to_string()).describe(),
        "the PDF could not be drawn: no surface"
    );
}

#[test]
fn a_row_is_as_tall_as_its_tallest_cell() {
    assert_eq!(row_height(&[]), 2 * PADDING);
    assert_eq!(row_height(&[3_000, 9_000, 4_000]), 9_000 + 2 * PADDING);
    assert_eq!(cell_markup("a", true), "<b>a</b>");
    assert_eq!(cell_markup("*a*", false), "<i>a</i>");
    assert_eq!(cell_markup("**a** & b", true), "<b>a</b><b> &amp; b</b>");
}

#[test]
fn code_is_shaded_as_far_as_the_page_goes() {
    assert_eq!(Cursor { page: 1, y: BOTTOM - 500 }.shaded(400), 400);
    assert_eq!(Cursor { page: 1, y: BOTTOM - 500 }.shaded(600), 500);
    assert_eq!(Cursor { page: 1, y: BOTTOM + 1 }.shaded(600), 0);
}

#[test]
fn a_title_is_set_larger_and_bold() {
    let drawn = title_steps("A Report");
    let Step::Text(lines) = &drawn[0] else {
        panic!("a title is text: {drawn:?}");
    };
    assert_eq!((lines.words.as_str(), lines.size, lines.bold), ("A Report", TITLE_SIZE, true));
    assert_eq!((lines.ink, lines.marked_up), (Ink::Heading, false));
    assert_eq!(drawn[1..], [Step::Gap(1800)]);
}

#[test]
fn code_and_links_are_marked_up_as_such() {
    let out = markup(&markup::spans("`a` [b](https://example.com)"));
    assert!(out.contains("font_family=\"Source Code Pro"), "{out}");
    assert!(out.contains("underline=\"single\">b</span>"), "{out}");
}
