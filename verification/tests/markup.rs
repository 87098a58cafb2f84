use familiar::office::markup::{parse, spans, Block, Span};

fn texts(blocks: &[Block]) -> Vec<String> {
    blocks.iter().map(Block::text).collect()
}

#[test]
fn headings_carry_their_level() {
    let blocks = parse("# Title\n\n### Deep");
    assert_eq!(
        blocks,
        vec![
            Block::Heading {
                level: 1,
                spans: vec![Span::plain("Title")]
            },
            Block::Heading {
                level: 3,
                spans: vec![Span::plain("Deep")]
            },
        ]
    );
}

#[test]
fn seven_hashes_are_not_a_heading() {
    // There is no h7, and a row of hashes is more likely to be text.
    let blocks = parse("####### not a heading");
    assert!(matches!(blocks[0], Block::Paragraph { .. }));
}

#[test]
fn a_hash_with_no_space_is_a_paragraph() {
    assert!(matches!(parse("#hashtag")[0], Block::Paragraph { .. }));
}

#[test]
fn wrapped_lines_become_one_paragraph() {
    let blocks = parse("The scanner reports\nsyntax spans in char\noffsets.");
    assert_eq!(blocks.len(), 1);
    assert_eq!(
        texts(&blocks)[0],
        "The scanner reports syntax spans in char offsets."
    );
}

#[test]
fn a_blank_line_ends_a_paragraph() {
    let blocks = parse("First.\n\nSecond.");
    assert_eq!(texts(&blocks), ["First.", "Second."]);
}

#[test]
fn bullets_and_numbers_are_told_apart_and_keep_their_depth() {
    let blocks = parse("- top\n  - nested\n1. first\n2) second");
    assert_eq!(
        blocks,
        vec![
            Block::Bullet {
                level: 0,
                spans: vec![Span::plain("top")]
            },
            Block::Bullet {
                level: 1,
                spans: vec![Span::plain("nested")]
            },
            Block::Numbered {
                level: 0,
                spans: vec![Span::plain("first")]
            },
            Block::Numbered {
                level: 0,
                spans: vec![Span::plain("second")]
            },
        ]
    );
}

#[test]
fn a_fence_keeps_its_contents_verbatim() {
    // The whole point: nothing inside is read as Markdown.
    let blocks = parse("```rust\nlet x = *p;\n# not a heading\n```\nafter");
    assert_eq!(
        blocks[0],
        Block::Code {
            language: Some("rust".into()),
            text: "let x = *p;\n# not a heading".into(),
        }
    );
    assert_eq!(texts(&blocks)[1], "after");
}

#[test]
fn a_fence_that_never_closes_still_produces_its_block() {
    let blocks = parse("```\nunterminated");
    assert_eq!(
        blocks[0],
        Block::Code {
            language: None,
            text: "unterminated".into()
        }
    );
}

#[test]
fn a_table_needs_its_delimiter_row() {
    let table = parse("| a | b |\n|---|---|\n| 1 | 2 |");
    assert_eq!(
        table[0],
        Block::Table {
            header: vec!["a".into(), "b".into()],
            rows: vec![vec!["1".into(), "2".into()]],
        }
    );

    // Without one it is text that happens to contain pipes.
    let not_a_table = parse("| a | b |\n| 1 | 2 |");
    assert!(matches!(not_a_table[0], Block::Paragraph { .. }));
}

#[test]
fn an_aligned_delimiter_row_still_makes_a_table() {
    let blocks = parse("| left | right |\n|:--- | ---:|\n| 1 | 2 |");
    assert!(matches!(blocks[0], Block::Table { .. }));
}

#[test]
fn rules_and_page_breaks_are_their_own_blocks() {
    let blocks = parse("one\n\n---\n\n\\pagebreak\n\ntwo");
    assert_eq!(blocks[1], Block::Rule);
    assert_eq!(blocks[2], Block::PageBreak);
}

#[test]
fn emphasis_becomes_spans() {
    let spans = spans("plain **bold** and *italic* and `code`");
    assert_eq!(spans[0], Span::plain("plain "));
    assert_eq!(spans[1], Span::bold("bold"));
    assert!(spans[3].italic);
    assert_eq!(spans[3].text, "italic");
    assert!(spans[5].code);
    assert_eq!(spans[5].text, "code");
}

#[test]
fn an_underscore_inside_a_word_is_not_emphasis() {
    // A model writes `messages_for_model` constantly, and turning half of
    // it italic mangles the sentence.
    let spans = spans("call messages_for_model here");
    assert_eq!(spans.len(), 1);
    assert_eq!(spans[0].text, "call messages_for_model here");
}

#[test]
fn an_unclosed_marker_is_text_not_a_lost_half_document() {
    let spans = spans("2 * 3 = 6");
    assert_eq!(spans.len(), 1);
    assert_eq!(spans[0].text, "2 * 3 = 6");
    assert!(!spans[0].italic);
}

#[test]
fn nothing_inside_backticks_is_markup() {
    let spans = spans("`**not bold**`");
    assert_eq!(spans.len(), 1);
    assert!(spans[0].code);
    assert_eq!(spans[0].text, "**not bold**");
}

#[test]
fn a_link_keeps_its_text_and_its_target() {
    let spans = spans("see [the design](https://example.com/d) for more");
    assert_eq!(spans[1].text, "the design");
    assert_eq!(spans[1].link.as_deref(), Some("https://example.com/d"));
    assert_eq!(spans[2].text, " for more");
}

#[test]
fn a_backslash_escapes_a_marker() {
    let spans = spans(r"a \* b");
    assert_eq!(spans[0].text, "a * b");
}

#[test]
fn quotes_are_kept_as_quotes() {
    let blocks = parse("> Nothing async, and no HTTP stack.");
    assert_eq!(
        blocks[0],
        Block::Quote {
            spans: vec![Span::plain("Nothing async, and no HTTP stack.")]
        }
    );
}

#[test]
fn empty_markdown_is_no_blocks_rather_than_an_error() {
    assert!(parse("").is_empty());
    assert!(parse("   \n\n  ").is_empty());
}

#[test]
fn a_line_with_no_markup_is_one_span() {
    assert_eq!(spans("Plain words, and a full stop."), vec![Span::plain("Plain words, and a full stop.")]);
    assert_eq!(spans(""), vec![Span::plain("")]);
}

#[test]
fn nesting_stops_at_a_depth_a_document_can_show() {
    let blocks = parse("            - deep");
    assert!(matches!(&blocks[0], Block::Bullet { level, .. } if *level <= 8), "{blocks:?}");
}

#[test]
fn a_marker_that_never_closes_stays_as_text() {
    assert_eq!(spans("**bold"), vec![Span::plain("**bold")]);
    assert_eq!(spans("*slanted"), vec![Span::plain("*slanted")]);
    assert_eq!(spans("a `tick"), vec![Span::plain("a `tick")]);
    let slanted = Span { italic: true, ..Span::plain("then") };
    assert_eq!(spans("**bold *then*"), vec![Span::plain("**bold "), slanted]);
    assert_eq!(spans("**bold**"), vec![Span::bold("bold")]);
}

#[test]
fn a_blank_line_parts_a_document_in_two() {
    let first = "# Title\r\n\n```\ncode\n\n```\n| a | b |\n|---|---|\n| 1 | 2 |";
    let second = "- one\ntwo\n";
    let mut both = parse(first);
    both.extend(parse(second));
    assert_eq!(parse(&format!("{first}\n\n{second}")), both);
}
