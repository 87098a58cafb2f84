use familiar::office::docx::{self, columns_in};
use familiar::office::markup;

/// Reads one stored part back out of an archive. The entries are stored, so the
/// bytes are there verbatim; an absent part comes back empty.
fn part(bytes: &[u8], name: &str) -> String {
    let mut cursor = 0usize;
    while cursor + 30 <= bytes.len() {
        if &bytes[cursor..cursor + 4] != b"PK\x03\x04" {
            break;
        }
        let size =
            u32::from_le_bytes(bytes[cursor + 18..cursor + 22].try_into().expect("4 bytes"))
                as usize;
        let name_length = u16::from_le_bytes([bytes[cursor + 26], bytes[cursor + 27]]) as usize;
        let extra = u16::from_le_bytes([bytes[cursor + 28], bytes[cursor + 29]]) as usize;
        let start = cursor + 30 + name_length + extra;
        let found = String::from_utf8_lossy(&bytes[cursor + 30..cursor + 30 + name_length]);
        if found == name {
            return String::from_utf8_lossy(&bytes[start..start + size]).to_string();
        }
        cursor = start + size;
    }
    String::new()
}

fn build(markdown: &str) -> Vec<u8> {
    docx::write(Some("A Report"), &markup::parse(markdown))
}

#[test]
fn the_archive_holds_every_part_word_needs_to_open_it() {
    let bytes = build("Hello.");
    for required in [
        "[Content_Types].xml",
        "_rels/.rels",
        "word/_rels/document.xml.rels",
        "word/document.xml",
        "word/styles.xml",
        "word/numbering.xml",
        "docProps/core.xml",
    ] {
        assert!(!part(&bytes, required).is_empty(), "{required} is missing");
    }
}

#[test]
fn a_docx_is_a_zip() {
    assert_eq!(&build("Hello.")[..2], b"PK");
}

#[test]
fn headings_use_word_styles_rather_than_a_hand_set_size() {
    // The styles are what make the navigation pane and a table of contents
    // work; an 18pt bold run looks the same and does neither.
    let document = part(&build("# Chapter\n\n## Section"), "word/document.xml");
    assert!(
        document.contains(r#"<w:pStyle w:val="Heading1"/>"#),
        "{document}"
    );
    assert!(document.contains(r#"<w:pStyle w:val="Heading2"/>"#));
}

#[test]
fn the_title_becomes_both_metadata_and_the_first_paragraph() {
    let bytes = build("Body text.");
    assert!(part(&bytes, "docProps/core.xml").contains("<dc:title>A Report</dc:title>"));
    assert!(part(&bytes, "word/document.xml").contains(r#"<w:pStyle w:val="Title"/>"#));
}

#[test]
fn bold_and_italic_become_run_properties() {
    let document = part(&build("plain **bold** *slanted*"), "word/document.xml");
    assert!(document.contains("<w:b/>"), "{document}");
    assert!(document.contains("<w:i/>"));
}

#[test]
fn the_space_between_two_runs_survives() {
    // Without xml:space="preserve" Word eats it, and "plain bold" becomes
    // "plainbold" — which is what "plain **bold**" is made of.
    let document = part(&build("plain **bold**"), "word/document.xml");
    assert!(
        document.contains(r#"<w:t xml:space="preserve">plain </w:t>"#),
        "{document}"
    );
}

#[test]
fn bullets_and_numbers_reference_different_lists() {
    let document = part(&build("- one\n\n1. two"), "word/document.xml");
    assert!(document.contains(r#"<w:numId w:val="1"/>"#), "{document}");
    assert!(document.contains(r#"<w:numId w:val="2"/>"#));
}

#[test]
fn a_nested_bullet_indents_by_its_level() {
    let document = part(&build("- top\n  - nested"), "word/document.xml");
    assert!(document.contains(r#"<w:ilvl w:val="1"/>"#), "{document}");
}

#[test]
fn a_table_gets_a_grid_a_header_row_and_a_paragraph_after_it() {
    let document = part(
        &build("| Name | Count |\n|---|---|\n| a | 1 |"),
        "word/document.xml",
    );
    assert!(document.contains("<w:tbl>"), "{document}");
    assert_eq!(document.matches("<w:gridCol").count(), 2);
    assert!(document.contains("<w:tblHeader/>"), "header rows repeat");
    // Two tables in a row merge into one in Word without a separator.
    assert!(document.contains("</w:tbl><w:p>"), "{document}");
}

#[test]
fn a_ragged_table_row_is_padded_rather_than_dropped() {
    // A model writes a short row often enough that losing the cells after
    // it would be a common, silent corruption.
    let document = part(
        &build("| a | b | c |\n|---|---|---|\n| 1 |"),
        "word/document.xml",
    );
    let rows: Vec<&str> = document.split("<w:tr>").skip(1).collect();
    assert_eq!(rows.len(), 2);
    assert_eq!(rows[1].matches("<w:tc>").count(), 3);
}

#[test]
fn a_code_block_is_one_paragraph_per_line() {
    // Soft breaks inside one paragraph lose their indentation the first
    // time anybody reflows the document.
    let document = part(
        &build("```rust\nlet a = 1;\nlet b = 2;\n```"),
        "word/document.xml",
    );
    assert_eq!(document.matches(r#"<w:pStyle w:val="Code"/>"#).count(), 2);
}

#[test]
fn text_that_looks_like_xml_cannot_break_the_document() {
    let document = part(&build("a < b && c > d, said \"x\""), "word/document.xml");
    assert!(
        document.contains("a &lt; b &amp;&amp; c &gt; d"),
        "{document}"
    );
    // And the body still closes exactly once.
    assert_eq!(document.matches("</w:document>").count(), 1);
}

#[test]
fn a_page_break_is_a_break_run() {
    let document = part(&build("one\n\n\\pagebreak\n\ntwo"), "word/document.xml");
    assert!(document.contains(r#"<w:br w:type="page"/>"#), "{document}");
}

#[test]
fn an_empty_document_still_opens() {
    let document = part(&docx::write(None, &[]), "word/document.xml");
    assert!(document.contains("<w:body>"), "{document}");
    assert!(document.contains("<w:sectPr>"), "a page size is always set");
}

#[test]
fn a_link_keeps_its_target_where_a_reader_can_see_it() {
    let document = part(
        &build("see [the design](https://example.com)"),
        "word/document.xml",
    );
    assert!(
        document.contains("the design (https://example.com)"),
        "{document}"
    );
}

#[test]
fn a_document_without_a_title_has_neither_metadata_nor_a_heading_for_it() {
    let bytes = docx::write(None, &markup::parse("Body text."));
    assert!(!part(&bytes, "word/document.xml").contains(r#"<w:pStyle w:val="Title"/>"#));
    assert_eq!(columns_in(&vec!["a".to_string()], &vec![vec!["1".to_string(), "2".to_string()]]), 2);
    assert_eq!(columns_in(&vec![], &vec![]), 0);
}
