use familiar::office::pptx::{self, Bullet, Slide};

/// Reads one stored part back out of an archive. The entries are stored, so the
/// bytes are there verbatim; an absent part comes back empty.
fn part(bytes: &[u8], name: &str) -> String {
    let mut cursor = 0usize;
    while cursor + 30 <= bytes.len() {
        if &bytes[cursor..cursor + 4] != b"PK\x03\x04" {
            break;
        }
        let size =
            u32::from_le_bytes(bytes[cursor + 18..cursor + 22].try_into().expect("4 bytes"))
                as usize;
        let name_length = u16::from_le_bytes([bytes[cursor + 26], bytes[cursor + 27]]) as usize;
        let extra = u16::from_le_bytes([bytes[cursor + 28], bytes[cursor + 29]]) as usize;
        let start = cursor + 30 + name_length + extra;
        let found = String::from_utf8_lossy(&bytes[cursor + 30..cursor + 30 + name_length]);
        if found == name {
            return String::from_utf8_lossy(&bytes[start..start + size]).to_string();
        }
        cursor = start + size;
    }
    String::new()
}

fn deck() -> Vec<Slide> {
    vec![
        Slide {
            title: "The Design".into(),
            bullets: vec![
                Bullet::new(0, "Local by default"),
                Bullet::new(1, "One GPU"),
            ],
            notes: Some("Open by saying what it is for.".into()),
        },
        Slide::titled("Questions?"),
    ]
}

#[test]
fn every_part_powerpoint_needs_is_present() {
    // Miss one edge of the part graph and PowerPoint offers to repair the
    // file rather than open it.
    let bytes = pptx::write(&deck());
    for required in [
        "[Content_Types].xml",
        "_rels/.rels",
        "ppt/_rels/presentation.xml.rels",
        "ppt/presentation.xml",
        "ppt/slideMasters/slideMaster1.xml",
        "ppt/slideMasters/_rels/slideMaster1.xml.rels",
        "ppt/slideLayouts/slideLayout1.xml",
        "ppt/slideLayouts/_rels/slideLayout1.xml.rels",
        "ppt/theme/theme1.xml",
        "ppt/slides/slide1.xml",
        "ppt/slides/_rels/slide1.xml.rels",
    ] {
        assert!(!part(&bytes, required).is_empty(), "{required} is missing");
    }
}

#[test]
fn every_slide_points_at_the_layout() {
    let bytes = pptx::write(&deck());
    for number in 1..=2 {
        let relationships = part(&bytes, &format!("ppt/slides/_rels/slide{number}.xml.rels"));
        assert!(
            relationships.contains("slideLayouts/slideLayout1.xml"),
            "slide {number}: {relationships}"
        );
    }
}

#[test]
fn slide_ids_start_at_the_minimum_powerpoint_accepts() {
    // Under 256 and PowerPoint rejects the file outright.
    let presentation = part(&pptx::write(&deck()), "ppt/presentation.xml");
    assert!(
        presentation.contains(r#"<p:sldId id="256" r:id="rId2"/>"#),
        "{presentation}"
    );
    assert!(
        presentation.contains(r#"<p:sldId id="257" r:id="rId3"/>"#),
        "{presentation}"
    );
}

#[test]
fn a_title_and_its_bullets_land_in_the_right_placeholders() {
    let slide = part(&pptx::write(&deck()), "ppt/slides/slide1.xml");
    assert!(slide.contains(r#"<p:ph type="title"/>"#), "{slide}");
    assert!(slide.contains("<a:t>The Design</a:t>"), "{slide}");
    assert!(slide.contains(r#"<p:ph idx="1"/>"#), "{slide}");
    assert!(slide.contains("<a:t>Local by default</a:t>"), "{slide}");
}

#[test]
fn a_nested_bullet_carries_its_level() {
    let slide = part(&pptx::write(&deck()), "ppt/slides/slide1.xml");
    assert!(slide.contains(r#"<a:pPr lvl="1"/>"#), "{slide}");
}

#[test]
fn a_slide_with_no_bullets_has_no_body_placeholder() {
    // An empty content box renders as a "Click to add text" prompt in
    // edit view, which is not what a section divider should look like.
    let slide = part(&pptx::write(&deck()), "ppt/slides/slide2.xml");
    assert!(slide.contains("<a:t>Questions?</a:t>"), "{slide}");
    assert!(!slide.contains(r#"<p:ph idx="1"/>"#), "{slide}");
}

#[test]
fn notes_are_written_only_for_the_slides_that_have_them() {
    let bytes = pptx::write(&deck());
    assert!(part(&bytes, "ppt/notesSlides/notesSlide1.xml")
        .contains("Open by saying what it is for."));
    assert!(part(&bytes, "ppt/notesSlides/notesSlide2.xml").is_empty());

    // And the relationship exists exactly where the part does.
    assert!(part(&bytes, "ppt/slides/_rels/slide1.xml.rels").contains("notesSlide1.xml"));
    assert!(!part(&bytes, "ppt/slides/_rels/slide2.xml.rels").contains("notesSlide"));
    assert!(part(&bytes, "[Content_Types].xml").contains("/ppt/notesSlides/notesSlide1.xml"));
}

#[test]
fn a_notes_slide_points_back_at_its_slide() {
    // The edge PowerPoint checks: notes without a backlink are orphaned.
    let relationships = part(
        &pptx::write(&deck()),
        "ppt/notesSlides/_rels/notesSlide1.xml.rels",
    );
    assert!(
        relationships.contains("../slides/slide1.xml"),
        "{relationships}"
    );
}

#[test]
fn the_deck_is_sixteen_by_nine() {
    let presentation = part(&pptx::write(&deck()), "ppt/presentation.xml");
    assert!(
        presentation.contains(r#"<p:sldSz cx="12192000" cy="6858000"/>"#),
        "{presentation}"
    );
}

#[test]
fn bold_in_a_bullet_becomes_a_run_property() {
    let slides = vec![Slide {
        title: "T".into(),
        bullets: vec![Bullet::new(0, "plain **bold** end")],
        notes: None,
    }];
    let slide = part(&pptx::write(&slides), "ppt/slides/slide1.xml");
    assert!(slide.contains(r#"b="1""#), "{slide}");
    assert!(slide.contains("<a:t>bold</a:t>"), "{slide}");
}

#[test]
fn text_that_looks_like_xml_cannot_break_a_slide() {
    let slides = vec![Slide::titled("a < b & c")];
    let slide = part(&pptx::write(&slides), "ppt/slides/slide1.xml");
    assert!(slide.contains("a &lt; b &amp; c"), "{slide}");
    assert_eq!(slide.matches("</p:sld>").count(), 1);
}

#[test]
fn an_empty_deck_opens_as_a_blank_presentation() {
    let bytes = pptx::write(&[]);
    assert!(!part(&bytes, "ppt/slides/slide1.xml").is_empty());
    assert!(part(&bytes, "ppt/presentation.xml").contains(r#"id="256""#));
}

#[test]
fn a_bullet_level_beyond_the_master_is_clamped_rather_than_lost() {
    // The master defines five levels; a sixth would inherit nothing and
    // render unindented with no bullet character.
    assert_eq!(Bullet::new(9, "deep").level, 4);
}
