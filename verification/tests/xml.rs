use familiar::office::xml::escape;

#[test]
fn the_five_predefined_entities_are_escaped() {
    assert_eq!(
        escape(r#"<a href="x">&'</a>"#),
        "&lt;a href=&quot;x&quot;&gt;&amp;&apos;&lt;/a&gt;"
    );
}

#[test]
fn an_ampersand_is_not_escaped_twice() {
    // Escaping `<` first would turn it into `&lt;` and then into
    // `&amp;lt;`, which Word renders as the literal text "&lt;".
    assert_eq!(escape("a < b"), "a &lt; b");
    assert_eq!(escape("&amp;"), "&amp;amp;");
}

#[test]
fn whitespace_that_xml_allows_survives() {
    assert_eq!(escape("a\tb\nc\r"), "a\tb\nc\r");
}

#[test]
fn a_control_character_is_dropped_rather_than_written() {
    // XML 1.0 cannot represent these at all, so a document containing one
    // does not parse — for any reader, not just Word.
    assert_eq!(escape("a\u{0}b\u{7}c\u{1b}d"), "abcd");
}

#[test]
fn ordinary_text_is_untouched() {
    assert_eq!(
        escape("Straightforward — with an em dash."),
        "Straightforward — with an em dash."
    );
}

#[test]
fn escaping_two_texts_is_escaping_them_one_after_the_other() {
    let (a, b) = ("a < b", "& \"c\"\u{1}");
    assert_eq!(escape(&format!("{a}{b}")), format!("{}{}", escape(a), escape(b)));
}
