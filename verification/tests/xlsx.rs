use familiar::office::xlsx::{self, column_name, sanitise, shorten, Cell, Sheet};

/// Reads one stored part back out of an archive. The entries are stored, so the
/// bytes are there verbatim; an absent part comes back empty.
fn part(bytes: &[u8], name: &str) -> String {
    let mut cursor = 0usize;
    while cursor + 30 <= bytes.len() {
        if &bytes[cursor..cursor + 4] != b"PK\x03\x04" {
            break;
        }
        let size =
            u32::from_le_bytes(bytes[cursor + 18..cursor + 22].try_into().expect("4 bytes"))
                as usize;
        let name_length = u16::from_le_bytes([bytes[cursor + 26], bytes[cursor + 27]]) as usize;
        let extra = u16::from_le_bytes([bytes[cursor + 28], bytes[cursor + 29]]) as usize;
        let start = cursor + 30 + name_length + extra;
        let found = String::from_utf8_lossy(&bytes[cursor + 30..cursor + 30 + name_length]);
        if found == name {
            return String::from_utf8_lossy(&bytes[start..start + size]).to_string();
        }
        cursor = start + size;
    }
    String::new()
}

/// A number as it is written in a cell.
fn number_text(number: f64) -> String {
    if number == number.trunc() && number.abs() < 1e15 {
        return format!("{}", number as i64);
    }
    let text = format!("{number}");
    if text.contains('e') || text.contains('E') {
        return shorten(&format!("{number:.10}"));
    }
    text
}

fn number(number: f64) -> Cell {
    Cell::Number(number_text(number))
}

/// A cell from its text, with the numbers read by the standard library.
fn infer(text: &str) -> Cell {
    let cleaned = Cell::cleaned(text);
    let percent = cleaned
        .strip_suffix('%')
        .and_then(|percent| percent.parse::<f64>().ok())
        .map(|number| number_text(number / 100.0));
    let whole = cleaned
        .parse::<f64>()
        .ok()
        .filter(|number| number.is_finite())
        .map(number_text);
    Cell::infer(text, percent.as_deref(), whole.as_deref())
}

fn sheet_of(rows: &[&[&str]]) -> Sheet {
    let mut sheet = Sheet::new("Data");
    sheet.rows = rows
        .iter()
        .map(|row| row.iter().map(|text| infer(text)).collect())
        .collect();
    sheet
}

#[test]
fn numbers_are_numbers_and_words_are_words() {
    // The whole reason to ask for xlsx rather than csv: a number stored as
    // text cannot be summed, sorted or charted, and looks identical.
    assert_eq!(infer("42"), number(42.0));
    assert_eq!(infer("-3.5"), number(-3.5));
    assert_eq!(infer("1,234"), number(1234.0));
    assert_eq!(infer("£1,250.50"), number(1250.5));
    assert_eq!(infer("12%"), number(0.12));
    assert_eq!(infer("Revenue"), Cell::Text("Revenue".into()));
}

#[test]
fn a_leading_zero_is_kept_as_text() {
    // An order number, a postcode or a part code turned into a number is
    // data loss no formatting can undo.
    assert_eq!(infer("007"), Cell::Text("007".into()));
    assert_eq!(infer("0"), number(0.0));
    assert_eq!(infer("0.5"), number(0.5));
}

#[test]
fn words_that_parse_as_numbers_are_still_words() {
    // `"NaN".parse::<f64>()` succeeds, and a column of test outcomes that
    // says NaN means the word.
    assert_eq!(infer("NaN"), Cell::Text("NaN".into()));
    assert_eq!(infer("inf"), Cell::Text("inf".into()));
    assert_eq!(infer("infinity"), Cell::Text("infinity".into()));
}

#[test]
fn formulas_and_booleans_are_told_apart_from_text() {
    assert_eq!(
        infer("=SUM(B2:B10)"),
        Cell::Formula("SUM(B2:B10)".into())
    );
    assert_eq!(infer("TRUE"), Cell::Bool(true));
    assert_eq!(infer("false"), Cell::Bool(false));
    assert_eq!(infer("="), Cell::Text("=".into()));
    assert_eq!(infer(""), Cell::Empty);
}

#[test]
fn columns_are_named_in_bijective_base_twenty_six() {
    // The usual bug: 26 becomes "BA" or "A@" rather than "AA".
    assert_eq!(column_name(0), "A");
    assert_eq!(column_name(25), "Z");
    assert_eq!(column_name(26), "AA");
    assert_eq!(column_name(51), "AZ");
    assert_eq!(column_name(52), "BA");
    assert_eq!(column_name(701), "ZZ");
    assert_eq!(column_name(702), "AAA");
}

#[test]
fn a_workbook_holds_every_part_excel_needs() {
    let bytes = xlsx::write(&[sheet_of(&[&["Name", "Count"], &["a", "1"]])]);
    for required in [
        "[Content_Types].xml",
        "_rels/.rels",
        "xl/_rels/workbook.xml.rels",
        "xl/workbook.xml",
        "xl/styles.xml",
        "xl/sharedStrings.xml",
        "xl/worksheets/sheet1.xml",
    ] {
        assert!(!part(&bytes, required).is_empty(), "{required} is missing");
    }
}

#[test]
fn a_number_cell_carries_a_value_and_a_text_cell_an_index() {
    let bytes = xlsx::write(&[sheet_of(&[&["Name", "Count"], &["a", "42"]])]);
    let sheet = part(&bytes, "xl/worksheets/sheet1.xml");
    assert!(sheet.contains(r#"<c r="B2"><v>42</v></c>"#), "{sheet}");
    assert!(
        sheet.contains(r#"t="s""#),
        "text goes through shared strings"
    );
}

#[test]
fn a_repeated_string_is_stored_once() {
    let bytes = xlsx::write(&[sheet_of(&[&["x"], &["same"], &["same"], &["same"]])]);
    let strings = part(&bytes, "xl/sharedStrings.xml");
    assert!(strings.contains(r#"count="4""#), "{strings}");
    assert!(strings.contains(r#"uniqueCount="2""#), "{strings}");
    assert_eq!(strings.matches("<si>").count(), 2);
}

#[test]
fn the_header_row_is_styled_frozen_and_filterable() {
    let bytes = xlsx::write(&[sheet_of(&[&["Name", "Count"], &["a", "1"]])]);
    let sheet = part(&bytes, "xl/worksheets/sheet1.xml");
    assert!(
        sheet.contains(r#"s="1""#),
        "header cells are styled: {sheet}"
    );
    assert!(sheet.contains(r#"state="frozen""#), "{sheet}");
    assert!(sheet.contains(r#"<autoFilter ref="A1:B2"/>"#), "{sheet}");
}

#[test]
fn a_sheet_without_a_header_is_neither_frozen_nor_filtered() {
    let mut sheet = sheet_of(&[&["a", "1"]]);
    sheet.header = false;
    let body = part(&xlsx::write(&[sheet]), "xl/worksheets/sheet1.xml");
    assert!(!body.contains("frozen"), "{body}");
    assert!(!body.contains("autoFilter"), "{body}");
}

#[test]
fn sheet_names_excel_would_refuse_are_fixed_rather_than_passed_on() {
    // Excel rejects the whole file, not just the name, so this cannot be
    // left to the caller.
    assert_eq!(sanitise("Q1/Q2 [draft]"), "Q1-Q2 -draft-");
    assert_eq!(sanitise(""), "Sheet1");
    assert_eq!(sanitise(&"x".repeat(40)).chars().count(), 31);
}

#[test]
fn two_sheets_of_the_same_name_get_different_ones() {
    // Duplicate names make Excel announce that the file needs repair.
    let bytes = xlsx::write(&[Sheet::new("Data"), Sheet::new("Data")]);
    let workbook = part(&bytes, "xl/workbook.xml");
    assert!(workbook.contains(r#"name="Data""#), "{workbook}");
    assert!(workbook.contains(r#"name="Data (2)""#), "{workbook}");
}

#[test]
fn every_sheet_gets_its_own_part_and_relationship() {
    let bytes = xlsx::write(&[Sheet::new("One"), Sheet::new("Two"), Sheet::new("Three")]);
    assert!(!part(&bytes, "xl/worksheets/sheet3.xml").is_empty());
    let relationships = part(&bytes, "xl/_rels/workbook.xml.rels");
    assert!(
        relationships.contains("worksheets/sheet3.xml"),
        "{relationships}"
    );
    assert!(part(&bytes, "[Content_Types].xml").contains("/xl/worksheets/sheet3.xml"));
}

#[test]
fn a_workbook_with_no_sheets_still_opens() {
    let bytes = xlsx::write(&[]);
    assert!(
        part(&bytes, "xl/workbook.xml").contains("<sheet "),
        "one sheet is made"
    );
}

#[test]
fn text_that_looks_like_xml_cannot_break_the_workbook() {
    let bytes = xlsx::write(&[sheet_of(&[&["a & b <c>"]])]);
    let strings = part(&bytes, "xl/sharedStrings.xml");
    assert!(strings.contains("a &amp; b &lt;c&gt;"), "{strings}");
    assert_eq!(strings.matches("</sst>").count(), 1);
}

#[test]
fn a_whole_number_is_not_written_with_a_trailing_zero() {
    // `<v>42.0</v>` is legal and makes every integer column look like a
    // decimal one once Excel picks a format from the data.
    assert_eq!(number_text(42.0), "42");
    assert_eq!(number_text(-7.0), "-7");
    assert_eq!(number_text(0.5), "0.5");
    assert!(!number_text(0.000_001).contains('e'), "no exponent form");
}

#[test]
fn a_ragged_row_does_not_shift_the_cells_after_it() {
    // Cells carry their own reference, so a short row leaves a gap rather
    // than sliding the next row's values into the wrong column.
    let bytes = xlsx::write(&[sheet_of(&[&["a", "b", "c"], &["1"], &["1", "2", "3"]])]);
    let sheet = part(&bytes, "xl/worksheets/sheet1.xml");
    assert!(sheet.contains(r#"<c r="C3">"#), "{sheet}");
}

#[test]
fn a_decimal_loses_only_the_zeros_behind_it() {
    assert_eq!(shorten("0.0000010000"), "0.000001");
    assert_eq!(shorten("42.0000"), "42");
    assert_eq!(shorten("1.5"), "1.5");
}

#[test]
fn a_number_is_cleaned_before_it_is_read() {
    assert_eq!(Cell::cleaned(" £1,250.50 "), "1250.50");
    assert_eq!(Cell::cleaned("1\u{a0}000 €"), "1000");
    assert_eq!(infer("+44 7700 900123 x"), Cell::Text("+44 7700 900123 x".to_string()));
}

#[test]
fn a_written_name_is_one_the_format_accepts() {
    let long = "x".repeat(31);
    let bytes = xlsx::write(&[Sheet::new(&long), Sheet::new(&long)]);
    let workbook = part(&bytes, "xl/workbook.xml");
    assert!(workbook.contains(&format!(r#"name="{} (2)""#, "x".repeat(27))), "{workbook}");
    assert_eq!(sanitise("'quoted'"), "quoted");
    let bytes = xlsx::write(&[Sheet::new("Data"), Sheet::new("data"), Sheet::new("DATA")]);
    let workbook = part(&bytes, "xl/workbook.xml");
    for name in ["Data", "data (2)", "DATA (3)"] {
        assert!(workbook.contains(&format!(r#"name="{name}""#)), "{workbook}");
    }
}

#[test]
fn a_phone_number_is_text() {
    assert_eq!(infer("+44 7700 900123"), Cell::Text("+44 7700 900123".to_string()));
    assert_eq!(infer("+447700900123"), Cell::Text("+447700900123".to_string()));
    assert_eq!(infer("+123 4567"), Cell::Text("+123 4567".to_string()));
}

#[test]
fn a_signed_number_is_a_number() {
    assert_eq!(infer("+5"), Cell::Number("5".to_string()));
    assert_eq!(infer("+1"), Cell::Number("1".to_string()));
    assert_eq!(infer("-1"), Cell::Number("-1".to_string()));
    assert_eq!(infer("+123 456"), Cell::Number("123456".to_string()));
    assert_eq!(infer("+1,234,567"), Cell::Number("1234567".to_string()));
    assert_eq!(infer("+5%"), Cell::Number("0.05".to_string()));
}

#[test]
fn a_name_made_by_a_number_is_taken_too() {
    let named = |names: &[&str]| {
        let sheets: Vec<Sheet> = names.iter().map(|name| Sheet::new(name)).collect();
        xlsx::names_for(&sheets)
    };
    assert_eq!(named(&["Data", "Data", "Data (2)"]), vec!["Data", "Data (2)", "Data (2) (2)"]);
    assert_eq!(named(&["Data (2)", "data", "DATA"]), vec!["Data (2)", "data", "DATA (3)"]);
    let long = "n".repeat(31);
    let names = named(&[&long, &long, &long]);
    assert_eq!(names[1], format!("{} (2)", "n".repeat(27)));
    assert_eq!(names[2], format!("{} (3)", "n".repeat(27)));
}
