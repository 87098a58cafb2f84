use familiar::office::zip::{crc32, Archive};

/// The published check value for CRC-32: "123456789" is 0xCBF43926.
#[test]
fn the_checksum_matches_the_published_check_value() {
    assert_eq!(crc32(b"123456789"), 0xCBF4_3926);
    assert_eq!(crc32(b""), 0);
}

#[test]
fn an_archive_starts_with_a_local_header_and_ends_with_the_directory() {
    let mut archive = Archive::new();
    archive.add_text("[Content_Types].xml", "<Types/>");
    let bytes = archive.finish();

    assert_eq!(&bytes[..4], b"PK\x03\x04");
    assert_eq!(&bytes[bytes.len() - 22..bytes.len() - 18], b"PK\x05\x06");
}

#[test]
fn the_end_record_points_at_a_directory_holding_every_entry() {
    let mut archive = Archive::new();
    archive.add_text("one.xml", "<a/>");
    archive.add_text("two/three.xml", "<b/>");
    let bytes = archive.finish();

    let end = bytes.len() - 22;
    let count = u16::from_le_bytes([bytes[end + 10], bytes[end + 11]]);
    let size = u32::from_le_bytes(bytes[end + 12..end + 16].try_into().expect("4 bytes"));
    let start = u32::from_le_bytes(bytes[end + 16..end + 20].try_into().expect("4 bytes"));

    assert_eq!(count, 2);
    assert_eq!(start as usize + size as usize, end);
    assert_eq!(&bytes[start as usize..start as usize + 4], b"PK\x01\x02");
}

#[test]
fn every_entry_is_findable_at_the_offset_the_directory_gives() {
    // The one thing a reader cannot recover from: an offset that does not
    // land on a local header means the part is unreachable.
    let mut archive = Archive::new();
    archive.add_text("word/document.xml", "<w:document/>");
    archive.add_text("_rels/.rels", "<Relationships/>");
    let bytes = archive.finish();

    let end = bytes.len() - 22;
    let mut cursor =
        u32::from_le_bytes(bytes[end + 16..end + 20].try_into().expect("4 bytes")) as usize;
    for _ in 0..2 {
        assert_eq!(&bytes[cursor..cursor + 4], b"PK\x01\x02");
        let name_length = u16::from_le_bytes([bytes[cursor + 28], bytes[cursor + 29]]) as usize;
        let offset =
            u32::from_le_bytes(bytes[cursor + 42..cursor + 46].try_into().expect("4 bytes"))
                as usize;
        assert_eq!(&bytes[offset..offset + 4], b"PK\x03\x04");
        cursor += 46 + name_length;
    }
}

#[test]
fn a_stored_entry_holds_its_contents_verbatim() {
    let mut archive = Archive::new();
    archive.add_text("word/document.xml", "<w:t>hello</w:t>");
    let bytes = archive.finish();
    let found = bytes
        .windows(16)
        .any(|window| window == b"<w:t>hello</w:t>");
    assert!(found, "the part is not in the archive as written");
}

#[test]
fn the_same_document_written_twice_is_byte_identical() {
    // No clock in the headers, so a test can assert on content.
    let build = || {
        let mut archive = Archive::new();
        archive.add_text("a.xml", "<a/>");
        archive.finish()
    };
    assert_eq!(build(), build());
}

#[test]
fn part_names_always_use_forward_slashes() {
    let mut archive = Archive::new();
    archive.add_text("word\\document.xml", "<a/>");
    let bytes = archive.finish();
    assert!(bytes
        .windows(17)
        .any(|window| window == b"word/document.xml"));
}

#[test]
fn an_entry_records_the_size_and_the_checksum_of_its_contents() {
    let mut archive = Archive::new();
    archive.add("a", b"123456789");
    let bytes = archive.finish();
    assert_eq!(&bytes[14..18], &0xCBF4_3926u32.to_le_bytes()[..]);
    assert_eq!(&bytes[18..22], &9u32.to_le_bytes()[..]);
    assert_eq!(&bytes[31..40], b"123456789");
}
