use familiar::images::{base64, directory, is_safe_name, join, sniff, Attachment};

/// A one-pixel PNG.
const PNG: &[u8] = &[
    0x89, 0x50, 0x4e, 0x47, 0x0d, 0x0a, 0x1a, 0x0a, 0x00, 0x00, 0x00, 0x0d, 0x49, 0x48, 0x44,
    0x52, 0x00, 0x00, 0x00, 0x01, 0x00, 0x00, 0x00, 0x01, 0x08, 0x06, 0x00, 0x00, 0x00, 0x1f,
    0x15, 0xc4, 0x89, 0x00, 0x00, 0x00, 0x0a, 0x49, 0x44, 0x41, 0x54, 0x78, 0x9c, 0x63, 0x00,
    0x01, 0x00, 0x00, 0x05, 0x00, 0x01, 0x0d, 0x0a, 0x2d, 0xb4, 0x00, 0x00, 0x00, 0x00, 0x49,
    0x45, 0x4e, 0x44, 0xae, 0x42, 0x60, 0x82,
];

fn digest(bytes: &[u8]) -> String {
    // The property under test is
    // that the name comes from the bytes, not which hash it is.
    format!(
        "{:016x}",
        bytes
            .iter()
            .fold(0u64, |a, b| a.wrapping_mul(31).wrapping_add(u64::from(*b)))
    )
}

#[test]
fn base64_matches_the_definition() {
    assert_eq!(base64(b""), "");
    assert_eq!(base64(b"f"), "Zg==");
    assert_eq!(base64(b"fo"), "Zm8=");
    assert_eq!(base64(b"foo"), "Zm9v");
    assert_eq!(base64(b"foob"), "Zm9vYg==");
    assert_eq!(base64(b"fooba"), "Zm9vYmE=");
    assert_eq!(base64(b"foobar"), "Zm9vYmFy");
}

#[test]
fn the_format_is_read_from_the_bytes_not_the_name() {
    assert_eq!(sniff(PNG), Some("image/png"));
    assert_eq!(sniff(&[0xff, 0xd8, 0xff, 0xe0]), Some("image/jpeg"));
    assert_eq!(sniff(b"GIF89a..."), Some("image/gif"));
    assert_eq!(sniff(b"not an image"), None);
}

#[test]
fn something_that_is_not_an_image_is_not_attached() {
    assert!(Attachment::new(b"a text file".to_vec(), &digest(b"a text file")).is_none());
}

#[test]
fn a_reference_cannot_climb_out_of_the_images_directory() {
    for name in ["../../../etc/passwd", ".hidden", "a/b.png", ""] {
        assert!(!is_safe_name(name), "{name}");
    }
}

#[test]
fn the_data_url_says_what_the_bytes_are() {
    let attachment = Attachment::new(PNG.to_vec(), &digest(PNG)).expect("an image");
    let url = attachment.data_url();
    assert!(url.starts_with("data:image/png;base64,"), "{url}");
    assert!(url.len() > 40, "{url}");
}

#[test]
fn the_same_bytes_get_the_same_name_and_the_same_place() {
    let first = Attachment::new(PNG.to_vec(), &digest(PNG)).expect("an image");
    let second = Attachment::new(PNG.to_vec(), &digest(PNG)).expect("an image");
    assert_eq!(first.name, second.name);
    assert!(first.name.ends_with(".png"), "{}", first.name);
    assert_eq!(first.name, format!("{}.png", digest(PNG)));
    assert!(is_safe_name(&first.name));
    assert_eq!(join(&directory("/home/a/context"), "x.png"), "/home/a/context/images/x.png");
    assert_eq!(directory("/home/a/"), "/home/a/images");
}

#[test]
fn every_format_is_told_by_its_first_bytes() {
    assert_eq!(sniff(b"GIF87a"), Some("image/gif"));
    assert_eq!(sniff(b"RIFF\x00\x00\x00\x00WEBPVP8 "), Some("image/webp"));
    assert_eq!(sniff(b"RIFF\x00\x00\x00\x00WAVE"), None);
    assert_eq!(sniff(&[]), None);
    let jpeg = Attachment::new(vec![0xff, 0xd8, 0xff, 0xe0], "ab").expect("an image");
    assert_eq!(jpeg.name, "ab.jpeg");
    assert_eq!(jpeg.media_type, "image/jpeg");
}

#[test]
fn the_encoding_reads_back() {
    // Decoded by hand, four letters to three bytes.
    let letters = "ABCDEFGHIJKLMNOPQRSTUVWXYZabcdefghijklmnopqrstuvwxyz0123456789+/";
    let bytes: Vec<u8> = (0..=255u8).collect();
    let text = base64(&bytes);
    assert_eq!(text.len(), 344);
    let mut back: Vec<u8> = Vec::new();
    let mut held: u32 = 0;
    let mut bits: u32 = 0;
    for c in text.chars().filter(|c| *c != '=') {
        held = (held << 6) | letters.find(c).expect("a letter") as u32;
        bits += 6;
        if bits >= 8 {
            bits -= 8;
            back.push((held >> bits) as u8);
            held &= (1 << bits) - 1;
        }
    }
    assert_eq!(back, bytes);
}

#[test]
fn the_cost_of_an_image_is_bounded() {
    let mut image = Attachment::new(PNG.to_vec(), "x").expect("an image");
    assert_eq!(image.approximate_tokens(), 200);
    image.bytes = vec![0; 1_400_000];
    assert_eq!(image.approximate_tokens(), 1000);
    image.bytes = vec![0; 14_000_000];
    assert_eq!(image.approximate_tokens(), 3000);
}
