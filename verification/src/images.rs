//! Images you attach to a question.
//!
//! An image is content-addressed: the file is named by the digest of its bytes,
//! so pasting the same screenshot into three conversations stores it once.

use crate::text;
use vstd::prelude::*;

verus! {

/// What the model is sent, and what the composer shows.
#[derive(Debug, Clone, PartialEq, Eq)]
pub struct Attachment {
    /// `<digest>.<extension>`, which is both the file name and the identity.
    pub name: String,
    pub media_type: String,
    pub bytes: Vec<u8>,
}

/// A kind of image.
#[derive(Debug, Clone, Copy, PartialEq, Eq, Structural)]
pub enum Format {
    Png,
    Jpeg,
    Gif,
    Webp,
}

/// Whether bytes begin with others.
pub open spec fn begins(bytes: Seq<u8>, magic: Seq<u8>) -> bool {
    bytes.len() >= magic.len() && bytes.take(magic.len() as int) == magic
}

/// What kind of image some bytes are, by their magic number.
pub open spec fn format_of(bytes: Seq<u8>) -> Option<Format> {
    if begins(bytes, seq![0x89u8, 0x50, 0x4e, 0x47, 0x0d, 0x0a, 0x1a, 0x0a]) {
        Some(Format::Png)
    } else if begins(bytes, seq![0xffu8, 0xd8, 0xff]) {
        Some(Format::Jpeg)
    } else if begins(bytes, seq![0x47u8, 0x49, 0x46, 0x38, 0x37, 0x61]) || begins(
        bytes,
        seq![0x47u8, 0x49, 0x46, 0x38, 0x39, 0x61],
    ) {
        Some(Format::Gif)
    } else if bytes.len() > 12 && begins(bytes, seq![0x52u8, 0x49, 0x46, 0x46])
        && bytes.subrange(8, 12) == seq![0x57u8, 0x45, 0x42, 0x50] {
        Some(Format::Webp)
    } else {
        None
    }
}

/// The media type of a kind of image.
pub open spec fn media_type(format: Format) -> Seq<char> {
    match format {
        Format::Png => "image/png"@,
        Format::Jpeg => "image/jpeg"@,
        Format::Gif => "image/gif"@,
        Format::Webp => "image/webp"@,
    }
}

/// The extension of a kind of image.
pub open spec fn extension(format: Format) -> Seq<char> {
    match format {
        Format::Png => "png"@,
        Format::Jpeg => "jpeg"@,
        Format::Gif => "gif"@,
        Format::Webp => "webp"@,
    }
}

fn starts(bytes: &[u8], magic: &Vec<u8>) -> (r: bool)
    ensures
        r == begins(bytes@, magic@),
{
    if bytes.len() < magic.len() {
        return false;
    }
    let mut i: usize = 0;
    while i < magic.len()
        invariant
            0 <= i <= magic.len() <= bytes.len(),
            forall|j: int| 0 <= j < i ==> bytes@[j] == magic@[j],
        decreases magic.len() - i,
    {
        if bytes[i] != magic[i] {
            assert(bytes@.take(magic@.len() as int)[i as int] != magic@[i as int]);
            return false;
        }
        i = i + 1;
    }
    assert(bytes@.take(magic@.len() as int) =~= magic@);
    true
}

fn recognise(bytes: &[u8]) -> (r: Option<Format>)
    ensures
        r == format_of(bytes@),
{
    let png: Vec<u8> = vec![0x89u8, 0x50, 0x4e, 0x47, 0x0d, 0x0a, 0x1a, 0x0a];
    assert(png@ =~= seq![0x89u8, 0x50, 0x4e, 0x47, 0x0d, 0x0a, 0x1a, 0x0a]);
    if starts(bytes, &png) {
        return Some(Format::Png);
    }
    let jpeg: Vec<u8> = vec![0xffu8, 0xd8, 0xff];
    assert(jpeg@ =~= seq![0xffu8, 0xd8, 0xff]);
    if starts(bytes, &jpeg) {
        return Some(Format::Jpeg);
    }
    let older: Vec<u8> = vec![0x47u8, 0x49, 0x46, 0x38, 0x37, 0x61];
    assert(older@ =~= seq![0x47u8, 0x49, 0x46, 0x38, 0x37, 0x61]);
    let newer: Vec<u8> = vec![0x47u8, 0x49, 0x46, 0x38, 0x39, 0x61];
    assert(newer@ =~= seq![0x47u8, 0x49, 0x46, 0x38, 0x39, 0x61]);
    if starts(bytes, &older) || starts(bytes, &newer) {
        return Some(Format::Gif);
    }
    let riff: Vec<u8> = vec![0x52u8, 0x49, 0x46, 0x46];
    assert(riff@ =~= seq![0x52u8, 0x49, 0x46, 0x46]);
    if bytes.len() > 12 && starts(bytes, &riff) {
        let webp = bytes[8] == 0x57 && bytes[9] == 0x45 && bytes[10] == 0x42 && bytes[11] == 0x50;
        proof {
            let found = bytes@.subrange(8, 12);
            let wanted = seq![0x57u8, 0x45, 0x42, 0x50];
            assert(found[0] == bytes@[8] && found[1] == bytes@[9] && found[2] == bytes@[10]
                && found[3] == bytes@[11]);
            if webp {
                assert(found =~= wanted);
            } else {
                assert(wanted[0] == 0x57 && wanted[1] == 0x45 && wanted[2] == 0x42 && wanted[3]
                    == 0x50);
            }
        }
        if webp {
            return Some(Format::Webp);
        }
    }
    None
}

/// What kind of image these bytes are, by their magic number.
pub fn sniff(bytes: &[u8]) -> (r: Option<&'static str>)
    ensures
        match r {
            Some(name) => format_of(bytes@) is Some && name@ == media_type(format_of(bytes@)->0),
            None => format_of(bytes@) is None,
        },
{
    match recognise(bytes) {
        Some(Format::Png) => Some("image/png"),
        Some(Format::Jpeg) => Some("image/jpeg"),
        Some(Format::Gif) => Some("image/gif"),
        Some(Format::Webp) => Some("image/webp"),
        None => None,
    }
}

// ---------------------------------------------------------------------------
// Base64
// ---------------------------------------------------------------------------

/// The character for a value of six bits.
pub open spec fn letter(n: int) -> char {
    if n < 26 {
        (n + 0x41) as char
    } else if n < 52 {
        (n - 26 + 0x61) as char
    } else if n < 62 {
        (n - 52 + 0x30) as char
    } else if n == 62 {
        '+'
    } else {
        '/'
    }
}

/// The three bytes of a group, as one number.
pub open spec fn block(a: u8, b: u8, c: u8) -> u32 {
    ((a as u32) << 16) | ((b as u32) << 8) | (c as u32)
}

/// The six bits of a group that the `k`th character stands for.
pub open spec fn sextet(group: u32, k: int) -> u32 {
    if k == 0 {
        (group >> 18) & 0x3f
    } else if k == 1 {
        (group >> 12) & 0x3f
    } else if k == 2 {
        (group >> 6) & 0x3f
    } else {
        group & 0x3f
    }
}

/// The four characters of a group of up to three bytes.
pub open spec fn encoded_group(bytes: Seq<u8>) -> Seq<char> {
    if bytes.len() >= 3 {
        let group = block(bytes[0], bytes[1], bytes[2]);
        seq![
            letter(sextet(group, 0) as int),
            letter(sextet(group, 1) as int),
            letter(sextet(group, 2) as int),
            letter(sextet(group, 3) as int),
        ]
    } else if bytes.len() == 2 {
        let group = block(bytes[0], bytes[1], 0);
        seq![
            letter(sextet(group, 0) as int),
            letter(sextet(group, 1) as int),
            letter(sextet(group, 2) as int),
            '=',
        ]
    } else {
        let group = block(bytes[0], 0, 0);
        seq![letter(sextet(group, 0) as int), letter(sextet(group, 1) as int), '=', '=']
    }
}

/// Bytes in Base64: group by group, three bytes to four characters.
pub open spec fn encoded(bytes: Seq<u8>) -> Seq<char>
    decreases bytes.len(),
{
    if bytes.len() == 0 {
        Seq::empty()
    } else if bytes.len() <= 3 {
        encoded_group(bytes)
    } else {
        encoded_group(bytes.take(3)) + encoded(bytes.skip(3))
    }
}

fn push_letter(out: &mut String, n: u32)
    requires
        n < 64,
    ensures
        final(out)@ == old(out)@.push(letter(n as int)),
{
    let c = if n < 26 {
        (n as u8 + 0x41u8) as char
    } else if n < 52 {
        (n as u8 - 26u8 + 0x61u8) as char
    } else if n < 62 {
        (n as u8 - 52u8 + 0x30u8) as char
    } else if n == 62 {
        '+'
    } else {
        '/'
    };
    out.push(c);
}

fn push_group(out: &mut String, a: u8, b: Option<u8>, c: Option<u8>)
    requires
        c is Some ==> b is Some,
    ensures
        final(out)@ == old(out)@ + encoded_group(
            match (b, c) {
                (Some(y), Some(z)) => seq![a, y, z],
                (Some(y), None) => seq![a, y],
                _ => seq![a],
            },
        ),
{
    let y: u8 = match b {
        Some(y) => y,
        None => 0,
    };
    let z: u8 = match c {
        Some(z) => z,
        None => 0,
    };
    let group: u32 = ((a as u32) << 16) | ((y as u32) << 8) | (z as u32);
    assert((group >> 18) & 0x3f < 64 && (group >> 12) & 0x3f < 64 && (group >> 6) & 0x3f < 64
        && group & 0x3f < 64) by (bit_vector);
    push_letter(out, (group >> 18) & 0x3f);
    push_letter(out, (group >> 12) & 0x3f);
    if b.is_some() {
        push_letter(out, (group >> 6) & 0x3f);
    } else {
        out.push('=');
    }
    if c.is_some() {
        push_letter(out, group & 0x3f);
    } else {
        out.push('=');
    }
    assert(out@ =~= old(out)@ + encoded_group(
        match (b, c) {
            (Some(y), Some(z)) => seq![a, y, z],
            (Some(y), None) => seq![a, y],
            _ => seq![a],
        },
    ));
}

/// Bytes in Base64.
pub fn base64(bytes: &[u8]) -> (r: String)
    ensures
        r@ == encoded(bytes@),
{
    let mut r = String::new();
    let mut i: usize = 0;
    assert(bytes@.skip(0) =~= bytes@);
    assert(r@ + encoded(bytes@) =~= encoded(bytes@));
    while i < bytes.len()
        invariant
            0 <= i <= bytes.len(),
            encoded(bytes@) == r@ + encoded(bytes@.skip(i as int)),
        decreases bytes.len() - i,
    {
        let ghost rest = bytes@.skip(i as int);
        let ghost before = r@;
        let left: usize = bytes.len() - i;
        if left > 3 {
            push_group(&mut r, bytes[i], Some(bytes[i + 1]), Some(bytes[i + 2]));
            proof {
                assert(rest.take(3) =~= seq![bytes@[i as int], bytes@[i + 1], bytes@[i + 2]]);
                assert(rest.skip(3) =~= bytes@.skip(i + 3));
                let group = encoded_group(rest.take(3));
                assert(before + (group + encoded(rest.skip(3))) =~= before + group + encoded(
                    rest.skip(3),
                ));
            }
            i = i + 3;
        } else {
            if left == 3 {
                push_group(&mut r, bytes[i], Some(bytes[i + 1]), Some(bytes[i + 2]));
                assert(rest =~= seq![bytes@[i as int], bytes@[i + 1], bytes@[i + 2]]);
            } else if left == 2 {
                push_group(&mut r, bytes[i], Some(bytes[i + 1]), None);
                assert(rest =~= seq![bytes@[i as int], bytes@[i + 1]]);
            } else {
                push_group(&mut r, bytes[i], None, None);
                assert(rest =~= seq![bytes@[i as int]]);
            }
            i = bytes.len();
            assert(bytes@.skip(i as int) =~= Seq::empty());
            assert(r@ + Seq::<char>::empty() =~= r@);
        }
    }
    assert(bytes@.skip(i as int) =~= Seq::empty());
    assert(r@ + Seq::<char>::empty() =~= r@);
    r
}

/// The value of six bits that a character stands for.
pub open spec fn value(c: char) -> int {
    if 'A' <= c && c <= 'Z' {
        c as int - 0x41
    } else if 'a' <= c && c <= 'z' {
        c as int - 0x61 + 26
    } else if '0' <= c && c <= '9' {
        c as int - 0x30 + 52
    } else if c == '+' {
        62
    } else {
        63
    }
}

/// The bytes of a group of four characters.
pub open spec fn decoded_group(s: Seq<char>) -> Seq<u8> {
    let i = value(s[0]) as u32;
    let j = value(s[1]) as u32;
    let k = value(s[2]) as u32;
    let l = value(s[3]) as u32;
    let a = ((i << 2) | (j >> 4)) as u8;
    let b = (((j & 0xf) << 4) | (k >> 2)) as u8;
    let c = (((k & 0x3) << 6) | l) as u8;
    if s[2] == '=' {
        seq![a]
    } else if s[3] == '=' {
        seq![a, b]
    } else {
        seq![a, b, c]
    }
}

/// The bytes of a text in Base64.
pub open spec fn decoded(s: Seq<char>) -> Seq<u8>
    decreases s.len(),
{
    if s.len() < 4 {
        Seq::empty()
    } else {
        decoded_group(s.take(4)) + decoded(s.skip(4))
    }
}

proof fn lemma_letter(n: u32)
    requires
        n < 64,
    ensures
        value(letter(n as int)) == n,
        letter(n as int) != '=',
{
}

proof fn lemma_group(bytes: Seq<u8>)
    requires
        1 <= bytes.len() <= 3,
    ensures
        encoded_group(bytes).len() == 4,
        decoded_group(encoded_group(bytes)) == bytes,
{
    let a = bytes[0];
    let b = if bytes.len() > 1 {
        bytes[1]
    } else {
        0
    };
    let c = if bytes.len() > 2 {
        bytes[2]
    } else {
        0
    };
    let g = ((a as u32) << 16) | ((b as u32) << 8) | (c as u32);
    let i = (g >> 18) & 0x3f;
    let j = (g >> 12) & 0x3f;
    let k = (g >> 6) & 0x3f;
    let l = g & 0x3f;
    assert(i < 64 && j < 64 && k < 64 && l < 64 && ((i << 2) | (j >> 4)) == a as u32 && (((j & 0xf)
        << 4) | (k >> 2)) == b as u32 && (((k & 0x3) << 6) | l) == c as u32) by (bit_vector)
        requires
            g == ((a as u32) << 16) | ((b as u32) << 8) | (c as u32),
            i == (g >> 18) & 0x3f,
            j == (g >> 12) & 0x3f,
            k == (g >> 6) & 0x3f,
            l == g & 0x3f,
    ;
    lemma_letter(i);
    lemma_letter(j);
    lemma_letter(k);
    lemma_letter(l);
    assert(value('=') == 63);
    let s = encoded_group(bytes);
    if bytes.len() == 3 {
        assert(decoded_group(s) =~= bytes);
    } else if bytes.len() == 2 {
        assert(decoded_group(s) =~= bytes);
    } else {
        assert(decoded_group(s) =~= bytes);
    }
}

/// What is encoded can be read back, byte for byte, and takes four characters
/// for every three bytes begun.
pub proof fn encoding_can_be_read_back(bytes: Seq<u8>)
    ensures
        decoded(encoded(bytes)) == bytes,
        encoded(bytes).len() == (bytes.len() + 2) / 3 * 4,
    decreases bytes.len(),
{
    let s = encoded(bytes);
    if bytes.len() == 0 {
        assert(decoded(s) =~= bytes);
    } else if bytes.len() <= 3 {
        lemma_group(bytes);
        assert(s.take(4) =~= s);
        assert(decoded(s.skip(4)) =~= Seq::empty());
        assert(decoded(s) =~= bytes);
    } else {
        lemma_group(bytes.take(3));
        encoding_can_be_read_back(bytes.skip(3));
        let first = encoded_group(bytes.take(3));
        assert(s.take(4) =~= first);
        assert(s.skip(4) =~= encoded(bytes.skip(3)));
        assert(decoded(s) =~= bytes);
    }
}

// ---------------------------------------------------------------------------
// Attachments
// ---------------------------------------------------------------------------

impl Attachment {
    /// Takes some bytes, with their digest, and works out what they are.
    ///
    /// The format is read from the bytes rather than from a file extension: a
    /// clipboard grab has no name.
    pub fn new(bytes: Vec<u8>, digest: &str) -> (r: Option<Self>)
        ensures
            r is Some <==> format_of(bytes@) is Some,
            r is Some ==> {
                let format = format_of(bytes@)->0;
                &&& (r->0).name@ == digest@ + "."@ + extension(format)
                &&& (r->0).media_type@ == media_type(format)
                &&& (r->0).bytes@ == bytes@
            },
    {
        match recognise(bytes.as_slice()) {
            Some(format) => {
                let (media, tail) = match format {
                    Format::Png => ("image/png", "png"),
                    Format::Jpeg => ("image/jpeg", "jpeg"),
                    Format::Gif => ("image/gif", "gif"),
                    Format::Webp => ("image/webp", "webp"),
                };
                let mut name = digest.to_owned();
                name.append(".");
                name.append(tail);
                Some(Attachment { name, media_type: media.to_owned(), bytes })
            },
            None => None,
        }
    }

    /// The `data:` URL that the server decodes.
    pub fn data_url(&self) -> (r: String)
        ensures
            r@ == "data:"@ + self.media_type@ + ";base64,"@ + encoded(self.bytes@),
    {
        let mut r = "data:".to_owned();
        r.append(self.media_type.as_str());
        r.append(";base64,");
        let body = base64(self.bytes.as_slice());
        r.append(body.as_str());
        r
    }

    /// Roughly how much of the model's context this will cost: a rule of thumb.
    pub fn approximate_tokens(&self) -> (r: usize)
        ensures
            r == if self.bytes@.len() / 1400 < 200 {
                200
            } else if self.bytes@.len() / 1400 > 3000 {
                3000
            } else {
                (self.bytes@.len() / 1400) as int
            },
    {
        let n: usize = self.bytes.len() / 1400;
        if n < 200 {
            200
        } else if n > 3000 {
            3000
        } else {
            n
        }
    }
}

/// A path with a name behind it.
pub open spec fn joined(base: Seq<char>, name: Seq<char>) -> Seq<char> {
    if base.len() == 0 || base.last() == '/' {
        base + name
    } else {
        base + "/"@ + name
    }
}

pub fn join(base: &str, name: &str) -> (r: String)
    ensures
        r@ == joined(base@, name@),
{
    let chars = text::chars_of(base);
    let mut r = base.to_owned();
    if chars.len() > 0 && chars[chars.len() - 1] != '/' {
        r.append("/");
    }
    r.append(name);
    r
}

/// Where a project keeps the images its conversations refer to.
pub fn directory(context: &str) -> (r: String)
    ensures
        r@ == joined(context@, "images"@),
{
    join(context, "images")
}

/// A name that can only ever be a file in the images directory.
pub open spec fn is_safe(name: Seq<char>) -> bool {
    &&& 0 < name.len() <= 96
    &&& forall|i: int|
        0 <= i < name.len() ==> text::is_ascii_alphanumeric(#[trigger] name[i]) || name[i] == '.'
            || name[i] == '-'
    &&& name[0] != '.'
    &&& !text::holds(name, ".."@)
}

/// Whether a name can only ever be a file in the images directory.
pub fn is_safe_name(name: &str) -> (r: bool)
    ensures
        r == is_safe(name@),
{
    let chars = text::chars_of(name);
    if chars.len() == 0 || chars.len() > 96 {
        return false;
    }
    let mut i: usize = 0;
    while i < chars.len()
        invariant
            0 <= i <= chars.len(),
            chars@ == name@,
            forall|j: int|
                0 <= j < i ==> text::is_ascii_alphanumeric(#[trigger] name@[j]) || name@[j] == '.'
                    || name@[j] == '-',
        decreases chars.len() - i,
    {
        let c = chars[i];
        assert(name@[i as int] == c);
        if !(('0' <= c && c <= '9') || ('A' <= c && c <= 'Z') || ('a' <= c && c <= 'z') || c == '.'
            || c == '-') {
            return false;
        }
        i = i + 1;
    }
    chars[0] != '.' && !text::contains(chars.as_slice(), "..")
}

/// A safe name names no other directory: there is no separator in it, and no
/// step up.
pub proof fn safe_names_stay_put(name: Seq<char>)
    requires
        is_safe(name),
    ensures
        !name.contains('/'),
        !name.contains('\\'),
        name != ".."@,
        name != "."@,
{
    reveal_strlit("..");
    reveal_strlit(".");
    assert forall|i: int| 0 <= i < name.len() implies name[i] != '/' && name[i] != '\\' by {
        assert(text::is_ascii_alphanumeric(name[i]) || name[i] == '.' || name[i] == '-');
    }
}

// ---------------------------------------------------------------------------
// What a picture is known by, and how it is spelt
// ---------------------------------------------------------------------------

/// A picture is known by how it begins, whatever follows.
pub proof fn a_picture_is_known_by_how_it_begins(rest: Seq<u8>, size: Seq<u8>)
    requires
        size.len() == 4,
        rest.len() > 0,
    ensures
        format_of(seq![0x89u8, 0x50, 0x4e, 0x47, 0x0d, 0x0a, 0x1a, 0x0a] + rest) matches Some(f)
            && media_type(f) == "image/png"@ && extension(f) == "png"@,
        format_of(seq![0xffu8, 0xd8, 0xff] + rest) matches Some(f) && media_type(f)
            == "image/jpeg"@ && extension(f) == "jpeg"@,
        format_of(seq![0x47u8, 0x49, 0x46, 0x38, 0x39, 0x61] + rest) matches Some(f) && media_type(
            f,
        ) == "image/gif"@ && extension(f) == "gif"@,
        format_of(seq![0x47u8, 0x49, 0x46, 0x38, 0x37, 0x61] + rest) matches Some(f) && media_type(
            f,
        ) == "image/gif"@ && extension(f) == "gif"@,
        format_of(
            seq![0x52u8, 0x49, 0x46, 0x46] + size + seq![0x57u8, 0x45, 0x42, 0x50] + rest,
        ) matches Some(f) && media_type(f) == "image/webp"@ && extension(f) == "webp"@,
{
    let png = seq![0x89u8, 0x50, 0x4e, 0x47, 0x0d, 0x0a, 0x1a, 0x0a];
    let jpeg = seq![0xffu8, 0xd8, 0xff];
    let old_gif = seq![0x47u8, 0x49, 0x46, 0x38, 0x37, 0x61];
    let new_gif = seq![0x47u8, 0x49, 0x46, 0x38, 0x39, 0x61];
    let riff = seq![0x52u8, 0x49, 0x46, 0x46];
    let webp = seq![0x57u8, 0x45, 0x42, 0x50];
    assert((png + rest).take(8) =~= png);
    let b = jpeg + rest;
    assert(b.take(3) =~= jpeg);
    lemma_begins_otherwise(b, png);
    let c = new_gif + rest;
    assert(c.take(6) =~= new_gif);
    lemma_begins_otherwise(c, png);
    lemma_begins_otherwise(c, jpeg);
    let d = old_gif + rest;
    assert(d.take(6) =~= old_gif);
    lemma_begins_otherwise(d, png);
    lemma_begins_otherwise(d, jpeg);
    let e = riff + size + webp + rest;
    assert(e.take(4) =~= riff);
    assert(e.subrange(8, 12) =~= webp);
    lemma_begins_otherwise(e, png);
    lemma_begins_otherwise(e, jpeg);
    lemma_begins_otherwise(e, old_gif);
    lemma_begins_otherwise(e, new_gif);
}

proof fn lemma_begins_otherwise(bytes: Seq<u8>, magic: Seq<u8>)
    requires
        bytes.len() > 0,
        magic.len() > 0,
        bytes[0] != magic[0],
    ensures
        !begins(bytes, magic),
{
    if begins(bytes, magic) {
        assert(bytes.take(magic.len() as int)[0] == bytes[0]);
    }
}

/// Three bytes are spelt by the four digits, to the base of sixty-four, of the
/// number that they make, the highest first, in the usual alphabet.
pub proof fn bytes_are_spelt_in_the_alphabet(a: u8, b: u8, c: u8)
    ensures
        ({
            let alphabet = "ABCDEFGHIJKLMNOPQRSTUVWXYZabcdefghijklmnopqrstuvwxyz0123456789+/"@;
            let n = a * 0x10000 + b * 0x100 + c;
            encoded_group(seq![a, b, c]) == seq![
                alphabet[n / 0x40000],
                alphabet[n / 0x1000 % 64],
                alphabet[n / 0x40 % 64],
                alphabet[n % 64],
            ]
        }),
{
    reveal_strlit("ABCDEFGHIJKLMNOPQRSTUVWXYZabcdefghijklmnopqrstuvwxyz0123456789+/");
    let alphabet = "ABCDEFGHIJKLMNOPQRSTUVWXYZabcdefghijklmnopqrstuvwxyz0123456789+/"@;
    let g = block(a, b, c);
    let n: u32 = (a as u32 * 0x10000 + b as u32 * 0x100 + c as u32) as u32;
    assert(g == (a as u32) * 0x10000 + (b as u32) * 0x100 + (c as u32)) by (bit_vector)
        requires
            g == ((a as u32) << 16) | ((b as u32) << 8) | (c as u32),
    ;
    assert(g == n);
    assert((g >> 18) & 0x3f == g / 0x40000 && (g >> 12) & 0x3f == g / 0x1000 % 64 && (g >> 6) & 0x3f
        == g / 0x40 % 64 && g & 0x3f == g % 64) by (bit_vector)
        requires
            g < 0x1000000,
    ;
    assert(forall|k: int| 0 <= k < 64 ==> letter(k) == #[trigger] alphabet[k]);
}

} // verus!
