//! Just enough ZIP to make an Office file.
//!
//! `.docx`, `.xlsx` and `.pptx` are ZIP archives of XML parts. Entries are
//! stored, not deflated: the format allows it, and every reader that matters
//! accepts it.

use vstd::prelude::*;
use vstd::utf8::encode_utf8;

verus! {

/// A fixed timestamp, 1980-01-01 00:00:00, the earliest a DOS date can hold.
///
/// The same document written twice is then byte for byte the same.
pub const DOS_TIME: u16 = 0;

pub const DOS_DATE: u16 = 0x0021;

/// The reversed CRC-32 polynomial that ZIP uses.
pub const POLYNOMIAL: u32 = 0xEDB8_8320;

/// One file inside the archive.
struct Entry {
    name: String,
    crc: u32,
    size: u32,
    /// Where this entry's local header starts, which is what the central
    /// directory has to point at.
    offset: u32,
}

/// What an archive holds: each part's name and its contents.
#[verifier::ext_equal]
pub struct Part {
    pub name: Seq<char>,
    pub contents: Seq<u8>,
}

/// Builds a ZIP in memory, one part at a time.
pub struct Archive {
    bytes: Vec<u8>,
    entries: Vec<Entry>,
    parts: Ghost<Seq<Part>>,
}

impl View for Archive {
    type V = Seq<Part>;

    closed spec fn view(&self) -> Seq<Part> {
        self.parts@
    }
}

/// Two bytes, the low one first.
pub open spec fn le16(x: u16) -> Seq<u8> {
    seq![(x & 0xff) as u8, (x >> 8) as u8]
}

/// Four bytes, the low one first.
pub open spec fn le32(x: u32) -> Seq<u8> {
    seq![
        (x & 0xff) as u8,
        ((x >> 8) & 0xff) as u8,
        ((x >> 16) & 0xff) as u8,
        (x >> 24) as u8,
    ]
}

/// One step of the checksum: the register moves one bit to the right, and the
/// polynomial is taken off where the bit that fell out was set.
pub open spec fn crc_step(crc: u32) -> u32 {
    if crc & 1 == 1 {
        (crc >> 1) ^ POLYNOMIAL
    } else {
        crc >> 1
    }
}

pub open spec fn crc_steps(crc: u32, n: nat) -> u32
    decreases n,
{
    if n == 0 {
        crc
    } else {
        crc_step(crc_steps(crc, (n - 1) as nat))
    }
}

/// The register after the bytes have gone through it.
pub open spec fn crc_register(bytes: Seq<u8>) -> u32
    decreases bytes.len(),
{
    if bytes.len() == 0 {
        0xFFFF_FFFF
    } else {
        crc_steps(crc_register(bytes.drop_last()) ^ (bytes.last() as u32), 8)
    }
}

/// The CRC-32 of some bytes.
pub open spec fn checksum(bytes: Seq<u8>) -> u32 {
    !crc_register(bytes)
}

/// A part name with every backslash made a forward slash.
pub open spec fn slashed(name: Seq<char>) -> Seq<char> {
    Seq::new(
        name.len(),
        |i: int|
            if name[i] == '\\' {
                '/'
            } else {
                name[i]
            },
    )
}

/// A part that is text.
pub open spec fn text_part(name: Seq<char>, contents: Seq<char>) -> Part {
    Part { name: slashed(name), contents: encode_utf8(contents) }
}

/// The local header of a part.
#[verifier::opaque]
pub open spec fn local_header(part: Part) -> Seq<u8> {
    le32(0x0403_4b50) + le16(20) + le16(0) + le16(0) + le16(DOS_TIME) + le16(DOS_DATE) + le32(
        checksum(part.contents),
    ) + le32(part.contents.len() as u32) + le32(part.contents.len() as u32) + le16(
        encode_utf8(part.name).len() as u16,
    ) + le16(0)
}

/// A part as it stands in the archive: its header, its name, its contents.
pub open spec fn local(part: Part) -> Seq<u8> {
    local_header(part) + encode_utf8(part.name) + part.contents
}

/// All the parts, one after the other.
pub open spec fn locals(parts: Seq<Part>) -> Seq<u8>
    decreases parts.len(),
{
    if parts.len() == 0 {
        Seq::empty()
    } else {
        locals(parts.drop_last()) + local(parts.last())
    }
}

/// A part's record in the directory, which says where the part stands.
#[verifier::opaque]
pub open spec fn record(part: Part, offset: u32) -> Seq<u8> {
    le32(0x0201_4b50) + le16(20) + le16(20) + le16(0) + le16(0) + le16(DOS_TIME) + le16(DOS_DATE)
        + le32(checksum(part.contents)) + le32(part.contents.len() as u32) + le32(
        part.contents.len() as u32,
    ) + le16(encode_utf8(part.name).len() as u16) + le16(0) + le16(0) + le16(0) + le16(0) + le32(0)
        + le32(offset) + encode_utf8(part.name)
}

/// The directory: one record for each part.
pub open spec fn directory(parts: Seq<Part>) -> Seq<u8>
    decreases parts.len(),
{
    if parts.len() == 0 {
        Seq::empty()
    } else {
        directory(parts.drop_last()) + record(
            parts.last(),
            locals(parts.drop_last()).len() as u32,
        )
    }
}

/// The end record, which says where the directory stands.
#[verifier::opaque]
pub open spec fn end_record(count: u16, size: u32, start: u32) -> Seq<u8> {
    le32(0x0605_4b50) + le16(0) + le16(0) + le16(count) + le16(count) + le32(size) + le32(start)
        + le16(0)
}

/// The bytes of an archive that holds the given parts.
#[verifier::opaque]
pub open spec fn archive_bytes(parts: Seq<Part>) -> Seq<u8> {
    locals(parts) + directory(parts) + end_record(
        parts.len() as u16,
        directory(parts).len() as u32,
        locals(parts).len() as u32,
    )
}

fn push_bytes(out: &mut Vec<u8>, more: &[u8])
    ensures
        final(out)@ == old(out)@ + more@,
{
    out.extend_from_slice(more);
    assert(out@ =~= old(out)@ + more@);
}

fn push16(out: &mut Vec<u8>, x: u16)
    ensures
        final(out)@ == old(out)@ + le16(x),
{
    assert(x >> 8 <= 0xff) by (bit_vector);
    assert(x & 0xff <= 0xff) by (bit_vector);
    out.push((x & 0xff) as u8);
    out.push((x >> 8) as u8);
    assert(out@ =~= old(out)@ + le16(x));
}

fn push32(out: &mut Vec<u8>, x: u32)
    ensures
        final(out)@ == old(out)@ + le32(x),
{
    assert(x >> 24 <= 0xff) by (bit_vector);
    assert(x & 0xff <= 0xff && (x >> 8) & 0xff <= 0xff && (x >> 16) & 0xff <= 0xff) by (bit_vector);
    out.push((x & 0xff) as u8);
    out.push(((x >> 8) & 0xff) as u8);
    out.push(((x >> 16) & 0xff) as u8);
    out.push((x >> 24) as u8);
    assert(out@ =~= old(out)@ + le32(x));
}

/// CRC-32, the ZIP polynomial, computed a bit at a time.
pub fn crc32(bytes: &[u8]) -> (r: u32)
    ensures
        r == checksum(bytes@),
{
    let mut crc: u32 = 0xFFFF_FFFF;
    let mut i: usize = 0;
    while i < bytes.len()
        invariant
            0 <= i <= bytes.len(),
            crc == crc_register(bytes@.take(i as int)),
        decreases bytes.len() - i,
    {
        let ghost before = crc ^ (bytes@[i as int] as u32);
        crc = crc ^ (bytes[i] as u32);
        let mut k: u32 = 0;
        while k < 8
            invariant
                0 <= k <= 8,
                crc == crc_steps(before, k as nat),
            decreases 8 - k,
        {
            crc = if crc & 1 == 1 {
                (crc >> 1) ^ POLYNOMIAL
            } else {
                crc >> 1
            };
            k = k + 1;
        }
        assert(bytes@.take(i + 1).drop_last() =~= bytes@.take(i as int));
        i = i + 1;
    }
    assert(bytes@.take(bytes@.len() as int) =~= bytes@);
    !crc
}

fn forward_slashes(name: &str) -> (r: String)
    ensures
        r@ == slashed(name@),
{
    let mut r = String::new();
    for c in it: name.chars()
        invariant
            it.seq() == name@,
            r@ == slashed(name@.take(it.index())),
    {
        if c == '\\' {
            r.push('/');
        } else {
            r.push(c);
        }
        assert(r@ =~= slashed(name@.take(it.index() + 1)));
    }
    assert(name@.take(name@.len() as int) =~= name@);
    r
}

fn header_of(crc: u32, size: u32, name_size: u16) -> (out: Vec<u8>)
    ensures
        out@ == le32(0x0403_4b50) + le16(20) + le16(0) + le16(0) + le16(DOS_TIME) + le16(DOS_DATE)
            + le32(crc) + le32(size) + le32(size) + le16(name_size) + le16(0),
{
    let mut out: Vec<u8> = Vec::new();
    push32(&mut out, 0x0403_4b50);
    assert(out@ =~= le32(0x0403_4b50));
    push16(&mut out, 20);
    push16(&mut out, 0);
    push16(&mut out, 0);
    push16(&mut out, DOS_TIME);
    push16(&mut out, DOS_DATE);
    push32(&mut out, crc);
    push32(&mut out, size);
    push32(&mut out, size);
    push16(&mut out, name_size);
    push16(&mut out, 0);
    out
}

fn record_of(entry: &Entry, part: Ghost<Part>) -> (out: Vec<u8>)
    requires
        entry.name@ == part@.name,
        entry.crc == checksum(part@.contents),
        entry.size == part@.contents.len() as u32,
    ensures
        out@ == record(part@, entry.offset),
{
    proof {
        reveal(record);
    }
    let name_size: u16 = entry.name.as_str().as_bytes().len() as u16;
    let mut out: Vec<u8> = Vec::new();
    push32(&mut out, 0x0201_4b50);
    assert(out@ =~= le32(0x0201_4b50));
    push16(&mut out, 20);
    push16(&mut out, 20);
    push16(&mut out, 0);
    push16(&mut out, 0);
    push16(&mut out, DOS_TIME);
    push16(&mut out, DOS_DATE);
    push32(&mut out, entry.crc);
    push32(&mut out, entry.size);
    push32(&mut out, entry.size);
    push16(&mut out, name_size);
    push16(&mut out, 0);
    push16(&mut out, 0);
    push16(&mut out, 0);
    push16(&mut out, 0);
    push32(&mut out, 0);
    push32(&mut out, entry.offset);
    push_bytes(&mut out, entry.name.as_str().as_bytes());
    out
}

fn end_of(count: u16, size: u32, start: u32) -> (out: Vec<u8>)
    ensures
        out@ == end_record(count, size, start),
{
    proof {
        reveal(end_record);
    }
    let mut out: Vec<u8> = Vec::new();
    push32(&mut out, 0x0605_4b50);
    assert(out@ =~= le32(0x0605_4b50));
    push16(&mut out, 0);
    push16(&mut out, 0);
    push16(&mut out, count);
    push16(&mut out, count);
    push32(&mut out, size);
    push32(&mut out, start);
    push16(&mut out, 0);
    out
}

/// Each entry says of its part what its record has to say.
spec fn entries_match(entries: Seq<Entry>, parts: Seq<Part>) -> bool {
    &&& entries.len() == parts.len()
    &&& forall|i: int|
        0 <= i < entries.len() ==> {
            let part = #[trigger] parts[i];
            &&& entries[i].name@ == part.name
            &&& entries[i].crc == checksum(part.contents)
            &&& entries[i].size == part.contents.len() as u32
            &&& entries[i].offset == locals(parts.take(i)).len() as u32
        }
}

fn directory_of(entries: &Vec<Entry>, parts: Ghost<Seq<Part>>) -> (records: Vec<u8>)
    requires
        entries_match(entries@, parts@),
    ensures
        records@ == directory(parts@),
{
    let ghost parts = parts@;
    let mut records: Vec<u8> = Vec::new();
    let mut i: usize = 0;
    while i < entries.len()
        invariant
            0 <= i <= entries.len(),
            entries_match(entries@, parts),
            records@ == directory(parts.take(i as int)),
        decreases entries.len() - i,
    {
        let entry = &entries[i];
        let ghost part = parts[i as int];
        let one = record_of(entry, Ghost(part));
        push_bytes(&mut records, one.as_slice());
        assert(parts.take(i + 1).drop_last() =~= parts.take(i as int));
        i = i + 1;
    }
    assert(parts.take(parts.len() as int) =~= parts);
    records
}

impl Archive {
    /// What has been written so far is the parts, and there is an entry for each.
    pub closed spec fn wf(&self) -> bool {
        &&& self.bytes@ == locals(self.parts@)
        &&& entries_match(self.entries@, self.parts@)
    }

    pub fn new() -> (r: Self)
        ensures
            r.wf(),
            r@ == Seq::<Part>::empty(),
    {
        Archive { bytes: Vec::new(), entries: Vec::new(), parts: Ghost(Seq::empty()) }
    }

    /// Adds a part. Names are archive paths with forward slashes, always.
    pub fn add(&mut self, name: &str, contents: &[u8])
        requires
            old(self).wf(),
        ensures
            final(self).wf(),
            final(self)@ == old(self)@.push(Part { name: slashed(name@), contents: contents@ }),
    {
        proof {
            reveal(local_header);
        }
        let name = forward_slashes(name);
        let crc: u32 = crc32(contents);
        let offset: u32 = self.bytes.len() as u32;
        let ghost part = Part { name: name@, contents: contents@ };
        let ghost start = self.bytes@;
        let size: u32 = contents.len() as u32;
        let name_size: u16 = name.as_str().as_bytes().len() as u16;
        let header = header_of(crc, size, name_size);
        push_bytes(&mut self.bytes, header.as_slice());
        push_bytes(&mut self.bytes, name.as_str().as_bytes());
        push_bytes(&mut self.bytes, contents);
        assert(self.bytes@ == start + local_header(part) + encode_utf8(name@) + contents@);
        assert(self.bytes@ =~= start + local(part));
        let ghost parts = self.parts@;
        self.entries.push(Entry { name, crc, size, offset });
        self.parts = Ghost(parts.push(part));
        proof {
            assert(self.parts@.drop_last() =~= parts);
            assert forall|i: int| 0 <= i < self.entries.len() implies {
                let p = #[trigger] self.parts@[i];
                &&& self.entries[i].name@ == p.name
                &&& self.entries[i].crc == checksum(p.contents)
                &&& self.entries[i].size == p.contents.len() as u32
                &&& self.entries[i].offset == locals(self.parts@.take(i)).len() as u32
            } by {
                assert(self.parts@.take(i) =~= parts.take(i));
                if i < parts.len() {
                    assert(self.parts@[i] == parts[i]);
                } else {
                    assert(parts.take(i) =~= parts);
                }
            }
        }
    }

    /// Convenience for the common case: a part that is text.
    pub fn add_text(&mut self, name: &str, contents: &str)
        requires
            old(self).wf(),
        ensures
            final(self).wf(),
            final(self)@ == old(self)@.push(text_part(name@, contents@)),
    {
        self.add(name, contents.as_bytes());
    }

    /// Closes the archive: writes the central directory and hands back the bytes.
    pub fn finish(self) -> (r: Vec<u8>)
        requires
            self.wf(),
        ensures
            r@ == archive_bytes(self@),
    {
        proof {
            reveal(archive_bytes);
        }
        let Archive { bytes: written, entries, parts: Ghost(parts) } = self;
        let mut bytes = written;
        let directory_start: u32 = bytes.len() as u32;
        let records = directory_of(&entries, Ghost(parts));
        let directory_size: u32 = records.len() as u32;
        let count: u16 = entries.len() as u16;
        push_bytes(&mut bytes, records.as_slice());
        let end = end_of(count, directory_size, directory_start);
        push_bytes(&mut bytes, end.as_slice());
        bytes
    }
}

/// Where a part stands, its header, its name and its contents follow one
/// another, the contents verbatim.
pub proof fn parts_stand_where_they_were_put(parts: Seq<Part>, i: int)
    requires
        0 <= i < parts.len(),
    ensures
        ({
            let at = locals(parts.take(i)).len() as int;
            let bytes = archive_bytes(parts);
            &&& at + local(parts[i]).len() <= bytes.len()
            &&& bytes.subrange(at, at + local(parts[i]).len() as int) == local(parts[i])
            &&& bytes.subrange(
                at + 30 + encode_utf8(parts[i].name).len(),
                at + 30 + encode_utf8(parts[i].name).len() + parts[i].contents.len(),
            ) == parts[i].contents
        }),
{
    reveal(archive_bytes);
    reveal(local_header);
    lemma_local_in_locals(parts, i);
    let at = locals(parts.take(i)).len() as int;
    let bytes = archive_bytes(parts);
    let n = local(parts[i]).len() as int;
    assert(bytes.subrange(at, at + n) =~= locals(parts).subrange(at, at + n));
    let name = encode_utf8(parts[i].name);
    assert(local_header(parts[i]).len() == 30);
    let whole = bytes.subrange(at, at + n);
    assert(bytes.subrange(at + 30 + name.len(), at + 30 + name.len() + parts[i].contents.len())
        =~= whole.subrange((30 + name.len()) as int, n));
    assert(whole.subrange((30 + name.len()) as int, n) =~= parts[i].contents);
}

proof fn lemma_local_in_locals(parts: Seq<Part>, i: int)
    requires
        0 <= i < parts.len(),
    ensures
        locals(parts.take(i)).len() + local(parts[i]).len() <= locals(parts).len(),
        locals(parts).subrange(
            locals(parts.take(i)).len() as int,
            locals(parts.take(i)).len() + local(parts[i]).len() as int,
        ) == local(parts[i]),
    decreases parts.len(),
{
    let at = locals(parts.take(i)).len() as int;
    let n = local(parts[i]).len() as int;
    if i == parts.len() - 1 {
        assert(parts.take(i) =~= parts.drop_last());
        assert(locals(parts).subrange(at, at + n) =~= local(parts[i]));
    } else {
        lemma_local_in_locals(parts.drop_last(), i);
        assert(parts.drop_last().take(i) =~= parts.take(i));
        assert(locals(parts).subrange(at, at + n) =~= locals(parts.drop_last()).subrange(
            at,
            at + n,
        ));
    }
}

/// Where a part's record stands in the directory.
pub open spec fn record_at(parts: Seq<Part>, i: int) -> int {
    (locals(parts).len() + directory(parts.take(i)).len()) as int
}

/// Every part can be found: its record stands in the directory, and the offset
/// in the record is where its local header starts, which begins with the local
/// header's signature.
pub proof fn every_part_is_findable(parts: Seq<Part>, i: int)
    requires
        0 <= i < parts.len(),
        archive_bytes(parts).len() <= u32::MAX,
    ensures
        ({
            let at = locals(parts.take(i)).len() as int;
            let offset = at as u32;
            let bytes = archive_bytes(parts);
            let found = record_at(parts, i);
            &&& offset == at
            &&& found + record(parts[i], offset).len() <= bytes.len()
            &&& bytes.subrange(found, found + record(parts[i], offset).len() as int) == record(
                parts[i],
                offset,
            )
            &&& bytes.subrange(found + 42, found + 46) == le32(offset)
            &&& bytes.subrange(offset as int, offset + 4) == le32(0x0403_4b50)
        }),
{
    reveal(archive_bytes);
    let at = locals(parts.take(i)).len() as int;
    let offset = at as u32;
    let bytes = archive_bytes(parts);
    let found = record_at(parts, i);
    lemma_local_in_locals(parts, i);
    parts_stand_where_they_were_put(parts, i);
    lemma_record_in_directory(parts, i);
    let r = record(parts[i], offset);
    let d = directory(parts.take(i)).len() as int;
    assert(bytes.subrange(found, found + r.len()) =~= directory(parts).subrange(d, d + r.len()));
    assert(r.subrange(42, 46) =~= le32(offset)) by {
        lemma_record_shape(parts[i], offset);
    }
    assert(bytes.subrange(found + 42, found + 46) =~= bytes.subrange(
        found,
        found + r.len(),
    ).subrange(42, 46)) by {
        lemma_record_shape(parts[i], offset);
    }
    let l = local(parts[i]);
    lemma_header_shape(parts[i]);
    assert(bytes.subrange(at, at + 4) =~= bytes.subrange(at, at + l.len()).subrange(0, 4));
}

proof fn lemma_header_shape(part: Part)
    ensures
        local(part).len() >= 30,
        local(part).subrange(0, 4) == le32(0x0403_4b50),
{
    reveal(local_header);
    let tail = le16(20) + le16(0) + le16(0) + le16(DOS_TIME) + le16(DOS_DATE) + le32(
        checksum(part.contents),
    ) + le32(part.contents.len() as u32) + le32(part.contents.len() as u32) + le16(
        encode_utf8(part.name).len() as u16,
    ) + le16(0);
    assert(local_header(part) =~= le32(0x0403_4b50) + tail);
    assert(local(part).subrange(0, 4) =~= le32(0x0403_4b50));
}

proof fn lemma_record_shape(part: Part, offset: u32)
    ensures
        record(part, offset).len() == 46 + encode_utf8(part.name).len(),
        record(part, offset).subrange(42, 46) == le32(offset),
{
    reveal(record);
    let head = le32(0x0201_4b50) + le16(20) + le16(20) + le16(0) + le16(0) + le16(DOS_TIME) + le16(
        DOS_DATE,
    ) + le32(checksum(part.contents)) + le32(part.contents.len() as u32) + le32(
        part.contents.len() as u32,
    ) + le16(encode_utf8(part.name).len() as u16) + le16(0) + le16(0) + le16(0) + le16(0) + le32(0);
    assert(head.len() == 42);
    assert(record(part, offset) == head + le32(offset) + encode_utf8(part.name));
    assert(record(part, offset).subrange(42, 46) =~= le32(offset));
}

proof fn lemma_record_in_directory(parts: Seq<Part>, i: int)
    requires
        0 <= i < parts.len(),
    ensures
        ({
            let r = record(parts[i], locals(parts.take(i)).len() as u32);
            let d = directory(parts.take(i)).len() as int;
            &&& d + r.len() <= directory(parts).len()
            &&& directory(parts).subrange(d, d + r.len()) == r
        }),
    decreases parts.len(),
{
    let r = record(parts[i], locals(parts.take(i)).len() as u32);
    let d = directory(parts.take(i)).len() as int;
    if i == parts.len() - 1 {
        assert(parts.take(i) =~= parts.drop_last());
        assert(directory(parts).subrange(d, d + r.len()) =~= r);
    } else {
        lemma_record_in_directory(parts.drop_last(), i);
        assert(parts.drop_last().take(i) =~= parts.take(i));
        assert(directory(parts).subrange(d, d + r.len()) =~= directory(
            parts.drop_last(),
        ).subrange(d, d + r.len()));
    }
}

/// A number is what its bytes make, the first counted once, the next two hundred and
/// fifty-six times as much, and so on.
pub proof fn the_low_byte_comes_first(x: u16, y: u32)
    ensures
        le16(x).len() == 2,
        le16(x)[0] + 0x100 * le16(x)[1] == x,
        le32(y).len() == 4,
        le32(y)[0] + 0x100 * le32(y)[1] + 0x1_0000 * le32(y)[2] + 0x100_0000 * le32(y)[3] == y,
{
    assert((x & 0xff) as u8 as u16 + 0x100 * ((x >> 8) as u8 as u16) == x) by (bit_vector);
    assert((y & 0xff) as u8 as u32 + 0x100 * (((y >> 8) & 0xff) as u8 as u32) + 0x1_0000 * (((y
        >> 16) & 0xff) as u8 as u32) + 0x100_0000 * ((y >> 24) as u8 as u32) == y) by (bit_vector);
}

/// A step of the checksum is linear, halves what is even, and makes of one the polynomial of
/// CRC-32 with its bits turned round.
pub proof fn the_checksum_divides_by_its_polynomial(a: u32, b: u32)
    ensures
        crc_step(a ^ b) == crc_step(a) ^ crc_step(b),
        a % 2 == 0 ==> crc_step(a) == a / 2,
        crc_step(1) == 0xEDB8_8320,
{
    let p: u32 = 0xEDB8_8320;
    assert(POLYNOMIAL == p);
    let x = a ^ b;
    assert((if x & 1 == 1 {
        (x >> 1) ^ p
    } else {
        x >> 1
    }) == (if a & 1 == 1 {
        (a >> 1) ^ p
    } else {
        a >> 1
    }) ^ (if b & 1 == 1 {
        (b >> 1) ^ p
    } else {
        b >> 1
    })) by (bit_vector)
        requires
            x == a ^ b,
    ;
    assert(a % 2 == 0 ==> a & 1 != 1 && a >> 1 == a / 2) by (bit_vector);
    assert(1u32 & 1 == 1 && (1u32 >> 1) ^ p == p) by (bit_vector);
}

} // verus!
