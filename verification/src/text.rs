//! Text as a sequence of characters: the vocabulary that every other module
//! states its contracts in, and the functions that compute it.

use vstd::prelude::*;
use vstd::slice::slice_subrange;

verus! {

/// `String::push` appends one character.
pub assume_specification[ String::push ](string: &mut String, ch: char)
    ensures
        final(string)@ == old(string)@.push(ch),
;

/// What the text of each string in a list is.
pub open spec fn texts(strings: Seq<String>) -> Seq<Seq<char>> {
    Seq::new(strings.len(), |i: int| strings[i]@)
}

/// What each run of characters in a list holds.
pub open spec fn runs(slices: Seq<&[char]>) -> Seq<Seq<char>> {
    Seq::new(slices.len(), |i: int| slices[i]@)
}

/// The characters with the Unicode property `White_Space`.
pub open spec fn is_space(c: char) -> bool {
    ||| 0x09 <= c as int <= 0x0d
    ||| c as int == 0x20
    ||| c as int == 0x85
    ||| c as int == 0xa0
    ||| c as int == 0x1680
    ||| 0x2000 <= c as int <= 0x200a
    ||| c as int == 0x2028
    ||| c as int == 0x2029
    ||| c as int == 0x202f
    ||| c as int == 0x205f
    ||| c as int == 0x3000
}

pub fn space(c: char) -> (r: bool)
    ensures
        r == is_space(c),
{
    let n: u32 = c as u32;
    (0x09 <= n && n <= 0x0d) || n == 0x20 || n == 0x85 || n == 0xa0 || n == 0x1680 || (0x2000 <= n
        && n <= 0x200a) || n == 0x2028 || n == 0x2029 || n == 0x202f || n == 0x205f || n == 0x3000
}

/// The letters and digits of ASCII.
pub open spec fn is_ascii_alphanumeric(c: char) -> bool {
    ('0' <= c && c <= '9') || ('A' <= c && c <= 'Z') || ('a' <= c && c <= 'z')
}

/// Whether `char::is_alphanumeric` holds of a character beyond ASCII.
pub uninterp spec fn is_wide_alphanumeric(c: char) -> bool;

/// The letters and numbers of every script.
pub open spec fn is_alphanumeric(c: char) -> bool {
    if (c as int) < 0x80 {
        is_ascii_alphanumeric(c)
    } else {
        is_wide_alphanumeric(c)
    }
}

/// `char::is_alphanumeric` depends on the character alone; on ASCII it holds of
/// the letters and the digits.
pub assume_specification[ char::is_alphanumeric ](c: char) -> (r: bool)
    ensures
        (c as int) < 0x80 ==> r == is_ascii_alphanumeric(c),
        (c as int) >= 0x80 ==> r == is_wide_alphanumeric(c),
;

/// The lower case of an ASCII letter, and any other character as it is.
pub open spec fn ascii_lower(c: char) -> char {
    if 'A' <= c && c <= 'Z' {
        (c as int + 0x20) as char
    } else {
        c
    }
}

/// A text with its ASCII letters in lower case.
pub open spec fn ascii_lowercase(s: Seq<char>) -> Seq<char> {
    Seq::new(s.len(), |i: int| ascii_lower(s[i]))
}

/// What `str::to_lowercase` makes of a text that is not all ASCII.
pub uninterp spec fn wide_lowercase(s: Seq<char>) -> Seq<char>;

/// A text in lower case.
pub open spec fn lowercase(s: Seq<char>) -> Seq<char> {
    if vstd::utf8::is_ascii_chars(s) {
        ascii_lowercase(s)
    } else {
        wide_lowercase(s)
    }
}

/// Whether a text is made of ASCII characters that are no letters.
pub open spec fn is_caseless(s: Seq<char>) -> bool {
    forall|i: int|
        0 <= i < s.len() ==> (#[trigger] s[i] as int) < 0x80 && !('A' <= s[i] && s[i] <= 'Z') && !(
        'a' <= s[i] && s[i] <= 'z')
}

/// `str::to_lowercase` depends on the text alone; on ASCII it changes the
/// letters and nothing else. It leaves no capital of ASCII in any text, and what
/// stands at the end of a text and is ASCII without letters, it leaves there.
pub assume_specification[ str::to_lowercase ](s: &str) -> (r: String)
    ensures
        vstd::utf8::is_ascii_chars(s@) ==> r@ == ascii_lowercase(s@),
        !vstd::utf8::is_ascii_chars(s@) ==> r@ == wide_lowercase(s@),
        forall|i: int| 0 <= i < r@.len() ==> !('A' <= #[trigger] r@[i] && r@[i] <= 'Z'),
        forall|i: int|
            0 <= i <= s@.len() && is_caseless(#[trigger] s@.skip(i)) ==> ends(r@, s@.skip(i)),
;

pub fn lower(c: char) -> (r: char)
    ensures
        r == ascii_lower(c),
{
    if 'A' <= c && c <= 'Z' {
        (c as u8 + 0x20u8) as char
    } else {
        c
    }
}

/// A run with its ASCII letters in lower case.
pub fn lowered(s: &[char]) -> (r: Vec<char>)
    ensures
        r@ == ascii_lowercase(s@),
{
    let mut r: Vec<char> = Vec::new();
    let mut i: usize = 0;
    while i < s.len()
        invariant
            0 <= i <= s.len(),
            r@ == ascii_lowercase(s@.take(i as int)),
        decreases s.len() - i,
    {
        r.push(lower(s[i]));
        assert(r@ =~= ascii_lowercase(s@.take(i + 1)));
        i = i + 1;
    }
    assert(s@.take(s@.len() as int) =~= s@);
    r
}

/// The decimal digits of ASCII.
pub open spec fn is_digit(c: char) -> bool {
    '0' <= c && c <= '9'
}

pub fn digit(c: char) -> (r: bool)
    ensures
        r == is_digit(c),
{
    '0' <= c && c <= '9'
}

/// Every character of a text, in order.
pub fn chars_of(s: &str) -> (v: Vec<char>)
    ensures
        v@ == s@,
{
    let mut v: Vec<char> = Vec::new();
    for c in it: s.chars()
        invariant
            it.seq() == s@,
            v@ == s@.take(it.index()),
    {
        v.push(c);
        assert(s@.take(it.index() + 1) =~= s@.take(it.index()).push(s@[it.index()]));
    }
    assert(s@.take(s@.len() as int) =~= s@);
    v
}

/// The text that a run of characters spells.
pub fn string_of(s: &[char]) -> (r: String)
    ensures
        r@ == s@,
{
    let mut r = String::new();
    push_chars(&mut r, s);
    r
}

/// Appends a run of characters to a text.
pub fn push_chars(out: &mut String, s: &[char])
    ensures
        final(out)@ == old(out)@ + s@,
{
    let mut i: usize = 0;
    while i < s.len()
        invariant
            0 <= i <= s.len(),
            out@ == old(out)@ + s@.take(i as int),
        decreases s.len() - i,
    {
        out.push(s[i]);
        assert(s@.take(i + 1) =~= s@.take(i as int).push(s@[i as int]));
        i = i + 1;
    }
    assert(s@.take(s@.len() as int) =~= s@);
}

/// Whether two runs hold the same characters.
pub fn equal(a: &[char], b: &[char]) -> (r: bool)
    ensures
        r == (a@ == b@),
{
    if a.len() != b.len() {
        return false;
    }
    let mut i: usize = 0;
    while i < a.len()
        invariant
            0 <= i <= a.len(),
            a.len() == b.len(),
            forall|j: int| 0 <= j < i ==> a@[j] == b@[j],
        decreases a.len() - i,
    {
        if a[i] != b[i] {
            return false;
        }
        i = i + 1;
    }
    assert(a@ =~= b@);
    true
}

/// Whether two texts are the same.
pub fn same(a: &str, b: &str) -> (r: bool)
    ensures
        r == (a@ == b@),
{
    let x = chars_of(a);
    let y = chars_of(b);
    equal(x.as_slice(), y.as_slice())
}

/// Whether a run spells a text.
pub fn spells(a: &[char], b: &str) -> (r: bool)
    ensures
        r == (a@ == b@),
{
    let y = chars_of(b);
    equal(a, y.as_slice())
}

// ---------------------------------------------------------------------------
// Trimming
// ---------------------------------------------------------------------------

/// A text without the white space in front of it.
pub open spec fn trim_start(s: Seq<char>) -> Seq<char>
    decreases s.len(),
{
    if s.len() > 0 && is_space(s[0]) {
        trim_start(s.drop_first())
    } else {
        s
    }
}

/// A text without the white space behind it.
pub open spec fn trim_end(s: Seq<char>) -> Seq<char>
    decreases s.len(),
{
    if s.len() > 0 && is_space(s.last()) {
        trim_end(s.drop_last())
    } else {
        s
    }
}

/// A text without the white space around it.
pub open spec fn trim(s: Seq<char>) -> Seq<char> {
    trim_end(trim_start(s))
}

pub fn trimmed_start<'a>(s: &'a [char]) -> (r: &'a [char])
    ensures
        r@ == trim_start(s@),
{
    let mut i: usize = 0;
    assert(s@.skip(0) =~= s@);
    while i < s.len() && space(s[i])
        invariant
            0 <= i <= s.len(),
            trim_start(s@) == trim_start(s@.skip(i as int)),
        decreases s.len() - i,
    {
        assert(s@.skip(i as int).drop_first() =~= s@.skip(i + 1));
        i = i + 1;
    }
    slice_subrange(s, i, s.len())
}

pub fn trimmed_end<'a>(s: &'a [char]) -> (r: &'a [char])
    ensures
        r@ == trim_end(s@),
{
    let mut i: usize = s.len();
    assert(s@.take(s@.len() as int) =~= s@);
    while i > 0 && space(s[i - 1])
        invariant
            0 <= i <= s.len(),
            trim_end(s@) == trim_end(s@.take(i as int)),
        decreases i,
    {
        assert(s@.take(i as int).drop_last() =~= s@.take(i - 1));
        i = i - 1;
    }
    slice_subrange(s, 0, i)
}

pub fn trimmed<'a>(s: &'a [char]) -> (r: &'a [char])
    ensures
        r@ == trim(s@),
{
    trimmed_end(trimmed_start(s))
}

/// What `trim_start` takes off is white space, and it stops at the first
/// character that is not.
pub proof fn lemma_trim_start(s: Seq<char>)
    ensures
        trim_start(s).len() <= s.len(),
        trim_start(s) == s.skip(s.len() - trim_start(s).len()),
        forall|i: int| 0 <= i < s.len() - trim_start(s).len() ==> is_space(#[trigger] s[i]),
        trim_start(s).len() > 0 ==> !is_space(trim_start(s)[0]),
    decreases s.len(),
{
    if s.len() > 0 && is_space(s[0]) {
        let t = s.drop_first();
        lemma_trim_start(t);
        assert(trim_start(s) =~= s.skip(s.len() - trim_start(s).len()));
        assert forall|i: int| 0 <= i < s.len() - trim_start(s).len() implies is_space(
            #[trigger] s[i],
        ) by {
            if i > 0 {
                assert(s[i] == t[i - 1]);
            }
        }
    } else {
        assert(s.skip(0) =~= s);
    }
}

/// What `trim_end` takes off is white space, and it stops at the last
/// character that is not.
pub proof fn lemma_trim_end(s: Seq<char>)
    ensures
        trim_end(s).len() <= s.len(),
        trim_end(s) == s.take(trim_end(s).len() as int),
        forall|i: int| trim_end(s).len() <= i < s.len() ==> is_space(#[trigger] s[i]),
        trim_end(s).len() > 0 ==> !is_space(trim_end(s).last()),
    decreases s.len(),
{
    if s.len() > 0 && is_space(s.last()) {
        let t = s.drop_last();
        lemma_trim_end(t);
        assert(trim_end(s) =~= s.take(trim_end(s).len() as int));
        assert forall|i: int| trim_end(s).len() <= i < s.len() implies is_space(
            #[trigger] s[i],
        ) by {
            if i < s.len() - 1 {
                assert(s[i] == t[i]);
            }
        }
    } else {
        assert(s.take(s.len() as int) =~= s);
    }
}

/// A trimmed text has no white space at either end, and trimming it again
/// changes nothing.
pub proof fn lemma_trim(s: Seq<char>)
    ensures
        trim(s).len() <= s.len(),
        trim(s).len() > 0 ==> !is_space(trim(s)[0]) && !is_space(trim(s).last()),
        trim(trim(s)) == trim(s),
{
    lemma_trim_start(s);
    lemma_trim_end(trim_start(s));
}

/// A text with no white space at either end is its own trimmed self.
pub proof fn lemma_trim_unchanged(s: Seq<char>)
    requires
        s.len() == 0 || (!is_space(s[0]) && !is_space(s.last())),
    ensures
        trim(s) == s,
{
}

// ---------------------------------------------------------------------------
// Prefixes and suffixes
// ---------------------------------------------------------------------------

/// Whether a text begins with another.
pub open spec fn starts(s: Seq<char>, p: Seq<char>) -> bool {
    p.len() <= s.len() && s.take(p.len() as int) == p
}

/// Whether a text ends with another.
pub open spec fn ends(s: Seq<char>, p: Seq<char>) -> bool {
    p.len() <= s.len() && s.skip(s.len() - p.len()) == p
}

/// What follows a prefix, where there is that prefix.
pub open spec fn after(s: Seq<char>, p: Seq<char>) -> Option<Seq<char>> {
    if starts(s, p) {
        Some(s.skip(p.len() as int))
    } else {
        None
    }
}

/// Whether `p` stands in `s` at `at`.
pub open spec fn stands_at(s: Seq<char>, p: Seq<char>, at: int) -> bool {
    0 <= at && at + p.len() <= s.len() && s.subrange(at, at + p.len()) == p
}

/// Whether `p` stands anywhere in `s`.
pub open spec fn holds(s: Seq<char>, p: Seq<char>) -> bool {
    exists|at: int| stands_at(s, p, at)
}

pub fn stands(s: &[char], p: &[char], at: usize) -> (r: bool)
    ensures
        r == stands_at(s@, p@, at as int),
{
    if at > s.len() || p.len() > s.len() - at {
        return false;
    }
    equal(slice_subrange(s, at, at + p.len()), p)
}

pub fn begins(s: &[char], p: &str) -> (r: bool)
    ensures
        r == starts(s@, p@),
{
    let q = chars_of(p);
    q.len() <= s.len() && equal(slice_subrange(s, 0, q.len()), q.as_slice())
}

pub fn past<'a>(s: &'a [char], p: &str) -> (r: Option<&'a [char]>)
    ensures
        match r {
            Some(rest) => after(s@, p@) == Some(rest@),
            None => after(s@, p@) is None,
        },
{
    if begins(s, p) {
        let n: usize = chars_of(p).len();
        let rest = slice_subrange(s, n, s.len());
        Some(rest)
    } else {
        None
    }
}

/// Whether a needle stands anywhere in a run.
pub fn contains(s: &[char], p: &str) -> (r: bool)
    ensures
        r == holds(s@, p@),
{
    find(s, p, 0).is_some()
}

/// The first place at or after `from` where `p` stands in `s`.
pub open spec fn is_first(s: Seq<char>, p: Seq<char>, from: int, at: int) -> bool {
    &&& from <= at
    &&& stands_at(s, p, at)
    &&& forall|j: int| from <= j < at ==> !stands_at(s, p, j)
}

pub fn find(s: &[char], p: &str, from: usize) -> (r: Option<usize>)
    ensures
        match r {
            Some(at) => is_first(s@, p@, from as int, at as int),
            None => forall|j: int| from <= j ==> !stands_at(s@, p@, j),
        },
{
    let q = chars_of(p);
    let mut at: usize = from;
    while at <= s.len()
        invariant
            from <= at,
            q@ == p@,
            forall|j: int| from <= j < at ==> !stands_at(s@, p@, j),
        decreases s.len() + 1 - at,
    {
        if stands(s, q.as_slice(), at) {
            return Some(at);
        }
        if at == s.len() {
            assert forall|j: int| from <= j implies !stands_at(s@, p@, j) by {}
            return None;
        }
        at = at + 1;
    }
    None
}

// ---------------------------------------------------------------------------
// Single characters
// ---------------------------------------------------------------------------

/// Where `c` next occurs in `s`, at or after `from`: the length of `s` where it
/// does not.
pub open spec fn next(s: Seq<char>, c: char, from: int) -> int
    decreases s.len() - from,
{
    if from >= s.len() {
        s.len() as int
    } else if s[from] == c {
        from
    } else {
        next(s, c, from + 1)
    }
}

pub proof fn lemma_next(s: Seq<char>, c: char, from: int)
    requires
        0 <= from <= s.len(),
    ensures
        from <= next(s, c, from) <= s.len(),
        forall|i: int| from <= i < next(s, c, from) ==> s[i] != c,
        next(s, c, from) < s.len() ==> s[next(s, c, from)] == c,
    decreases s.len() - from,
{
    if from < s.len() && s[from] != c {
        lemma_next(s, c, from + 1);
    }
}

/// A place is the next one if the character is there and not before.
pub proof fn lemma_next_is(s: Seq<char>, c: char, from: int, at: int)
    requires
        0 <= from <= at <= s.len(),
        forall|i: int| from <= i < at ==> s[i] != c,
        at < s.len() ==> s[at] == c,
    ensures
        next(s, c, from) == at,
    decreases at - from,
{
    if from < at {
        lemma_next_is(s, c, from + 1, at);
    }
}

pub fn next_of(s: &[char], c: char, from: usize) -> (r: usize)
    requires
        from <= s.len(),
    ensures
        r == next(s@, c, from as int),
        from <= r <= s.len(),
        r < s.len() ==> s@[r as int] == c,
{
    let mut i: usize = from;
    while i < s.len() && s[i] != c
        invariant
            from <= i <= s.len(),
            forall|j: int| from <= j < i ==> s@[j] != c,
        decreases s.len() - i,
    {
        i = i + 1;
    }
    proof {
        lemma_next_is(s@, c, from as int, i as int);
    }
    i
}

/// How many times `c` stands at the front of `s`, one after the other.
pub open spec fn leading(s: Seq<char>, c: char) -> nat
    decreases s.len(),
{
    if s.len() > 0 && s[0] == c {
        1 + leading(s.drop_first(), c)
    } else {
        0
    }
}

pub proof fn lemma_leading(s: Seq<char>, c: char)
    ensures
        leading(s, c) <= s.len(),
    decreases s.len(),
{
    if s.len() > 0 && s[0] == c {
        lemma_leading(s.drop_first(), c);
    }
}

pub fn leading_of(s: &[char], c: char) -> (r: usize)
    ensures
        r == leading(s@, c),
        r <= s.len(),
{
    let mut i: usize = 0;
    assert(s@.skip(0) =~= s@);
    while i < s.len() && s[i] == c
        invariant
            0 <= i <= s.len(),
            leading(s@, c) == i + leading(s@.skip(i as int), c),
        decreases s.len() - i,
    {
        assert(s@.skip(i as int).drop_first() =~= s@.skip(i + 1));
        i = i + 1;
    }
    i
}

/// A text without the occurrences of `c` at its end.
pub open spec fn without_trailing(s: Seq<char>, c: char) -> Seq<char>
    decreases s.len(),
{
    if s.len() > 0 && s.last() == c {
        without_trailing(s.drop_last(), c)
    } else {
        s
    }
}

/// What is left is the front of the text.
pub proof fn lemma_without_trailing(s: Seq<char>, c: char)
    ensures
        without_trailing(s, c).len() > 0 ==> without_trailing(s, c).last() != c,
        without_trailing(s, c).len() <= s.len(),
        without_trailing(s, c) == s.take(without_trailing(s, c).len() as int),
    decreases s.len(),
{
    if s.len() > 0 && s.last() == c {
        lemma_without_trailing(s.drop_last(), c);
        assert(without_trailing(s, c) =~= s.take(without_trailing(s, c).len() as int));
    } else {
        assert(s.take(s.len() as int) =~= s);
    }
}

pub fn trailing_off<'a>(s: &'a [char], c: char) -> (r: &'a [char])
    ensures
        r@ == without_trailing(s@, c),
{
    let mut i: usize = s.len();
    assert(s@.take(s@.len() as int) =~= s@);
    while i > 0 && s[i - 1] == c
        invariant
            0 <= i <= s.len(),
            without_trailing(s@, c) == without_trailing(s@.take(i as int), c),
        decreases i,
    {
        assert(s@.take(i as int).drop_last() =~= s@.take(i - 1));
        i = i - 1;
    }
    slice_subrange(s, 0, i)
}

/// How many ASCII digits stand at the front of a text.
pub open spec fn leading_digits(s: Seq<char>) -> nat
    decreases s.len(),
{
    if s.len() > 0 && is_digit(s[0]) {
        1 + leading_digits(s.drop_first())
    } else {
        0
    }
}

pub fn leading_digits_of(s: &[char]) -> (r: usize)
    ensures
        r == leading_digits(s@),
        r <= s.len(),
        forall|i: int| 0 <= i < r ==> is_digit(#[trigger] s@[i]),
{
    let mut i: usize = 0;
    assert(s@.skip(0) =~= s@);
    while i < s.len() && digit(s[i])
        invariant
            0 <= i <= s.len(),
            leading_digits(s@) == i + leading_digits(s@.skip(i as int)),
            forall|j: int| 0 <= j < i ==> is_digit(#[trigger] s@[j]),
        decreases s.len() - i,
    {
        assert(s@.skip(i as int).drop_first() =~= s@.skip(i + 1));
        i = i + 1;
    }
    i
}

/// The pieces of a text between the occurrences of a character.
pub open spec fn split(s: Seq<char>, c: char) -> Seq<Seq<char>>
    decreases s.len(),
{
    let n = next(s, c, 0);
    proof {
        lemma_next(s, c, 0);
    }
    if n < s.len() {
        seq![s.take(n)] + split(s.skip(n + 1), c)
    } else {
        seq![s]
    }
}

pub fn pieces<'a>(s: &'a [char], c: char) -> (r: Vec<&'a [char]>)
    ensures
        runs(r@) == split(s@, c),
        r.len() > 0,
{
    let mut r: Vec<&'a [char]> = Vec::new();
    let mut from: usize = 0;
    assert(s@.skip(0) =~= s@);
    assert(runs(r@) =~= Seq::<Seq<char>>::empty());
    assert(split(s@, c) =~= runs(r@) + split(s@.skip(0), c));
    loop
        invariant
            from <= s.len(),
            split(s@, c) == runs(r@) + split(s@.skip(from as int), c),
        decreases s.len() - from,
    {
        let at = next_of(s, c, from);
        let ghost rest = s@.skip(from as int);
        let ghost before = runs(r@);
        proof {
            lemma_next(s@, c, from as int);
            lemma_next_is(rest, c, 0, at - from);
            assert(rest.take(at - from) =~= s@.subrange(from as int, at as int));
        }
        r.push(slice_subrange(s, from, at));
        assert(runs(r@) =~= before.push(s@.subrange(from as int, at as int)));
        if at == s.len() {
            assert(rest.take(at - from) =~= rest);
            assert(runs(r@) =~= split(s@, c));
            return r;
        }
        assert(rest.skip(at - from + 1) =~= s@.skip(at + 1));
        assert(runs(r@) + split(s@.skip(at + 1), c) =~= before + (seq![rest.take(at - from)]
            + split(rest.skip(at - from + 1), c)));
        from = at + 1;
    }
}

/// The lines of a text: what stands between line feeds, each without the
/// carriage return in front of its line feed. A line feed at the very end opens
/// no further line.
pub open spec fn lines(s: Seq<char>) -> Seq<Seq<char>>
    decreases s.len(),
{
    let n = next(s, '\n', 0);
    proof {
        lemma_next(s, '\n', 0);
    }
    if s.len() == 0 {
        Seq::empty()
    } else if n < s.len() {
        seq![without_return(s.take(n))] + lines(s.skip(n + 1))
    } else {
        seq![s]
    }
}

/// A text without one carriage return at its end.
pub open spec fn without_return(s: Seq<char>) -> Seq<char> {
    if s.len() > 0 && s.last() == '\r' {
        s.drop_last()
    } else {
        s
    }
}

/// The lines on both sides of a line feed are lines of the whole.
pub proof fn lemma_lines_break(u: Seq<char>, rest: Seq<char>)
    ensures
        lines(u + seq!['\n'] + rest) == lines(u + seq!['\n']) + lines(rest),
    decreases u.len(),
{
    let s = u + seq!['\n'] + rest;
    let t = u + seq!['\n'];
    let n = next(t, '\n', 0);
    lemma_next(t, '\n', 0);
    assert(t[u.len() as int] == '\n');
    lemma_next_is(s, '\n', 0, n);
    assert(s.take(n) =~= t.take(n));
    if n < u.len() {
        let v = u.skip(n + 1);
        lemma_lines_break(v, rest);
        assert(s.skip(n + 1) =~= v + seq!['\n'] + rest);
        assert(t.skip(n + 1) =~= v + seq!['\n']);
        assert(lines(s) =~= lines(t) + lines(rest));
    } else {
        assert(s.skip(n + 1) =~= rest);
        assert(t.skip(n + 1) =~= Seq::empty());
        assert(lines(t.skip(n + 1)) =~= Seq::empty());
        assert(lines(s) =~= lines(t) + lines(rest));
    }
}

/// A line with its line feed.
pub proof fn lemma_one_line(line: Seq<char>)
    requires
        !line.contains('\n'),
    ensures
        lines(line + seq!['\n']) == seq![without_return(line)],
{
    let s = line + seq!['\n'];
    lemma_next_is(s, '\n', 0, line.len() as int);
    assert(s.take(line.len() as int) =~= line);
    assert(s.skip(line.len() as int + 1) =~= Seq::empty());
    assert(lines(s.skip(line.len() as int + 1)) =~= Seq::empty());
    assert(lines(s) =~= seq![without_return(line)]);
}

pub fn lines_of<'a>(s: &'a [char]) -> (r: Vec<&'a [char]>)
    ensures
        runs(r@) == lines(s@),
{
    let mut r: Vec<&'a [char]> = Vec::new();
    let mut from: usize = 0;
    assert(s@.skip(0) =~= s@);
    assert(lines(s@) =~= runs(r@) + lines(s@.skip(0)));
    while from < s.len()
        invariant
            from <= s.len(),
            lines(s@) == runs(r@) + lines(s@.skip(from as int)),
        decreases s.len() - from,
    {
        let at = next_of(s, '\n', from);
        let ghost rest = s@.skip(from as int);
        let ghost before = runs(r@);
        proof {
            lemma_next(s@, '\n', from as int);
            lemma_next_is(rest, '\n', 0, at - from);
            assert(rest.take(at - from) =~= s@.subrange(from as int, at as int));
        }
        if at == s.len() {
            r.push(slice_subrange(s, from, at));
            assert(rest.take(at - from) =~= rest);
            assert(runs(r@) =~= before.push(rest));
            assert(runs(r@) =~= lines(s@));
            return r;
        }
        let end: usize = if at > from && s[at - 1] == '\r' {
            at - 1
        } else {
            at
        };
        r.push(slice_subrange(s, from, end));
        assert(without_return(rest.take(at - from)) =~= s@.subrange(from as int, end as int));
        assert(runs(r@) =~= before.push(s@.subrange(from as int, end as int)));
        assert(rest.skip(at - from + 1) =~= s@.skip(at + 1));
        assert(runs(r@) + lines(s@.skip(at + 1)) =~= before + (seq![
            without_return(rest.take(at - from)),
        ] + lines(rest.skip(at - from + 1))));
        from = at + 1;
    }
    assert(s@.skip(from as int) =~= Seq::empty());
    assert(runs(r@) =~= lines(s@));
    r
}

/// Where white space next stands in a text: its length where there is none.
pub open spec fn next_space(s: Seq<char>, from: int) -> int
    decreases s.len() - from,
{
    if from >= s.len() {
        s.len() as int
    } else if is_space(s[from]) {
        from
    } else {
        next_space(s, from + 1)
    }
}

pub fn next_space_of(s: &[char], from: usize) -> (r: usize)
    requires
        from <= s.len(),
    ensures
        r == next_space(s@, from as int),
        from <= r <= s.len(),
{
    let mut i: usize = from;
    while i < s.len() && !space(s[i])
        invariant
            from <= i <= s.len(),
            next_space(s@, from as int) == next_space(s@, i as int),
        decreases s.len() - i,
    {
        i = i + 1;
    }
    i
}

/// A text with every occurrence of `p`, from the front, replaced by `q`.
pub open spec fn replace(s: Seq<char>, p: Seq<char>, q: Seq<char>) -> Seq<char>
    decreases s.len(),
{
    if s.len() == 0 {
        Seq::empty()
    } else if p.len() > 0 && starts(s, p) {
        q + replace(s.skip(p.len() as int), p, q)
    } else {
        seq![s[0]] + replace(s.skip(1), p, q)
    }
}

pub fn replaced(s: &[char], p: &str, q: &str) -> (r: Vec<char>)
    ensures
        r@ == replace(s@, p@, q@),
{
    let needle = chars_of(p);
    let put = chars_of(q);
    let mut r: Vec<char> = Vec::new();
    let mut i: usize = 0;
    assert(s@.skip(0) =~= s@);
    assert(r@ + replace(s@.skip(0), p@, q@) =~= replace(s@, p@, q@));
    while i < s.len()
        invariant
            i <= s.len(),
            needle@ == p@,
            put@ == q@,
            replace(s@, p@, q@) == r@ + replace(s@.skip(i as int), p@, q@),
        decreases s.len() - i,
    {
        let ghost before = r@;
        let ghost rest = s@.skip(i as int);
        if needle.len() > 0 && needle.len() <= s.len() - i && equal(
            slice_subrange(s, i, i + needle.len()),
            needle.as_slice(),
        ) {
            assert(rest.take(p@.len() as int) =~= s@.subrange(i as int, i + p@.len()));
            assert(rest.skip(p@.len() as int) =~= s@.skip(i + p@.len()));
            r.extend_from_slice(put.as_slice());
            assert(r@ =~= before + q@);
            assert(r@ + replace(s@.skip(i + p@.len()), p@, q@) =~= before + (q@ + replace(
                s@.skip(i + p@.len()),
                p@,
                q@,
            )));
            i = i + needle.len();
        } else {
            proof {
                if p@.len() > 0 && p@.len() <= rest.len() {
                    assert(rest.take(p@.len() as int) =~= s@.subrange(i as int, i + p@.len()));
                }
                assert(rest.skip(1) =~= s@.skip(i + 1));
            }
            r.push(s[i]);
            assert(r@ + replace(s@.skip(i + 1), p@, q@) =~= before + (seq![rest[0]] + replace(
                s@.skip(i + 1),
                p@,
                q@,
            )));
            i = i + 1;
        }
    }
    assert(s@.skip(i as int) =~= Seq::empty());
    assert(r@ + Seq::<char>::empty() =~= r@);
    r
}

/// The value of a run of digits.
pub open spec fn digits_value(s: Seq<char>) -> nat
    decreases s.len(),
{
    if s.len() == 0 {
        0
    } else {
        digits_value(s.drop_last()) * 10 + (s.last() as int - 0x30) as nat
    }
}

/// Whether a text is made of digits, at least one.
pub open spec fn is_digits(s: Seq<char>) -> bool {
    s.len() > 0 && forall|i: int| 0 <= i < s.len() ==> is_digit(#[trigger] s[i])
}

/// The number that a text spells in decimal, where it spells one that is no
/// larger than `most`: digits, perhaps with a plus sign in front.
pub open spec fn number(s: Seq<char>, most: nat) -> Option<nat> {
    let digits = if s.len() > 0 && s[0] == '+' {
        s.skip(1)
    } else {
        s
    };
    if is_digits(digits) && digits_value(digits) <= most {
        Some(digits_value(digits))
    } else {
        None
    }
}

pub proof fn lemma_number_bound(s: Seq<char>, most: nat)
    ensures
        number(s, most) is Some ==> number(s, most)->0 <= most,
{
}

pub fn number_of(s: &[char], most: u64) -> (r: Option<u64>)
    ensures
        match r {
            Some(n) => number(s@, most as nat) == Some(n as nat),
            None => number(s@, most as nat) is None,
        },
{
    let digits = if s.len() > 0 && s[0] == '+' {
        slice_subrange(s, 1, s.len())
    } else {
        s
    };
    let ghost d = if s@.len() > 0 && s@[0] == '+' {
        s@.skip(1)
    } else {
        s@
    };
    assert(digits@ =~= d);
    if digits.len() == 0 {
        return None;
    }
    let mut over = false;
    let mut n: u128 = 0;
    let mut i: usize = 0;
    while i < digits.len()
        invariant
            0 <= i <= digits.len(),
            digits@ == d,
            d == if s@.len() > 0 && s@[0] == '+' {
                s@.skip(1)
            } else {
                s@
            },
            n <= most,
            forall|j: int| 0 <= j < i ==> is_digit(#[trigger] digits@[j]),
            !over ==> n == digits_value(digits@.take(i as int)),
            over ==> digits_value(digits@.take(i as int)) > most,
        decreases digits.len() - i,
    {
        let c = digits[i];
        if !digit(c) {
            assert(!is_digit(digits@[i as int]));
            return None;
        }
        proof {
            assert(digits@.take(i + 1).drop_last() =~= digits@.take(i as int));
            assert(digits@.take(i + 1).last() == c);
        }
        if !over {
            let next: u128 = n * 10 + (c as u32 - 0x30) as u128;
            if next > most as u128 {
                over = true;
            } else {
                n = next;
            }
        }
        i = i + 1;
    }
    assert(digits@.take(digits@.len() as int) =~= digits@);
    if over {
        None
    } else {
        Some(n as u64)
    }
}

// ---------------------------------------------------------------------------
// Joining
// ---------------------------------------------------------------------------

/// Texts one after the other.
pub open spec fn concat(parts: Seq<Seq<char>>) -> Seq<char>
    decreases parts.len(),
{
    if parts.len() == 0 {
        Seq::empty()
    } else {
        concat(parts.drop_last()) + parts.last()
    }
}

/// What one more text adds.
pub proof fn lemma_concat_take(parts: Seq<Seq<char>>, i: int)
    requires
        0 <= i < parts.len(),
    ensures
        concat(parts.take(i + 1)) == concat(parts.take(i)) + parts[i],
{
    assert(parts.take(i + 1).drop_last() =~= parts.take(i));
}

/// Each of some texts stands in all of them one after the other, and so in
/// whatever stands around that.
pub proof fn lemma_concat_holds(before: Seq<char>, parts: Seq<Seq<char>>, i: int, behind: Seq<char>)
    requires
        0 <= i < parts.len(),
    ensures
        holds(before + concat(parts) + behind, parts[i]),
    decreases parts.len(),
{
    let last = parts.last();
    let front = parts.drop_last();
    let whole = before + concat(parts) + behind;
    assert(whole =~= before + concat(front) + (last + behind));
    if i == parts.len() - 1 {
        let at = (before + concat(front)).len() as int;
        assert(whole.subrange(at, at + last.len()) =~= last);
        assert(stands_at(whole, last, at));
    } else {
        assert(front[i] == parts[i]);
        lemma_concat_holds(before, front, i, last + behind);
    }
}

/// A text where a condition holds, and nothing where it does not.
pub open spec fn given(condition: bool, s: Seq<char>) -> Seq<char> {
    if condition {
        s
    } else {
        Seq::empty()
    }
}

pub fn push_given(out: &mut String, condition: bool, s: &str)
    ensures
        final(out)@ == old(out)@ + given(condition, s@),
{
    if condition {
        out.append(s);
    }
    assert(!condition ==> out@ =~= old(out)@ + given(condition, s@));
}

/// The character that stands for a digit.
pub open spec fn digit_char(d: int) -> char {
    (d + 0x30) as char
}

/// A number in decimal, without leading zeros.
pub open spec fn decimal(n: nat) -> Seq<char>
    decreases n,
{
    if n < 10 {
        seq![digit_char(n as int)]
    } else {
        decimal(n / 10).push(digit_char((n % 10) as int))
    }
}

/// A decimal is made of digits, at least one.
pub proof fn lemma_decimal(n: nat)
    ensures
        decimal(n).len() > 0,
        forall|i: int| 0 <= i < decimal(n).len() ==> is_digit(#[trigger] decimal(n)[i]),
    decreases n,
{
    if n >= 10 {
        lemma_decimal(n / 10);
    }
}

/// Ten, multiplied with itself.
pub open spec fn tens(count: nat) -> nat
    decreases count,
{
    if count == 0 {
        1
    } else {
        10 * tens((count - 1) as nat)
    }
}

/// A number has no more digits than the tens that it is below.
pub proof fn lemma_decimal_length(n: nat, count: nat)
    requires
        n < tens(count),
        count > 0,
    ensures
        decimal(n).len() <= count,
    decreases count,
{
    if n >= 10 {
        assert(count > 1) by {
            assert(tens(0) == 1);
        }
        lemma_decimal_length(n / 10, (count - 1) as nat);
    }
}

/// Two numbers never share a decimal.
pub proof fn lemma_decimal_injective(a: nat, b: nat)
    requires
        decimal(a) == decimal(b),
    ensures
        a == b,
    decreases a,
{
    let x = decimal(a);
    let y = decimal(b);
    lemma_decimal(a / 10);
    lemma_decimal(b / 10);
    assert(x.last() == digit_char((a % 10) as int));
    assert(y.last() == digit_char((b % 10) as int));
    assert(x.last() as int == a % 10 + 0x30);
    assert(y.last() as int == b % 10 + 0x30);
    assert(x.len() == 1 <==> a < 10);
    assert(y.len() == 1 <==> b < 10);
    if a >= 10 && b >= 10 {
        assert(x.drop_last() =~= decimal(a / 10));
        assert(y.drop_last() =~= decimal(b / 10));
        lemma_decimal_injective(a / 10, b / 10);
    }
}

pub fn decimal_of(n: u128) -> (r: String)
    ensures
        r@ == decimal(n as nat),
    decreases n,
{
    let last = ((n % 10) as u8 + 0x30u8) as char;
    if n < 10 {
        let mut r = String::new();
        r.push(last);
        assert(r@ =~= decimal(n as nat));
        r
    } else {
        let mut r = decimal_of(n / 10);
        r.push(last);
        r
    }
}

pub fn push_decimal(out: &mut String, n: u128)
    ensures
        final(out)@ == old(out)@ + decimal(n as nat),
{
    let digits = decimal_of(n);
    out.append(digits.as_str());
}

/// Texts one after the other, with a separator between each two.
pub open spec fn join(parts: Seq<Seq<char>>, sep: Seq<char>) -> Seq<char>
    decreases parts.len(),
{
    if parts.len() == 0 {
        Seq::empty()
    } else if parts.len() == 1 {
        parts[0]
    } else {
        join(parts.drop_last(), sep) + sep + parts.last()
    }
}

pub fn joined(parts: &Vec<String>, sep: &str) -> (r: String)
    ensures
        r@ == join(texts(parts@), sep@),
{
    let mut r = String::new();
    let mut i: usize = 0;
    let ghost all = texts(parts@);
    while i < parts.len()
        invariant
            0 <= i <= parts.len(),
            all == texts(parts@),
            r@ == join(all.take(i as int), sep@),
        decreases parts.len() - i,
    {
        if i > 0 {
            r.append(sep);
        }
        r.append(parts[i].as_str());
        proof {
            assert(all.take(i + 1).drop_last() =~= all.take(i as int));
            if i == 0 {
                assert(r@ =~= parts[0]@);
            }
        }
        i = i + 1;
    }
    assert(all.take(parts.len() as int) =~= all);
    r
}

pub fn joined_runs(parts: &Vec<&[char]>, from: usize, to: usize, sep: &str) -> (r: String)
    requires
        from <= to <= parts.len(),
    ensures
        r@ == join(runs(parts@).subrange(from as int, to as int), sep@),
{
    let mut r = String::new();
    let mut i: usize = from;
    let ghost all = runs(parts@).subrange(from as int, to as int);
    while i < to
        invariant
            from <= i <= to <= parts.len(),
            all == runs(parts@).subrange(from as int, to as int),
            r@ == join(all.take(i - from), sep@),
        decreases to - i,
    {
        if i > from {
            r.append(sep);
        }
        push_chars(&mut r, parts[i]);
        proof {
            assert(all.take(i - from + 1).drop_last() =~= all.take(i - from));
            if i == from {
                assert(r@ =~= parts[i as int]@);
            }
        }
        i = i + 1;
    }
    assert(all.take(to - from) =~= all);
    r
}

// ---------------------------------------------------------------------------
// Words, and the order of texts
// ---------------------------------------------------------------------------

pub proof fn lemma_next_space(s: Seq<char>, from: int)
    requires
        0 <= from <= s.len(),
    ensures
        from <= next_space(s, from) <= s.len(),
        forall|i: int| from <= i < next_space(s, from) ==> !is_space(#[trigger] s[i]),
        next_space(s, from) < s.len() ==> is_space(s[next_space(s, from)]),
    decreases s.len() - from,
{
    if from < s.len() && !is_space(s[from]) {
        lemma_next_space(s, from + 1);
    }
}

/// The words of a text: what stands between white space.
pub open spec fn words(s: Seq<char>) -> Seq<Seq<char>>
    decreases s.len(),
{
    let t = trim_start(s);
    if t.len() == 0 {
        Seq::empty()
    } else {
        proof {
            lemma_trim_start(s);
            lemma_next_space(t, 0);
        }
        seq![t.take(next_space(t, 0))] + words(t.skip(next_space(t, 0)))
    }
}

pub fn words_of<'a>(s: &'a [char]) -> (r: Vec<&'a [char]>)
    ensures
        runs(r@) == words(s@),
{
    let mut r: Vec<&'a [char]> = Vec::new();
    let mut rest = s;
    assert(runs(r@) + words(s@) =~= words(s@));
    loop
        invariant
            words(s@) == runs(r@) + words(rest@),
        decreases rest.len(),
    {
        let t = trimmed_start(rest);
        if t.len() == 0 {
            assert(runs(r@) + Seq::<Seq<char>>::empty() =~= runs(r@));
            return r;
        }
        let n = next_space_of(t, 0);
        proof {
            lemma_trim_start(rest@);
            lemma_next_space(t@, 0);
        }
        let word = slice_subrange(t, 0, n);
        let ghost before = runs(r@);
        let ghost tail = words(t@.skip(n as int));
        r.push(word);
        rest = slice_subrange(t, n, t.len());
        proof {
            assert(word@ =~= t@.take(n as int));
            assert(rest@ =~= t@.skip(n as int));
            assert(runs(r@) =~= before.push(word@));
            assert(before + (seq![word@] + tail) =~= before.push(word@) + tail);
        }
    }
}

/// The words of a text, with one space between each two.
pub open spec fn squeezed(s: Seq<char>) -> Seq<char> {
    join(words(s), " "@)
}

/// The words of a text, with one space between each two.
pub fn squeeze(s: &str) -> (r: String)
    ensures
        r@ == squeezed(s@),
{
    let chars = chars_of(s);
    let words = words_of(chars.as_slice());
    let n: usize = words.len();
    assert(runs(words@).subrange(0, n as int) =~= runs(words@));
    joined_runs(&words, 0, n, " ")
}

/// Whether a text comes before another, character by character.
pub open spec fn precedes(a: Seq<char>, b: Seq<char>) -> bool
    decreases a.len(),
{
    if b.len() == 0 {
        false
    } else if a.len() == 0 {
        true
    } else if a[0] != b[0] {
        a[0] < b[0]
    } else {
        precedes(a.skip(1), b.skip(1))
    }
}

/// What comes before a text comes before everything that does not.
pub proof fn lemma_precedes(a: Seq<char>, b: Seq<char>, c: Seq<char>)
    requires
        precedes(a, b),
        !precedes(c, b),
    ensures
        precedes(a, c),
    decreases a.len(),
{
    if a.len() > 0 && c.len() > 0 && a[0] == b[0] && c[0] == b[0] {
        lemma_precedes(a.skip(1), b.skip(1), c.skip(1));
    }
}

/// Of two different texts one comes before the other, and not both.
pub proof fn lemma_precedes_total(a: Seq<char>, b: Seq<char>)
    ensures
        !(precedes(a, b) && precedes(b, a)),
        a != b ==> precedes(a, b) || precedes(b, a),
        a == b ==> !precedes(a, b),
    decreases a.len(),
{
    if a.len() > 0 && b.len() > 0 && a[0] == b[0] {
        lemma_precedes_total(a.skip(1), b.skip(1));
        if a.skip(1) == b.skip(1) {
            assert(a =~= seq![a[0]] + a.skip(1));
            assert(b =~= seq![b[0]] + b.skip(1));
        }
    } else if a.len() == 0 && b.len() == 0 {
        assert(a =~= b);
    }
}

pub fn comes_before(a: &str, b: &str) -> (r: bool)
    ensures
        r == precedes(a@, b@),
{
    let x = chars_of(a);
    let y = chars_of(b);
    let mut i: usize = 0;
    assert(x@.skip(0) =~= a@);
    assert(y@.skip(0) =~= b@);
    while i < x.len() && i < y.len() && x[i] == y[i]
        invariant
            0 <= i <= x.len(),
            i <= y.len(),
            precedes(a@, b@) == precedes(x@.skip(i as int), y@.skip(i as int)),
        decreases x.len() - i,
    {
        assert(x@.skip(i as int).skip(1) =~= x@.skip(i + 1));
        assert(y@.skip(i as int).skip(1) =~= y@.skip(i + 1));
        i = i + 1;
    }
    if i >= y.len() {
        false
    } else if i >= x.len() {
        true
    } else {
        x[i] < y[i]
    }
}

/// A number in decimal, with a minus sign in front of one below nothing.
pub open spec fn signed(n: int) -> Seq<char> {
    if n < 0 {
        "-"@ + decimal((-n) as nat)
    } else {
        decimal(n as nat)
    }
}

pub fn signed_of(n: i64) -> (r: String)
    ensures
        r@ == signed(n as int),
{
    if n < 0 {
        let mut r = "-".to_owned();
        push_decimal(&mut r, (-(n as i128)) as u128);
        r
    } else {
        decimal_of(n as u128)
    }
}

/// A text in quotation marks, with what would end them escaped.
pub uninterp spec fn quoted(s: Seq<char>) -> Seq<char>;

/// `format!` with `{:?}`: a text in quotation marks, which depends on the text
/// alone.
#[verifier::external_body]
pub(crate) fn quote(s: &str) -> (r: String)
    ensures
        r@ == quoted(s@),
{
    format!("{s:?}")
}

/// `char::from_u32`: the character with that code point, where there is one; the
/// surrogates are none.
pub assume_specification[ char::from_u32 ](i: u32) -> (r: Option<char>)
    ensures
        r == char_with(i as int),
;

/// The character with a code point.
pub open spec fn char_with(i: int) -> Option<char> {
    if 0 <= i < 0xd800 || 0xe000 <= i <= 0x10_ffff {
        Some(i as char)
    } else {
        None
    }
}

/// A text without a prefix, however often it stands there.
pub open spec fn unprefixed(s: Seq<char>, p: Seq<char>) -> Seq<char>
    decreases s.len(),
{
    if p.len() > 0 && starts(s, p) {
        unprefixed(s.skip(p.len() as int), p)
    } else {
        s
    }
}

pub fn prefix_off<'a>(s: &'a [char], p: &str) -> (r: &'a [char])
    ensures
        r@ == unprefixed(s@, p@),
{
    let n: usize = chars_of(p).len();
    let mut rest = s;
    while n > 0 && begins(rest, p)
        invariant
            n == p@.len(),
            unprefixed(s@, p@) == unprefixed(rest@, p@),
        decreases rest.len(),
    {
        let ghost before = rest@;
        rest = slice_subrange(rest, n, rest.len());
        assert(rest@ =~= before.skip(n as int));
    }
    rest
}

// ---------------------------------------------------------------------------
// Where one text stands in another
// ---------------------------------------------------------------------------

/// The first place at or after `from` where `p` stands in `s`: -1 where there is
/// none.
pub open spec fn index_of(s: Seq<char>, p: Seq<char>, from: int) -> int
    decreases s.len() + 1 - from,
{
    if from < 0 || from > s.len() {
        -1
    } else if stands_at(s, p, from) {
        from
    } else {
        index_of(s, p, from + 1)
    }
}

/// Nothing stands in front of the first place, and where there is none nothing
/// stands at all.
pub proof fn lemma_index_of(s: Seq<char>, p: Seq<char>, from: int)
    requires
        0 <= from,
    ensures
        index_of(s, p, from) >= 0 ==> is_first(s, p, from, index_of(s, p, from)),
        index_of(s, p, from) < 0 ==> index_of(s, p, from) == -1 && forall|j: int|
            from <= j ==> !#[trigger] stands_at(s, p, j),
    decreases s.len() + 1 - from,
{
    if from <= s.len() && !stands_at(s, p, from) {
        lemma_index_of(s, p, from + 1);
    }
}

/// The first place is where nothing stands in front of it.
pub proof fn lemma_index_is(s: Seq<char>, p: Seq<char>, from: int, at: int)
    requires
        0 <= from,
        is_first(s, p, from, at),
    ensures
        index_of(s, p, from) == at,
{
    lemma_index_of(s, p, from);
    if index_of(s, p, from) < 0 {
        assert(!stands_at(s, p, at));
    }
}

pub fn index(s: &[char], p: &str, from: usize) -> (r: Option<usize>)
    ensures
        match r {
            Some(at) => index_of(s@, p@, from as int) == at && at + p@.len() <= s.len(),
            None => index_of(s@, p@, from as int) == -1,
        },
{
    let r = find(s, p, from);
    proof {
        lemma_index_of(s@, p@, from as int);
        match r {
            Some(at) => {
                lemma_index_is(s@, p@, from as int, at as int);
            },
            None => {},
        }
    }
    r
}

/// What stands in front of the first place of `p`: all of the text where there
/// is none.
pub open spec fn front(s: Seq<char>, p: Seq<char>) -> Seq<char> {
    if index_of(s, p, 0) < 0 {
        s
    } else {
        s.take(index_of(s, p, 0))
    }
}

pub fn front_of<'a>(s: &'a [char], p: &str) -> (r: &'a [char])
    ensures
        r@ == front(s@, p@),
{
    match index(s, p, 0) {
        Some(at) => {
            let r = slice_subrange(s, 0, at);
            assert(r@ =~= s@.take(at as int));
            r
        },
        None => s,
    }
}

/// Replacing leaves alone what stands in front of the first place.
pub proof fn lemma_replace_front(s: Seq<char>, p: Seq<char>, q: Seq<char>, k: int)
    requires
        0 <= k <= s.len(),
        p.len() > 0,
        forall|j: int| 0 <= j < k ==> !#[trigger] stands_at(s, p, j),
    ensures
        replace(s, p, q) == s.take(k) + replace(s.skip(k), p, q),
    decreases k,
{
    if k == 0 {
        assert(s.skip(0) =~= s);
        assert(s.take(0) + replace(s, p, q) =~= replace(s, p, q));
    } else {
        let t = s.skip(1);
        assert(!stands_at(s, p, 0));
        if starts(s, p) {
            assert(s.subrange(0, p.len() as int) =~= s.take(p.len() as int));
        }
        assert forall|j: int| 0 <= j < k - 1 implies !#[trigger] stands_at(t, p, j) by {
            assert(!stands_at(s, p, j + 1));
            if stands_at(t, p, j) {
                assert(t.subrange(j, j + p.len()) =~= s.subrange(j + 1, j + 1 + p.len()));
            }
        }
        lemma_replace_front(t, p, q, k - 1);
        assert(t.skip(k - 1) =~= s.skip(k));
        assert(seq![s[0]] + (t.take(k - 1) + replace(s.skip(k), p, q)) =~= s.take(k) + replace(
            s.skip(k),
            p,
            q,
        ));
    }
}

/// White space.
pub open spec fn is_blank(s: Seq<char>) -> bool {
    forall|i: int| 0 <= i < s.len() ==> is_space(#[trigger] s[i])
}

/// A text with no white space in it.
pub open spec fn is_solid(s: Seq<char>) -> bool {
    forall|i: int| 0 <= i < s.len() ==> !is_space(#[trigger] s[i])
}

/// Replacing a word leaves the white space behind a text alone.
pub proof fn lemma_replace_tail(s: Seq<char>, blank: Seq<char>, p: Seq<char>, q: Seq<char>)
    requires
        p.len() > 0,
        is_solid(p),
        is_blank(blank),
    ensures
        replace(s + blank, p, q) == replace(s, p, q) + blank,
    decreases s.len(),
{
    let t = s + blank;
    if s.len() == 0 {
        assert(t =~= blank);
        lemma_replace_blank(blank, p, q);
        assert(replace(s, p, q) + blank =~= blank);
    } else {
        if starts(t, p) && !starts(s, p) {
            if p.len() <= s.len() {
                assert(s.take(p.len() as int) =~= t.take(p.len() as int));
            } else {
                assert(t.take(p.len() as int)[s.len() as int] == blank[0]);
                assert(is_space(p[s.len() as int]));
            }
        }
        if starts(s, p) {
            assert(t.take(p.len() as int) =~= s.take(p.len() as int));
            assert(t.skip(p.len() as int) =~= s.skip(p.len() as int) + blank);
            lemma_replace_tail(s.skip(p.len() as int), blank, p, q);
            assert(q + (replace(s.skip(p.len() as int), p, q) + blank) =~= q + replace(
                s.skip(p.len() as int),
                p,
                q,
            ) + blank);
        } else {
            assert(t.skip(1) =~= s.skip(1) + blank);
            lemma_replace_tail(s.skip(1), blank, p, q);
            assert(seq![s[0]] + (replace(s.skip(1), p, q) + blank) =~= seq![s[0]] + replace(
                s.skip(1),
                p,
                q,
            ) + blank);
        }
    }
}

proof fn lemma_replace_blank(blank: Seq<char>, p: Seq<char>, q: Seq<char>)
    requires
        p.len() > 0,
        is_solid(p),
        is_blank(blank),
    ensures
        replace(blank, p, q) == blank,
    decreases blank.len(),
{
    if blank.len() > 0 {
        if starts(blank, p) {
            assert(blank.take(p.len() as int)[0] == blank[0]);
            assert(is_space(p[0]));
        }
        lemma_replace_blank(blank.skip(1), p, q);
        assert(seq![blank[0]] + blank.skip(1) =~= blank);
    } else {
        assert(blank =~= Seq::empty());
    }
}

/// Trimming takes off what white space stands behind a text.
pub proof fn lemma_trim_end_tail(s: Seq<char>, blank: Seq<char>)
    requires
        is_blank(blank),
    ensures
        trim_end(s + blank) == trim_end(s),
    decreases blank.len(),
{
    if blank.len() > 0 {
        assert((s + blank).drop_last() =~= s + blank.drop_last());
        lemma_trim_end_tail(s, blank.drop_last());
    } else {
        assert(s + blank =~= s);
    }
}

pub proof fn lemma_trim_tail(s: Seq<char>, blank: Seq<char>)
    requires
        is_blank(blank),
    ensures
        trim(s + blank) == trim(s),
    decreases s.len(),
{
    if s.len() == 0 {
        assert(s + blank =~= blank);
        lemma_trim_end_tail(s, blank);
        lemma_trim_start(blank);
        let rest = trim_start(blank);
        if rest.len() > 0 {
            assert(rest[0] == blank[blank.len() - rest.len()]);
        }
    } else if is_space(s[0]) {
        assert((s + blank).drop_first() =~= s.drop_first() + blank);
        lemma_trim_tail(s.drop_first(), blank);
    } else {
        lemma_trim_end_tail(s, blank);
    }
}

/// Trimming the front of a text looks no further than what is not white space.
pub proof fn lemma_trim_start_front(s: Seq<char>, rest: Seq<char>)
    requires
        trim_start(s).len() > 0,
    ensures
        trim_start(s + rest) == trim_start(s) + rest,
    decreases s.len(),
{
    if s.len() > 0 && is_space(s[0]) {
        assert((s + rest).drop_first() =~= s.drop_first() + rest);
        lemma_trim_start_front(s.drop_first(), rest);
    }
}

/// White space in front of a text changes nothing about its words.
pub proof fn lemma_words_front(c: char, s: Seq<char>)
    requires
        is_space(c),
    ensures
        words(seq![c] + s) == words(s),
{
    let t = seq![c] + s;
    assert(t.drop_first() =~= s);
    assert(trim_start(t) == trim_start(s));
}

/// The first word of a text, and the rest.
pub proof fn lemma_words_first(word: Seq<char>, rest: Seq<char>)
    requires
        word.len() > 0,
        is_solid(word),
        rest.len() == 0 || is_space(rest[0]),
    ensures
        words(word + rest) == seq![word] + words(rest),
{
    let s = word + rest;
    assert(s[0] == word[0]);
    assert(trim_start(s) == s);
    let n = next_space(s, 0);
    lemma_next_space(s, 0);
    assert(n == word.len()) by {
        if n < word.len() {
            assert(s[n] == word[n]);
        }
        if n > word.len() {
            assert(s[word.len() as int] == rest[0]);
        }
    }
    assert(s.take(n) =~= word);
    assert(s.skip(n) =~= rest);
}

/// Every word has something in it, no white space, and only characters of the
/// text.
pub proof fn lemma_words(s: Seq<char>)
    ensures
        forall|i: int| 0 <= i < words(s).len() ==> is_word_of(#[trigger] words(s)[i], s),
    decreases s.len(),
{
    let t = trim_start(s);
    lemma_trim_start(s);
    if t.len() > 0 {
        lemma_next_space(t, 0);
        let n = next_space(t, 0);
        let word = t.take(n);
        let rest = t.skip(n);
        lemma_words(rest);
        assert forall|i: int| 0 <= i < words(s).len() implies is_word_of(
            #[trigger] words(s)[i],
            s,
        ) by {
            let k = s.len() - t.len();
            if i == 0 {
                assert forall|j: int| 0 <= j < word.len() implies s.contains(#[trigger] word[j]) by {
                    assert(word[j] == s[k + j]);
                }
            } else {
                let other = words(rest)[i - 1];
                assert(words(s)[i] == other);
                assert forall|j: int| 0 <= j < other.len() implies s.contains(#[trigger] other[j]) by {
                    assert(rest.contains(other[j]));
                    let m = choose|m: int| 0 <= m < rest.len() && rest[m] == other[j];
                    assert(rest[m] == s[k + n + m]);
                }
            }
        }
    }
}

/// Whether a run of characters of a text could be a word.
pub open spec fn is_word_of(word: Seq<char>, s: Seq<char>) -> bool {
    &&& word.len() > 0
    &&& is_solid(word)
    &&& forall|j: int| 0 <= j < word.len() ==> s.contains(#[trigger] word[j])
}

/// Words that are joined by spaces are the words of what comes of it.
pub proof fn lemma_words_joined(list: Seq<Seq<char>>, rest: Seq<char>)
    requires
        forall|i: int|
            0 <= i < list.len() ==> (#[trigger] list[i]).len() > 0 && is_solid(list[i]),
        rest.len() == 0 || is_space(rest[0]),
    ensures
        words(join(list, " "@) + rest) == list + words(rest),
    decreases list.len(),
{
    reveal_strlit(" ");
    if list.len() == 0 {
        assert(join(list, " "@) + rest =~= rest);
        assert(list + words(rest) =~= words(rest));
    } else if list.len() == 1 {
        lemma_words_first(list[0], rest);
        assert(list =~= seq![list[0]]);
    } else {
        let before = list.drop_last();
        let last = list.last();
        assert(list[list.len() - 1] == last);
        assert forall|i: int| 0 <= i < before.len() implies (#[trigger] before[i]).len() > 0
            && is_solid(before[i]) by {
            assert(before[i] == list[i]);
        }
        let tail = seq![' '] + (last + rest);
        lemma_words_joined(before, tail);
        lemma_words_front(' ', last + rest);
        lemma_words_first(last, rest);
        assert(join(list, " "@) + rest =~= join(before, " "@) + tail);
        assert(before + (seq![last] + words(rest)) =~= list + words(rest));
    }
}

/// Each of some texts stands in what joining them makes.
pub proof fn lemma_join_holds(parts: Seq<Seq<char>>, sep: Seq<char>, i: int)
    requires
        0 <= i < parts.len(),
    ensures
        holds(join(parts, sep), parts[i]),
    decreases parts.len(),
{
    let whole = join(parts, sep);
    let one = parts[i];
    if parts.len() == 1 {
        assert(whole.subrange(0, one.len() as int) =~= one);
        assert(stands_at(whole, one, 0));
    } else if i == parts.len() - 1 {
        let at = whole.len() - one.len();
        assert(whole.subrange(at, at + one.len()) =~= one);
        assert(stands_at(whole, one, at));
    } else {
        let before = parts.drop_last();
        lemma_join_holds(before, sep, i);
        let front = join(before, sep);
        let at = choose|at: int| stands_at(front, one, at);
        assert(before[i] == one);
        assert(whole.subrange(at, at + one.len()) =~= front.subrange(at, at + one.len()));
        assert(stands_at(whole, one, at));
    }
}

/// What stands in a part of a text stands in the text.
pub proof fn lemma_holds_within(whole: Seq<char>, part: Seq<char>, inner: Seq<char>)
    requires
        holds(whole, part),
        holds(part, inner),
    ensures
        holds(whole, inner),
{
    let at = choose|at: int| stands_at(whole, part, at);
    let k = choose|k: int| stands_at(part, inner, k);
    assert(whole.subrange(at + k, at + k + inner.len()) =~= part.subrange(k, k + inner.len()));
    assert(stands_at(whole, inner, at + k));
}

/// What stands between two texts stands in all three together.
pub proof fn lemma_holds_between(front: Seq<char>, middle: Seq<char>, behind: Seq<char>)
    ensures
        holds(front + middle + behind, middle),
{
    let whole = front + middle + behind;
    let at = front.len() as int;
    assert(whole.subrange(at, at + middle.len()) =~= middle);
    assert(stands_at(whole, middle, at));
}

/// A number is read back from its decimal.
pub proof fn a_decimal_reads_back(n: nat)
    ensures
        is_digits(decimal(n)),
        digits_value(decimal(n)) == n,
    decreases n,
{
    lemma_decimal(n);
    let d = decimal(n);
    if n < 10 {
        assert(d.drop_last() =~= Seq::empty());
        assert(digits_value(d.drop_last()) == 0);
        assert(d.last() as int == n + 0x30);
    } else {
        a_decimal_reads_back(n / 10);
        assert(d.drop_last() =~= decimal(n / 10));
        assert(d.last() as int == n % 10 + 0x30);
    }
}

/// Some texts one after the other begin with the first of them.
pub proof fn lemma_concat_first(parts: Seq<Seq<char>>)
    requires
        parts.len() > 0,
    ensures
        concat(parts) == parts[0] + concat(parts.skip(1)),
    decreases parts.len(),
{
    let rest = parts.skip(1);
    if parts.len() == 1 {
        assert(concat(parts.drop_last()) =~= Seq::<char>::empty());
        assert(concat(rest) =~= Seq::<char>::empty());
    } else {
        lemma_concat_first(parts.drop_last());
        assert(parts.drop_last().skip(1) =~= rest.drop_last());
        assert(rest.last() == parts.last());
    }
}

/// Of two texts the one comes first that has the smaller character where they part, or that
/// ends there.
pub proof fn texts_go_by_where_they_part(
    front: Seq<char>,
    x: char,
    rest: Seq<char>,
    y: char,
    other: Seq<char>,
)
    ensures
        x != y ==> (precedes(front + seq![x] + rest, front + seq![y] + other) <==> x < y),
        precedes(front, front + seq![y] + other),
        !precedes(front + seq![y] + other, front),
    decreases front.len(),
{
    let a = front + seq![x] + rest;
    let b = front + seq![y] + other;
    if front.len() > 0 {
        let less = front.skip(1);
        texts_go_by_where_they_part(less, x, rest, y, other);
        assert(a.skip(1) =~= less + seq![x] + rest);
        assert(b.skip(1) =~= less + seq![y] + other);
        assert(a[0] == front[0] && b[0] == front[0]);
    } else {
        assert(a[0] == x && b[0] == y);
    }
}

} // verus!
