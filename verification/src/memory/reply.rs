//! Finding the JSON in what a model replied.

use crate::text;
use vstd::prelude::*;
use vstd::slice::slice_subrange;

verus! {

/// A reply without the fence around it, where it has one, with or without a
/// language tag.
pub open spec fn unfenced(reply: Seq<char>) -> Seq<char> {
    let t = text::trim(reply);
    let open = text::index_of(t, "```"@, 0);
    if open < 0 {
        t
    } else {
        let after = t.skip(open + 3);
        let n = text::next(after, '\n', 0);
        let body = if n < after.len() {
            after.skip(n + 1)
        } else {
            after
        };
        text::trim(text::front(body, "```"@))
    }
}

/// Where a character last occurs: -1 where it does not.
pub open spec fn last_of(s: Seq<char>, c: char) -> int
    decreases s.len(),
{
    if s.len() == 0 {
        -1
    } else if s.last() == c {
        s.len() - 1
    } else {
        last_of(s.drop_last(), c)
    }
}

/// Where an object, or an array where they are wanted, first opens: -1 where
/// nothing does.
pub open spec fn opening(s: Seq<char>, arrays: bool, from: int) -> int
    decreases s.len() - from,
{
    if from < 0 || from >= s.len() {
        -1
    } else if s[from] == '{' || (arrays && s[from] == '[') {
        from
    } else {
        opening(s, arrays, from + 1)
    }
}

/// The first object in a reply, or the first array where they are wanted,
/// however it was wrapped.
pub open spec fn extracted(reply: Seq<char>, arrays: bool) -> Option<Seq<char>> {
    let s = unfenced(reply);
    let start = opening(s, arrays, 0);
    if start < 0 {
        None
    } else {
        let end = last_of(
            s,
            if s[start] == '{' {
                '}'
            } else {
                ']'
            },
        );
        if end > start {
            Some(s.subrange(start, end + 1))
        } else {
            None
        }
    }
}

fn bare<'a>(t: &'a [char]) -> (r: &'a [char])
    requires
        text::trim(t@) == t@,
    ensures
        r@ == unfenced(t@),
{
    match text::index(t, "```", 0) {
        Some(open) => {
            proof {
                reveal_strlit("```");
            }
            let after = slice_subrange(t, open + 3, t.len());
            assert(after@ =~= t@.skip(open + 3));
            let n: usize = text::next_of(after, '\n', 0);
            let body = if n < after.len() {
                slice_subrange(after, n + 1, after.len())
            } else {
                after
            };
            proof {
                if n < after.len() {
                    assert(body@ =~= after@.skip(n + 1));
                }
            }
            text::trimmed(text::front_of(body, "```"))
        },
        None => t,
    }
}

/// The first object in a reply, or the first array where they are wanted.
pub fn extract_json(reply: &str, arrays: bool) -> (r: Option<String>)
    ensures
        match r {
            Some(s) => extracted(reply@, arrays) == Some(s@),
            None => extracted(reply@, arrays) is None,
        },
{
    let chars = text::chars_of(reply);
    let t = text::trimmed(chars.as_slice());
    proof {
        text::lemma_trim(reply@);
    }
    let s = bare(t);
    let mut start: usize = 0;
    while start < s.len() && !(s[start] == '{' || (arrays && s[start] == '['))
        invariant
            0 <= start <= s.len(),
            opening(s@, arrays, 0) == opening(s@, arrays, start as int),
        decreases s.len() - start,
    {
        start = start + 1;
    }
    if start >= s.len() {
        return None;
    }
    let closer = if s[start] == '{' {
        '}'
    } else {
        ']'
    };
    let mut end: usize = s.len();
    assert(s@.take(s@.len() as int) =~= s@);
    while end > 0 && s[end - 1] != closer
        invariant
            0 <= end <= s.len(),
            last_of(s@, closer) == last_of(s@.take(end as int), closer),
        decreases end,
    {
        assert(s@.take(end as int).drop_last() =~= s@.take(end - 1));
        end = end - 1;
    }
    if end > 0 && end - 1 > start {
        Some(text::string_of(slice_subrange(s, start, end)))
    } else {
        None
    }
}

// ---------------------------------------------------------------------------
// What is found in a reply
// ---------------------------------------------------------------------------

/// Whether a text holds none of what JSON or a fence is marked by.
pub open spec fn is_prose(s: Seq<char>) -> bool {
    forall|i: int|
        0 <= i < s.len() ==> #[trigger] s[i] != '{' && s[i] != '}' && s[i] != '[' && s[i] != ']'
            && s[i] != '`'
}

/// Whether a text holds no backquote.
pub open spec fn is_unfenced(s: Seq<char>) -> bool {
    forall|i: int| 0 <= i < s.len() ==> #[trigger] s[i] != '`'
}

proof fn lemma_last_of_is(s: Seq<char>, c: char, at: int)
    requires
        0 <= at < s.len(),
        s[at] == c,
        forall|i: int| at < i < s.len() ==> s[i] != c,
    ensures
        last_of(s, c) == at,
    decreases s.len(),
{
    if at < s.len() - 1 {
        assert(s.last() == s[s.len() - 1]);
        lemma_last_of_is(s.drop_last(), c, at);
    }
}

proof fn lemma_opening_is(s: Seq<char>, arrays: bool, from: int, at: int)
    requires
        0 <= from <= at < s.len(),
        s[at] == '{' || (arrays && s[at] == '['),
        forall|i: int| from <= i < at ==> s[i] != '{' && s[i] != '[',
    ensures
        opening(s, arrays, from) == at,
    decreases at - from,
{
    if from < at {
        lemma_opening_is(s, arrays, from + 1, at);
    }
}

proof fn lemma_no_fence(s: Seq<char>)
    requires
        is_unfenced(s),
    ensures
        text::index_of(s, "```"@, 0) < 0,
{
    reveal_strlit("```");
    text::lemma_index_of(s, "```"@, 0);
    let at = text::index_of(s, "```"@, 0);
    if at >= 0 {
        assert(s.subrange(at, at + 3)[0] == s[at]);
    }
}

/// An object, or a list where lists are wanted, is found among whatever is said in
/// front of it and behind it, all of it and nothing else; where there is only prose
/// nothing is found.
pub proof fn json_is_found_among_prose(
    front: Seq<char>,
    inner: Seq<char>,
    behind: Seq<char>,
    list: bool,
    arrays: bool,
)
    requires
        is_prose(front),
        is_prose(behind),
        is_unfenced(inner),
        list ==> arrays,
        front.len() == 0 || !text::is_space(front[0]),
        behind.len() == 0 || !text::is_space(behind.last()),
    ensures
        !list ==> extracted(front + (seq!['{'] + inner + seq!['}']) + behind, arrays) == Some(
            seq!['{'] + inner + seq!['}'],
        ),
        list ==> extracted(front + (seq!['['] + inner + seq![']']) + behind, arrays) == Some(
            seq!['['] + inner + seq![']'],
        ),
        extracted(front, arrays) is None,
{
    let (a, b) = if list {
        ('[', ']')
    } else {
        ('{', '}')
    };
    let found = seq![a] + inner + seq![b];
    let s = front + found + behind;
    text::lemma_trim_unchanged(s);
    assert forall|i: int| 0 <= i < s.len() implies #[trigger] s[i] != '`' by {
        if front.len() <= i < front.len() + found.len() {
            assert(s[i] == found[i - front.len()]);
        } else if i >= front.len() + found.len() {
            assert(s[i] == behind[i - front.len() - found.len()]);
        }
    }
    lemma_no_fence(s);
    let end = front.len() + found.len() - 1;
    assert(s[front.len() as int] == a);
    lemma_opening_is(s, arrays, 0, front.len() as int);
    assert(s[end] == b);
    assert forall|i: int| end < i < s.len() implies s[i] != b by {
        assert(s[i] == behind[i - end - 1]);
    }
    lemma_last_of_is(s, b, end);
    assert(s.subrange(front.len() as int, end + 1) =~= found);
    text::lemma_trim(front);
    text::lemma_trim_start(front);
    text::lemma_trim_end(text::trim_start(front));
    let t = text::trim(front);
    assert(is_prose(t)) by {
        let gone = front.len() - text::trim_start(front).len();
        assert forall|i: int| 0 <= i < t.len() implies #[trigger] t[i] != '{' && t[i] != '}'
            && t[i] != '[' && t[i] != ']' && t[i] != '`' by {
            assert(t[i] == front[i + gone]);
        }
    }
    lemma_no_fence(t);
    lemma_no_opening(t, arrays, 0);
}

proof fn lemma_no_opening(s: Seq<char>, arrays: bool, from: int)
    requires
        is_prose(s),
        0 <= from,
    ensures
        opening(s, arrays, from) < 0,
    decreases s.len() - from,
{
    if from < s.len() {
        lemma_no_opening(s, arrays, from + 1);
    }
}

/// What stands in a fence is what is read, whatever the fence is marked with and
/// whatever is said in front of it.
pub proof fn json_is_found_in_a_fence(
    front: Seq<char>,
    tag: Seq<char>,
    inner: Seq<char>,
    arrays: bool,
)
    requires
        is_prose(front),
        front.len() == 0 || !text::is_space(front[0]),
        is_prose(tag),
        !tag.contains('\n'),
        is_unfenced(inner),
    ensures
        extracted(
            front + "```"@ + tag + "\n"@ + (seq!['{'] + inner + seq!['}']) + "\n```"@,
            arrays,
        ) == Some(seq!['{'] + inner + seq!['}']),
{
    reveal_strlit("```");
    reveal_strlit("\n");
    reveal_strlit("\n```");
    let found = seq!['{'] + inner + seq!['}'];
    let s = front + "```"@ + tag + "\n"@ + found + "\n```"@;
    assert(s.last() == '`');
    assert(s[0] == if front.len() == 0 { '`' } else { front[0] });
    text::lemma_trim_unchanged(s);
    let at = front.len() as int;
    assert(s.subrange(at, at + 3) =~= "```"@);
    assert forall|j: int| 0 <= j < at implies !#[trigger] text::stands_at(s, "```"@, j) by {
        if text::stands_at(s, "```"@, j) {
            assert(s.subrange(j, j + 3)[0] == s[j]);
        }
    }
    assert(text::is_first(s, "```"@, 0, at));
    text::lemma_index_is(s, "```"@, 0, at);
    let after = s.skip(at + 3);
    assert(after =~= tag + "\n"@ + found + "\n```"@);
    assert forall|i: int| 0 <= i < tag.len() implies after[i] != '\n' by {
        assert(tag.contains(tag[i]));
    }
    text::lemma_next_is(after, '\n', 0, tag.len() as int);
    let body = after.skip(tag.len() as int + 1);
    assert(body =~= found + "\n```"@);
    let n = found.len() + 1;
    assert(body.subrange(n as int, n as int + 3) =~= "```"@);
    assert forall|j: int| 0 <= j < n implies !#[trigger] text::stands_at(body, "```"@, j) by {
        if text::stands_at(body, "```"@, j) {
            assert(body.subrange(j, j + 3)[0] == body[j]);
            if j < found.len() {
                assert(found[j] == body[j]);
            }
        }
    }
    assert(text::is_first(body, "```"@, 0, n as int));
    text::lemma_index_is(body, "```"@, 0, n as int);
    assert(text::front(body, "```"@) =~= found + "\n"@);
    assert(text::is_space('\n'));
    text::lemma_trim_tail(found, "\n"@);
    text::lemma_trim_unchanged(found);
    assert(unfenced(s) =~= found);
    lemma_opening_is(found, arrays, 0, 0);
    lemma_last_of_is(found, '}', found.len() - 1);
    assert(found.subrange(0, found.len() as int) =~= found);
}

} // verus!
