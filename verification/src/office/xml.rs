//! Making text safe to put in XML.
//!
//! Every part of every Office file is XML, and all of the text in one comes
//! from a model. `escape` stands between an answer that mentions `<w:p>` and a
//! document that will not open, so every writer calls it.

use vstd::prelude::*;

verus! {

/// A control character that XML 1.0 cannot represent at all: any but tab, line
/// feed and carriage return.
pub open spec fn is_forbidden(c: char) -> bool {
    (c as int) < 0x20 && c != '\t' && c != '\n' && c != '\r'
}

fn forbidden(c: char) -> (r: bool)
    ensures
        r == is_forbidden(c),
{
    (c as u32) < 0x20 && c != '\t' && c != '\n' && c != '\r'
}

/// What one character becomes: an entity for the five that XML gives a meaning
/// to, nothing for a control character that XML 1.0 cannot represent, itself
/// for any other.
pub open spec fn escaped_char(c: char) -> Seq<char> {
    if c == '&' {
        "&amp;"@
    } else if c == '<' {
        "&lt;"@
    } else if c == '>' {
        "&gt;"@
    } else if c == '"' {
        "&quot;"@
    } else if c == '\'' {
        "&apos;"@
    } else if is_forbidden(c) {
        Seq::empty()
    } else {
        seq![c]
    }
}

/// What a text becomes: each of its characters in turn.
pub open spec fn escaped(s: Seq<char>) -> Seq<char>
    decreases s.len(),
{
    if s.len() == 0 {
        Seq::empty()
    } else {
        escaped(s.drop_last()) + escaped_char(s.last())
    }
}

/// The five predefined entities, without the control characters that XML 1.0
/// forbids.
pub fn escape(text: &str) -> (out: String)
    ensures
        out@ == escaped(text@),
{
    let mut out = String::new();
    for c in it: text.chars()
        invariant
            it.seq() == text@,
            out@ == escaped(text@.take(it.index())),
    {
        assert(text@.take(it.index() + 1).drop_last() =~= text@.take(it.index()));
        if c == '&' {
            out.append("&amp;");
        } else if c == '<' {
            out.append("&lt;");
        } else if c == '>' {
            out.append("&gt;");
        } else if c == '"' {
            out.append("&quot;");
        } else if c == '\'' {
            out.append("&apos;");
        } else if forbidden(c) {
            assert(escaped(text@.take(it.index())) + escaped_char(c) =~= escaped(
                text@.take(it.index()),
            ));
        } else {
            out.push(c);
            assert(escaped(text@.take(it.index())) + escaped_char(c) =~= escaped(
                text@.take(it.index()),
            ).push(c));
        }
    }
    assert(text@.take(text@.len() as int) =~= text@);
    out
}

/// Escaping goes character by character: the text of two texts together is the
/// two texts, each escaped.
pub proof fn escaping_distributes(a: Seq<char>, b: Seq<char>)
    ensures
        escaped(a + b) == escaped(a) + escaped(b),
    decreases b.len(),
{
    if b.len() == 0 {
        assert(a + b =~= a);
        assert(escaped(a) + escaped(b) =~= escaped(a));
    } else {
        assert((a + b).drop_last() =~= a + b.drop_last());
        escaping_distributes(a, b.drop_last());
        assert(escaped(a) + (escaped(b.drop_last()) + escaped_char(b.last())) =~= (escaped(a)
            + escaped(b.drop_last())) + escaped_char(b.last()));
    }
}

/// A character that may stand in the text of an XML document as it is.
pub open spec fn is_harmless(c: char) -> bool {
    &&& c != '<'
    &&& c != '>'
    &&& c != '"'
    &&& c != '\''
    &&& (c as int) >= 0x20 || c == '\t' || c == '\n' || c == '\r'
}

/// Nothing that comes out can open or close a tag, end an attribute, or be a
/// control character that XML cannot represent.
pub proof fn escaping_is_safe(s: Seq<char>)
    ensures
        forall|i: int| 0 <= i < escaped(s).len() ==> is_harmless(#[trigger] escaped(s)[i]),
    decreases s.len(),
{
    if s.len() > 0 {
        escaping_is_safe(s.drop_last());
        reveal_strlit("&amp;");
        reveal_strlit("&lt;");
        reveal_strlit("&gt;");
        reveal_strlit("&quot;");
        reveal_strlit("&apos;");
        let head = escaped(s.drop_last());
        let tail = escaped_char(s.last());
        assert forall|i: int| 0 <= i < escaped(s).len() implies is_harmless(
            #[trigger] escaped(s)[i],
        ) by {
            if i >= head.len() {
                assert(escaped(s)[i] == tail[i - head.len()]);
            } else {
                assert(escaped(s)[i] == head[i]);
            }
        }
    }
}

/// Text without any of the escaped characters is untouched.
pub proof fn ordinary_text_is_untouched(s: Seq<char>)
    requires
        forall|i: int| 0 <= i < s.len() ==> is_harmless(#[trigger] s[i]) && s[i] != '&',
    ensures
        escaped(s) == s,
    decreases s.len(),
{
    if s.len() > 0 {
        assert forall|i: int| 0 <= i < s.drop_last().len() implies is_harmless(
            #[trigger] s.drop_last()[i],
        ) && s.drop_last()[i] != '&' by {
            assert(s.drop_last()[i] == s[i]);
        }
        ordinary_text_is_untouched(s.drop_last());
        assert(escaped(s) =~= s);
    }
}

/// What an escaped text says: each entity stands for its character, and every other
/// character for itself.
pub open spec fn read_back(s: Seq<char>) -> Seq<char>
    decreases s.len(),
{
    if s.len() == 0 {
        Seq::empty()
    } else if s[0] == '&' && s.len() >= 5 && s.take(5) == "&amp;"@ {
        seq!['&'] + read_back(s.skip(5))
    } else if s[0] == '&' && s.len() >= 4 && s.take(4) == "&lt;"@ {
        seq!['<'] + read_back(s.skip(4))
    } else if s[0] == '&' && s.len() >= 4 && s.take(4) == "&gt;"@ {
        seq!['>'] + read_back(s.skip(4))
    } else if s[0] == '&' && s.len() >= 6 && s.take(6) == "&quot;"@ {
        seq!['"'] + read_back(s.skip(6))
    } else if s[0] == '&' && s.len() >= 6 && s.take(6) == "&apos;"@ {
        seq!['\''] + read_back(s.skip(6))
    } else {
        seq![s[0]] + read_back(s.skip(1))
    }
}

/// A text that holds no character that XML forbids is read back from what it is escaped
/// as.
pub proof fn what_is_escaped_reads_back(s: Seq<char>)
    requires
        forall|i: int|
            0 <= i < s.len() ==> (#[trigger] s[i] as int) >= 0x20 || s[i] == '\t' || s[i] == '\n'
                || s[i] == '\r',
    ensures
        read_back(escaped(s)) == s,
    decreases s.len(),
{
    if s.len() > 0 {
        let c = s[0];
        let rest = s.skip(1);
        let tail = escaped(rest);
        assert(seq![c] + rest =~= s);
        escaping_distributes(seq![c], rest);
        assert(seq![c].drop_last() =~= Seq::empty());
        assert(escaped(seq![c].drop_last()) =~= Seq::empty());
        assert(escaped(seq![c]) =~= escaped_char(c));
        assert forall|i: int| 0 <= i < rest.len() implies (#[trigger] rest[i] as int) >= 0x20
            || rest[i] == '\t' || rest[i] == '\n' || rest[i] == '\r' by {
            assert(rest[i] == s[i + 1]);
        }
        what_is_escaped_reads_back(rest);
        lemma_entity(c, tail);
    }
}

proof fn lemma_entity(c: char, tail: Seq<char>)
    requires
        (c as int) >= 0x20 || c == '\t' || c == '\n' || c == '\r',
    ensures
        read_back(escaped_char(c) + tail) == seq![c] + read_back(tail),
{
    reveal_strlit("&amp;");
    reveal_strlit("&lt;");
    reveal_strlit("&gt;");
    reveal_strlit("&quot;");
    reveal_strlit("&apos;");
    let s = escaped_char(c) + tail;
    if c == '&' {
        assert(s.take(5) =~= "&amp;"@);
        assert(s.skip(5) =~= tail);
    } else if c == '<' {
        assert(s.take(4) =~= "&lt;"@);
        assert(s.skip(4) =~= tail);
        assert(s.len() >= 5 ==> s.take(5)[1] == 'l');
    } else if c == '>' {
        assert(s.take(4) =~= "&gt;"@);
        assert(s.skip(4) =~= tail);
        assert(s.len() >= 5 ==> s.take(5)[1] == 'g');
        assert(s.take(4)[1] == 'g');
    } else if c == '"' {
        assert(s.take(6) =~= "&quot;"@);
        assert(s.skip(6) =~= tail);
        assert(s.take(5)[1] == 'q');
        assert(s.take(4)[1] == 'q');
    } else if c == '\'' {
        assert(s.take(6) =~= "&apos;"@);
        assert(s.skip(6) =~= tail);
        assert(s.take(5)[1] == 'a' && s.take(5)[2] == 'p');
        assert(s.take(4)[1] == 'a');
        assert(s.take(6)[1] == 'a');
    } else {
        assert(s[0] == c);
        assert(s.skip(1) =~= tail);
    }
}

} // verus!
