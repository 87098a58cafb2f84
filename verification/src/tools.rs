//! What may be run, and who is asked first.

use crate::lists;
use crate::text;
use vstd::prelude::*;

verus! {

/// Whether a call stops for the user's approval.
#[derive(Debug, Clone, Copy, PartialEq, Eq, Structural)]
pub enum Gate {
    /// Run without asking.
    Never,
    /// Ask every time.
    Always,
}

/// The arguments that are not blank.
pub open spec fn words(args: Seq<Seq<char>>) -> Seq<Seq<char>> {
    lists::kept(args, |word: Seq<char>| text::trim(word).len() > 0)
}

/// The verb of an invocation, with a leading `agent` tolerated.
pub open spec fn verb_of(args: Seq<Seq<char>>) -> Option<Seq<char>> {
    let w = words(args);
    if w.len() > 0 && w[0] != "agent"@ {
        Some(w[0])
    } else if w.len() > 1 {
        Some(w[1])
    } else {
        None
    }
}

/// Whether any of the arguments is a flag.
pub open spec fn has_flag(args: Seq<Seq<char>>) -> bool {
    exists|i: int| 0 <= i < args.len() && text::starts(#[trigger] args[i], "--"@)
}

/// The argument vector to spawn: the program and `agent`, which is not doubled
/// where the arguments already begin with it, and the arguments.
pub open spec fn command_line(program: Seq<char>, args: Seq<Seq<char>>) -> Seq<Seq<char>> {
    seq![program, "agent"@] + if args.len() > 0 && args[0] == "agent"@ {
        args.skip(1)
    } else {
        args
    }
}

fn nonblank<'a>(args: &'a [String]) -> (r: Vec<&'a String>)
    ensures
        Seq::new(r.len() as nat, |i: int| r[i]@) == words(text::texts(args@)),
{
    let ghost all = text::texts(args@);
    let mut r: Vec<&'a String> = Vec::new();
    let mut i: usize = 0;
    assert(Seq::new(0, |i: int| r[i]@) =~= words(all.take(0)));
    while i < args.len()
        invariant
            0 <= i <= args.len(),
            all == text::texts(args@),
            Seq::new(r.len() as nat, |i: int| r[i]@) == words(all.take(i as int)),
        decreases args.len() - i,
    {
        let chars = text::chars_of(args[i].as_str());
        let ghost before = Seq::new(r.len() as nat, |i: int| r[i]@);
        proof {
            lists::lemma_kept_take(
                all,
                |word: Seq<char>| text::trim(word).len() > 0,
                i as int,
            );
        }
        if text::trimmed(chars.as_slice()).len() > 0 {
            r.push(&args[i]);
            assert(Seq::new(r.len() as nat, |i: int| r[i]@) =~= before.push(all[i as int]));
        }
        i = i + 1;
    }
    assert(all.take(all.len() as int) =~= all);
    r
}

/// The verb of an invocation.
pub fn verb_in<'a>(args: &'a [String]) -> (r: Option<&'a str>)
    ensures
        match r {
            Some(verb) => verb_of(text::texts(args@)) == Some(verb@),
            None => verb_of(text::texts(args@)) is None,
        },
{
    let w = nonblank(args);
    let ghost m = Seq::new(w.len() as nat, |i: int| w[i]@);
    assert(m == words(text::texts(args@)));
    assert(w.len() > 0 ==> m[0] == w[0]@);
    assert(w.len() > 1 ==> m[1] == w[1]@);
    if w.len() > 0 && !text::same(w[0].as_str(), "agent") {
        Some(w[0].as_str())
    } else if w.len() > 1 {
        Some(w[1].as_str())
    } else {
        None
    }
}

pub fn any_flag(args: &[String]) -> (r: bool)
    ensures
        r == has_flag(text::texts(args@)),
{
    let ghost all = text::texts(args@);
    let mut i: usize = 0;
    while i < args.len()
        invariant
            0 <= i <= args.len(),
            all == text::texts(args@),
            forall|j: int| 0 <= j < i ==> !text::starts(#[trigger] all[j], "--"@),
        decreases args.len() - i,
    {
        let chars = text::chars_of(args[i].as_str());
        if text::begins(chars.as_slice(), "--") {
            assert(text::starts(all[i as int], "--"@));
            return true;
        }
        i = i + 1;
    }
    false
}

pub fn command_for(program: &str, args: &[String]) -> (r: Vec<String>)
    ensures
        text::texts(r@) == command_line(program@, text::texts(args@)),
{
    let ghost all = text::texts(args@);
    let mut r: Vec<String> = Vec::new();
    r.push(program.to_owned());
    r.push("agent".to_owned());
    let first: usize = if args.len() > 0 && text::same(args[0].as_str(), "agent") {
        1
    } else {
        0
    };
    assert(args.len() > 0 ==> all[0] == args@[0]@);
    let mut i: usize = first;
    assert(text::texts(r@) =~= seq![program@, "agent"@] + all.subrange(first as int, first as int));
    while i < args.len()
        invariant
            first <= i <= args.len(),
            all == text::texts(args@),
            text::texts(r@) == seq![program@, "agent"@] + all.subrange(first as int, i as int),
        decreases args.len() - i,
    {
        let ghost before = text::texts(r@);
        r.push(args[i].clone());
        assert(text::texts(r@) =~= before.push(all[i as int]));
        assert(text::texts(r@) =~= seq![program@, "agent"@] + all.subrange(first as int, i + 1));
        i = i + 1;
    }
    assert(all.subrange(first as int, all.len() as int) =~= if first == 1 {
        all.skip(1)
    } else {
        all
    });
    r
}

/// A command line always starts with the program and `agent`, and `agent` is
/// not doubled when the arguments already begin with it.
pub proof fn the_prefix_is_not_doubled(program: Seq<char>, args: Seq<Seq<char>>)
    ensures
        command_line(program, seq!["agent"@] + args) == seq![program, "agent"@] + args,
        command_line(program, args).len() >= 2,
        command_line(program, args)[0] == program,
        command_line(program, args)[1] == "agent"@,
{
    assert((seq!["agent"@] + args).skip(1) =~= args);
}

/// The verb is the first word that says anything, not counting an `agent` in front of it.
pub proof fn the_verb_is_the_first_word(verb: Seq<char>, rest: Seq<Seq<char>>)
    requires
        text::trim(verb).len() > 0,
        verb != "agent"@,
    ensures
        verb_of(seq![verb] + rest) == Some(verb),
        verb_of(seq!["agent"@, verb] + rest) == Some(verb),
        verb_of(seq![""@, verb] + rest) == Some(verb),
{
    reveal_strlit("agent");
    reveal_strlit("");
    let keep = |word: Seq<char>| text::trim(word).len() > 0;
    lists::kept_is_what_is_to_be_kept(seq![verb] + rest, keep);
    lists::kept_is_what_is_to_be_kept(seq!["agent"@, verb] + rest, keep);
    lists::kept_is_what_is_to_be_kept(seq![""@, verb] + rest, keep);
    text::lemma_trim_unchanged("agent"@);
    assert(text::trim(""@) =~= Seq::empty());
    lemma_kept_front(verb, rest, keep);
    lemma_kept_front("agent"@, seq![verb] + rest, keep);
    lemma_kept_front(""@, seq![verb] + rest, keep);
    assert(seq!["agent"@] + (seq![verb] + rest) =~= seq!["agent"@, verb] + rest);
    assert(seq![""@] + (seq![verb] + rest) =~= seq![""@, verb] + rest);
}

proof fn lemma_kept_front(
    word: Seq<char>,
    rest: Seq<Seq<char>>,
    keep: spec_fn(Seq<char>) -> bool,
)
    ensures
        keep(word) ==> lists::kept(seq![word] + rest, keep) == seq![word] + lists::kept(rest, keep),
        !keep(word) ==> lists::kept(seq![word] + rest, keep) == lists::kept(rest, keep),
    decreases rest.len(),
{
    let all = seq![word] + rest;
    if rest.len() == 0 {
        assert(all.drop_last() =~= Seq::empty());
        assert(lists::kept(all.drop_last(), keep) =~= Seq::empty());
        assert(all.last() == word);
        assert(keep(word) ==> lists::kept(all, keep) =~= seq![word] + lists::kept(rest, keep));
    } else {
        lemma_kept_front(word, rest.drop_last(), keep);
        assert(all.drop_last() =~= seq![word] + rest.drop_last());
        assert(all.last() == rest.last());
        assert(keep(word) ==> lists::kept(all, keep) =~= seq![word] + lists::kept(rest, keep));
    }
}

/// The arguments are handed on as they are, behind the program and `agent`.
pub proof fn arguments_are_handed_on(program: Seq<char>, args: Seq<Seq<char>>)
    requires
        args.len() > 0 ==> args[0] != "agent"@,
    ensures
        command_line(program, args) == seq![program, "agent"@] + args,
{
}

} // verus!
