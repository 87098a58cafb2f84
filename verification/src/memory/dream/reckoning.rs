//! The pass that needs no server, and what has come up in conversation.

use super::{known, railed, steps, Held, Known, Operation, Plan, Policy, Step, Why};
use crate::lists::{order, order_of, places, ranks, Key, Rank};
use crate::memory::observation::{normal, normalise, seen, Kind, Observation, Seen};
use crate::text;
use crate::time::Stamp;
use vstd::prelude::*;

verus! {

/// What lines are put together by: the note, and what they say.
pub open spec fn gathering(held: Seq<Known>) -> Seq<Key> {
    Seq::new(
        held.len(),
        |i: int| Key { number: 0, name: held[i].seen.note, more: normal(held[i].seen.text) },
    )
}

/// The lines of a list in an order.
pub open spec fn arranged(held: Seq<Known>, keys: Seq<Key>) -> Seq<Known> {
    Seq::new(held.len(), |i: int| held[order(keys)[i]])
}

/// The lines, with those that say the same in one note side by side.
pub open spec fn together(held: Seq<Known>) -> Seq<Known> {
    arranged(held, gathering(held))
}

/// Whether two lines say the same in one note.
pub open spec fn same_line(a: Known, b: Known) -> bool {
    a.seen.note == b.seen.note && normal(a.seen.text) == normal(b.seen.text)
}

/// Where the lines that say the same as the one at `from` end.
pub open spec fn run_end(s: Seq<Known>, from: int, i: int) -> int
    decreases s.len() - i,
{
    if i >= s.len() || i < 0 || !same_line(s[from], s[i]) {
        i
    } else {
        run_end(s, from, i + 1)
    }
}

/// The fullest wording of a group.
pub open spec fn fullest(group: Seq<Known>) -> Known
    decreases group.len(),
{
    if group.len() <= 1 {
        group[0]
    } else {
        let best = fullest(group.drop_last());
        if group.last().seen.text.len() >= best.seen.text.len() {
            group.last()
        } else {
            best
        }
    }
}

/// The most durable kind that anything in a group was filed under.
pub open spec fn most_durable(group: Seq<Known>) -> Kind
    decreases group.len(),
{
    if group.len() == 0 {
        Kind::Fact
    } else {
        let best = most_durable(group.drop_last());
        if group.last().seen.kind.place() < best.place() {
            group.last().seen.kind
        } else {
            best
        }
    }
}

/// The keys of a group.
pub open spec fn group_keys(group: Seq<Known>) -> Seq<Seq<char>> {
    Seq::new(group.len(), |i: int| group[i].key())
}

/// The texts of a group.
pub open spec fn group_texts(group: Seq<Known>) -> Seq<Seq<char>> {
    Seq::new(group.len(), |i: int| group[i].seen.text)
}

/// One sentence in place of a group that says the same: in the fullest wording,
/// under the most durable kind.
pub open spec fn collapse(group: Seq<Known>) -> Step {
    Step::Merge {
        note: group[0].seen.note,
        subject: fullest(group).seen.subject,
        kind: most_durable(group),
        into: fullest(group).seen.text,
        keys: group_keys(group),
        texts: group_texts(group),
    }
}

/// What is said twice in one note, from a line on.
pub open spec fn collapses(s: Seq<Known>, from: int) -> Seq<Step>
    decreases s.len() - from,
{
    if from < 0 || from >= s.len() {
        Seq::empty()
    } else {
        let end = run_end(s, from, from + 1);
        proof {
            lemma_run_end(s, from, from + 1);
        }
        (if end - from >= 2 {
            seq![collapse(s.subrange(from, end))]
        } else {
            Seq::empty()
        }) + collapses(s, end)
    }
}

/// Whether something has gone cold: nobody looked it up, nobody mentioned it, it
/// may be dropped, and its score is too low.
pub open spec fn is_cold(item: Known, score: u32, policy: Policy, today: int) -> bool {
    item.uses == 0 && item.mentions == 0 && item.droppable(policy, today) && score
        < policy.drop_below
}

/// What has gone cold, with its score.
pub open spec fn cold(held: Seq<Known>, scores: Seq<u32>, policy: Policy, today: int) -> Seq<
    (Known, u32),
>
    decreases held.len(),
{
    if held.len() == 0 {
        Seq::empty()
    } else {
        let before = cold(held.drop_last(), scores, policy, today);
        let score = scores[held.len() - 1];
        if is_cold(held.last(), score, policy, today) {
            before.push((held.last(), score))
        } else {
            before
        }
    }
}

/// What is dropped in order: the lowest score first.
pub open spec fn coldest(list: Seq<(Known, u32)>) -> Seq<Key> {
    Seq::new(
        list.len(),
        |i: int|
            Key { number: list[i].1 as int, name: list[i].0.key(), more: Seq::empty() },
    )
}

/// Taking out a line that has gone cold.
pub open spec fn stale(item: Known) -> Step {
    Step::Drop {
        key: item.key(),
        note: item.seen.note,
        subject: item.seen.subject,
        text: item.seen.text,
        why: Why::Stale,
    }
}

/// Taking out what has gone cold, the coldest first.
pub open spec fn clearing(list: Seq<(Known, u32)>) -> Seq<Step> {
    Seq::new(list.len(), |i: int| stale(list[order(coldest(list))[i]].0))
}

/// What the pass that needs no server intends, before it is held to the rails.
pub open spec fn reckoned(held: Seq<Known>, scores: Seq<u32>, policy: Policy, today: int) -> Seq<
    Step,
> {
    collapses(together(held), 0) + clearing(cold(held, scores, policy, today))
}

fn gather(held: &[Held]) -> (r: Vec<usize>)
    ensures
        r.len() == held.len(),
        places(r@) == order(gathering(known(held@))),
        forall|i: int| 0 <= i < r.len() ==> #[trigger] r[i] < held.len(),
{
    let ghost keys = gathering(known(held@));
    let mut list: Vec<Rank> = Vec::new();
    let mut i: usize = 0;
    assert(ranks(list@) =~= keys.take(0));
    while i < held.len()
        invariant
            0 <= i <= held.len(),
            keys == gathering(known(held@)),
            list.len() == i,
            ranks(list@) == keys.take(i as int),
        decreases held.len() - i,
    {
        let ghost before = ranks(list@);
        let rank = Rank {
            number: 0,
            name: held[i].observation.note.as_str().to_owned(),
            more: normalise(held[i].observation.text.as_str()),
        };
        list.push(rank);
        proof {
            assert(known(held@)[i as int] == held@[i as int]@);
            assert(rank@ =~= keys[i as int]);
            assert(ranks(list@) =~= before.push(rank@));
            assert(keys.take(i + 1) =~= keys.take(i as int).push(keys[i as int]));
        }
        i = i + 1;
    }
    assert(keys.take(keys.len() as int) =~= keys);
    order_of(&list)
}

/// Lines of a list, by their places.
pub open spec fn group_at(held: Seq<Held>, at: Seq<usize>) -> Seq<Known> {
    Seq::new(at.len(), |i: int| held[at[i] as int]@)
}

fn says_same(a: &Held, b: &Held) -> (r: bool)
    ensures
        r == same_line(a@, b@),
{
    if !text::same(a.observation.note.as_str(), b.observation.note.as_str()) {
        return false;
    }
    let x = normalise(a.observation.text.as_str());
    let y = normalise(b.observation.text.as_str());
    text::same(x.as_str(), y.as_str())
}

/// The place, among some, of the fullest wording.
fn fullest_of(held: &[Held], at: &[usize]) -> (r: usize)
    requires
        at.len() > 0,
        forall|i: int| 0 <= i < at.len() ==> #[trigger] at[i] < held.len(),
    ensures
        r < held.len(),
        held@[r as int]@ == fullest(group_at(held@, at@)),
{
    let ghost all = group_at(held@, at@);
    let mut best: usize = at[0];
    let mut length: usize = text::chars_of(held[best].observation.text.as_str()).len();
    let mut i: usize = 1;
    assert(all.take(1)[0] == all[0]);
    while i < at.len()
        invariant
            1 <= i <= at.len(),
            all == group_at(held@, at@),
            forall|i: int| 0 <= i < at.len() ==> #[trigger] at[i] < held.len(),
            best < held.len(),
            held@[best as int]@ == fullest(all.take(i as int)),
            length == held@[best as int]@.seen.text.len(),
        decreases at.len() - i,
    {
        proof {
            assert(all.take(i + 1).drop_last() =~= all.take(i as int));
            assert(all.take(i + 1).last() == held@[at[i as int] as int]@);
        }
        let next: usize = at[i];
        let n: usize = text::chars_of(held[next].observation.text.as_str()).len();
        if n >= length {
            best = next;
            length = n;
        }
        i = i + 1;
    }
    assert(all.take(all.len() as int) =~= all);
    best
}

pub(crate) fn durable_of(held: &[Held], at: &[usize]) -> (r: Kind)
    requires
        forall|i: int| 0 <= i < at.len() ==> #[trigger] at[i] < held.len(),
    ensures
        r == most_durable(group_at(held@, at@)),
{
    let ghost all = group_at(held@, at@);
    let mut best = Kind::Fact;
    let mut i: usize = 0;
    while i < at.len()
        invariant
            0 <= i <= at.len(),
            all == group_at(held@, at@),
            forall|i: int| 0 <= i < at.len() ==> #[trigger] at[i] < held.len(),
            best == most_durable(all.take(i as int)),
        decreases at.len() - i,
    {
        proof {
            assert(all.take(i + 1).drop_last() =~= all.take(i as int));
            assert(all.take(i + 1).last() == held@[at[i as int] as int]@);
        }
        let kind = held[at[i]].observation.kind;
        if kind.outranks(best) {
            best = kind;
        }
        i = i + 1;
    }
    assert(all.take(all.len() as int) =~= all);
    best
}

pub(crate) fn keys_at(held: &[Held], at: &[usize]) -> (r: Vec<String>)
    requires
        forall|i: int| 0 <= i < at.len() ==> #[trigger] at[i] < held.len(),
    ensures
        text::texts(r@) == group_keys(group_at(held@, at@)),
{
    let mut r: Vec<String> = Vec::new();
    let mut i: usize = 0;
    while i < at.len()
        invariant
            0 <= i <= at.len(),
            forall|i: int| 0 <= i < at.len() ==> #[trigger] at[i] < held.len(),
            r.len() == i,
            forall|j: int| 0 <= j < i ==> (#[trigger] r[j])@ == held@[at[j] as int]@.key(),
        decreases at.len() - i,
    {
        r.push(held[at[i]].key());
        i = i + 1;
    }
    assert(text::texts(r@) =~= group_keys(group_at(held@, at@)));
    r
}

pub(crate) fn texts_at(held: &[Held], at: &[usize]) -> (r: Vec<String>)
    requires
        forall|i: int| 0 <= i < at.len() ==> #[trigger] at[i] < held.len(),
    ensures
        text::texts(r@) == group_texts(group_at(held@, at@)),
{
    let mut r: Vec<String> = Vec::new();
    let mut i: usize = 0;
    while i < at.len()
        invariant
            0 <= i <= at.len(),
            forall|i: int| 0 <= i < at.len() ==> #[trigger] at[i] < held.len(),
            r.len() == i,
            forall|j: int| 0 <= j < i ==> (#[trigger] r[j])@ == held@[at[j] as int]@.seen.text,
        decreases at.len() - i,
    {
        r.push(held[at[i]].observation.text.as_str().to_owned());
        i = i + 1;
    }
    assert(text::texts(r@) =~= group_texts(group_at(held@, at@)));
    r
}

fn collapse_of(held: &[Held], at: &[usize]) -> (r: Operation)
    requires
        at.len() > 0,
        forall|i: int| 0 <= i < at.len() ==> #[trigger] at[i] < held.len(),
    ensures
        r@ == collapse(group_at(held@, at@)),
{
    let best: usize = fullest_of(held, at);
    let first: usize = at[0];
    assert(group_at(held@, at@)[0] == held@[first as int]@);
    Operation::Merge {
        note: held[first].observation.note.as_str().to_owned(),
        subject: held[best].observation.subject.as_str().to_owned(),
        kind: durable_of(held, at),
        into: held[best].observation.text.as_str().to_owned(),
        keys: keys_at(held, at),
        texts: texts_at(held, at),
    }
}

pub proof fn lemma_run_end(s: Seq<Known>, from: int, i: int)
    requires
        0 <= i <= s.len(),
    ensures
        i <= run_end(s, from, i) <= s.len(),
    decreases s.len() - i,
{
    if i < s.len() && same_line(s[from], s[i]) {
        lemma_run_end(s, from, i + 1);
    }
}

fn collapses_of(held: &[Held]) -> (r: Vec<Operation>)
    ensures
        steps(r@) == collapses(together(known(held@)), 0),
{
    let at = gather(held);
    let ghost all = together(known(held@));
    proof {
        assert forall|i: int| 0 <= i < at.len() implies #[trigger] all[i] == held@[at[i] as int]@ by {
            assert(places(at@)[i] == at[i] as int);
        }
    }
    let mut r: Vec<Operation> = Vec::new();
    let mut from: usize = 0;
    assert(steps(r@) + collapses(all, 0) =~= collapses(all, 0));
    while from < at.len()
        invariant
            0 <= from <= at.len(),
            at.len() == held.len(),
            all == together(known(held@)),
            all.len() == at.len(),
            forall|i: int| 0 <= i < at.len() ==> #[trigger] at[i] < held.len(),
            forall|i: int| 0 <= i < at.len() ==> #[trigger] all[i] == held@[at[i] as int]@,
            collapses(all, 0) == steps(r@) + collapses(all, from as int),
        decreases at.len() - from,
    {
        let mut end: usize = from + 1;
        while end < at.len() && says_same(&held[at[from]], &held[at[end]])
            invariant
                from < end <= at.len(),
                at.len() == held.len(),
                all.len() == at.len(),
                forall|i: int| 0 <= i < at.len() ==> #[trigger] at[i] < held.len(),
                forall|i: int| 0 <= i < at.len() ==> #[trigger] all[i] == held@[at[i] as int]@,
                run_end(all, from as int, from + 1) == run_end(all, from as int, end as int),
            decreases at.len() - end,
        {
            assert(all[from as int] == held@[at[from as int] as int]@);
            assert(all[end as int] == held@[at[end as int] as int]@);
            end = end + 1;
        }
        proof {
            assert(all[from as int] == held@[at[from as int] as int]@);
            if end < at.len() {
                assert(all[end as int] == held@[at[end as int] as int]@);
            }
            assert(run_end(all, from as int, from + 1) == end);
        }
        let ghost before = steps(r@);
        let ghost rest = collapses(all, end as int);
        if end - from >= 2 {
            let members = vstd::slice::slice_subrange(at.as_slice(), from, end);
            assert forall|i: int| 0 <= i < members.len() implies #[trigger] members[i]
                < held.len() by {
                assert(members[i] == at[from + i]);
            }
            let one = collapse_of(held, members);
            proof {
                assert(group_at(held@, members@) =~= all.subrange(from as int, end as int)) by {
                    assert forall|i: int| 0 <= i < members.len() implies group_at(
                        held@,
                        members@,
                    )[i] == all.subrange(from as int, end as int)[i] by {
                        assert(members[i] == at[from + i]);
                        assert(all[from + i] == held@[at[from + i] as int]@);
                    }
                }
            }
            r.push(one);
            proof {
                assert(steps(r@) =~= before.push(one@));
                assert(before + (seq![one@] + rest) =~= before.push(one@) + rest);
            }
        } else {
            assert(before + (Seq::<Step>::empty() + rest) =~= before + rest);
        }
        from = end;
    }
    assert(steps(r@) + Seq::<Step>::empty() =~= steps(r@));
    r
}

/// The places of what has gone cold, with the ranks of it.
fn cold_of(held: &[Held], scores: &[u32], now: Stamp, policy: &Policy) -> (r: (
    Vec<usize>,
    Vec<Rank>,
))
    requires
        now.dated(),
        scores.len() == held.len(),
    ensures
        ({
            let list = cold(known(held@), scores@, *policy, now.day());
            &&& r.0.len() == r.1.len() == list.len()
            &&& ranks(r.1@) == coldest(list)
            &&& forall|i: int|
                0 <= i < r.0.len() ==> #[trigger] r.0[i] < held.len() && held@[r.0[i] as int]@
                    == list[i].0
        }),
{
    let ghost all = known(held@);
    let ghost today = now.day();
    let mut at: Vec<usize> = Vec::new();
    let mut list: Vec<Rank> = Vec::new();
    let mut i: usize = 0;
    let ghost mut found = cold(all.take(0), scores@, *policy, today);
    assert(ranks(list@) =~= coldest(found));
    while i < held.len()
        invariant
            0 <= i <= held.len(),
            now.dated(),
            today == now.day(),
            scores.len() == held.len(),
            all == known(held@),
            found == cold(all.take(i as int), scores@, *policy, today),
            at.len() == list.len() == found.len(),
            ranks(list@) == coldest(found),
            forall|j: int|
                0 <= j < at.len() ==> #[trigger] at[j] < held.len() && held@[at[j] as int]@
                    == found[j].0,
        decreases held.len() - i,
    {
        let item = &held[i];
        proof {
            assert(all.take(i + 1).drop_last() =~= all.take(i as int));
            assert(all.take(i + 1).last() == held@[i as int]@);
        }
        let ghost before = found;
        proof {
            found = cold(all.take(i + 1), scores@, *policy, today);
        }
        if item.uses == 0 && item.mentions == 0 && item.is_droppable(policy, now) && scores[i]
            < policy.drop_below {
            at.push(i);
            let rank = Rank { number: scores[i] as i128, name: item.key(), more: String::new() };
            list.push(rank);
            proof {
                assert(found == before.push((item@, scores@[i as int])));
                assert(ranks(list@) =~= coldest(found)) by {
                    assert(ranks(list@).len() == coldest(found).len());
                    assert forall|j: int| 0 <= j < found.len() implies ranks(list@)[j] == coldest(
                        found,
                    )[j] by {
                        if j < before.len() {
                            assert(coldest(before)[j] == coldest(found)[j]);
                            assert(ranks(list@)[j] == coldest(before)[j]);
                        } else {
                            assert(rank@ =~= coldest(found)[j]);
                        }
                    }
                }
            }
        }
        i = i + 1;
    }
    assert(all.take(all.len() as int) =~= all);
    (at, list)
}

/// The pass that needs no server: the same sentence twice in one note, and
/// something old that nobody has wanted. `scores` says what each is worth, as
/// the bits of a 32-bit float that is not negative.
pub fn arithmetic(held: &[Held], scores: &[u32], now: Stamp, policy: &Policy) -> (r: Plan)
    requires
        now.dated(),
        scores.len() == held.len(),
    ensures
        r@ == railed(
            reckoned(known(held@), scores@, *policy, now.day()),
            known(held@),
            *policy,
            now.day(),
        ),
{
    let mut operations = collapses_of(held);
    let ghost merges = steps(operations@);
    let ghost list = cold(known(held@), scores@, *policy, now.day());
    let (at, keys) = cold_of(held, scores, now, policy);
    let sorted = order_of(&keys);
    let ghost o = order(coldest(list));
    let mut i: usize = 0;
    assert(merges + clearing(list).take(0) =~= merges);
    while i < sorted.len()
        invariant
            0 <= i <= sorted.len(),
            sorted.len() == at.len() == list.len(),
            places(sorted@) == o,
            o == order(coldest(list)),
            forall|j: int| 0 <= j < sorted.len() ==> #[trigger] sorted[j] < at.len(),
            forall|j: int|
                0 <= j < at.len() ==> #[trigger] at[j] < held.len() && held@[at[j] as int]@
                    == list[j].0,
            steps(operations@) == merges + clearing(list).take(i as int),
        decreases sorted.len() - i,
    {
        let place: usize = sorted[i];
        let from: usize = at[place];
        assert(o[i as int] == place);
        let item = &held[from];
        let one = Operation::Drop {
            key: item.key(),
            note: item.observation.note.as_str().to_owned(),
            subject: item.observation.subject.as_str().to_owned(),
            text: item.observation.text.as_str().to_owned(),
            why: Why::Stale,
        };
        let ghost before = steps(operations@);
        operations.push(one);
        proof {
            assert(one@ == clearing(list)[i as int]);
            assert(steps(operations@) =~= before.push(one@));
            assert(merges + clearing(list).take(i + 1) =~= (merges + clearing(list).take(i as int)).push(
                one@,
            ));
        }
        i = i + 1;
    }
    assert(clearing(list).take(list.len() as int) =~= clearing(list));
    let plan = Plan { operations };
    assert(plan@ == reckoned(known(held@), scores@, *policy, now.day()));
    plan.bounded(held, policy, now)
}

/// The place of the fullest wording of a group.
proof fn lemma_fullest(group: Seq<Known>) -> (i: int)
    requires
        group.len() > 0,
    ensures
        0 <= i < group.len(),
        fullest(group) == group[i],
    decreases group.len(),
{
    if group.len() == 1 {
        0
    } else {
        let rest = group.drop_last();
        let j = lemma_fullest(rest);
        if group.last().seen.text.len() >= fullest(rest).seen.text.len() {
            group.len() - 1
        } else {
            j
        }
    }
}

proof fn lemma_run(s: Seq<Known>, from: int, i: int, j: int)
    requires
        0 <= from < i <= s.len(),
        i <= j < run_end(s, from, i),
    ensures
        same_line(s[from], s[j]),
    decreases s.len() - i,
{
    lemma_run_end(s, from, i);
    if j > i {
        lemma_run(s, from, i + 1, j);
    }
}

proof fn lemma_collapses(s: Seq<Known>, from: int)
    ensures
        forall|i: int|
            0 <= i < collapses(s, from).len() ==> (#[trigger] collapses(s, from)[i]) is Merge
                && collapses(s, from)[i].lossless(),
    decreases s.len() - from,
{
    if 0 <= from < s.len() {
        let end = run_end(s, from, from + 1);
        lemma_run_end(s, from, from + 1);
        lemma_collapses(s, end);
        if end - from >= 2 {
            let group = s.subrange(from, end);
            let best = lemma_fullest(group);
            let step = collapse(group);
            assert(step.lossless()) by {
                let texts = group_texts(group);
                assert forall|i: int| 0 <= i < texts.len() implies normal(#[trigger] texts[i])
                    == normal(fullest(group).seen.text) by {
                    if i > 0 {
                        lemma_run(s, from, from + 1, from + i);
                    }
                    if best > 0 {
                        lemma_run(s, from, from + 1, from + best);
                    }
                    assert(group[i] == s[from + i]);
                    assert(group[best] == s[from + best]);
                }
            }
            let rest = collapses(s, end);
            let all = collapses(s, from);
            assert(all == seq![step] + rest);
            assert forall|i: int| 0 <= i < all.len() implies (#[trigger] all[i]) is Merge
                && all[i].lossless() by {
                if i > 0 {
                    assert(all[i] == rest[i - 1]);
                }
            }
        } else {
            assert(collapses(s, from) =~= collapses(s, end));
        }
    }
}

proof fn lemma_cold(held: Seq<Known>, scores: Seq<u32>, policy: Policy, today: int)
    ensures
        forall|i: int|
            0 <= i < cold(held, scores, policy, today).len() ==> held.contains(
                (#[trigger] cold(held, scores, policy, today)[i]).0,
            ) && is_cold(
                cold(held, scores, policy, today)[i].0,
                cold(held, scores, policy, today)[i].1,
                policy,
                today,
            ),
    decreases held.len(),
{
    if held.len() > 0 {
        let rest = held.drop_last();
        lemma_cold(rest, scores, policy, today);
        let before = cold(rest, scores, policy, today);
        let all = cold(held, scores, policy, today);
        assert forall|i: int| 0 <= i < all.len() implies held.contains((#[trigger] all[i]).0)
            && is_cold(all[i].0, all[i].1, policy, today) by {
            if i < before.len() {
                assert(all[i] == before[i]);
                let j = choose|j: int| 0 <= j < rest.len() && rest[j] == before[i].0;
                assert(held[j] == all[i].0);
            } else {
                assert(held[held.len() - 1] == all[i].0);
            }
        }
    }
}

/// Whatever the pass that needs no server intends, a merge of it loses nothing,
/// and a drop of it takes out something that is held and has gone cold: nobody
/// looked it up, nobody mentioned it, it is not who the user is, and it is old
/// enough.
pub proof fn only_what_is_cold_is_lost(
    held: Seq<Known>,
    scores: Seq<u32>,
    policy: Policy,
    today: int,
)
    ensures
        ({
            let plan = reckoned(held, scores, policy, today);
            forall|i: int|
                0 <= i < plan.len() ==> match #[trigger] plan[i] {
                    Step::Merge { .. } => plan[i].lossless(),
                    Step::Drop { key, .. } => exists|item: Known|
                        #![trigger held.contains(item)]
                        held.contains(item) && item.key() == key && item.uses == 0 && item.mentions
                            == 0 && item.droppable(policy, today),
                    Step::Reclassify { .. } => false,
                }
        }),
{
    let merges = collapses(together(held), 0);
    lemma_collapses(together(held), 0);
    let list = cold(held, scores, policy, today);
    lemma_cold(held, scores, policy, today);
    crate::lists::lemma_order(coldest(list));
    let plan = reckoned(held, scores, policy, today);
    assert forall|i: int| 0 <= i < plan.len() implies match #[trigger] plan[i] {
        Step::Merge { .. } => plan[i].lossless(),
        Step::Drop { key, .. } => exists|item: Known|
            #![trigger held.contains(item)]
            held.contains(item) && item.key() == key && item.uses == 0 && item.mentions == 0
                && item.droppable(policy, today),
        Step::Reclassify { .. } => false,
    } by {
        if i < merges.len() {
            assert(plan[i] == merges[i]);
        } else {
            let j = i - merges.len();
            assert(plan[i] == clearing(list)[j]);
            let at = order(coldest(list))[j];
            assert(0 <= at < list.len());
            assert(held.contains(list[at].0));
        }
    }
}

// ---------------------------------------------------------------------------
// What has come up
// ---------------------------------------------------------------------------

/// How often the subject of an observation has come up.
#[derive(Debug, Clone, PartialEq, Eq)]
pub struct Mention {
    /// The observation's key.
    pub key: String,
    pub times: u32,
}

/// What mentions say.
pub open spec fn counted(list: Seq<Mention>) -> Seq<(Seq<char>, u32)> {
    Seq::new(list.len(), |i: int| (list[i].key@, list[i].times))
}

/// A text normalised, with a space on either side of it.
pub open spec fn padded(s: Seq<char>) -> Seq<char> {
    " "@ + normal(s) + " "@
}

/// In how many texts a needle stands.
pub open spec fn texts_with(transcripts: Seq<Seq<char>>, needle: Seq<char>) -> nat
    decreases transcripts.len(),
{
    if transcripts.len() == 0 {
        0
    } else {
        texts_with(transcripts.drop_last(), needle) + if text::holds(
            padded(transcripts.last()),
            needle,
        ) {
            1nat
        } else {
            0
        }
    }
}

/// In how many conversations a subject has come up: none, where it is shorter
/// than three characters.
pub open spec fn times_mentioned(subject: Seq<char>, transcripts: Seq<Seq<char>>) -> nat {
    if normal(subject).len() < 3 {
        0
    } else {
        texts_with(transcripts, padded(subject))
    }
}

/// What has come up, of what is held.
pub open spec fn mentioned(held: Seq<Seen>, transcripts: Seq<Seq<char>>) -> Seq<(Seq<char>, u32)>
    decreases held.len(),
{
    if held.len() == 0 {
        Seq::empty()
    } else {
        let before = mentioned(held.drop_last(), transcripts);
        let times = times_mentioned(held.last().subject, transcripts);
        if times > 0 {
            before.push((held.last().key(), times as u32))
        } else {
            before
        }
    }
}

/// How often a key was counted: what was counted last counts.
pub open spec fn times_of(list: Seq<(Seq<char>, u32)>, key: Seq<char>) -> u32
    decreases list.len(),
{
    if list.len() == 0 {
        0
    } else if list.last().0 == key {
        list.last().1
    } else {
        times_of(list.drop_last(), key)
    }
}

/// How often a key was counted.
pub fn times(list: &Vec<Mention>, key: &str) -> (r: u32)
    ensures
        r == times_of(counted(list@), key@),
{
    let ghost all = counted(list@);
    let mut i: usize = list.len();
    assert(all.take(all.len() as int) =~= all);
    while i > 0
        invariant
            0 <= i <= list.len(),
            all == counted(list@),
            times_of(all, key@) == times_of(all.take(i as int), key@),
        decreases i,
    {
        assert(all.take(i as int).last() == all[i - 1]);
        assert(all.take(i as int).drop_last() =~= all.take(i - 1));
        if text::same(list[i - 1].key.as_str(), key) {
            return list[i - 1].times;
        }
        i = i - 1;
    }
    0
}

fn pad(s: &str) -> (r: String)
    ensures
        r@ == padded(s@),
{
    let mut r = " ".to_owned();
    let normal = normalise(s);
    r.append(normal.as_str());
    r.append(" ");
    r
}

fn corpus_of(transcripts: &[String]) -> (r: Vec<Vec<char>>)
    ensures
        r.len() == transcripts.len(),
        forall|i: int| 0 <= i < r.len() ==> (#[trigger] r[i])@ == padded(transcripts[i]@),
{
    let mut r: Vec<Vec<char>> = Vec::new();
    let mut i: usize = 0;
    while i < transcripts.len()
        invariant
            0 <= i <= transcripts.len(),
            r.len() == i,
            forall|j: int| 0 <= j < i ==> (#[trigger] r[j])@ == padded(transcripts[j]@),
        decreases transcripts.len() - i,
    {
        let one = pad(transcripts[i].as_str());
        r.push(text::chars_of(one.as_str()));
        i = i + 1;
    }
    r
}

fn count_in(corpus: &Vec<Vec<char>>, transcripts: &[String], needle: &str) -> (r: usize)
    requires
        corpus.len() == transcripts.len(),
        forall|i: int|
            0 <= i < corpus.len() ==> (#[trigger] corpus[i])@ == padded(transcripts[i]@),
    ensures
        r == texts_with(text::texts(transcripts@), needle@),
        r <= transcripts.len(),
{
    let ghost all = text::texts(transcripts@);
    let mut n: usize = 0;
    let mut i: usize = 0;
    while i < corpus.len()
        invariant
            0 <= i <= corpus.len(),
            n <= i,
            corpus.len() == transcripts.len(),
            all == text::texts(transcripts@),
            forall|i: int|
                0 <= i < corpus.len() ==> (#[trigger] corpus[i])@ == padded(transcripts[i]@),
            n == texts_with(all.take(i as int), needle@),
        decreases corpus.len() - i,
    {
        assert(all.take(i + 1).drop_last() =~= all.take(i as int));
        assert(all.take(i + 1).last() == transcripts@[i as int]@);
        assert(corpus[i as int]@ == padded(transcripts[i as int]@));
        if text::contains(corpus[i].as_slice(), needle) {
            n = n + 1;
        }
        i = i + 1;
    }
    assert(all.take(all.len() as int) =~= all);
    n
}

/// How many recent conversations mention each observation's subject: those that
/// any does. Deliberately crude: the subject as a word, whatever its case.
pub fn mentions(held: &[Observation], transcripts: &[String]) -> (r: Vec<Mention>)
    requires
        transcripts.len() <= u32::MAX,
    ensures
        counted(r@) == mentioned(seen(held@), text::texts(transcripts@)),
{
    let ghost all = seen(held@);
    let ghost said = text::texts(transcripts@);
    let corpus = corpus_of(transcripts);
    let mut r: Vec<Mention> = Vec::new();
    let mut i: usize = 0;
    assert(counted(r@) =~= Seq::empty());
    while i < held.len()
        invariant
            0 <= i <= held.len(),
            all == seen(held@),
            said == text::texts(transcripts@),
            transcripts.len() <= u32::MAX,
            corpus.len() == transcripts.len(),
            forall|i: int|
                0 <= i < corpus.len() ==> (#[trigger] corpus[i])@ == padded(transcripts[i]@),
            counted(r@) == mentioned(all.take(i as int), said),
        decreases held.len() - i,
    {
        let ghost before = counted(r@);
        proof {
            assert(all.take(i + 1).drop_last() =~= all.take(i as int));
            assert(all.take(i + 1).last() == held@[i as int]@);
        }
        let subject = normalise(held[i].subject.as_str());
        if text::chars_of(subject.as_str()).len() >= 3 {
            let mut needle = " ".to_owned();
            needle.append(subject.as_str());
            needle.append(" ");
            let n: usize = count_in(&corpus, transcripts, needle.as_str());
            if n > 0 {
                let one = Mention { key: held[i].key(), times: n as u32 };
                r.push(one);
                assert(counted(r@) =~= before.push((one.key@, one.times)));
            }
        }
        i = i + 1;
    }
    assert(all.take(all.len() as int) =~= all);
    r
}

/// A merge of lines that say the same keeps the longest wording, under a kind of theirs
/// that is as durable as any of theirs, in their note.
pub proof fn a_merge_keeps_the_fullest_wording(group: Seq<Known>)
    requires
        group.len() > 0,
    ensures
        match collapse(group) {
            Step::Merge { note, subject, kind, into, keys, texts } => {
                &&& note == group[0].seen.note
                &&& exists|i: int|
                    0 <= i < group.len() && (#[trigger] group[i]).seen.text == into
                        && group[i].seen.subject == subject
                &&& forall|i: int|
                    0 <= i < group.len() ==> (#[trigger] group[i]).seen.text.len() <= into.len()
                        && kind.place() <= group[i].seen.kind.place()
                &&& exists|i: int| 0 <= i < group.len() && (#[trigger] group[i]).seen.kind == kind
                &&& keys.len() == group.len() && texts.len() == group.len()
                &&& forall|i: int|
                    0 <= i < group.len() ==> #[trigger] keys[i] == group[i].key() && texts[i]
                        == group[i].seen.text
            },
            _ => false,
        },
{
    lemma_fullest_wording(group);
    lemma_durable(group);
}

proof fn lemma_fullest_wording(group: Seq<Known>)
    requires
        group.len() > 0,
    ensures
        exists|i: int| 0 <= i < group.len() && #[trigger] group[i] == fullest(group),
        forall|i: int|
            0 <= i < group.len() ==> (#[trigger] group[i]).seen.text.len() <= fullest(
                group,
            ).seen.text.len(),
    decreases group.len(),
{
    if group.len() == 1 {
        assert(group[0] == fullest(group));
    } else {
        let front = group.drop_last();
        lemma_fullest_wording(front);
        let k = choose|k: int| 0 <= k < front.len() && #[trigger] front[k] == fullest(front);
        assert(group[k] == fullest(front));
        assert(group[group.len() - 1] == group.last());
        assert forall|i: int| 0 <= i < group.len() implies (
        #[trigger] group[i]).seen.text.len() <= fullest(group).seen.text.len() by {
            if i < front.len() {
                assert(front[i] == group[i]);
            }
        }
    }
}

proof fn lemma_durable(group: Seq<Known>)
    requires
        group.len() > 0,
    ensures
        exists|i: int| 0 <= i < group.len() && (#[trigger] group[i]).seen.kind == most_durable(group),
        forall|i: int|
            0 <= i < group.len() ==> most_durable(group).place() <= (
            #[trigger] group[i]).seen.kind.place(),
    decreases group.len(),
{
    let front = group.drop_last();
    assert(group[group.len() - 1] == group.last());
    if group.len() == 1 {
        assert(most_durable(front) == Kind::Fact);
        assert(group[0].seen.kind == most_durable(group));
    } else {
        lemma_durable(front);
        let k = choose|k: int|
            0 <= k < front.len() && (#[trigger] front[k]).seen.kind == most_durable(front);
        assert(group[k].seen.kind == most_durable(front));
        assert forall|i: int| 0 <= i < group.len() implies most_durable(group).place() <= (
        #[trigger] group[i]).seen.kind.place() by {
            if i < front.len() {
                assert(front[i] == group[i]);
            }
        }
    }
}

/// What is cold is cleared: a line that nobody looked up or mentioned, that may go, and that
/// is worth less than the line is drawn at, is dropped for being stale; and of two the one
/// that is worth less goes first.
pub proof fn what_is_cold_is_cleared(
    held: Seq<Known>,
    scores: Seq<u32>,
    policy: Policy,
    today: int,
    i: int,
)
    requires
        0 <= i < held.len() == scores.len(),
        held[i].uses == 0,
        held[i].mentions == 0,
        held[i].droppable(policy, today),
        scores[i] < policy.drop_below,
    ensures
        reckoned(held, scores, policy, today).contains(
            Step::Drop {
                key: held[i].key(),
                note: held[i].seen.note,
                subject: held[i].seen.subject,
                text: held[i].seen.text,
                why: Why::Stale,
            },
        ),
{
    let list = cold(held, scores, policy, today);
    let k = lemma_is_cold(held, scores, policy, today, i);
    let keys = coldest(list);
    crate::lists::lemma_order(keys);
    let o = order(keys);
    assert(o.contains(k));
    let j = choose|j: int| 0 <= j < o.len() && o[j] == k;
    let plan = reckoned(held, scores, policy, today);
    let merges = collapses(together(held), 0);
    assert(clearing(list)[j] == stale(list[k].0));
    assert(plan[merges.len() + j] == clearing(list)[j]);
}

proof fn lemma_is_cold(
    held: Seq<Known>,
    scores: Seq<u32>,
    policy: Policy,
    today: int,
    i: int,
) -> (k: int)
    requires
        0 <= i < held.len() <= scores.len(),
        is_cold(held[i], scores[i], policy, today),
    ensures
        0 <= k < cold(held, scores, policy, today).len(),
        cold(held, scores, policy, today)[k] == (held[i], scores[i]),
    decreases held.len(),
{
    let before = cold(held.drop_last(), scores, policy, today);
    if i == held.len() - 1 {
        before.len() as int
    } else {
        lemma_is_cold(held.drop_last(), scores, policy, today, i)
    }
}

/// Of two cold lines the one that is worth less goes first.
pub proof fn the_coldest_goes_first(list: Seq<(Known, u32)>, a: int, b: int)
    requires
        0 <= a < list.len(),
        0 <= b < list.len(),
        list[a].1 < list[b].1,
    ensures
        exists|i: int, j: int|
            0 <= i < j < clearing(list).len() && #[trigger] clearing(list)[i] == stale(list[a].0)
                && #[trigger] clearing(list)[j] == stale(list[b].0),
{
    let keys = coldest(list);
    crate::lists::lemma_order(keys);
    let o = order(keys);
    assert(o.contains(a) && o.contains(b));
    let i = choose|i: int| 0 <= i < o.len() && o[i] == a;
    let j = choose|j: int| 0 <= j < o.len() && o[j] == b;
    if j < i {
        assert(crate::lists::goes_first(keys, o[j], o[i]));
    }
    assert(clearing(list)[i] == stale(list[a].0));
    assert(clearing(list)[j] == stale(list[b].0));
}

/// A subject has come up as often as there are conversations that have its words in them,
/// standing as words.
pub proof fn a_subject_comes_up_where_its_words_stand(
    subject: Seq<char>,
    transcripts: Seq<Seq<char>>,
)
    ensures
        normal(subject).len() >= 3 ==> times_mentioned(subject, transcripts) == transcripts.filter(
            |s: Seq<char>|
                text::holds(" "@ + normal(s) + " "@, " "@ + normal(subject) + " "@),
        ).len(),
        normal(subject).len() < 3 ==> times_mentioned(subject, transcripts) == 0,
{
    lemma_texts_with(subject, transcripts);
}

proof fn lemma_texts_with(subject: Seq<char>, transcripts: Seq<Seq<char>>)
    ensures
        texts_with(transcripts, padded(subject)) == transcripts.filter(
            |s: Seq<char>|
                text::holds(" "@ + normal(s) + " "@, " "@ + normal(subject) + " "@),
        ).len(),
    decreases transcripts.len(),
{
    reveal(Seq::filter);
    if transcripts.len() > 0 {
        lemma_texts_with(subject, transcripts.drop_last());
    }
}

} // verus!
