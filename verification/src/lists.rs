//! Parts of lists.

use crate::text;
use vstd::prelude::*;

verus! {

/// What of a list satisfies a condition, in the same order.
pub open spec fn kept<A>(s: Seq<A>, keep: spec_fn(A) -> bool) -> Seq<A>
    decreases s.len(),
{
    if s.len() == 0 {
        Seq::empty()
    } else if keep(s.last()) {
        kept(s.drop_last(), keep).push(s.last())
    } else {
        kept(s.drop_last(), keep)
    }
}

/// What the references of a list point at.
pub open spec fn deref<A>(s: Seq<&A>) -> Seq<A> {
    Seq::new(s.len(), |i: int| *s[i])
}

/// What is kept is in the list and satisfies the condition, and whatever does
/// is kept.
pub proof fn lemma_kept<A>(s: Seq<A>, keep: spec_fn(A) -> bool)
    ensures
        kept(s, keep).len() <= s.len(),
        forall|x: A| #[trigger] kept(s, keep).contains(x) <==> s.contains(x) && keep(x),
    decreases s.len(),
{
    if s.len() > 0 {
        let rest = s.drop_last();
        lemma_kept(rest, keep);
        assert forall|x: A| #[trigger] kept(s, keep).contains(x) <==> s.contains(x) && keep(
            x,
        ) by {
            let k = kept(rest, keep);
            if kept(s, keep).contains(x) {
                let i = choose|i: int| 0 <= i < kept(s, keep).len() && kept(s, keep)[i] == x;
                if i < k.len() {
                    assert(k[i] == x);
                    assert(k.contains(x));
                    let j = choose|j: int| 0 <= j < rest.len() && rest[j] == x;
                    assert(s[j] == x);
                } else {
                    assert(s[s.len() - 1] == x);
                }
            }
            if s.contains(x) && keep(x) {
                let j = choose|j: int| 0 <= j < s.len() && s[j] == x;
                if j < rest.len() {
                    assert(rest[j] == x);
                    assert(rest.contains(x));
                    assert(k.contains(x));
                    let i = choose|i: int| 0 <= i < k.len() && k[i] == x;
                    assert(kept(s, keep)[i] == x);
                } else {
                    assert(kept(s, keep)[k.len() as int] == x);
                }
            }
        }
    }
}

/// What is kept of a list with one more element.
pub proof fn lemma_kept_take<A>(s: Seq<A>, keep: spec_fn(A) -> bool, i: int)
    requires
        0 <= i < s.len(),
    ensures
        kept(s.take(i + 1), keep) == if keep(s[i]) {
            kept(s.take(i), keep).push(s[i])
        } else {
            kept(s.take(i), keep)
        },
{
    assert(s.take(i + 1).drop_last() =~= s.take(i));
}

/// What a list is put in order by: a number, a text where the numbers are the
/// same, and another where the texts are.
#[derive(Debug, Clone, PartialEq, Eq)]
pub struct Rank {
    pub number: i128,
    pub name: String,
    pub more: String,
}

/// What a rank says.
#[verifier::ext_equal]
pub struct Key {
    pub number: int,
    pub name: Seq<char>,
    pub more: Seq<char>,
}

impl View for Rank {
    type V = Key;

    open spec fn view(&self) -> Key {
        Key { number: self.number as int, name: self.name@, more: self.more@ }
    }
}

/// The ranks of a list.
pub open spec fn ranks(list: Seq<Rank>) -> Seq<Key> {
    Seq::new(list.len(), |i: int| list[i]@)
}

/// Whether a rank is lower than another.
pub open spec fn lower(a: Key, b: Key) -> bool {
    ||| a.number < b.number
    ||| a.number == b.number && text::precedes(a.name, b.name)
    ||| a.number == b.number && a.name == b.name && text::precedes(a.more, b.more)
}

/// One more place, put behind all whose rank is not higher.
pub open spec fn placed(keys: Seq<Key>, sorted: Seq<int>, n: int) -> Seq<int>
    decreases sorted.len(),
{
    if sorted.len() == 0 || !lower(keys[n], keys[sorted.last()]) {
        sorted.push(n)
    } else {
        placed(keys, sorted.drop_last(), n).push(sorted.last())
    }
}

/// The places of a list, in the order of their ranks; those of one rank stay in
/// the order that they had.
pub open spec fn order(keys: Seq<Key>) -> Seq<int>
    decreases keys.len(),
{
    if keys.len() == 0 {
        Seq::empty()
    } else {
        placed(keys, order(keys.drop_last()), keys.len() - 1)
    }
}

/// Whether one place goes in front of another.
pub open spec fn goes_first(keys: Seq<Key>, a: int, b: int) -> bool {
    lower(keys[a], keys[b]) || (!lower(keys[b], keys[a]) && a < b)
}

/// Whether places are in order.
pub open spec fn in_order(keys: Seq<Key>, sorted: Seq<int>) -> bool {
    forall|i: int, j: int|
        0 <= i < j < sorted.len() ==> goes_first(keys, #[trigger] sorted[i], #[trigger] sorted[j])
}

proof fn lemma_lower(a: Key, b: Key, c: Key)
    requires
        lower(a, b),
        !lower(c, b),
    ensures
        lower(a, c),
{
    text::lemma_precedes_total(a.name, b.name);
    text::lemma_precedes_total(b.name, c.name);
    text::lemma_precedes_total(a.name, c.name);
    if a.number == b.number && c.number == b.number {
        if text::precedes(a.name, b.name) {
            text::lemma_precedes(a.name, b.name, c.name);
        } else if c.name == b.name {
            text::lemma_precedes(a.more, b.more, c.more);
        }
    }
}

proof fn lemma_lower_once(a: Key, b: Key)
    requires
        lower(a, b),
    ensures
        !lower(b, a),
{
    text::lemma_precedes_total(a.name, b.name);
    text::lemma_precedes_total(a.more, b.more);
}

proof fn lemma_placed(keys: Seq<Key>, sorted: Seq<int>, n: int)
    requires
        0 <= n < keys.len(),
        in_order(keys, sorted),
        forall|i: int| 0 <= i < sorted.len() ==> 0 <= #[trigger] sorted[i] < n,
    ensures
        in_order(keys, placed(keys, sorted, n)),
        placed(keys, sorted, n).len() == sorted.len() + 1,
        forall|x: int| #[trigger] placed(keys, sorted, n).contains(x) <==> sorted.contains(x) || x
            == n,
    decreases sorted.len(),
{
    let r = placed(keys, sorted, n);
    if sorted.len() == 0 || !lower(keys[n], keys[sorted.last()]) {
        assert forall|i: int| 0 <= i < sorted.len() implies goes_first(
            keys,
            #[trigger] sorted[i],
            n,
        ) by {
            if lower(keys[n], keys[sorted[i]]) {
                let last = sorted.last();
                if i < sorted.len() - 1 {
                    assert(goes_first(keys, sorted[i], sorted[sorted.len() - 1]));
                    if lower(keys[sorted[i]], keys[last]) {
                        lemma_lower_once(keys[sorted[i]], keys[last]);
                    }
                    lemma_lower(keys[n], keys[sorted[i]], keys[last]);
                }
            }
        }
        assert(r[sorted.len() as int] == n);
        assert forall|x: int| #[trigger] r.contains(x) <==> sorted.contains(x) || x == n by {
            if sorted.contains(x) {
                let i = choose|i: int| 0 <= i < sorted.len() && sorted[i] == x;
                assert(r[i] == x);
            }
        }
    } else {
        let rest = sorted.drop_last();
        lemma_placed(keys, rest, n);
        let q = placed(keys, rest, n);
        assert forall|i: int| 0 <= i < q.len() implies goes_first(
            keys,
            #[trigger] q[i],
            sorted.last(),
        ) by {
            assert(q.contains(q[i]));
            if q[i] != n {
                assert(rest.contains(q[i]));
                let j = choose|j: int| 0 <= j < rest.len() && rest[j] == q[i];
                assert(goes_first(keys, sorted[j], sorted[sorted.len() - 1]));
            }
        }
        assert forall|x: int| #[trigger] r.contains(x) <==> sorted.contains(x) || x == n by {
            if r.contains(x) {
                let i = choose|i: int| 0 <= i < r.len() && r[i] == x;
                if i < q.len() {
                    assert(q.contains(x));
                    if x != n {
                        let j = choose|j: int| 0 <= j < rest.len() && rest[j] == x;
                        assert(sorted[j] == x);
                    }
                } else {
                    assert(sorted[sorted.len() - 1] == x);
                }
            }
            if sorted.contains(x) {
                let j = choose|j: int| 0 <= j < sorted.len() && sorted[j] == x;
                if j < rest.len() {
                    assert(rest[j] == x);
                    assert(q.contains(x));
                    let i = choose|i: int| 0 <= i < q.len() && q[i] == x;
                    assert(r[i] == x);
                } else {
                    assert(r[q.len() as int] == x);
                }
            }
            if x == n {
                assert(q.contains(n));
                let i = choose|i: int| 0 <= i < q.len() && q[i] == n;
                assert(r[i] == n);
            }
        }
    }
}

proof fn lemma_order_agrees(keys: Seq<Key>, sorted: Seq<int>)
    requires
        keys.len() > 0,
        in_order(keys.drop_last(), sorted),
        forall|i: int| 0 <= i < sorted.len() ==> 0 <= #[trigger] sorted[i] < keys.len() - 1,
    ensures
        in_order(keys, sorted),
{
    let rest = keys.drop_last();
    assert forall|i: int, j: int| 0 <= i < j < sorted.len() implies goes_first(
        keys,
        #[trigger] sorted[i],
        #[trigger] sorted[j],
    ) by {
        assert(goes_first(rest, sorted[i], sorted[j]));
        assert(rest[sorted[i]] == keys[sorted[i]] && rest[sorted[j]] == keys[sorted[j]]);
    }
}

/// Every place is in the order, and no other; and the order goes by rank, with
/// those of one rank as they were.
pub proof fn lemma_order(keys: Seq<Key>)
    ensures
        order(keys).len() == keys.len(),
        forall|x: int| #[trigger] order(keys).contains(x) <==> 0 <= x < keys.len(),
        forall|i: int| 0 <= i < keys.len() ==> 0 <= #[trigger] order(keys)[i] < keys.len(),
        in_order(keys, order(keys)),
    decreases keys.len(),
{
    if keys.len() > 0 {
        let rest = keys.drop_last();
        lemma_order(rest);
        lemma_order_agrees(keys, order(rest));
        lemma_placed(keys, order(rest), keys.len() - 1);
        assert forall|x: int| #[trigger] order(keys).contains(x) <==> 0 <= x < keys.len() by {
            assert(order(rest).contains(x) <==> 0 <= x < rest.len());
        }
        assert forall|i: int| 0 <= i < keys.len() implies 0 <= #[trigger] order(keys)[i]
            < keys.len() by {
            assert(order(keys).contains(order(keys)[i]));
        }
    }
}

/// The keys of a list as they stand at some places.
pub open spec fn arranged(keys: Seq<Key>, at: Seq<int>) -> Seq<Key> {
    at.map_values(|i: int| keys[i])
}

/// Whether a rank is not higher than another.
spec fn not_higher() -> spec_fn(Key, Key) -> bool {
    |a: Key, b: Key| !lower(b, a)
}

proof fn lemma_not_higher()
    ensures
        vstd::relations::total_ordering(not_higher()),
{
    let leq = not_higher();
    assert forall|a: Key| #[trigger] leq(a, a) by {
        text::lemma_precedes_total(a.name, a.name);
        text::lemma_precedes_total(a.more, a.more);
    }
    assert forall|a: Key, b: Key| #[trigger] leq(a, b) && #[trigger] leq(b, a) implies a == b by {
        text::lemma_precedes_total(a.name, b.name);
        text::lemma_precedes_total(a.more, b.more);
        assert(a =~= b);
    }
    assert forall|a: Key, b: Key, c: Key| #[trigger] leq(a, b) && #[trigger] leq(b, c) implies leq(
        a,
        c,
    ) by {
        if lower(c, a) {
            lemma_lower(c, a, b);
        }
    }
    assert forall|a: Key, b: Key| #[trigger] leq(a, b) || #[trigger] leq(b, a) by {
        if lower(b, a) {
            lemma_lower_once(b, a);
        }
    }
}

proof fn lemma_placed_keys(keys: Seq<Key>, sorted: Seq<int>, n: int)
    ensures
        arranged(keys, placed(keys, sorted, n)).to_multiset() == arranged(
            keys,
            sorted,
        ).to_multiset().insert(keys[n]),
    decreases sorted.len(),
{
    broadcast use vstd::seq_lib::group_to_multiset_ensures;

    if sorted.len() == 0 || !lower(keys[n], keys[sorted.last()]) {
        assert(arranged(keys, sorted.push(n)) =~= arranged(keys, sorted).push(keys[n]));
    } else {
        let rest = sorted.drop_last();
        let last = keys[sorted.last()];
        lemma_placed_keys(keys, rest, n);
        let q = placed(keys, rest, n);
        assert(arranged(keys, q.push(sorted.last())) =~= arranged(keys, q).push(last));
        assert(arranged(keys, sorted) =~= arranged(keys, rest).push(last));
        assert(arranged(keys, rest).to_multiset().insert(keys[n]).insert(last) =~= arranged(
            keys,
            rest,
        ).to_multiset().insert(last).insert(keys[n]));
    }
}

proof fn lemma_arranged(keys: Seq<Key>)
    ensures
        arranged(keys, order(keys)).to_multiset() == keys.to_multiset(),
    decreases keys.len(),
{
    broadcast use vstd::seq_lib::group_to_multiset_ensures;

    if keys.len() == 0 {
        assert(arranged(keys, order(keys)) =~= keys);
    } else {
        let rest = keys.drop_last();
        let o = order(rest);
        lemma_arranged(rest);
        lemma_order(rest);
        lemma_placed_keys(keys, o, keys.len() - 1);
        assert forall|i: int| 0 <= i < o.len() implies 0 <= #[trigger] o[i] < rest.len() by {
            assert(o.contains(o[i]));
        }
        assert(arranged(keys, o) =~= arranged(rest, o));
        assert(keys =~= rest.push(keys.last()));
    }
}

/// Two lists of the same keys are the same once they are in order.
pub proof fn lemma_order_decides(a: Seq<Key>, b: Seq<Key>)
    requires
        a.to_multiset() == b.to_multiset(),
    ensures
        arranged(a, order(a)) == arranged(b, order(b)),
{
    lemma_arranged(a);
    lemma_arranged(b);
    lemma_not_higher();
    lemma_sorted(a);
    lemma_sorted(b);
    vstd::seq_lib::lemma_sorted_unique(
        arranged(a, order(a)),
        arranged(b, order(b)),
        not_higher(),
    );
}

proof fn lemma_sorted(keys: Seq<Key>)
    ensures
        vstd::relations::sorted_by(arranged(keys, order(keys)), not_higher()),
{
    lemma_order(keys);
    let o = order(keys);
    let r = arranged(keys, o);
    let leq = not_higher();
    assert forall|i: int, j: int| 0 <= i < j < r.len() implies #[trigger] leq(r[i], r[j]) by {
        assert(goes_first(keys, o[i], o[j]));
        if lower(keys[o[i]], keys[o[j]]) {
            lemma_lower_once(keys[o[i]], keys[o[j]]);
        }
    }
}

/// Places as numbers.
pub open spec fn places(r: Seq<usize>) -> Seq<int> {
    Seq::new(r.len(), |i: int| r[i] as int)
}

fn below(a: &Rank, b: &Rank) -> (r: bool)
    ensures
        r == lower(a@, b@),
{
    if a.number != b.number {
        return a.number < b.number;
    }
    if text::comes_before(a.name.as_str(), b.name.as_str()) {
        return true;
    }
    text::same(a.name.as_str(), b.name.as_str()) && text::comes_before(
        a.more.as_str(),
        b.more.as_str(),
    )
}

/// The places of a list, in the order of their ranks.
pub fn order_of(list: &Vec<Rank>) -> (r: Vec<usize>)
    ensures
        places(r@) == order(ranks(list@)),
        r.len() == list.len(),
        forall|i: int| 0 <= i < r.len() ==> #[trigger] r[i] < list.len(),
{
    let ghost keys = ranks(list@);
    let mut r: Vec<usize> = Vec::new();
    let mut n: usize = 0;
    assert(places(r@) =~= order(keys.take(0)));
    while n < list.len()
        invariant
            0 <= n <= list.len(),
            keys == ranks(list@),
            r.len() == n,
            forall|i: int| 0 <= i < r.len() ==> #[trigger] r[i] < n,
            places(r@) == order(keys.take(n as int)),
        decreases list.len() - n,
    {
        let ghost sorted = places(r@);
        let ghost part = keys.take(n + 1);
        assert(part.drop_last() =~= keys.take(n as int));
        let mut j: usize = r.len();
        assert(sorted.take(j as int) =~= sorted);
        assert(placed(part, sorted, n as int) =~= placed(part, sorted.take(j as int), n as int)
            + sorted.skip(j as int));
        while j > 0 && below(&list[n], &list[r[j - 1]])
            invariant
                0 <= j <= r.len(),
                n < list.len(),
                r.len() == n,
                keys == ranks(list@),
                part == keys.take(n + 1),
                sorted == places(r@),
                forall|i: int| 0 <= i < r.len() ==> #[trigger] r[i] < n,
                placed(part, sorted, n as int) == placed(part, sorted.take(j as int), n as int)
                    + sorted.skip(j as int),
            decreases j,
        {
            proof {
                let shorter = sorted.take(j as int);
                assert(shorter.last() == r[j - 1] as int);
                assert(part[n as int] == keys[n as int]);
                assert(part[r[j - 1] as int] == keys[r[j - 1] as int]);
                assert(shorter.drop_last() =~= sorted.take(j - 1));
                assert(placed(part, sorted.take(j - 1), n as int).push(shorter.last())
                    + sorted.skip(j as int) =~= placed(part, sorted.take(j - 1), n as int)
                    + sorted.skip(j - 1));
            }
            j = j - 1;
        }
        proof {
            let shorter = sorted.take(j as int);
            if j > 0 {
                assert(shorter.last() == r[j - 1] as int);
                assert(part[n as int] == keys[n as int]);
                assert(part[r[j - 1] as int] == keys[r[j - 1] as int]);
            }
            assert(placed(part, shorter, n as int) == shorter.push(n as int));
        }
        let ghost old_r = r@;
        r.insert(j, n);
        assert(places(r@) =~= sorted.take(j as int).push(n as int) + sorted.skip(j as int));
        assert forall|i: int| 0 <= i < r.len() implies #[trigger] r[i] < n + 1 by {
            if i < j {
                assert(r[i] == old_r[i]);
            } else if i > j {
                assert(r[i] == old_r[i - 1]);
            }
        }
        n = n + 1;
    }
    assert(keys.take(keys.len() as int) =~= keys);
    r
}

// ---------------------------------------------------------------------------
// Names that nothing is using
// ---------------------------------------------------------------------------

/// A name with a number behind it.
pub open spec fn suffixed(base: Seq<char>, n: nat) -> Seq<char> {
    base + "-"@ + text::decimal(n)
}

/// A name that nothing is using: the base, or the base with the smallest number,
/// from two on, that makes it one.
pub open spec fn is_free_name(base: Seq<char>, taken: Seq<Seq<char>>, name: Seq<char>) -> bool {
    if !taken.contains(base) {
        name == base
    } else {
        exists|n: nat| #[trigger] is_first_free(base, taken, n) && name == suffixed(base, n)
    }
}

pub open spec fn is_first_free(base: Seq<char>, taken: Seq<Seq<char>>, n: nat) -> bool {
    &&& n >= 2
    &&& !taken.contains(suffixed(base, n))
    &&& forall|m: nat| 2 <= m < n ==> taken.contains(#[trigger] suffixed(base, m))
}

proof fn lemma_suffixed(base: Seq<char>, a: nat, b: nat)
    requires
        suffixed(base, a) == suffixed(base, b),
    ensures
        a == b,
{
    let x = suffixed(base, a);
    let y = suffixed(base, b);
    let k = base.len() + "-"@.len();
    assert(x.skip(k as int) =~= text::decimal(a));
    assert(y.skip(k as int) =~= text::decimal(b));
    text::lemma_decimal_injective(a, b);
}

/// No more numbers can be taken than there are names.
proof fn lemma_some_number_is_free(base: Seq<char>, taken: Seq<Seq<char>>, n: nat)
    requires
        n >= 2,
        forall|m: nat| 2 <= m < n ==> taken.contains(#[trigger] suffixed(base, m)),
    ensures
        n - 2 <= taken.len(),
{
    let tried = Seq::new((n - 2) as nat, |i: int| suffixed(base, (i + 2) as nat));
    assert(tried.no_duplicates()) by {
        assert forall|i: int, j: int| 0 <= i < j < tried.len() implies tried[i] != tried[j] by {
            if tried[i] == tried[j] {
                lemma_suffixed(base, (i + 2) as nat, (j + 2) as nat);
            }
        }
    }
    tried.unique_seq_to_set();
    taken.lemma_cardinality_of_set();
    assert(tried.to_set().subset_of(taken.to_set())) by {
        assert forall|s: Seq<char>| tried.to_set().contains(s) implies taken.to_set().contains(
            s,
        ) by {
            let i = choose|i: int| 0 <= i < tried.len() && tried[i] == s;
            assert(taken.contains(suffixed(base, (i + 2) as nat)));
        }
    }
    vstd::set_lib::lemma_len_subset(tried.to_set(), taken.to_set());
}

/// Whether a list holds a text.
pub fn any(list: &Vec<String>, key: &str) -> (r: bool)
    ensures
        r == text::texts(list@).contains(key@),
{
    let ghost all = text::texts(list@);
    let mut i: usize = 0;
    while i < list.len()
        invariant
            0 <= i <= list.len(),
            all == text::texts(list@),
            forall|j: int| 0 <= j < i ==> #[trigger] all[j] != key@,
        decreases list.len() - i,
    {
        if text::same(list[i].as_str(), key) {
            assert(all[i as int] == key@);
            return true;
        }
        i = i + 1;
    }
    false
}

/// A name that nothing is using.
pub fn free_name(base: &str, taken: &Vec<String>) -> (r: String)
    ensures
        is_free_name(base@, text::texts(taken@), r@),
{
    let ghost all = text::texts(taken@);
    if !any(taken, base) {
        return base.to_owned();
    }
    let mut n: u128 = 2;
    loop
        invariant
            2 <= n <= taken.len() + 2,
            all == text::texts(taken@),
            all.contains(base@),
            forall|m: nat| 2 <= m < n ==> all.contains(#[trigger] suffixed(base@, m)),
        decreases taken.len() + 3 - n,
    {
        let mut name = base.to_owned();
        name.append("-");
        text::push_decimal(&mut name, n);
        assert(name@ == suffixed(base@, n as nat));
        if !any(taken, name.as_str()) {
            assert(is_first_free(base@, all, n as nat));
            return name;
        }
        proof {
            lemma_some_number_is_free(base@, all, (n + 1) as nat);
        }
        n = n + 1;
    }
}

/// What is kept of a list is each of its items that is to be kept, and no other, in their
/// order.
pub proof fn kept_is_what_is_to_be_kept<A>(s: Seq<A>, keep: spec_fn(A) -> bool)
    ensures
        kept(s, keep) == s.filter(keep),
    decreases s.len(),
{
    reveal(Seq::filter);
    if s.len() > 0 {
        kept_is_what_is_to_be_kept(s.drop_last(), keep);
    }
}

/// A name that is free is not taken, is the one asked for where that is free, and begins
/// with it where it is not.
pub proof fn a_free_name_is_not_taken(base: Seq<char>, taken: Seq<Seq<char>>, name: Seq<char>)
    requires
        is_free_name(base, taken, name),
    ensures
        !taken.contains(name),
        !taken.contains(base) <==> name == base,
        text::starts(name, base),
{
    if taken.contains(base) {
        let n = choose|n: nat| #[trigger] is_first_free(base, taken, n) && name == suffixed(base, n);
        assert(name.take(base.len() as int) =~= base);
    } else {
        assert(name.take(base.len() as int) =~= base);
    }
}

} // verus!
