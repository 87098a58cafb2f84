//! What has actually been reached for, and when.
//!
//! The vault holds the memories; this holds the evidence about them. Only
//! retrieval counts: riding along in every prompt happens to everything, so
//! counting it would make the number a clock.

use crate::lists;
use crate::text;
use crate::time::Stamp;
use vstd::prelude::*;

verus! {

/// How often one observation has been reached for, and when it last was, as the
/// number of days since the start of 1970.
#[derive(Debug, Clone, Copy, PartialEq, Eq, Structural)]
pub struct Use {
    pub uses: u32,
    pub last: Option<i64>,
}

/// Something that has not been reached for.
pub open spec fn unused() -> Use {
    Use { uses: 0, last: None }
}

impl Default for Use {
    fn default() -> (r: Self)
        ensures
            r == unused(),
    {
        Use { uses: 0, last: None }
    }
}

/// What is known about one observation, by its key.
#[derive(Debug, Clone, PartialEq, Eq)]
pub struct Entry {
    pub key: String,
    pub used: Use,
}

/// The ledger: no key has two entries.
#[derive(Debug, Clone, PartialEq, Eq)]
pub struct Ledger {
    entries: Vec<Entry>,
    dirty: bool,
}

/// What the entries of a list say.
pub open spec fn said(list: Seq<Entry>) -> Seq<(Seq<char>, Use)> {
    Seq::new(list.len(), |i: int| (list[i].key@, list[i].used))
}

/// Whether there is an entry for a key.
pub open spec fn names(e: Seq<(Seq<char>, Use)>, key: Seq<char>) -> bool {
    exists|i: int| 0 <= i < e.len() && #[trigger] e[i].0 == key
}

/// What the entry for a key says.
pub open spec fn found(e: Seq<(Seq<char>, Use)>, key: Seq<char>) -> Use {
    e[choose|i: int| 0 <= i < e.len() && #[trigger] e[i].0 == key].1
}

/// What a list of entries holds, by key.
pub open spec fn contents(e: Seq<(Seq<char>, Use)>) -> Map<Seq<char>, Use> {
    Map::new(|key: Seq<char>| names(e, key), |key: Seq<char>| found(e, key))
}

/// No key has two entries.
pub open spec fn distinct(e: Seq<(Seq<char>, Use)>) -> bool {
    forall|i: int, j: int| 0 <= i < j < e.len() ==> (#[trigger] e[i]).0 != (#[trigger] e[j]).0
}

proof fn lemma_found(e: Seq<(Seq<char>, Use)>, i: int)
    requires
        distinct(e),
        0 <= i < e.len(),
    ensures
        names(e, e[i].0),
        found(e, e[i].0) == e[i].1,
{
    let key = e[i].0;
    let j = choose|j: int| 0 <= j < e.len() && #[trigger] e[j].0 == key;
    assert(0 <= j < e.len() && e[j].0 == key);
}

proof fn lemma_contents(e: Seq<(Seq<char>, Use)>)
    requires
        distinct(e),
    ensures
        contents(e).dom().finite(),
        contents(e).dom().len() == e.len(),
{
    let keys = Seq::new(e.len(), |i: int| e[i].0);
    assert(keys.no_duplicates());
    keys.unique_seq_to_set();
    assert(contents(e).dom() =~= keys.to_set()) by {
        assert forall|key: Seq<char>| contents(e).dom().contains(key) <==> keys.to_set().contains(
            key,
        ) by {
            if names(e, key) {
                let i = choose|i: int| 0 <= i < e.len() && #[trigger] e[i].0 == key;
                assert(keys[i] == key);
            }
            if keys.contains(key) {
                let i = choose|i: int| 0 <= i < keys.len() && keys[i] == key;
                assert(e[i].0 == key);
            }
        }
    }
}

proof fn lemma_update(e: Seq<(Seq<char>, Use)>, i: int, used: Use)
    requires
        distinct(e),
        0 <= i < e.len(),
    ensures
        distinct(e.update(i, (e[i].0, used))),
        contents(e.update(i, (e[i].0, used))) == contents(e).insert(e[i].0, used),
{
    let f = e.update(i, (e[i].0, used));
    assert(distinct(f));
    assert forall|key: Seq<char>| names(f, key) <==> names(e, key) by {
        if names(f, key) {
            let j = choose|j: int| 0 <= j < f.len() && #[trigger] f[j].0 == key;
            assert(e[j].0 == key);
        }
        if names(e, key) {
            let j = choose|j: int| 0 <= j < e.len() && #[trigger] e[j].0 == key;
            assert(f[j].0 == key);
        }
    }
    lemma_found(e, i);
    assert forall|key: Seq<char>| names(f, key) implies found(f, key) == contents(e).insert(
        e[i].0,
        used,
    )[key] by {
        let j = choose|j: int| 0 <= j < f.len() && #[trigger] f[j].0 == key;
        lemma_found(f, j);
        lemma_found(e, j);
    }
    assert(contents(f) =~= contents(e).insert(e[i].0, used));
}

proof fn lemma_push(e: Seq<(Seq<char>, Use)>, key: Seq<char>, used: Use)
    requires
        distinct(e),
        !names(e, key),
    ensures
        distinct(e.push((key, used))),
        contents(e.push((key, used))) == contents(e).insert(key, used),
{
    let f = e.push((key, used));
    assert(f[e.len() as int] == (key, used));
    assert forall|i: int, j: int| 0 <= i < j < f.len() implies (#[trigger] f[i]).0 != (
    #[trigger] f[j]).0 by {
        if j == e.len() && e[i].0 == key {
            assert(names(e, key));
        }
    }
    assert forall|k: Seq<char>| names(f, k) <==> (names(e, k) || k == key) by {
        assert(f[e.len() as int].0 == key);
        if names(f, k) {
            let j = choose|j: int| 0 <= j < f.len() && #[trigger] f[j].0 == k;
            if j < e.len() {
                assert(e[j].0 == k);
            }
        }
        if names(e, k) {
            let j = choose|j: int| 0 <= j < e.len() && #[trigger] e[j].0 == k;
            assert(f[j].0 == k);
        }
    }
    assert forall|k: Seq<char>| names(f, k) implies found(f, k) == contents(e).insert(key, used)[k] by {
        let j = choose|j: int| 0 <= j < f.len() && #[trigger] f[j].0 == k;
        lemma_found(f, j);
        if j < e.len() {
            lemma_found(e, j);
        }
    }
    assert(contents(f) =~= contents(e).insert(key, used));
}

proof fn lemma_remove(e: Seq<(Seq<char>, Use)>, i: int)
    requires
        distinct(e),
        0 <= i < e.len(),
    ensures
        distinct(e.remove(i)),
        contents(e.remove(i)) == contents(e).remove(e[i].0),
{
    let f = e.remove(i);
    let key = e[i].0;
    assert forall|k: Seq<char>| names(f, k) <==> (names(e, k) && k != key) by {
        if names(f, k) {
            let j = choose|j: int| 0 <= j < f.len() && #[trigger] f[j].0 == k;
            let at = if j < i {
                j
            } else {
                j + 1
            };
            assert(e[at].0 == k);
        }
        if names(e, k) && k != key {
            let j = choose|j: int| 0 <= j < e.len() && #[trigger] e[j].0 == k;
            let at = if j < i {
                j
            } else {
                j - 1
            };
            assert(f[at].0 == k);
        }
    }
    assert(distinct(f)) by {
        assert forall|a: int, b: int| 0 <= a < b < f.len() implies (#[trigger] f[a]).0 != (
        #[trigger] f[b]).0 by {
            let x = if a < i {
                a
            } else {
                a + 1
            };
            let y = if b < i {
                b
            } else {
                b + 1
            };
            assert(e[x].0 != e[y].0);
        }
    }
    assert forall|k: Seq<char>| names(f, k) implies found(f, k) == contents(e).remove(key)[k] by {
        let j = choose|j: int| 0 <= j < f.len() && #[trigger] f[j].0 == k;
        lemma_found(f, j);
        let at = if j < i {
            j
        } else {
            j + 1
        };
        lemma_found(e, at);
    }
    assert(contents(f) =~= contents(e).remove(key));
}

/// One more use, as far as a count goes.
pub open spec fn more(uses: u32, by: u32) -> u32 {
    if uses + by > u32::MAX {
        u32::MAX
    } else {
        (uses + by) as u32
    }
}

/// The later of two days; no day is the earliest.
pub open spec fn later(a: Option<i64>, b: Option<i64>) -> Option<i64> {
    match (a, b) {
        (Some(x), Some(y)) => if x >= y {
            a
        } else {
            b
        },
        (Some(x), None) => a,
        _ => b,
    }
}

/// What a ledger says of a key, where a key without an entry is unused.
pub open spec fn look_up(m: Map<Seq<char>, Use>, key: Seq<char>) -> Use {
    if m.dom().contains(key) {
        m[key]
    } else {
        unused()
    }
}

/// A ledger after some keys were reached for on a day, one after the other.
pub open spec fn credited(m: Map<Seq<char>, Use>, keys: Seq<Seq<char>>, day: i64) -> Map<
    Seq<char>,
    Use,
>
    decreases keys.len(),
{
    if keys.len() == 0 {
        m
    } else {
        let before = credited(m, keys.drop_last(), day);
        before.insert(
            keys.last(),
            Use { uses: more(look_up(before, keys.last()).uses, 1), last: Some(day) },
        )
    }
}

/// What is left of a ledger when some keys are taken out, one after the other,
/// and what they had earned between them.
pub open spec fn gathered(m: Map<Seq<char>, Use>, keys: Seq<Seq<char>>) -> (
    Map<Seq<char>, Use>,
    Use,
)
    decreases keys.len(),
{
    if keys.len() == 0 {
        (m, unused())
    } else {
        let (left, earned) = gathered(m, keys.drop_last());
        let key = keys.last();
        if left.dom().contains(key) {
            (
                left.remove(key),
                Use {
                    uses: more(earned.uses, left[key].uses),
                    last: later(earned.last, left[key].last),
                },
            )
        } else {
            (left, earned)
        }
    }
}

/// A ledger after what some keys had earned was carried over to another.
pub open spec fn carried(m: Map<Seq<char>, Use>, from: Seq<Seq<char>>, to: Seq<char>) -> Map<
    Seq<char>,
    Use,
> {
    let (left, earned) = gathered(m, from);
    if earned == unused() {
        left
    } else {
        left.insert(
            to,
            Use {
                uses: more(look_up(left, to).uses, earned.uses),
                last: later(look_up(left, to).last, earned.last),
            },
        )
    }
}

impl View for Ledger {
    type V = Map<Seq<char>, Use>;

    closed spec fn view(&self) -> Map<Seq<char>, Use> {
        contents(said(self.entries@))
    }
}

impl Ledger {
    /// No key has two entries.
    pub closed spec fn wf(self) -> bool {
        distinct(said(self.entries@))
    }

    /// Whether anything has changed that was not written.
    pub closed spec fn changed(self) -> bool {
        self.dirty
    }

    /// An empty ledger.
    pub fn new() -> (r: Ledger)
        ensures
            r.wf(),
            r@ == Map::<Seq<char>, Use>::empty(),
            !r.changed(),
    {
        let r = Ledger { entries: Vec::new(), dirty: false };
        assert(r@ =~= Map::empty());
        r
    }

    /// A ledger with the given entries, level with its file. Of two entries for
    /// one key the later one counts.
    pub fn of(list: Vec<Entry>) -> (r: Ledger)
        ensures
            r.wf(),
            r@ == written_down(said(list@)),
            !r.changed(),
    {
        let mut r = Ledger::new();
        let mut i: usize = 0;
        let ghost all = said(list@);
        while i < list.len()
            invariant
                0 <= i <= list.len(),
                all == said(list@),
                r.wf(),
                r@ == written_down(all.take(i as int)),
                !r.changed(),
            decreases list.len() - i,
        {
            r.put(list[i].key.as_str(), list[i].used);
            assert(all.take(i + 1).drop_last() =~= all.take(i as int));
            i = i + 1;
        }
        assert(all.take(all.len() as int) =~= all);
        r
    }

    /// The entries, to be written to the file.
    pub fn entries(&self) -> (r: &Vec<Entry>)
        requires
            self.wf(),
        ensures
            distinct(said(r@)),
            contents(said(r@)) == self@,
    {
        &self.entries
    }

    fn find(&self, key: &str) -> (r: Option<usize>)
        requires
            self.wf(),
        ensures
            match r {
                Some(i) => i < self.entries.len() && said(self.entries@)[i as int].0 == key@
                    && self@.dom().contains(key@) && self@[key@] == self.entries[i as int].used,
                None => !names(said(self.entries@), key@) && !self@.dom().contains(key@),
            },
    {
        let ghost e = said(self.entries@);
        let mut i: usize = 0;
        while i < self.entries.len()
            invariant
                0 <= i <= self.entries.len(),
                self.wf(),
                e == said(self.entries@),
                forall|j: int| 0 <= j < i ==> (#[trigger] e[j]).0 != key@,
            decreases self.entries.len() - i,
        {
            if text::same(self.entries[i].key.as_str(), key) {
                proof {
                    lemma_found(e, i as int);
                }
                return Some(i);
            }
            i = i + 1;
        }
        None
    }

    fn put(&mut self, key: &str, used: Use)
        requires
            old(self).wf(),
        ensures
            final(self).wf(),
            final(self)@ == old(self)@.insert(key@, used),
            final(self).changed() == old(self).changed(),
    {
        let ghost e = said(self.entries@);
        match self.find(key) {
            Some(i) => {
                let entry = Entry { key: key.to_owned(), used };
                proof {
                    lemma_update(e, i as int, used);
                }
                self.entries.set(i, entry);
                assert(said(self.entries@) =~= e.update(i as int, (e[i as int].0, used)));
            },
            None => {
                proof {
                    lemma_push(e, key@, used);
                }
                self.entries.push(Entry { key: key.to_owned(), used });
                assert(said(self.entries@) =~= e.push((key@, used)));
            },
        }
    }

    fn take_out(&mut self, i: usize)
        requires
            old(self).wf(),
            i < old(self).entries.len(),
        ensures
            final(self).wf(),
            final(self)@ == old(self)@.remove(said(old(self).entries@)[i as int].0),
            final(self).changed() == old(self).changed(),
            final(self).entries@ == old(self).entries@.remove(i as int),
    {
        let ghost e = said(self.entries@);
        proof {
            lemma_remove(e, i as int);
        }
        self.entries.remove(i);
        assert(said(self.entries@) =~= e.remove(i as int));
    }

    /// Whether anything has changed since it was loaded or last written.
    pub fn is_dirty(&self) -> (r: bool)
        ensures
            r == self.changed(),
    {
        self.dirty
    }

    pub fn len(&self) -> (r: usize)
        requires
            self.wf(),
        ensures
            r == self@.dom().len(),
            self@.dom().finite(),
    {
        proof {
            lemma_contents(said(self.entries@));
        }
        self.entries.len()
    }

    pub fn is_empty(&self) -> (r: bool)
        requires
            self.wf(),
        ensures
            r == (self@ == Map::<Seq<char>, Use>::empty()),
    {
        let r = self.entries.len() == 0;
        proof {
            let e = said(self.entries@);
            if r {
                assert(self@ =~= Map::empty());
            } else {
                lemma_found(e, 0);
                assert(self@.dom().contains(e[0].0));
            }
        }
        r
    }

    /// How many times this has been reached for.
    pub fn uses(&self, key: &str) -> (r: u32)
        requires
            self.wf(),
        ensures
            r == look_up(self@, key@).uses,
    {
        match self.find(key) {
            Some(i) => self.entries[i].used.uses,
            None => 0,
        }
    }

    pub fn last_used(&self, key: &str) -> (r: Option<i64>)
        requires
            self.wf(),
        ensures
            r == look_up(self@, key@).last,
    {
        match self.find(key) {
            Some(i) => self.entries[i].used.last,
            None => None,
        }
    }

    fn look(&self, key: &str) -> (r: Use)
        requires
            self.wf(),
        ensures
            r == look_up(self@, key@),
    {
        match self.find(key) {
            Some(i) => self.entries[i].used,
            None => Use { uses: 0, last: None },
        }
    }

    /// Record that these were retrieved. One call per search, so that one which
    /// returned five notes credits all five once.
    pub fn used(&mut self, keys: &Vec<String>, now: Stamp)
        requires
            old(self).wf(),
            now.dated(),
        ensures
            final(self).wf(),
            final(self)@ == credited(old(self)@, text::texts(keys@), now.day() as i64),
            final(self).changed() == (old(self).changed() || keys.len() > 0),
    {
        let day: i64 = now.date();
        let ghost all = text::texts(keys@);
        let ghost start = self@;
        let ghost before = self.changed();
        let mut i: usize = 0;
        while i < keys.len()
            invariant
                0 <= i <= keys.len(),
                all == text::texts(keys@),
                self.wf(),
                self@ == credited(start, all.take(i as int), day),
                self.changed() == (before || i > 0),
            decreases keys.len() - i,
        {
            let was = self.look(keys[i].as_str());
            let uses: u32 = was.uses.saturating_add(1);
            assert(all.take(i + 1).drop_last() =~= all.take(i as int));
            self.put(keys[i].as_str(), Use { uses, last: Some(day) });
            self.dirty = true;
            i = i + 1;
        }
        assert(all.take(all.len() as int) =~= all);
    }

    /// Forget the bookkeeping for observations that are no longer in the vault.
    /// Returns how many there were.
    pub fn retain(&mut self, present: &Vec<String>) -> (r: usize)
        requires
            old(self).wf(),
        ensures
            final(self).wf(),
            final(self)@ == old(self)@.restrict(text::texts(present@).to_set()),
            r == old(self)@.dom().len() - final(self)@.dom().len(),
            final(self).changed() == (old(self).changed() || r > 0),
    {
        let ghost start = self@;
        let ghost all = text::texts(present@);
        let before: usize = self.entries.len();
        proof {
            lemma_contents(said(self.entries@));
        }
        let mut i: usize = 0;
        while i < self.entries.len()
            invariant
                0 <= i <= self.entries.len() <= before,
                all == text::texts(present@),
                self.wf(),
                self.changed() == old(self).changed(),
                forall|j: int|
                    0 <= j < i ==> all.contains((#[trigger] said(self.entries@)[j]).0),
                forall|k: Seq<char>|
                    #[trigger] self@.dom().contains(k) ==> start.dom().contains(k) && start[k]
                        == self@[k],
                forall|k: Seq<char>|
                    #[trigger] start.dom().contains(k) && all.contains(k) ==> self@.dom().contains(
                        k,
                    ),
            decreases self.entries.len() - i,
        {
            let ghost e = said(self.entries@);
            if lists::any(present, self.entries[i].key.as_str()) {
                i = i + 1;
            } else {
                self.take_out(i);
                assert(said(self.entries@) =~= e.remove(i as int));
            }
        }
        proof {
            let e = said(self.entries@);
            lemma_contents(e);
            assert forall|k: Seq<char>| self@.dom().contains(k) implies all.to_set().contains(k) by {
                let j = choose|j: int| 0 <= j < e.len() && #[trigger] e[j].0 == k;
                assert(all.contains(e[j].0));
            }
            assert(self@ =~= start.restrict(all.to_set()));
        }
        let dropped: usize = before - self.entries.len();
        if dropped > 0 {
            self.dirty = true;
        }
        dropped
    }

    /// Carry the counts across when an observation's text was rewritten. The new
    /// line inherits the sum of what the old ones had earned.
    pub fn merge_into(&mut self, from: &Vec<String>, to: &str)
        requires
            old(self).wf(),
        ensures
            final(self).wf(),
            final(self)@ == carried(old(self)@, text::texts(from@), to@),
            final(self).changed() == (old(self).changed() || gathered(
                old(self)@,
                text::texts(from@),
            ).1 != unused()),
    {
        let ghost start = self@;
        let ghost all = text::texts(from@);
        let mut uses: u32 = 0;
        let mut last: Option<i64> = None;
        let mut i: usize = 0;
        while i < from.len()
            invariant
                0 <= i <= from.len(),
                all == text::texts(from@),
                self.wf(),
                self.changed() == old(self).changed(),
                gathered(start, all.take(i as int)) == (self@, (Use { uses, last })),
            decreases from.len() - i,
        {
            assert(all.take(i + 1).drop_last() =~= all.take(i as int));
            match self.find(from[i].as_str()) {
                Some(at) => {
                    let used = self.entries[at].used;
                    uses = uses.saturating_add(used.uses);
                    last = latest(last, used.last);
                    self.take_out(at);
                },
                None => {},
            }
            i = i + 1;
        }
        assert(all.take(all.len() as int) =~= all);
        if uses == 0 && last.is_none() {
            return;
        }
        let was = self.look(to);
        let sum: u32 = was.uses.saturating_add(uses);
        let newest = latest(was.last, last);
        self.put(to, Use { uses: sum, last: newest });
        self.dirty = true;
    }

    /// Mark it written. Called after it was saved.
    pub fn settled(&mut self)
        ensures
            !final(self).changed(),
            final(self)@ == old(self)@,
            old(self).wf() ==> final(self).wf(),
    {
        self.dirty = false;
    }
}

/// What entries say, the later of two for one key counting.
pub open spec fn written_down(e: Seq<(Seq<char>, Use)>) -> Map<Seq<char>, Use>
    decreases e.len(),
{
    if e.len() == 0 {
        Map::empty()
    } else {
        written_down(e.drop_last()).insert(e.last().0, e.last().1)
    }
}

fn latest(a: Option<i64>, b: Option<i64>) -> (r: Option<i64>)
    ensures
        r == later(a, b),
{
    match (a, b) {
        (Some(x), Some(y)) => if x >= y {
            Some(x)
        } else {
            Some(y)
        },
        (Some(x), None) => Some(x),
        (None, y) => y,
    }
}

// ---------------------------------------------------------------------------
// Nothing that was earned is lost
// ---------------------------------------------------------------------------

/// What some keys have earned between them.
pub open spec fn total(m: Map<Seq<char>, Use>, keys: Seq<Seq<char>>) -> nat
    decreases keys.len(),
{
    if keys.len() == 0 {
        0
    } else {
        total(m, keys.drop_last()) + look_up(m, keys.last()).uses as nat
    }
}

proof fn lemma_gathered(m: Map<Seq<char>, Use>, keys: Seq<Seq<char>>)
    requires
        keys.no_duplicates(),
    ensures
        forall|k: Seq<char>| #[trigger]
            gathered(m, keys).0.dom().contains(k) <==> m.dom().contains(k) && !keys.contains(k),
        forall|k: Seq<char>|
            gathered(m, keys).0.dom().contains(k) ==> #[trigger] gathered(m, keys).0[k] == m[k],
        gathered(m, keys).1.uses == if total(m, keys) > u32::MAX {
            u32::MAX as nat
        } else {
            total(m, keys)
        },
    decreases keys.len(),
{
    if keys.len() > 0 {
        let rest = keys.drop_last();
        lemma_gathered(m, rest);
        let key = keys.last();
        assert(!rest.contains(key)) by {
            if rest.contains(key) {
                let i = choose|i: int| 0 <= i < rest.len() && rest[i] == key;
                assert(keys[i] == keys[keys.len() - 1]);
            }
        }
        assert forall|k: Seq<char>| keys.contains(k) <==> (rest.contains(k) || k == key) by {
            if keys.contains(k) {
                let i = choose|i: int| 0 <= i < keys.len() && keys[i] == k;
                if i < rest.len() {
                    assert(rest[i] == k);
                }
            }
            if rest.contains(k) {
                let i = choose|i: int| 0 <= i < rest.len() && rest[i] == k;
                assert(keys[i] == k);
            }
            if k == key {
                assert(keys[keys.len() - 1] == k);
            }
        }
    }
}

/// Carrying the counts of some lines over to the line that replaces them loses
/// none of them, as long as the sum fits: the new line has what it had and all
/// that they had, the old ones are gone, and nothing else has changed.
pub proof fn nothing_earned_is_lost(m: Map<Seq<char>, Use>, from: Seq<Seq<char>>, to: Seq<char>)
    requires
        from.no_duplicates(),
        !from.contains(to),
        look_up(m, to).uses + total(m, from) <= u32::MAX,
    ensures
        look_up(carried(m, from, to), to).uses == look_up(m, to).uses + total(m, from),
        forall|k: Seq<char>|
            from.contains(k) ==> !#[trigger] carried(m, from, to).dom().contains(k),
        forall|k: Seq<char>|
            !from.contains(k) && k != to ==> #[trigger] look_up(carried(m, from, to), k) == look_up(
                m,
                k,
            ),
{
    lemma_gathered(m, from);
    let (left, earned) = gathered(m, from);
    let r = carried(m, from, to);
    assert(left.dom().contains(to) <==> m.dom().contains(to));
    if m.dom().contains(to) {
        assert(left[to] == m[to]);
    }
    assert forall|k: Seq<char>| !from.contains(k) && k != to implies #[trigger] look_up(r, k)
        == look_up(m, k) by {
        assert(left.dom().contains(k) <==> m.dom().contains(k));
        if m.dom().contains(k) {
            assert(left[k] == m[k]);
        }
    }
}

/// What was looked up counts once more, and today is the day it was last wanted; what was
/// not is as it was.
pub proof fn looking_up_counts_once_more(m: Map<Seq<char>, Use>, keys: Seq<Seq<char>>, day: i64)
    requires
        keys.no_duplicates(),
    ensures
        forall|k: Seq<char>|
            keys.contains(k) ==> (#[trigger] look_up(credited(m, keys, day), k)).last == Some(day)
                && (look_up(m, k).uses < u32::MAX ==> look_up(credited(m, keys, day), k).uses
                == look_up(m, k).uses + 1),
        forall|k: Seq<char>|
            !keys.contains(k) ==> #[trigger] look_up(credited(m, keys, day), k) == look_up(m, k),
    decreases keys.len(),
{
    if keys.len() > 0 {
        let rest = keys.drop_last();
        let last = keys.last();
        looking_up_counts_once_more(m, rest, day);
        assert(!rest.contains(last));
        assert forall|k: Seq<char>| keys.contains(k) <==> rest.contains(k) || k == last by {
            if keys.contains(k) {
                let i = choose|i: int| 0 <= i < keys.len() && keys[i] == k;
                if i < rest.len() {
                    assert(rest[i] == k);
                }
            }
            if rest.contains(k) {
                let i = choose|i: int| 0 <= i < rest.len() && rest[i] == k;
                assert(keys[i] == k);
            }
            assert(keys[keys.len() - 1] == last);
        }
        let before = credited(m, rest, day);
        let after = credited(m, keys, day);
        assert(look_up(before, last) == look_up(m, last));
        assert(forall|k: Seq<char>|
            k != last ==> #[trigger] look_up(after, k) == look_up(before, k));
        assert(look_up(after, last) == Use {
            uses: more(look_up(before, last).uses, 1),
            last: Some(day),
        });
        assert forall|k: Seq<char>| keys.contains(k) implies (#[trigger] look_up(after, k)).last
            == Some(day) && (look_up(m, k).uses < u32::MAX ==> look_up(after, k).uses == look_up(
            m,
            k,
        ).uses + 1) by {
            if k != last {
                assert(look_up(after, k) == look_up(before, k));
            }
        }
        assert forall|k: Seq<char>| !keys.contains(k) implies #[trigger] look_up(after, k)
            == look_up(m, k) by {
            assert(k != last);
            assert(look_up(after, k) == look_up(before, k));
        }
    }
}

} // verus!
