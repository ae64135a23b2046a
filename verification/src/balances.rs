//! Balances by account key, held in the order of keys so that a ledger has one byte layout.
use crate::keys::{
    key_lt, key_side, lemma_key_lt_irreflexive, lemma_key_lt_total, lemma_key_lt_transitive, Side,
};
use vstd::prelude::*;

verus! {

/// One balance entry: the key of an account and an amount.
pub type Entry = (Seq<char>, u64);

/// The keys of `s` strictly increase, so no key occurs twice.
pub open spec fn canonical(s: Seq<Entry>) -> bool {
    forall|i: int, j: int| #![trigger s[i], s[j]] 0 <= i < j < s.len() ==> key_lt(s[i].0, s[j].0)
}

/// The number of leading entries of `s` whose keys come before `key`: where `key` belongs in
/// canonical entries.
pub open spec fn rank(s: Seq<Entry>, key: Seq<char>) -> int
    decreases s.len(),
{
    if s.len() == 0 || !key_lt(s[0].0, key) {
        0
    } else {
        1 + rank(s.skip(1), key)
    }
}

/// The amount that `s` holds for `key`, if any.
pub open spec fn lookup(s: Seq<Entry>, key: Seq<char>) -> Option<u64>
    decreases s.len(),
{
    if s.len() == 0 {
        None
    } else if s.last().0 == key {
        Some(s.last().1)
    } else {
        lookup(s.drop_last(), key)
    }
}

/// Canonical entries `s` with the amount of `key` set to `value`: the entry of `key` is
/// replaced, or a new entry is put where `key` belongs.
pub open spec fn entries_insert(s: Seq<Entry>, key: Seq<char>, value: u64) -> Seq<Entry> {
    let i = rank(s, key);
    if i < s.len() && s[i].0 == key {
        s.update(i, (key, value))
    } else {
        s.insert(i, (key, value))
    }
}

/// The entries as a map from key to amount.
pub open spec fn entries_map(s: Seq<Entry>) -> Map<Seq<char>, u64> {
    Map::new(|key: Seq<char>| lookup(s, key) is Some, |key: Seq<char>| lookup(s, key).unwrap())
}

/// Every entry before `rank` has a smaller key, and the entry at `rank` has not.
pub proof fn lemma_rank(s: Seq<Entry>, key: Seq<char>)
    ensures
        0 <= rank(s, key) <= s.len(),
        forall|j: int| 0 <= j < rank(s, key) ==> key_lt(#[trigger] s[j].0, key),
        rank(s, key) < s.len() ==> !key_lt(s[rank(s, key)].0, key),
    decreases s.len(),
{
    if s.len() > 0 && key_lt(s[0].0, key) {
        let tail = s.skip(1);
        lemma_rank(tail, key);
        assert forall|j: int| 0 <= j < rank(s, key) implies key_lt(#[trigger] s[j].0, key) by {
            if j > 0 {
                assert(s[j] == tail[j - 1]);
            }
        }
        if rank(s, key) < s.len() {
            assert(s[rank(s, key)] == tail[rank(tail, key)]);
        }
    }
}

/// The position that every smaller key precedes and no smaller key holds is the rank.
pub proof fn lemma_rank_is(s: Seq<Entry>, key: Seq<char>, i: int)
    requires
        0 <= i <= s.len(),
        forall|j: int| 0 <= j < i ==> key_lt(#[trigger] s[j].0, key),
        i < s.len() ==> !key_lt(s[i].0, key),
    ensures
        rank(s, key) == i,
    decreases i,
{
    if i > 0 {
        let tail = s.skip(1);
        assert(key_lt(s[0].0, key));
        assert forall|j: int| 0 <= j < i - 1 implies key_lt(#[trigger] tail[j].0, key) by {
            assert(tail[j] == s[j + 1]);
        }
        if i - 1 < tail.len() {
            assert(tail[i - 1] == s[i]);
        }
        lemma_rank_is(tail, key, i - 1);
    }
}

/// In canonical entries, a key that is not at its rank is nowhere.
pub proof fn lemma_rank_absent(s: Seq<Entry>, key: Seq<char>)
    requires
        canonical(s),
        !(rank(s, key) < s.len() && s[rank(s, key)].0 == key),
    ensures
        forall|j: int| 0 <= j < s.len() ==> (#[trigger] s[j]).0 != key,
{
    let i = rank(s, key);
    lemma_rank(s, key);
    lemma_key_lt_irreflexive(key);
    assert forall|j: int| 0 <= j < s.len() implies (#[trigger] s[j]).0 != key by {
        if j < i {
            assert(key_lt(s[j].0, key));
        } else if j > i {
            assert(key_lt(s[i].0, s[j].0));
        }
    }
}

/// Canonical entries hold for the key of each entry the amount of that entry.
pub proof fn lemma_lookup_at(s: Seq<Entry>, i: int)
    requires
        canonical(s),
        0 <= i < s.len(),
    ensures
        lookup(s, s[i].0) == Some(s[i].1),
    decreases s.len(),
{
    if i < s.len() - 1 {
        let front = s.drop_last();
        assert(key_lt(s[i].0, s[s.len() - 1].0));
        lemma_key_lt_irreflexive(s[i].0);
        assert(s.last().0 != s[i].0);
        assert forall|a: int, b: int| 0 <= a < b < front.len() implies key_lt(
            front[a].0,
            front[b].0,
        ) by {
            assert(front[a] == s[a] && front[b] == s[b]);
        }
        assert(front[i] == s[i]);
        lemma_lookup_at(front, i);
    }
}

/// Entries hold nothing for a key that none of them has.
pub proof fn lemma_lookup_none(s: Seq<Entry>, key: Seq<char>)
    requires
        forall|j: int| 0 <= j < s.len() ==> (#[trigger] s[j]).0 != key,
    ensures
        lookup(s, key) is None,
    decreases s.len(),
{
    if s.len() > 0 {
        let front = s.drop_last();
        assert(s[s.len() - 1].0 != key);
        assert forall|j: int| 0 <= j < front.len() implies (#[trigger] front[j]).0 != key by {
            assert(front[j] == s[j]);
        }
        lemma_lookup_none(front, key);
    }
}

/// An amount that entries hold for a key stands in one of them.
pub proof fn lemma_lookup_some(s: Seq<Entry>, key: Seq<char>) -> (i: int)
    requires
        lookup(s, key) is Some,
    ensures
        0 <= i < s.len(),
        s[i].0 == key,
        lookup(s, key) == Some(s[i].1),
    decreases s.len(),
{
    if s.last().0 == key {
        s.len() - 1
    } else {
        let front = s.drop_last();
        let i = lemma_lookup_some(front, key);
        assert(front[i] == s[i]);
        i
    }
}

/// Setting an amount keeps entries canonical.
pub proof fn lemma_insert_canonical(s: Seq<Entry>, key: Seq<char>, value: u64)
    requires
        canonical(s),
    ensures
        canonical(entries_insert(s, key, value)),
{
    let i = rank(s, key);
    let t = entries_insert(s, key, value);
    lemma_rank(s, key);
    if i < s.len() && s[i].0 == key {
        assert forall|a: int, b: int| 0 <= a < b < t.len() implies key_lt(t[a].0, t[b].0) by {
            assert(key_lt(s[a].0, s[b].0));
        }
    } else {
        assert forall|a: int, b: int| 0 <= a < b < t.len() implies key_lt(t[a].0, t[b].0) by {
            if b < i {
                assert(key_lt(s[a].0, s[b].0));
            } else if b == i {
                assert(key_lt(s[a].0, key));
            } else if a < i {
                assert(key_lt(s[a].0, s[b - 1].0));
            } else if a == i {
                lemma_key_lt_total(key, s[i].0);
                if b - 1 > i {
                    assert(key_lt(s[i].0, s[b - 1].0));
                    lemma_key_lt_transitive(key, s[i].0, s[b - 1].0);
                }
            } else {
                assert(key_lt(s[a - 1].0, s[b - 1].0));
            }
        }
    }
}

/// After an amount is set for a key, that key has it and every other key has what it had.
pub proof fn lemma_insert_lookup(s: Seq<Entry>, key: Seq<char>, value: u64, other: Seq<char>)
    requires
        canonical(s),
    ensures
        lookup(entries_insert(s, key, value), other) == if other == key {
            Some(value)
        } else {
            lookup(s, other)
        },
{
    let i = rank(s, key);
    let t = entries_insert(s, key, value);
    let replaced = i < s.len() && s[i].0 == key;
    lemma_rank(s, key);
    lemma_insert_canonical(s, key, value);
    assert(t[i] == (key, value));
    if other == key {
        lemma_lookup_at(t, i);
    } else if lookup(s, other) is Some {
        let j = lemma_lookup_some(s, other);
        let k = if replaced || j < i {
            j
        } else {
            j + 1
        };
        assert(t[k] == s[j]);
        lemma_lookup_at(t, k);
    } else {
        assert forall|k: int| 0 <= k < t.len() implies (#[trigger] t[k]).0 != other by {
            if k != i {
                let j = if replaced || k < i {
                    k
                } else {
                    k - 1
                };
                assert(t[k] == s[j]);
                if s[j].0 == other {
                    lemma_lookup_at(s, j);
                }
            }
        }
        lemma_lookup_none(t, other);
    }
}

/// Setting an amount in the entries sets it in their map.
pub proof fn lemma_insert_map(s: Seq<Entry>, key: Seq<char>, value: u64)
    requires
        canonical(s),
    ensures
        entries_map(entries_insert(s, key, value)) == entries_map(s).insert(key, value),
{
    let t = entries_insert(s, key, value);
    assert forall|other: Seq<char>|
        #[trigger] lookup(t, other) == if other == key {
            Some(value)
        } else {
            lookup(s, other)
        } by {
        lemma_insert_lookup(s, key, value, other);
    }
    assert(entries_map(t) =~= entries_map(s).insert(key, value));
}

/// A key that comes after every key of canonical entries is set at their end.
pub proof fn lemma_insert_last(s: Seq<Entry>, key: Seq<char>, value: u64)
    requires
        forall|j: int| 0 <= j < s.len() ==> key_lt(#[trigger] s[j].0, key),
    ensures
        entries_insert(s, key, value) == s.push((key, value)),
{
    lemma_rank_is(s, key, s.len() as int);
    assert(s.insert(s.len() as int, (key, value)) =~= s.push((key, value)));
}

/// Canonical entries are determined by their map: whatever the order in which amounts were
/// set, the same amounts by key are the same entries.
pub proof fn lemma_canonical_unique(a: Seq<Entry>, b: Seq<Entry>)
    requires
        canonical(a),
        canonical(b),
        entries_map(a) == entries_map(b),
    ensures
        a == b,
    decreases a.len(),
{
    assert forall|key: Seq<char>| lookup(a, key) == lookup(b, key) by {
        let ma = entries_map(a);
        let mb = entries_map(b);
        assert(ma.dom().contains(key) == (lookup(a, key) is Some));
        assert(mb.dom().contains(key) == (lookup(b, key) is Some));
        if lookup(a, key) is Some {
            assert(ma[key] == lookup(a, key).unwrap());
            assert(mb[key] == lookup(b, key).unwrap());
        }
    }
    if a.len() == 0 {
        if b.len() > 0 {
            lemma_lookup_at(b, b.len() - 1);
            assert(lookup(a, b[b.len() - 1].0) is None);
        }
        assert(a =~= b);
    } else if b.len() == 0 {
        lemma_lookup_at(a, a.len() - 1);
        assert(lookup(b, a[a.len() - 1].0) is None);
    } else {
        let ka = a.last().0;
        let kb = b.last().0;
        lemma_lookup_at(a, a.len() - 1);
        lemma_lookup_at(b, b.len() - 1);
        let j = lemma_lookup_some(b, ka);
        let i = lemma_lookup_some(a, kb);
        if ka != kb {
            assert(i < a.len() - 1);
            assert(j < b.len() - 1);
            assert(key_lt(a[i].0, a[a.len() - 1].0));
            assert(key_lt(b[j].0, b[b.len() - 1].0));
            lemma_key_lt_transitive(ka, kb, ka);
            lemma_key_lt_irreflexive(ka);
        }
        let fa = a.drop_last();
        let fb = b.drop_last();
        assert forall|x: int, y: int| 0 <= x < y < fa.len() implies key_lt(fa[x].0, fa[y].0) by {
            assert(fa[x] == a[x] && fa[y] == a[y]);
        }
        assert forall|x: int, y: int| 0 <= x < y < fb.len() implies key_lt(fb[x].0, fb[y].0) by {
            assert(fb[x] == b[x] && fb[y] == b[y]);
        }
        lemma_key_lt_irreflexive(ka);
        assert forall|x: int| 0 <= x < fa.len() implies (#[trigger] fa[x]).0 != ka by {
            assert(fa[x] == a[x]);
            assert(key_lt(a[x].0, a[a.len() - 1].0));
        }
        assert forall|x: int| 0 <= x < fb.len() implies (#[trigger] fb[x]).0 != ka by {
            assert(fb[x] == b[x]);
            assert(key_lt(b[x].0, b[b.len() - 1].0));
        }
        lemma_lookup_none(fa, ka);
        lemma_lookup_none(fb, ka);
        assert forall|key: Seq<char>| lookup(fa, key) == lookup(fb, key) by {
            assert(lookup(a, key) == lookup(b, key));
        }
        assert(entries_map(fa) =~= entries_map(fb));
        lemma_canonical_unique(fa, fb);
        assert(a =~= fa.push(a.last()));
        assert(b =~= fb.push(b.last()));
    }
}

/// Balances by account key.
///
/// The entries are held in the order of their keys, each key once: the value is well formed
/// when they are, and every function here keeps it so.
pub struct Balances {
    entries: Vec<(String, u64)>,
}

impl View for Balances {
    type V = Map<Seq<char>, u64>;

    open spec fn view(&self) -> Map<Seq<char>, u64> {
        entries_map(self.entries())
    }
}

impl Balances {
    /// The entries in the order of their keys.
    pub closed spec fn entries(&self) -> Seq<Entry> {
        Seq::new(self.entries@.len(), |i: int| (self.entries@[i].0@, self.entries@[i].1))
    }

    /// The entries are canonical.
    pub open spec fn wf(&self) -> bool {
        canonical(self.entries())
    }

    /// No balances.
    pub fn new() -> (balances: Balances)
        ensures
            balances.wf(),
            balances.entries() == Seq::<Entry>::empty(),
    {
        let balances = Balances { entries: Vec::new() };
        assert(balances.entries() =~= Seq::<Entry>::empty());
        balances
    }

    /// The number of entries.
    pub fn len(&self) -> (n: usize)
        ensures
            n == self.entries().len(),
    {
        self.entries.len()
    }

    /// The entry at `index`, counted in the order of keys.
    pub fn entry(&self, index: usize) -> (entry: (&str, u64))
        requires
            index < self.entries().len(),
        ensures
            entry.0@ == self.entries()[index as int].0,
            entry.1 == self.entries()[index as int].1,
    {
        (self.entries[index].0.as_str(), self.entries[index].1)
    }

    /// Where `key` belongs, and whether it is there.
    fn locate(&self, key: &str) -> (place: (usize, bool))
        requires
            self.wf(),
        ensures
            place.0 == rank(self.entries(), key@),
            place.1 == (place.0 < self.entries().len() && self.entries()[place.0 as int].0
                == key@),
    {
        let ghost s = self.entries();
        let mut i: usize = 0;
        while i < self.entries.len()
            invariant
                i <= self.entries@.len(),
                s == self.entries(),
                forall|j: int| 0 <= j < i ==> key_lt(#[trigger] s[j].0, key@),
            decreases self.entries@.len() - i,
        {
            let side = key_side(self.entries[i].0.as_str(), key);
            assert(s[i as int].0 == self.entries@[i as int].0@);
            match side {
                Side::Before => {},
                Side::Same => {
                    proof {
                        lemma_key_lt_irreflexive(key@);
                        lemma_rank_is(s, key@, i as int);
                    }
                    return (i, true);
                },
                Side::After => {
                    proof {
                        if key_lt(s[i as int].0, key@) {
                            lemma_key_lt_transitive(key@, s[i as int].0, key@);
                        }
                        lemma_key_lt_irreflexive(key@);
                        lemma_rank_is(s, key@, i as int);
                    }
                    return (i, false);
                },
            }
            i = i + 1;
        }
        proof {
            lemma_rank_is(s, key@, i as int);
        }
        (i, false)
    }

    /// The amount held for `key`, if any.
    pub fn get(&self, key: &str) -> (amount: Option<u64>)
        requires
            self.wf(),
        ensures
            amount == lookup(self.entries(), key@),
            amount == if self@.contains_key(key@) {
                Some(self@[key@])
            } else {
                None
            },
    {
        let (i, found) = self.locate(key);
        if found {
            proof {
                lemma_lookup_at(self.entries(), i as int);
            }
            Some(self.entries[i].1)
        } else {
            proof {
                lemma_rank_absent(self.entries(), key@);
                lemma_lookup_none(self.entries(), key@);
            }
            None
        }
    }

    /// Whether an amount is held for `key`.
    pub fn contains_key(&self, key: &str) -> (held: bool)
        requires
            self.wf(),
        ensures
            held == lookup(self.entries(), key@) is Some,
            held == self@.contains_key(key@),
    {
        self.get(key).is_some()
    }

    /// Sets the amount held for `key`, and returns the amount that was held for it.
    pub fn insert(&mut self, key: String, value: u64) -> (before: Option<u64>)
        requires
            old(self).wf(),
        ensures
            final(self).wf(),
            final(self).entries() == entries_insert(old(self).entries(), key@, value),
            final(self)@ == old(self)@.insert(key@, value),
            before == lookup(old(self).entries(), key@),
    {
        let ghost s = self.entries();
        let (i, found) = self.locate(key.as_str());
        proof {
            lemma_rank(s, key@);
            lemma_insert_canonical(s, key@, value);
            lemma_insert_map(s, key@, value);
            assert(s.len() == self.entries@.len());
        }
        if found {
            proof {
                lemma_lookup_at(s, i as int);
            }
            let before = self.entries[i].1;
            self.entries[i].1 = value;
            assert(self.entries() =~= entries_insert(s, key@, value));
            Some(before)
        } else {
            proof {
                lemma_rank_absent(s, key@);
                lemma_lookup_none(s, key@);
            }
            self.entries.insert(i, (key, value));
            assert(self.entries() =~= entries_insert(s, key@, value));
            None
        }
    }
}

} // verus!
