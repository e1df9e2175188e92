//! A map from strings, held as a list sorted by key.

use vstd::prelude::*;
use crate::order::{before, is_before};
use crate::order::{lemma_before_asymmetric, lemma_before_total, lemma_before_transitive};

verus! {

/// A map from strings to `V`.
#[derive(Debug)]
pub struct StringMap<V> {
    entries: Vec<(String, V)>,
}

/// The keys of `pairs` stand in strictly ascending order.
pub open spec fn ascending<V>(pairs: Seq<(Seq<char>, V)>) -> bool {
    forall|i: int, j: int|
        0 <= i < j < pairs.len() ==> before((#[trigger] pairs[i]).0, (#[trigger] pairs[j]).0)
}

/// The map that a list of pairs with distinct keys stands for.
pub open spec fn pairs_map<V>(pairs: Seq<(Seq<char>, V)>) -> Map<Seq<char>, V>
    decreases pairs.len(),
{
    if pairs.len() == 0 {
        Map::empty()
    } else {
        pairs_map(pairs.drop_last()).insert(pairs.last().0, pairs.last().1)
    }
}

/// A pair of an ascending list is in its map, and nothing else is.
pub proof fn lemma_pairs_map<V>(pairs: Seq<(Seq<char>, V)>)
    requires
        ascending(pairs),
    ensures
        forall|i: int|
            0 <= i < pairs.len() ==> pairs_map(pairs).contains_key((#[trigger] pairs[i]).0)
                && pairs_map(pairs)[pairs[i].0] == pairs[i].1,
        forall|k: Seq<char>| #[trigger]
            pairs_map(pairs).contains_key(k) ==> exists|i: int|
                0 <= i < pairs.len() && (#[trigger] pairs[i]).0 == k,
    decreases pairs.len(),
{
    if pairs.len() > 0 {
        let rest = pairs.drop_last();
        assert(ascending(rest)) by {
            assert forall|i: int, j: int| 0 <= i < j < rest.len() implies before(
                (#[trigger] rest[i]).0,
                (#[trigger] rest[j]).0,
            ) by {
                assert(rest[i] == pairs[i] && rest[j] == pairs[j]);
            }
        }
        lemma_pairs_map(rest);
        let last = pairs.last();
        assert forall|i: int| 0 <= i < pairs.len() implies pairs_map(pairs).contains_key(
            (#[trigger] pairs[i]).0,
        ) && pairs_map(pairs)[pairs[i].0] == pairs[i].1 by {
            if i < pairs.len() - 1 {
                assert(rest[i] == pairs[i]);
                assert(before(pairs[i].0, pairs[pairs.len() - 1].0));
                lemma_before_asymmetric(last.0, last.0);
            }
        }
        assert forall|k: Seq<char>| #[trigger] pairs_map(pairs).contains_key(k) implies exists|i: int|
            0 <= i < pairs.len() && (#[trigger] pairs[i]).0 == k by {
            if k == last.0 {
                assert(pairs[pairs.len() - 1].0 == k);
            } else {
                assert(pairs_map(rest).contains_key(k));
                let i = choose|i: int| 0 <= i < rest.len() && (#[trigger] rest[i]).0 == k;
                assert(pairs[i].0 == k);
            }
        }
    }
}

/// The map of an ascending list has as many entries as the list.
pub proof fn lemma_pairs_map_len<V>(pairs: Seq<(Seq<char>, V)>)
    requires
        ascending(pairs),
    ensures
        pairs_map(pairs).dom().finite(),
        pairs_map(pairs).len() == pairs.len(),
    decreases pairs.len(),
{
    if pairs.len() > 0 {
        let rest = pairs.drop_last();
        assert(ascending(rest)) by {
            assert forall|i: int, j: int| 0 <= i < j < rest.len() implies before(
                (#[trigger] rest[i]).0,
                (#[trigger] rest[j]).0,
            ) by {
                assert(rest[i] == pairs[i] && rest[j] == pairs[j]);
            }
        }
        lemma_pairs_map_len(rest);
        lemma_pairs_map(rest);
        let last = pairs.last().0;
        if pairs_map(rest).contains_key(last) {
            let i = choose|i: int| 0 <= i < rest.len() && (#[trigger] rest[i]).0 == last;
            assert(before(pairs[i].0, pairs[pairs.len() - 1].0));
            lemma_before_asymmetric(last, last);
        }
        assert(pairs_map(pairs).dom() =~= pairs_map(rest).dom().insert(last));
    }
}

impl<V> View for StringMap<V> {
    type V = Map<Seq<char>, V>;

    open spec fn view(&self) -> Map<Seq<char>, V> {
        pairs_map(self.pairs())
    }
}

impl<V> StringMap<V> {
    /// The entries in ascending order of their keys.
    pub closed spec fn pairs(&self) -> Seq<(Seq<char>, V)> {
        self.entries@.map_values(|e: (String, V)| (e.0@, e.1))
    }

    #[verifier::type_invariant]
    spec fn sorted(&self) -> bool {
        ascending(self.pairs())
    }

    /// The empty map.
    pub fn new() -> (m: Self)
        ensures
            m@ == Map::<Seq<char>, V>::empty(),
            m.pairs().len() == 0,
    {
        let m = StringMap { entries: Vec::new() };
        assert(m.pairs() =~= Seq::empty());
        m
    }

    /// Number of entries.
    pub fn len(&self) -> (n: usize)
        ensures
            n == self.pairs().len(),
            n == self@.len(),
            ascending(self.pairs()),
    {
        proof {
            use_type_invariant(self);
            lemma_pairs_map_len(self.pairs());
        }
        self.entries.len()
    }

    /// The entries in ascending order of their keys.
    pub fn into_pairs(self) -> (v: Vec<(String, V)>)
        ensures
            v@.map_values(|e: (String, V)| (e.0@, e.1)) == self.pairs(),
            ascending(self.pairs()),
    {
        proof {
            use_type_invariant(&self);
        }
        self.entries
    }

    /// The key of the entry at `i`.
    pub fn key_at(&self, i: usize) -> (k: &String)
        requires
            i < self.pairs().len(),
        ensures
            k@ == self.pairs()[i as int].0,
    {
        &self.entries[i].0
    }

    /// The value of the entry at `i`.
    pub fn value_at(&self, i: usize) -> (v: &V)
        requires
            i < self.pairs().len(),
        ensures
            *v == self.pairs()[i as int].1,
    {
        &self.entries[i].1
    }

    /// Where `key` stands, or where it would be put.
    fn search(&self, key: &str) -> (r: (usize, bool))
        ensures
            r.0 <= self.pairs().len(),
            ascending(self.pairs()),
            forall|j: int| 0 <= j < r.0 ==> before((#[trigger] self.pairs()[j]).0, key@),
            forall|j: int|
                r.0 <= j < self.pairs().len() ==> !before((#[trigger] self.pairs()[j]).0, key@),
            r.1 == (r.0 < self.pairs().len() && self.pairs()[r.0 as int].0 == key@),
            r.1 == self@.contains_key(key@),
            r.1 ==> self@[key@] == self.pairs()[r.0 as int].1,
    {
        proof {
            use_type_invariant(self);
            lemma_pairs_map(self.pairs());
        }
        let ghost p = self.pairs();
        let mut lo: usize = 0;
        let mut hi: usize = self.entries.len();
        while lo < hi
            invariant
                p == self.pairs(),
                ascending(p),
                lo <= hi <= p.len(),
                p.len() == self.entries@.len(),
                forall|j: int| 0 <= j < lo ==> before((#[trigger] p[j]).0, key@),
                forall|j: int| hi <= j < p.len() ==> !before((#[trigger] p[j]).0, key@),
            decreases hi - lo,
        {
            let mid: usize = lo + (hi - lo) / 2;
            let ghost m = p[mid as int];
            assert(m.0 == self.entries@[mid as int].0@);
            if is_before(self.entries[mid].0.as_str(), key) {
                assert forall|j: int| 0 <= j < mid + 1 implies before((#[trigger] p[j]).0, key@) by {
                    if j < mid {
                        lemma_before_transitive(p[j].0, m.0, key@);
                    }
                }
                lo = mid + 1;
            } else {
                assert forall|j: int| mid <= j < p.len() implies !before(
                    (#[trigger] p[j]).0,
                    key@,
                ) by {
                    if j > mid && before(p[j].0, key@) {
                        lemma_before_transitive(m.0, p[j].0, key@);
                    }
                }
                hi = mid;
            }
        }
        let found = lo < self.entries.len() && !is_before(key, self.entries[lo].0.as_str());
        proof {
            if lo < p.len() {
                assert(p[lo as int].0 == self.entries@[lo as int].0@);
                lemma_before_total(key@, p[lo as int].0);
                lemma_before_asymmetric(key@, key@);
            }
            if self@.contains_key(key@) {
                let i = choose|i: int| 0 <= i < p.len() && (#[trigger] p[i]).0 == key@;
                lemma_before_asymmetric(key@, key@);
                if lo < i {
                    assert(before(p[lo as int].0, p[i].0));
                }
            }
        }
        (lo, found)
    }

    /// The value at `key`.
    pub fn get(&self, key: &str) -> (r: Option<&V>)
        ensures
            match r {
                Some(v) => self@.contains_key(key@) && self@[key@] == *v,
                None => !self@.contains_key(key@),
            },
    {
        let (i, found) = self.search(key);
        if found {
            Some(&self.entries[i].1)
        } else {
            None
        }
    }

    /// Whether there is a value at `key`.
    pub fn contains_key(&self, key: &str) -> (b: bool)
        ensures
            b == self@.contains_key(key@),
    {
        self.search(key).1
    }

    /// Puts `value` at `key`, in place of what was there.
    pub fn insert(&mut self, key: String, value: V)
        ensures
            final(self)@ == old(self)@.insert(key@, value),
    {
        let (i, found) = self.search(key.as_str());
        let ghost p = self.pairs();
        let ghost k = key@;
        let mut entries: Vec<(String, V)> = Vec::new();
        std::mem::swap(&mut entries, &mut self.entries);
        if found {
            entries.remove(i);
        }
        entries.insert(i, (key, value));
        let ghost q = entries@.map_values(|e: (String, V)| (e.0@, e.1));
        proof {
            let rest = if found {
                p.remove(i as int)
            } else {
                p
            };
            assert(q =~= rest.insert(i as int, (k, value)));
            assert forall|a: int, b: int| 0 <= a < b < q.len() implies before(
                (#[trigger] q[a]).0,
                (#[trigger] q[b]).0,
            ) by {
                lemma_place(p, i as int, found, k, value, a, b);
            }
            lemma_pairs_map(p);
            lemma_pairs_map(q);
            assert(pairs_map(q) =~= pairs_map(p).insert(k, value)) by {
                lemma_placed(p, q, i as int, found, k, value);
            }
        }
        self.entries = entries;
    }

    /// Takes the value at `key` out of the map.
    pub fn remove(&mut self, key: &str) -> (r: Option<V>)
        ensures
            final(self)@ == old(self)@.remove(key@),
            match r {
                Some(v) => old(self)@.contains_key(key@) && old(self)@[key@] == v,
                None => !old(self)@.contains_key(key@),
            },
    {
        let (i, found) = self.search(key);
        if !found {
            assert(self@.remove(key@) =~= self@);
            return None;
        }
        let ghost p = self.pairs();
        let mut entries: Vec<(String, V)> = Vec::new();
        std::mem::swap(&mut entries, &mut self.entries);
        let (_, value) = entries.remove(i);
        let ghost q = entries@.map_values(|e: (String, V)| (e.0@, e.1));
        proof {
            assert(q =~= p.remove(i as int));
            assert forall|a: int, b: int| 0 <= a < b < q.len() implies before(
                (#[trigger] q[a]).0,
                (#[trigger] q[b]).0,
            ) by {
                let a2 = if a < i { a } else { a + 1 };
                let b2 = if b < i { b } else { b + 1 };
                assert(q[a] == p[a2] && q[b] == p[b2]);
            }
            lemma_pairs_map(p);
            lemma_pairs_map(q);
            lemma_taken(p, q, i as int);
        }
        self.entries = entries;
        Some(value)
    }

    /// The map that holds the given pairs; of two with one key the later counts.
    pub fn from_pairs(pairs: Vec<(String, V)>) -> (m: Self)
        ensures
            m@ == pairs_map(pairs@.map_values(|e: (String, V)| (e.0@, e.1))),
    {
        let mut m: StringMap<V> = StringMap::new();
        let ghost all = pairs@.map_values(|e: (String, V)| (e.0@, e.1));
        for pair in it: pairs
            invariant
                all == it.seq().map_values(|e: (String, V)| (e.0@, e.1)),
                m@ == pairs_map(all.take(it.index())),
        {
            proof {
                let n = it.index();
                assert(all.take(n + 1).drop_last() =~= all.take(n));
                assert(all.take(n + 1).last() == (pair.0@, pair.1));
            }
            m.insert(pair.0, pair.1);
        }
        assert(all.take(all.len() as int) =~= all);
        m
    }
}

impl<V: Clone> Clone for StringMap<V> {
    fn clone(&self) -> (m: Self)
        ensures
            m.pairs().len() == self.pairs().len(),
            forall|i: int|
                0 <= i < m.pairs().len() ==> (#[trigger] m.pairs()[i]).0 == self.pairs()[i].0
                    && cloned(self.pairs()[i].1, m.pairs()[i].1),
    {
        proof {
            use_type_invariant(self);
        }
        let mut entries: Vec<(String, V)> = Vec::new();
        let ghost p = self.pairs();
        for i in 0..self.entries.len()
            invariant
                p == self.pairs(),
                p.len() == self.entries@.len(),
                entries@.len() == i,
                forall|j: int|
                    0 <= j < i ==> (#[trigger] entries@[j]).0@ == p[j].0 && cloned(
                        p[j].1,
                        entries@[j].1,
                    ),
        {
            assert(p[i as int] == (self.entries@[i as int].0@, self.entries@[i as int].1));
            entries.push((self.entries[i].0.clone(), self.entries[i].1.clone()));
        }
        let ghost q = entries@.map_values(|e: (String, V)| (e.0@, e.1));
        proof {
            assert forall|a: int, b: int| 0 <= a < b < q.len() implies before(
                (#[trigger] q[a]).0,
                (#[trigger] q[b]).0,
            ) by {
                assert(q[a].0 == entries@[a].0@ && q[b].0 == entries@[b].0@);
                assert(before(p[a].0, p[b].0));
            }
        }
        let m = StringMap { entries };
        assert(m.pairs() == q);
        m
    }
}

/// Putting a key where the search left off keeps the list ascending.
proof fn lemma_place<V>(
    p: Seq<(Seq<char>, V)>,
    i: int,
    found: bool,
    k: Seq<char>,
    value: V,
    a: int,
    b: int,
)
    requires
        0 <= i <= p.len(),
        ascending(p),
        forall|j: int| 0 <= j < i ==> before((#[trigger] p[j]).0, k),
        forall|j: int| i <= j < p.len() ==> !before((#[trigger] p[j]).0, k),
        found == (i < p.len() && p[i].0 == k),
        0 <= a < b < (if found { p.remove(i) } else { p }).insert(i, (k, value)).len(),
    ensures
        ({
            let q = (if found { p.remove(i) } else { p }).insert(i, (k, value));
            before(q[a].0, q[b].0)
        }),
{
    let shift: int = if found { 0 } else { 1 };
    let q = (if found { p.remove(i) } else { p }).insert(i, (k, value));
    if a < i {
        assert(q[a] == p[a]);
    }
    if b < i {
        assert(q[b] == p[b]);
    }
    if a > i {
        assert(q[a] == p[a - shift]);
    }
    if b > i {
        assert(q[b] == p[b - shift]);
    }
    if a == i {
        let o = p[b - shift].0;
        lemma_before_total(k, o);
        if found {
            assert(before(p[i].0, p[b].0));
        }
    }
}

/// After the key is put there, the list's map has it, and the rest as it was.
proof fn lemma_placed<V>(
    p: Seq<(Seq<char>, V)>,
    q: Seq<(Seq<char>, V)>,
    i: int,
    found: bool,
    k: Seq<char>,
    value: V,
)
    requires
        0 <= i <= p.len(),
        ascending(p),
        ascending(q),
        found == (i < p.len() && p[i].0 == k),
        q == (if found { p.remove(i) } else { p }).insert(i, (k, value)),
    ensures
        pairs_map(q) == pairs_map(p).insert(k, value),
{
    lemma_pairs_map(p);
    lemma_pairs_map(q);
    let shift: int = if found { 0 } else { 1 };
    let goal = pairs_map(p).insert(k, value);
    assert(q[i] == (k, value));
    assert forall|key: Seq<char>| pairs_map(q).contains_key(key) == goal.contains_key(key) by {
        if pairs_map(q).contains_key(key) && key != k {
            let j = choose|j: int| 0 <= j < q.len() && (#[trigger] q[j]).0 == key;
            if j < i {
                assert(q[j] == p[j]);
            } else {
                assert(q[j] == p[j - shift]);
            }
        }
        if pairs_map(p).contains_key(key) && key != k {
            let j = choose|j: int| 0 <= j < p.len() && (#[trigger] p[j]).0 == key;
            if j < i {
                assert(q[j] == p[j]);
            } else {
                assert(q[j + shift] == p[j]);
            }
        }
    }
    assert forall|key: Seq<char>| pairs_map(q).contains_key(key) implies pairs_map(q)[key]
        == goal[key] by {
        let j = choose|j: int| 0 <= j < q.len() && (#[trigger] q[j]).0 == key;
        if key != k {
            if j < i {
                assert(q[j] == p[j]);
            } else {
                assert(q[j] == p[j - shift]);
            }
        }
    }
    assert(pairs_map(q) =~= goal);
}

/// Taking one pair out of an ascending list takes its key out of the map.
proof fn lemma_taken<V>(p: Seq<(Seq<char>, V)>, q: Seq<(Seq<char>, V)>, i: int)
    requires
        0 <= i < p.len(),
        ascending(p),
        ascending(q),
        q == p.remove(i),
    ensures
        pairs_map(q) == pairs_map(p).remove(p[i].0),
{
    lemma_pairs_map(p);
    lemma_pairs_map(q);
    let k = p[i].0;
    let goal = pairs_map(p).remove(k);
    assert forall|key: Seq<char>| pairs_map(q).contains_key(key) == goal.contains_key(key) by {
        if pairs_map(q).contains_key(key) {
            let j = choose|j: int| 0 <= j < q.len() && (#[trigger] q[j]).0 == key;
            let j2 = if j < i { j } else { j + 1 };
            assert(q[j] == p[j2]);
            lemma_before_asymmetric(k, k);
            if j2 < i {
                assert(before(p[j2].0, p[i].0));
            } else {
                assert(before(p[i].0, p[j2].0));
            }
        }
        if goal.contains_key(key) {
            let j = choose|j: int| 0 <= j < p.len() && (#[trigger] p[j]).0 == key;
            if j < i {
                assert(q[j] == p[j]);
            } else {
                assert(q[j - 1] == p[j]);
            }
        }
    }
    assert forall|key: Seq<char>| pairs_map(q).contains_key(key) implies pairs_map(q)[key]
        == goal[key] by {
        let j = choose|j: int| 0 <= j < q.len() && (#[trigger] q[j]).0 == key;
        assert(goal.contains_key(key));
        let j2 = if j < i { j } else { j + 1 };
        assert(q[j] == p[j2]);
    }
    assert(pairs_map(q) =~= goal);
}

} // verus!
