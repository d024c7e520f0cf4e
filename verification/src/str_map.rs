//! A small map keyed by strings that remembers the order in which its keys
//! arrived.

use vstd::prelude::*;
use crate::strings::str_eq;

verus! {

/// No key occurs twice among the entries.
pub open spec fn keys_distinct<V>(s: Seq<(Seq<char>, V)>) -> bool {
    forall|i: int, j: int| 0 <= i < j < s.len() ==> s[i].0 != s[j].0
}

/// Some entry has the key `k`.
pub open spec fn has_key<V>(s: Seq<(Seq<char>, V)>, k: Seq<char>) -> bool {
    exists|i: int| 0 <= i < s.len() && #[trigger] s[i].0 == k
}

/// The position of an entry with the key `k`.
pub open spec fn position_of<V>(s: Seq<(Seq<char>, V)>, k: Seq<char>) -> int {
    choose|i: int| 0 <= i < s.len() && #[trigger] s[i].0 == k
}

/// The entries after `v` is stored under `k`: in place where the key is
/// present, at the end where it is new.
pub open spec fn put<V>(s: Seq<(Seq<char>, V)>, k: Seq<char>, v: V) -> Seq<(Seq<char>, V)> {
    if has_key(s, k) {
        s.update(position_of(s, k), (k, v))
    } else {
        s.push((k, v))
    }
}

/// The finite map that a sequence of entries stands for.
pub open spec fn as_map<V>(s: Seq<(Seq<char>, V)>) -> Map<Seq<char>, V> {
    Map::new(|k: Seq<char>| has_key(s, k), |k: Seq<char>| s[position_of(s, k)].1)
}

/// With distinct keys, every entry is found in the map under its key.
pub proof fn lemma_as_map_entry<V>(s: Seq<(Seq<char>, V)>, i: int)
    requires
        keys_distinct(s),
        0 <= i < s.len(),
    ensures
        as_map(s).contains_key(s[i].0),
        as_map(s)[s[i].0] == s[i].1,
        position_of(s, s[i].0) == i,
{
    let k = s[i].0;
    assert(s[i].0 == k);
    let j = position_of(s, k);
    assert(0 <= j < s.len() && s[j].0 == k);
    if j != i {
        if j < i {
            assert(s[j].0 != s[i].0);
        } else {
            assert(s[i].0 != s[j].0);
        }
    }
}

/// Appending an entry under a new key inserts it into the map.
pub proof fn lemma_as_map_push<V>(s: Seq<(Seq<char>, V)>, k: Seq<char>, v: V)
    requires
        keys_distinct(s),
        !has_key(s, k),
    ensures
        keys_distinct(s.push((k, v))),
        as_map(s.push((k, v))) == as_map(s).insert(k, v),
{
    let t = s.push((k, v));
    assert forall|i: int, j: int| 0 <= i < j < t.len() implies t[i].0 != t[j].0 by {
        if j == s.len() {
            assert(s[i].0 != k);
        }
    }
    assert forall|q: Seq<char>| has_key(t, q) <==> (q == k || has_key(s, q)) by {
        if has_key(t, q) {
            let i = position_of(t, q);
            if i < s.len() {
                assert(s[i].0 == q);
            }
        }
        if has_key(s, q) {
            let i = position_of(s, q);
            assert(t[i].0 == q);
        }
        if q == k {
            assert(t[s.len() as int].0 == q);
        }
    }
    assert forall|q: Seq<char>| has_key(t, q) implies #[trigger] as_map(t)[q] == as_map(s).insert(
        k,
        v,
    )[q] by {
        let i = position_of(t, q);
        lemma_as_map_entry(t, i);
        if i < s.len() {
            assert(s[i].0 == q);
            lemma_as_map_entry(s, i);
        }
    }
    assert(as_map(t) =~= as_map(s).insert(k, v));
}

/// Replacing the value of an entry replaces it in the map.
pub proof fn lemma_as_map_update<V>(s: Seq<(Seq<char>, V)>, i: int, v: V)
    requires
        keys_distinct(s),
        0 <= i < s.len(),
    ensures
        keys_distinct(s.update(i, (s[i].0, v))),
        as_map(s.update(i, (s[i].0, v))) == as_map(s).insert(s[i].0, v),
{
    let k = s[i].0;
    let t = s.update(i, (k, v));
    assert forall|a: int, b: int| 0 <= a < b < t.len() implies t[a].0 != t[b].0 by {
        assert(t[a].0 == s[a].0);
        assert(t[b].0 == s[b].0);
    }
    assert forall|q: Seq<char>| has_key(t, q) <==> has_key(s, q) by {
        if has_key(t, q) {
            let j = position_of(t, q);
            assert(s[j].0 == q);
        }
        if has_key(s, q) {
            let j = position_of(s, q);
            assert(t[j].0 == q);
        }
    }
    assert(has_key(s, k)) by {
        assert(s[i].0 == k);
    }
    assert forall|q: Seq<char>| has_key(t, q) implies #[trigger] as_map(t)[q] == as_map(s).insert(
        k,
        v,
    )[q] by {
        let j = position_of(t, q);
        lemma_as_map_entry(t, j);
        assert(s[j].0 == q);
        lemma_as_map_entry(s, j);
    }
    assert(as_map(t) =~= as_map(s).insert(k, v));
}

/// Storing a value keeps the keys distinct and stores it in the map.
pub proof fn lemma_put<V>(s: Seq<(Seq<char>, V)>, k: Seq<char>, v: V)
    requires
        keys_distinct(s),
    ensures
        keys_distinct(put(s, k, v)),
        as_map(put(s, k, v)) == as_map(s).insert(k, v),
{
    if has_key(s, k) {
        let i = position_of(s, k);
        lemma_as_map_update(s, i, v);
    } else {
        lemma_as_map_push(s, k, v);
    }
}

/// The empty sequence stands for the empty map.
pub proof fn lemma_as_map_empty<V>()
    ensures
        as_map(Seq::<(Seq<char>, V)>::empty()) == Map::<Seq<char>, V>::empty(),
{
    assert(as_map(Seq::<(Seq<char>, V)>::empty()) =~= Map::<Seq<char>, V>::empty());
}

/// A map from strings to values. Its entries are kept in the order in which
/// their keys were first inserted, and no key occurs twice.
#[derive(Debug)]
pub struct StrMap<V> {
    entries: Vec<(String, V)>,
}

impl<V: Clone> Clone for StrMap<V> {
    /// A copy with the same keys in the same order, each value cloned.
    fn clone(&self) -> (m: Self)
        ensures
            m.entries().len() == self.entries().len(),
            forall|i: int|
                0 <= i < self.entries().len() ==> m.entries()[i].0 == self.entries()[i].0
                    && cloned(self.entries()[i].1, #[trigger] m.entries()[i].1),
    {
        proof {
            use_type_invariant(self);
        }
        let mut copy: Vec<(String, V)> = Vec::new();
        let mut i: usize = 0;
        while i < self.entries.len()
            invariant
                i <= self.entries@.len(),
                copy@.len() == i,
                forall|j: int| 0 <= j < i ==> (#[trigger] copy@[j]).0@ == self.entries@[j].0@,
                forall|j: int| 0 <= j < i ==> cloned(self.entries@[j].1, (#[trigger] copy@[j]).1),
            decreases self.entries@.len() - i,
        {
            let k = self.entries[i].0.clone();
            let v = self.entries[i].1.clone();
            assert(cloned(self.entries@[i as int].1, v));
            let ghost prev = copy@;
            copy.push((k, v));
            i = i + 1;
        }
        proof {
            let s = self.entries();
            let t = copy@.map_values(|e: (String, V)| (e.0@, e.1));
            assert forall|a: int, b: int| 0 <= a < b < t.len() implies t[a].0 != t[b].0 by {
                assert(s[a].0 != s[b].0);
            }
        }
        StrMap { entries: copy }
    }
}

impl<V> View for StrMap<V> {
    type V = Map<Seq<char>, V>;

    open spec fn view(&self) -> Map<Seq<char>, V> {
        as_map(self.entries())
    }
}

impl<V> StrMap<V> {
    /// The entries in order, each key as a sequence of characters.
    pub closed spec fn entries(&self) -> Seq<(Seq<char>, V)> {
        self.entries@.map_values(|e: (String, V)| (e.0@, e.1))
    }

    #[verifier::type_invariant]
    spec fn distinct(&self) -> bool {
        keys_distinct(self.entries())
    }

    /// An empty map.
    pub fn new() -> (m: Self)
        ensures
            m.entries() == Seq::<(Seq<char>, V)>::empty(),
            m@ == Map::<Seq<char>, V>::empty(),
    {
        let m = StrMap { entries: Vec::new() };
        proof {
            assert(m.entries() =~= Seq::<(Seq<char>, V)>::empty());
            lemma_as_map_empty::<V>();
        }
        m
    }

    /// The number of entries.
    pub fn len(&self) -> (n: usize)
        ensures
            n == self.entries().len(),
            keys_distinct(self.entries()),
    {
        proof {
            use_type_invariant(self);
        }
        self.entries.len()
    }

    /// Whether the map has no entry.
    pub fn is_empty(&self) -> (b: bool)
        ensures
            b == (self.entries().len() == 0),
            b == (self@ == Map::<Seq<char>, V>::empty()),
    {
        proof {
            use_type_invariant(self);
            if self.entries().len() == 0 {
                assert(self.entries() =~= Seq::<(Seq<char>, V)>::empty());
                lemma_as_map_empty::<V>();
            } else {
                lemma_as_map_entry(self.entries(), 0);
            }
        }
        self.entries.len() == 0
    }

    /// The position of the entry with the key `k`, if there is one.
    pub fn find(&self, k: &str) -> (r: Option<usize>)
        ensures
            keys_distinct(self.entries()),
            match r {
                Some(i) => i < self.entries().len() && self.entries()[i as int].0 == k@,
                None => !has_key(self.entries(), k@),
            },
            r is Some == self@.contains_key(k@),
    {
        proof {
            use_type_invariant(self);
        }
        let mut i: usize = 0;
        while i < self.entries.len()
            invariant
                i <= self.entries@.len(),
                keys_distinct(self.entries()),
                forall|j: int| 0 <= j < i ==> self.entries()[j].0 != k@,
            decreases self.entries@.len() - i,
        {
            if str_eq(self.entries[i].0.as_str(), k) {
                proof {
                    lemma_as_map_entry(self.entries(), i as int);
                }
                return Some(i);
            }
            i = i + 1;
        }
        None
    }

    /// Whether the map has the key `k`.
    pub fn contains_key(&self, k: &str) -> (b: bool)
        ensures
            b == self@.contains_key(k@),
    {
        self.find(k).is_some()
    }

    /// The value stored under `k`, if there is one.
    pub fn get(&self, k: &str) -> (r: Option<&V>)
        ensures
            match r {
                Some(v) => self@.contains_key(k@) && *v == self@[k@],
                None => !self@.contains_key(k@),
            },
    {
        match self.find(k) {
            Some(i) => {
                proof {
                    lemma_as_map_entry(self.entries(), i as int);
                }
                Some(&self.entries[i].1)
            },
            None => None,
        }
    }

    /// The key of the entry at position `i`.
    pub fn key_at(&self, i: usize) -> (k: &String)
        requires
            i < self.entries().len(),
        ensures
            k@ == self.entries()[i as int].0,
            self@.contains_key(k@),
    {
        proof {
            use_type_invariant(self);
            lemma_as_map_entry(self.entries(), i as int);
        }
        &self.entries[i].0
    }

    /// The value of the entry at position `i`.
    pub fn value_at(&self, i: usize) -> (v: &V)
        requires
            i < self.entries().len(),
        ensures
            *v == self.entries()[i as int].1,
            *v == self@[self.entries()[i as int].0],
    {
        proof {
            use_type_invariant(self);
            lemma_as_map_entry(self.entries(), i as int);
        }
        &self.entries[i].1
    }

    /// Puts `v` in place of the value at position `i` and hands the old value
    /// back.
    pub fn replace_at(&mut self, i: usize, v: V) -> (prev: V)
        requires
            i < old(self).entries().len(),
        ensures
            prev == old(self).entries()[i as int].1,
            final(self).entries() == old(self).entries().update(
                i as int,
                (old(self).entries()[i as int].0, v),
            ),
            final(self)@ == old(self)@.insert(old(self).entries()[i as int].0, v),
    {
        proof {
            use_type_invariant(&*self);
            lemma_as_map_update(self.entries(), i as int, v);
        }
        let mut v = v;
        let ghost before = self.entries();
        let mut taken: Vec<(String, V)> = Vec::new();
        proof {
            assert(taken@.map_values(|e: (String, V)| (e.0@, e.1)) =~= Seq::<
                (Seq<char>, V),
            >::empty());
        }
        std::mem::swap(&mut self.entries, &mut taken);
        std::mem::swap(&mut taken[i].1, &mut v);
        proof {
            assert(taken@.map_values(|e: (String, V)| (e.0@, e.1)) =~= before.update(
                i as int,
                (before[i as int].0, taken@[i as int].1),
            ));
        }
        self.entries = taken;
        v
    }

    /// Stores `v` under `k`: in place where the key is present, at the end
    /// where it is new.
    pub fn insert(&mut self, k: String, v: V)
        ensures
            final(self)@ == old(self)@.insert(k@, v),
            final(self).entries() == put(old(self).entries(), k@, v),
    {
        match self.find(k.as_str()) {
            Some(i) => {
                proof {
                    lemma_as_map_entry(self.entries(), i as int);
                }
                let _ = self.replace_at(i, v);
            },
            None => {
                proof {
                    lemma_as_map_push(self.entries(), k@, v);
                }
                let ghost before = self.entries();
                let mut grown: Vec<(String, V)> = Vec::new();
                proof {
                    assert(grown@.map_values(|e: (String, V)| (e.0@, e.1)) =~= Seq::<
                        (Seq<char>, V),
                    >::empty());
                }
                std::mem::swap(&mut self.entries, &mut grown);
                grown.push((k, v));
                proof {
                    assert(grown@.map_values(|e: (String, V)| (e.0@, e.1)) =~= before.push(
                        (k@, v),
                    ));
                }
                self.entries = grown;
            },
        }
    }
}

} // verus!
