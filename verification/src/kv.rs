//! The store of a grow-only counter: one versioned entry for each node.

use vstd::prelude::*;
use crate::message::{names, Name};
use crate::str_map::{as_map, has_key, keys_distinct, lemma_as_map_entry, lemma_put, position_of, put, StrMap};


verus! {

/// What one node has added so far, and how many times it has added.
#[derive(Clone, Copy, Debug)]
pub struct Counter {
    pub version: u64,
    pub value: u64,
}

impl Default for Counter {
    fn default() -> (c: Counter)
        ensures
            c == (Counter { version: 0, value: 0 }),
    {
        Counter { version: 0, value: 0 }
    }
}

/// The counters of a cluster: for each node, in the order in which the nodes
/// became known, what the node has added.
pub type Counters = Seq<(Name, Counter)>;

/// The sum of what all nodes have added.
pub open spec fn total(s: Counters) -> nat
    decreases s.len(),
{
    if s.len() == 0 {
        0
    } else {
        total(s.drop_last()) + s.last().1.value as nat
    }
}

/// The counters of a cluster whose nodes have added nothing yet.
pub open spec fn fresh(ids: Seq<Name>) -> Counters
    decreases ids.len(),
{
    if ids.len() == 0 {
        Seq::empty()
    } else {
        put(fresh(ids.drop_last()), ids.last(), Counter { version: 0, value: 0 })
    }
}

/// The entry of `id` after that node has added `delta`: the value grows by
/// `delta` and the version by one. A node that was not known starts at
/// version 1.
pub open spec fn bumped(s: Counters, id: Name, delta: u64) -> Counter {
    if has_key(s, id) {
        let c = s[position_of(s, id)].1;
        Counter { version: (c.version + 1) as u64, value: (c.value + delta) as u64 }
    } else {
        Counter { version: 1, value: delta }
    }
}

/// The counters after the node `id` has added `delta`.
pub open spec fn added(s: Counters, id: Name, delta: u64) -> Counters {
    put(s, id, bumped(s, id, delta))
}

/// Whether the entry of `id` has room for `delta` more.
pub open spec fn can_add(s: Counters, id: Name, delta: u64) -> bool {
    has_key(s, id) ==> s[position_of(s, id)].1.value + delta <= u64::MAX && s[position_of(s, id)].1.version
        < u64::MAX
}

/// The counters after one entry has arrived from a peer: it is kept if the
/// node was not known or if its version is strictly greater than the one
/// known, and dropped otherwise.
pub open spec fn merged_one(s: Counters, id: Name, c: Counter) -> Counters {
    if !has_key(s, id) || c.version > s[position_of(s, id)].1.version {
        put(s, id, c)
    } else {
        s
    }
}

/// The counters after the entries of a peer have arrived, one after the
/// other.
pub open spec fn merged(s: Counters, incoming: Counters) -> Counters
    decreases incoming.len(),
{
    if incoming.len() == 0 {
        s
    } else {
        merged_one(merged(s, incoming.drop_last()), incoming.last().0, incoming.last().1)
    }
}

/// Replacing one entry changes the sum by the difference of the values.
pub proof fn lemma_total_update(s: Counters, i: int, e: (Name, Counter))
    requires
        0 <= i < s.len(),
    ensures
        total(s.update(i, e)) + s[i].1.value == total(s) + e.1.value,
    decreases s.len(),
{
    if i == s.len() - 1 {
        assert(s.update(i, e).drop_last() =~= s.drop_last());
    } else {
        lemma_total_update(s.drop_last(), i, e);
        assert(s.update(i, e).drop_last() =~= s.drop_last().update(i, e));
    }
}

/// An addition raises the sum by exactly what was added.
pub proof fn lemma_add_total(s: Counters, id: Name, delta: u64)
    requires
        can_add(s, id, delta),
    ensures
        total(added(s, id, delta)) == total(s) + delta,
{
    if has_key(s, id) {
        lemma_total_update(s, position_of(s, id), (id, bumped(s, id, delta)));
    } else {
        assert(added(s, id, delta).drop_last() =~= s);
    }
}

/// An entry that arrives from a peer never makes a node unknown again and
/// never lowers the version known of a node.
pub proof fn lemma_merged_one_monotone(s: Counters, id: Name, c: Counter, k: Name)
    requires
        keys_distinct(s),
        has_key(s, k),
    ensures
        keys_distinct(merged_one(s, id, c)),
        has_key(merged_one(s, id, c), k),
        as_map(merged_one(s, id, c))[k].version >= as_map(s)[k].version,
{
    lemma_put(s, id, c);
    let i = position_of(s, k);
    lemma_as_map_entry(s, i);
    let m = merged_one(s, id, c);
    if m != s {
        assert(as_map(m) == as_map(s).insert(id, c));
        assert(as_map(m).contains_key(k));
    }
}

/// The entries of a peer never make a node unknown again and never lower the
/// version known of a node.
pub proof fn lemma_merged_monotone(s: Counters, incoming: Counters, k: Name)
    requires
        keys_distinct(s),
        has_key(s, k),
    ensures
        keys_distinct(merged(s, incoming)),
        has_key(merged(s, incoming), k),
        as_map(merged(s, incoming))[k].version >= as_map(s)[k].version,
    decreases incoming.len(),
{
    if incoming.len() > 0 {
        lemma_merged_monotone(s, incoming.drop_last(), k);
        lemma_merged_one_monotone(
            merged(s, incoming.drop_last()),
            incoming.last().0,
            incoming.last().1,
            k,
        );
    }
}

/// After the entries of a peer have arrived, every node that the peer spoke
/// of is known, under a version no less than the one the peer gave: together
/// with the versions never falling, two nodes that have taken each other's
/// counters know the same versions.
pub proof fn lemma_merged_covers(s: Counters, incoming: Counters, i: int)
    requires
        keys_distinct(s),
        0 <= i < incoming.len(),
    ensures
        keys_distinct(merged(s, incoming)),
        has_key(merged(s, incoming), incoming[i].0),
        as_map(merged(s, incoming))[incoming[i].0].version >= incoming[i].1.version,
    decreases incoming.len(),
{
    let front = incoming.drop_last();
    let e = incoming.last();
    let k = incoming[i].0;
    lemma_merged_distinct(s, front);
    let m = merged(s, front);
    lemma_put(m, e.0, e.1);
    if i == incoming.len() - 1 {
        if has_key(m, e.0) {
            lemma_as_map_entry(m, position_of(m, e.0));
        }
        assert(as_map(merged(s, incoming)).contains_key(k));
    } else {
        assert(front[i] == incoming[i]);
        lemma_merged_covers(s, front, i);
        lemma_merged_one_monotone(m, e.0, e.1, k);
    }
}

/// The entries of a peer leave every node known once.
pub proof fn lemma_merged_distinct(s: Counters, incoming: Counters)
    requires
        keys_distinct(s),
    ensures
        keys_distinct(merged(s, incoming)),
    decreases incoming.len(),
{
    if incoming.len() > 0 {
        lemma_merged_distinct(s, incoming.drop_last());
        lemma_put(merged(s, incoming.drop_last()), incoming.last().0, incoming.last().1);
    }
}

/// Entries that arrive leave alone what is known of a node that none of them
/// speaks of.
pub proof fn lemma_merged_untouched(s: Counters, incoming: Counters, k: Name)
    requires
        keys_distinct(s),
        forall|i: int| 0 <= i < incoming.len() ==> (#[trigger] incoming[i]).0 != k,
    ensures
        keys_distinct(merged(s, incoming)),
        has_key(merged(s, incoming), k) == has_key(s, k),
        has_key(s, k) ==> as_map(merged(s, incoming))[k] == as_map(s)[k],
    decreases incoming.len(),
{
    if incoming.len() > 0 {
        let front = incoming.drop_last();
        assert forall|i: int| 0 <= i < front.len() implies (#[trigger] front[i]).0 != k by {
            assert(front[i] == incoming[i]);
        }
        lemma_merged_untouched(s, front, k);
        let m = merged(s, front);
        let e = incoming.last();
        assert(e == incoming[incoming.len() - 1]);
        lemma_put(m, e.0, e.1);
        assert(as_map(m).contains_key(k) == has_key(m, k));
        assert(as_map(put(m, e.0, e.1)).contains_key(k) == has_key(put(m, e.0, e.1), k));
    }
}

/// No entry of `incoming` that would replace a known entry has a smaller
/// value than the entry it replaces: what holds of entries that came, by
/// whatever way, from the node that they speak of.
pub open spec fn never_lower(s: Counters, incoming: Counters) -> bool {
    forall|i: int|
        0 <= i < incoming.len() && has_key(s, (#[trigger] incoming[i]).0) && incoming[i].1.version
            > as_map(s)[incoming[i].0].version ==> incoming[i].1.value >= as_map(s)[incoming[i].0].value
}

/// Entries that never lower a value never lower the sum: a read reports at
/// least what it reported before they arrived.
pub proof fn lemma_merged_total(s: Counters, incoming: Counters)
    requires
        keys_distinct(s),
        keys_distinct(incoming),
        never_lower(s, incoming),
    ensures
        keys_distinct(merged(s, incoming)),
        total(merged(s, incoming)) >= total(s),
    decreases incoming.len(),
{
    if incoming.len() > 0 {
        let front = incoming.drop_last();
        let e = incoming.last();
        let last = incoming.len() - 1;
        assert(e == incoming[last]);
        assert forall|i: int, j: int| 0 <= i < j < front.len() implies front[i].0 != front[j].0 by {
            assert(front[i] == incoming[i] && front[j] == incoming[j]);
        }
        assert forall|i: int|
            0 <= i < front.len() && has_key(s, (#[trigger] front[i]).0) && front[i].1.version > as_map(
                s,
            )[front[i].0].version implies front[i].1.value >= as_map(s)[front[i].0].value by {
            assert(front[i] == incoming[i]);
        }
        lemma_merged_total(s, front);
        assert forall|i: int| 0 <= i < front.len() implies (#[trigger] front[i]).0 != e.0 by {
            assert(front[i] == incoming[i]);
            assert(incoming[i].0 != incoming[last].0);
        }
        lemma_merged_untouched(s, front, e.0);
        let m = merged(s, front);
        lemma_put(m, e.0, e.1);
        if has_key(m, e.0) {
            let at = position_of(m, e.0);
            lemma_as_map_entry(m, at);
            if e.1.version > m[at].1.version {
                lemma_total_update(m, at, (e.0, e.1));
            }
        } else {
            assert(put(m, e.0, e.1).drop_last() =~= m);
        }
    }
}

/// An addition never lowers the version of a node, and raises that of the
/// node that adds.
pub proof fn lemma_added_monotone(s: Counters, id: Name, delta: u64, k: Name)
    requires
        keys_distinct(s),
        has_key(s, k),
        can_add(s, id, delta),
    ensures
        keys_distinct(added(s, id, delta)),
        has_key(added(s, id, delta), k),
        as_map(added(s, id, delta))[k].version >= as_map(s)[k].version,
        as_map(added(s, id, delta))[k].value >= as_map(s)[k].value,
        as_map(added(s, id, delta))[id].version > 0,
{
    lemma_put(s, id, bumped(s, id, delta));
    lemma_as_map_entry(s, position_of(s, k));
    if has_key(s, id) {
        lemma_as_map_entry(s, position_of(s, id));
    }
    assert(as_map(added(s, id, delta)).contains_key(k));
}

/// The counters of a cluster, as one node knows them.
#[derive(Clone, Debug)]
pub struct KV {
    pub counters: StrMap<Counter>,
}

impl View for KV {
    type V = Counters;

    open spec fn view(&self) -> Counters {
        self.counters.entries()
    }
}

impl Default for KV {
    fn default() -> (kv: Self)
        ensures
            kv@ == Seq::<(Name, Counter)>::empty(),
    {
        KV::new()
    }
}

impl KV {
    /// No node is known.
    pub fn new() -> (kv: Self)
        ensures
            kv@ == Seq::<(Name, Counter)>::empty(),
    {
        KV { counters: StrMap::new() }
    }

    /// Forgets everything and starts every node of the cluster at zero.
    pub fn init(&mut self, node_ids: Vec<String>)
        ensures
            final(self)@ == fresh(names(node_ids@)),
    {
        self.counters = StrMap::new();
        let mut i: usize = 0;
        proof {
            assert(names(node_ids@).take(0) =~= Seq::empty());
        }
        while i < node_ids.len()
            invariant
                i <= node_ids@.len(),
                self@ == fresh(names(node_ids@).take(i as int)),
            decreases node_ids@.len() - i,
        {
            proof {
                let all = names(node_ids@);
                assert(all.take(i + 1).drop_last() =~= all.take(i as int));
                assert(all.take(i + 1).last() == node_ids@[i as int]@);
            }
            self.counters.insert(node_ids[i].clone(), Counter::default());
            i = i + 1;
        }
        proof {
            assert(names(node_ids@).take(node_ids@.len() as int) =~= names(node_ids@));
        }
    }

    /// Tells whether the entry of `node_id` has room for `delta` more.
    pub fn has_room(&self, node_id: &str, delta: u64) -> (b: bool)
        ensures
            b == can_add(self@, node_id@, delta),
    {
        match self.counters.find(node_id) {
            Some(i) => {
                proof {
                    lemma_as_map_entry(self.counters.entries(), i as int);
                }
                let c = self.counters.value_at(i);
                delta <= u64::MAX - c.value && c.version < u64::MAX
            },
            None => true,
        }
    }

    /// Adds `delta` to what the node `node_id` has added.
    pub fn add(&mut self, node_id: String, delta: u64)
        requires
            can_add(old(self)@, node_id@, delta),
        ensures
            final(self)@ == added(old(self)@, node_id@, delta),
    {
        match self.counters.find(node_id.as_str()) {
            Some(i) => {
                proof {
                    lemma_as_map_entry(self.counters.entries(), i as int);
                }
                let c = *self.counters.value_at(i);
                let _ = self.counters.replace_at(
                    i,
                    Counter { version: c.version + 1, value: c.value + delta },
                );
            },
            None => {
                self.counters.insert(node_id, Counter { version: 1, value: delta });
            },
        }
    }

    /// Tells whether the sum of the counters fits the type of the answer.
    pub fn can_read(&self) -> (b: bool)
        ensures
            b == (total(self@) <= u64::MAX),
    {
        let n = self.counters.len();
        let mut sum: u64 = 0;
        let mut i: usize = 0;
        proof {
            assert(self@.take(0) =~= Seq::empty());
        }
        while i < n
            invariant
                i <= n,
                n == self@.len(),
                sum == total(self@.take(i as int)),
            decreases n - i,
        {
            proof {
                assert(self@.take(i + 1).drop_last() =~= self@.take(i as int));
            }
            let v = self.counters.value_at(i).value;
            if v > u64::MAX - sum {
                proof {
                    lemma_total_prefix(self@, i + 1);
                }
                return false;
            }
            sum = sum + v;
            i = i + 1;
        }
        proof {
            assert(self@.take(n as int) =~= self@);
        }
        true
    }

    /// The sum of what all nodes have added.
    pub fn read(&self) -> (sum: u64)
        requires
            total(self@) <= u64::MAX,
        ensures
            sum == total(self@),
    {
        let n = self.counters.len();
        let mut sum: u64 = 0;
        let mut i: usize = 0;
        proof {
            assert(self@.take(0) =~= Seq::empty());
        }
        while i < n
            invariant
                i <= n,
                n == self@.len(),
                sum == total(self@.take(i as int)),
                total(self@) <= u64::MAX,
            decreases n - i,
        {
            proof {
                assert(self@.take(i + 1).drop_last() =~= self@.take(i as int));
                lemma_total_prefix(self@, i + 1);
            }
            sum = sum + self.counters.value_at(i).value;
            i = i + 1;
        }
        proof {
            assert(self@.take(n as int) =~= self@);
        }
        sum
    }

    /// Takes the entries that arrived from a peer: for each node the entry
    /// with the strictly greater version stays.
    pub fn merge(&mut self, incoming: StrMap<Counter>)
        ensures
            final(self)@ == merged(old(self)@, incoming.entries()),
    {
        let n = incoming.len();
        let mut i: usize = 0;
        proof {
            assert(incoming.entries().take(0) =~= Seq::empty());
        }
        while i < n
            invariant
                i <= n,
                n == incoming.entries().len(),
                self@ == merged(old(self)@, incoming.entries().take(i as int)),
            decreases n - i,
        {
            proof {
                let all = incoming.entries();
                assert(all.take(i + 1).drop_last() =~= all.take(i as int));
                assert(all.take(i + 1).last() == all[i as int]);
            }
            let id = incoming.key_at(i);
            let c = *incoming.value_at(i);
            match self.counters.find(id.as_str()) {
                Some(at) => {
                    proof {
                        lemma_as_map_entry(self.counters.entries(), at as int);
                    }
                    if c.version > self.counters.value_at(at).version {
                        let _ = self.counters.replace_at(at, c);
                    }
                },
                None => {
                    self.counters.insert(id.clone(), c);
                },
            }
            i = i + 1;
        }
        proof {
            assert(incoming.entries().take(n as int) =~= incoming.entries());
        }
    }

    /// Whether no node is known.
    pub fn is_empty(&self) -> (b: bool)
        ensures
            b == (self@.len() == 0),
    {
        self.counters.is_empty()
    }
}

/// The sum of the first entries is no more than the sum of all.
pub proof fn lemma_total_prefix(s: Counters, i: int)
    requires
        0 <= i <= s.len(),
    ensures
        total(s.take(i)) <= total(s),
    decreases s.len() - i,
{
    if i < s.len() {
        lemma_total_prefix(s, i + 1);
        assert(s.take(i + 1).drop_last() =~= s.take(i));
    } else {
        assert(s.take(i) =~= s);
    }
}

} // verus!
