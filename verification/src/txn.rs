//! Running the operations of a transaction straight against a store, each
//! write taking effect as it comes.

use vstd::prelude::*;
use std::collections::HashMap;
use crate::message::{lemma_names_differ, ops_view, Name, Op};
use crate::strings::str_eq;

verus! {

broadcast use vstd::std_specs::hash::group_hash_axioms;

/// A store: the value of each key that was written.
pub type Store = Map<u64, Option<u64>>;

/// An operation with its name as a sequence of characters.
pub type OpView = (Name, u64, Option<u64>);

/// The value of `key` in the store; none where the key was never written or
/// was written empty.
pub open spec fn store_get(store: Store, key: u64) -> Option<u64> {
    if store.contains_key(key) {
        store[key]
    } else {
        None
    }
}

/// The store after one operation: a write stores its value, anything else
/// changes nothing.
pub open spec fn store_after(store: Store, op: OpView) -> Store {
    if op.0 == "w"@ {
        store.insert(op.1, op.2)
    } else {
        store
    }
}

/// What is reported of one operation: a read with the value it observed, a
/// write as it was given, and nothing of any other operation.
pub open spec fn reported(store: Store, op: OpView) -> Seq<OpView> {
    if op.0 == "r"@ {
        seq![(op.0, op.1, store_get(store, op.1))]
    } else if op.0 == "w"@ {
        seq![op]
    } else {
        Seq::empty()
    }
}

/// The store after the operations have run, one after the other.
pub open spec fn run_store(store: Store, ops: Seq<OpView>) -> Store
    decreases ops.len(),
{
    if ops.len() == 0 {
        store
    } else {
        store_after(run_store(store, ops.drop_last()), ops.last())
    }
}

/// What is reported of the operations: of each what it did to the store that
/// the operations before it left.
pub open spec fn run_results(store: Store, ops: Seq<OpView>) -> Seq<OpView>
    decreases ops.len(),
{
    if ops.len() == 0 {
        Seq::empty()
    } else {
        run_results(store, ops.drop_last()) + reported(run_store(store, ops.drop_last()), ops.last())
    }
}

/// The writes among the operations, in their order.
pub open spec fn writes_only(ops: Seq<OpView>) -> Seq<OpView>
    decreases ops.len(),
{
    if ops.len() == 0 {
        Seq::empty()
    } else if ops.last().0 == "w"@ {
        writes_only(ops.drop_last()).push(ops.last())
    } else {
        writes_only(ops.drop_last())
    }
}

/// The value that the last write to `key` among the operations wrote, if
/// there is such a write.
pub open spec fn last_write(ops: Seq<OpView>, key: u64) -> Option<Option<u64>>
    decreases ops.len(),
{
    if ops.len() == 0 {
        None
    } else if ops.last().0 == "w"@ && ops.last().1 == key {
        Some(ops.last().2)
    } else {
        last_write(ops.drop_last(), key)
    }
}

/// The last writer wins: after the operations have run, a key holds what the
/// last write to it wrote, and a key that none wrote to holds what it held.
pub proof fn lemma_last_writer_wins(store: Store, ops: Seq<OpView>, key: u64)
    ensures
        store_get(run_store(store, ops), key) == match last_write(ops, key) {
            Some(v) => v,
            None => store_get(store, key),
        },
    decreases ops.len(),
{
    if ops.len() > 0 {
        lemma_last_writer_wins(store, ops.drop_last(), key);
    }
}

/// A read reports what the operations before it in the same transaction
/// left in the store: the value of the last write to its key, or where there
/// is none the value that the store held before.
pub proof fn lemma_read_observes(store: Store, ops: Seq<OpView>, key: u64)
    ensures
        run_results(store, ops.push(("r"@, key, None))).last() == (
            "r"@,
            key,
            match last_write(ops, key) {
                Some(v) => v,
                None => store_get(store, key),
            },
        ),
{
    let all = ops.push(("r"@, key, None));
    assert(all.drop_last() =~= ops);
    lemma_last_writer_wins(store, ops, key);
    lemma_names_differ();
}

/// A store that takes only the writes of a transaction ends up as one that
/// runs the whole transaction.
pub proof fn lemma_writes_suffice(store: Store, ops: Seq<OpView>)
    ensures
        run_store(store, writes_only(ops)) == run_store(store, ops),
    decreases ops.len(),
{
    if ops.len() > 0 {
        lemma_writes_suffice(store, ops.drop_last());
        if ops.last().0 == "w"@ {
            assert(writes_only(ops).drop_last() =~= writes_only(ops.drop_last()));
        }
    }
}

/// Runs the operations against the store and returns what is to be reported
/// of them.
pub fn process_ops(entries: &mut HashMap<u64, Option<u64>>, txn: Vec<Op>) -> (results: Vec<Op>)
    ensures
        final(entries)@ == run_store(old(entries)@, ops_view(txn@)),
        ops_view(results@) == run_results(old(entries)@, ops_view(txn@)),
{
    let mut results: Vec<Op> = Vec::new();
    let mut i: usize = 0;
    proof {
        lemma_names_differ();
        assert(ops_view(txn@).take(0) =~= Seq::empty());
        assert(ops_view(results@) =~= Seq::empty());
    }
    while i < txn.len()
        invariant
            i <= txn@.len(),
            entries@ == run_store(old(entries)@, ops_view(txn@).take(i as int)),
            ops_view(results@) == run_results(old(entries)@, ops_view(txn@).take(i as int)),
        decreases txn@.len() - i,
    {
        proof {
            lemma_names_differ();
            let all = ops_view(txn@);
            assert(all.take(i + 1).drop_last() =~= all.take(i as int));
            assert(all.take(i + 1).last() == (txn@[i as int].0@, txn@[i as int].1, txn@[i as int].2));
        }
        let key = txn[i].1;
        let ghost before = results@;
        if str_eq(txn[i].0.as_str(), "r") {
            let val = match entries.get(&key) {
                Some(v) => *v,
                None => None,
            };
            results.push((txn[i].0.clone(), key, val));
            proof {
                assert(ops_view(results@) =~= ops_view(before) + seq![(txn@[i as int].0@, key, val)]);
            }
        } else if str_eq(txn[i].0.as_str(), "w") {
            let val = txn[i].2;
            entries.insert(key, val);
            results.push((txn[i].0.clone(), key, val));
            proof {
                assert(ops_view(results@) =~= ops_view(before) + seq![(txn@[i as int].0@, key, val)]);
            }
        } else {
            proof {
                assert(ops_view(results@) =~= ops_view(before) + Seq::empty());
            }
        }
        i = i + 1;
    }
    proof {
        assert(ops_view(txn@).take(txn@.len() as int) =~= ops_view(txn@));
    }
    results
}

/// The writes among the operations, in their order.
pub fn keep_writes(txn: &Vec<Op>) -> (writes: Vec<Op>)
    ensures
        ops_view(writes@) == writes_only(ops_view(txn@)),
{
    let mut writes: Vec<Op> = Vec::new();
    let mut i: usize = 0;
    proof {
        assert(ops_view(txn@).take(0) =~= Seq::empty());
        assert(ops_view(writes@) =~= Seq::empty());
    }
    while i < txn.len()
        invariant
            i <= txn@.len(),
            ops_view(writes@) == writes_only(ops_view(txn@).take(i as int)),
        decreases txn@.len() - i,
    {
        proof {
            let all = ops_view(txn@);
            assert(all.take(i + 1).drop_last() =~= all.take(i as int));
            assert(all.take(i + 1).last() == (txn@[i as int].0@, txn@[i as int].1, txn@[i as int].2));
        }
        if str_eq(txn[i].0.as_str(), "w") {
            let ghost before = writes@;
            writes.push((txn[i].0.clone(), txn[i].1, txn[i].2));
            proof {
                assert(ops_view(writes@) =~= ops_view(before).push(
                    (txn@[i as int].0@, txn@[i as int].1, txn@[i as int].2),
                ));
            }
        }
        i = i + 1;
    }
    proof {
        assert(ops_view(txn@).take(txn@.len() as int) =~= ops_view(txn@));
    }
    writes
}

/// A copy of the operations.
pub fn clone_ops(txn: &Vec<Op>) -> (copy: Vec<Op>)
    ensures
        ops_view(copy@) == ops_view(txn@),
{
    let mut copy: Vec<Op> = Vec::new();
    let mut i: usize = 0;
    while i < txn.len()
        invariant
            i <= txn@.len(),
            ops_view(copy@) == ops_view(txn@).take(i as int),
        decreases txn@.len() - i,
    {
        let ghost before = copy@;
        copy.push((txn[i].0.clone(), txn[i].1, txn[i].2));
        proof {
            assert(ops_view(copy@) =~= ops_view(before).push(ops_view(txn@)[i as int]));
            assert(ops_view(txn@).take(i + 1) =~= ops_view(txn@).take(i as int).push(
                ops_view(txn@)[i as int],
            ));
        }
        i = i + 1;
    }
    proof {
        assert(ops_view(txn@).take(txn@.len() as int) =~= ops_view(txn@));
    }
    copy
}

} // verus!
