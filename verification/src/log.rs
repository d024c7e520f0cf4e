//! Append-only logs, one for each key, with the offset up to which each has
//! been committed.

use vstd::prelude::*;
use std::collections::HashMap;
use crate::message::{names, Name};
use crate::str_map::{has_key, keys_distinct, lemma_as_map_entry, position_of, StrMap};

verus! {

broadcast use vstd::std_specs::hash::group_hash_axioms;

/// What a log stands for.
pub struct LogView {
    /// The message at each offset that is present.
    pub entries: Map<u64, u64>,
    /// The offset that the next appended message gets.
    pub next_offset: u64,
    /// The highest offset committed so far.
    pub committed: u64,
}

/// The entries at `from`, `from + 1`, ... as far as no offset is missing.
pub open spec fn run_from(entries: Map<u64, u64>, from: u64) -> Seq<(u64, u64)>
    decreases u64::MAX - from,
{
    if !entries.contains_key(from) {
        Seq::empty()
    } else if from == u64::MAX {
        seq![(from, entries[from])]
    } else {
        seq![(from, entries[from])] + run_from(entries, (from + 1) as u64)
    }
}

/// The first entries of `run`, no more than the cap where one is given.
pub open spec fn capped(run: Seq<(u64, u64)>, max: Option<usize>) -> Seq<(u64, u64)> {
    match max {
        Some(limit) => if run.len() <= limit { run } else { run.take(limit as int) },
        None => run,
    }
}

impl LogView {
    /// The empty log.
    pub open spec fn empty() -> LogView {
        LogView { entries: Map::empty(), next_offset: 0, committed: 0 }
    }

    /// The log after `msg` is appended at the next offset.
    pub open spec fn append(self, msg: u64) -> LogView {
        LogView {
            entries: self.entries.insert(self.next_offset, msg),
            next_offset: (self.next_offset + 1) as u64,
            ..self
        }
    }

    /// The log after `msg` is put at `offset`.
    pub open spec fn insert_at(self, offset: u64, msg: u64) -> LogView {
        LogView { entries: self.entries.insert(offset, msg), ..self }
    }

    /// The log after a commit up to `offset`: the committed offset never
    /// falls.
    pub open spec fn commit(self, offset: u64) -> LogView {
        LogView { committed: if offset > self.committed { offset } else { self.committed }, ..self }
    }

    /// What a read from `from` returns.
    pub open spec fn read_from(self, from: u64, max: Option<usize>) -> Seq<(u64, u64)> {
        capped(run_from(self.entries, from), max)
    }

    /// Whether anything has been written to the log. A log that only holds a
    /// committed offset has not been written to.
    pub open spec fn written(self) -> bool {
        !self.entries.is_empty()
    }

    /// Every offset below `next_offset` is present and no other: what holds of
    /// a log that has only been appended to.
    pub open spec fn dense(self) -> bool {
        forall|o: u64| self.entries.contains_key(o) <==> o < self.next_offset
    }
}

/// The `i`-th entry of the run from `from` is the entry at offset `from + i`,
/// which is present.
pub proof fn lemma_run_index(entries: Map<u64, u64>, from: u64, i: int)
    requires
        0 <= i < run_from(entries, from).len(),
    ensures
        from + i <= u64::MAX,
        entries.contains_key((from + i) as u64),
        run_from(entries, from)[i] == ((from + i) as u64, entries[(from + i) as u64]),
    decreases i,
{
    if i > 0 {
        let next = (from + 1) as u64;
        assert(run_from(entries, from) == seq![(from, entries[from])] + run_from(entries, next));
        lemma_run_index(entries, next, i - 1);
    }
}

/// The run from `from` ends just before the first offset that is missing.
pub proof fn lemma_run_end(entries: Map<u64, u64>, from: u64)
    ensures
        from + run_from(entries, from).len() <= u64::MAX + 1,
        from + run_from(entries, from).len() <= u64::MAX ==> !entries.contains_key(
            (from + run_from(entries, from).len()) as u64,
        ),
    decreases u64::MAX - from,
{
    if entries.contains_key(from) && from < u64::MAX {
        lemma_run_end(entries, (from + 1) as u64);
    }
}

/// In a log that has only been appended to, a read without a cap returns
/// exactly the entries at or after `from`, by rising offset.
pub proof fn lemma_dense_read(log: LogView, from: u64)
    requires
        log.dense(),
    ensures
        log.read_from(from, None).len() == if from < log.next_offset {
            log.next_offset - from
        } else {
            0
        },
        forall|i: int|
            0 <= i < log.read_from(from, None).len() ==> (#[trigger] log.read_from(from, None)[i]) == (
                (from + i) as u64,
                log.entries[(from + i) as u64],
            ),
        forall|o: u64|
            log.entries.contains_key(o) && o >= from ==> log.read_from(from, None).contains(
                (o, log.entries[o]),
            ),
{
    let run = run_from(log.entries, from);
    lemma_run_end(log.entries, from);
    if run.len() > 0 {
        lemma_run_index(log.entries, from, run.len() - 1);
    }
    assert forall|i: int| 0 <= i < run.len() implies (#[trigger] run[i]) == (
        (from + i) as u64,
        log.entries[(from + i) as u64],
    ) by {
        lemma_run_index(log.entries, from, i);
    }
    assert forall|o: u64| log.entries.contains_key(o) && o >= from implies run.contains(
        (o, log.entries[o]),
    ) by {
        assert(run[o - from] == (o, log.entries[o]));
    }
}

/// One append-only log.
#[derive(Clone, Debug)]
pub struct Log {
    entries: HashMap<u64, u64>,
    next_offset: u64,
    committed: u64,
}

impl View for Log {
    type V = LogView;

    closed spec fn view(&self) -> LogView {
        LogView { entries: self.entries@, next_offset: self.next_offset, committed: self.committed }
    }
}

impl Default for Log {
    fn default() -> (log: Self)
        ensures
            log@ == LogView::empty(),
    {
        Log::new()
    }
}

impl Log {
    /// A log with no entry, whose first offset is 0.
    pub fn new() -> (log: Self)
        ensures
            log@ == LogView::empty(),
    {
        Log { entries: HashMap::new(), next_offset: 0, committed: 0 }
    }

    /// Appends `msg` and returns the offset it got.
    pub fn append(&mut self, msg: u64) -> (offset: u64)
        requires
            old(self)@.next_offset < u64::MAX,
        ensures
            offset == old(self)@.next_offset,
            final(self)@ == old(self)@.append(msg),
    {
        let offset = self.next_offset;
        self.entries.insert(offset, msg);
        self.next_offset = self.next_offset + 1;
        offset
    }

    /// Puts `msg` at `offset`, whatever the log holds around it.
    pub fn insert_at(&mut self, offset: u64, msg: u64)
        ensures
            final(self)@ == old(self)@.insert_at(offset, msg),
    {
        self.entries.insert(offset, msg);
    }

    /// The offset that the next appended message gets.
    pub fn next_offset(&self) -> (n: u64)
        ensures
            n == self@.next_offset,
    {
        self.next_offset
    }

    /// Whether anything has been written to the log.
    pub fn is_written(&self) -> (b: bool)
        ensures
            b == self@.written(),
    {
        !self.entries.is_empty()
    }

    /// The entries at `from_offset` and the offsets that follow it without a
    /// gap, by rising offset; with a cap, no more of them than the cap.
    pub fn read_from(&self, from_offset: u64, max: Option<usize>) -> (out: Vec<(u64, u64)>)
        ensures
            out@ == self@.read_from(from_offset, max),
    {
        let mut out: Vec<(u64, u64)> = Vec::new();
        let mut cur = from_offset;
        let ghost whole = run_from(self.entries@, from_offset);
        loop
            invariant_except_break
                out@ + run_from(self.entries@, cur) == whole,
            invariant
                whole == run_from(self.entries@, from_offset),
                out@ == whole.take(out@.len() as int),
                out@.len() <= whole.len(),
                match max {
                    Some(limit) => out@.len() <= limit,
                    None => true,
                },
            ensures
                out@ == capped(whole, max),
            decreases u64::MAX - cur,
        {
            let full = match max {
                Some(limit) => out.len() >= limit,
                None => false,
            };
            if full {
                break ;
            }
            let found = self.entries.get(&cur);
            match found {
                None => {
                    proof {
                        assert(out@ + Seq::<(u64, u64)>::empty() =~= out@);
                    }
                    break ;
                },
                Some(msg) => {
                    let ghost rest = run_from(self.entries@, cur);
                    let ghost before = out@;
                    out.push((cur, *msg));
                    proof {
                        assert(rest[0] == (cur, *msg));
                        assert(before + rest == whole);
                        assert(whole.take(out@.len() as int) =~= before.push(rest[0]));
                    }
                    if cur == u64::MAX {
                        proof {
                            assert(out@ =~= whole);
                        }
                        break ;
                    }
                    proof {
                        assert(out@ + run_from(self.entries@, (cur + 1) as u64) =~= before + rest);
                    }
                    cur = cur + 1;
                },
            }
        }
        out
    }

    /// Commits up to `offset`, unless more has been committed already.
    pub fn commit(&mut self, offset: u64)
        ensures
            final(self)@ == old(self)@.commit(offset),
    {
        if offset > self.committed {
            self.committed = offset;
        }
    }

    /// The highest offset committed so far.
    pub fn committed_offset(&self) -> (offset: u64)
        ensures
            offset == self@.committed,
    {
        self.committed
    }
}

/// The logs of a node after `msg` is appended under `key`: to the log of that
/// key, or to a new log where the key had none.
pub open spec fn logs_append(logs: Map<Name, LogView>, key: Name, msg: u64) -> Map<Name, LogView> {
    logs.insert(key, log_of(logs, key).append(msg))
}

/// The logs of a node after `msg` is put at `offset` under `key`.
pub open spec fn logs_insert_at(logs: Map<Name, LogView>, key: Name, offset: u64, msg: u64) -> Map<
    Name,
    LogView,
> {
    logs.insert(key, log_of(logs, key).insert_at(offset, msg))
}

/// The log of `key`, which is empty until something is written under the key.
pub open spec fn log_of(logs: Map<Name, LogView>, key: Name) -> LogView {
    if logs.contains_key(key) {
        logs[key]
    } else {
        LogView::empty()
    }
}

/// What a poll returns: for each requested key that has been written to, in
/// the order of the request, the read from the offset asked for.
pub open spec fn logs_poll(logs: Map<Name, LogView>, offsets: Seq<(Name, u64)>) -> Seq<
    (Name, Seq<(u64, u64)>),
>
    decreases offsets.len(),
{
    if offsets.len() == 0 {
        Seq::empty()
    } else {
        let rest = logs_poll(logs, offsets.drop_last());
        let (key, from) = offsets.last();
        if log_of(logs, key).written() {
            rest.push((key, logs[key].read_from(from, None)))
        } else {
            rest
        }
    }
}

/// The logs after each requested offset is committed to the log of its key.
/// A commit may run ahead of the log: for a key that has not been written to
/// it is kept as well, and holds once the key is written to.
pub open spec fn logs_commit(logs: Map<Name, LogView>, offsets: Seq<(Name, u64)>) -> Map<
    Name,
    LogView,
>
    decreases offsets.len(),
{
    if offsets.len() == 0 {
        logs
    } else {
        let rest = logs_commit(logs, offsets.drop_last());
        let (key, offset) = offsets.last();
        rest.insert(key, log_of(rest, key).commit(offset))
    }
}

/// The committed offset of each listed key that has been written to, in the
/// order of the list; a key listed twice is reported once.
pub open spec fn logs_list(logs: Map<Name, LogView>, keys: Seq<Name>) -> Seq<(Name, u64)>
    decreases keys.len(),
{
    if keys.len() == 0 {
        Seq::empty()
    } else {
        let rest = logs_list(logs, keys.drop_last());
        let key = keys.last();
        if log_of(logs, key).written() && !has_key(rest, key) {
            rest.push((key, logs[key].committed))
        } else {
            rest
        }
    }
}

/// Committing changes nothing but committed offsets, and those never fall:
/// each key ends with the greatest of what was committed for it before and
/// what is committed for it now.
pub proof fn lemma_commit_monotone(logs: Map<Name, LogView>, offsets: Seq<(Name, u64)>, k: Name)
    ensures
        logs.contains_key(k) ==> logs_commit(logs, offsets).contains_key(k),
        log_of(logs_commit(logs, offsets), k).committed >= log_of(logs, k).committed,
        log_of(logs_commit(logs, offsets), k).entries == log_of(logs, k).entries,
        log_of(logs_commit(logs, offsets), k).next_offset == log_of(logs, k).next_offset,
        forall|i: int|
            0 <= i < offsets.len() && (#[trigger] offsets[i]).0 == k ==> log_of(
                logs_commit(logs, offsets),
                k,
            ).committed >= offsets[i].1,
        log_of(logs_commit(logs, offsets), k).committed == log_of(logs, k).committed || exists|i: int|
            0 <= i < offsets.len() && (#[trigger] offsets[i]).0 == k && log_of(
                logs_commit(logs, offsets),
                k,
            ).committed == offsets[i].1,
    decreases offsets.len(),
{
    if offsets.len() > 0 {
        let front = offsets.drop_last();
        let last = offsets.len() - 1;
        lemma_commit_monotone(logs, front, k);
        let rest = logs_commit(logs, front);
        let after = logs_commit(logs, offsets);
        assert(offsets.last() == offsets[last]);
        assert forall|i: int| 0 <= i < offsets.len() && (#[trigger] offsets[i]).0 == k implies log_of(
            after,
            k,
        ).committed >= offsets[i].1 by {
            if i < last {
                assert(front[i] == offsets[i]);
            }
        }
        if log_of(after, k).committed != log_of(logs, k).committed {
            if log_of(after, k).committed == log_of(rest, k).committed {
                let i = choose|i: int|
                    0 <= i < front.len() && (#[trigger] front[i]).0 == k && log_of(rest, k).committed
                        == front[i].1;
                assert(offsets[i] == front[i]);
            } else {
                assert(offsets[last].0 == k && log_of(after, k).committed == offsets[last].1);
            }
        }
    }
}

/// A key listed by `logs_list` has been written to, is reported with its
/// committed offset, and is reported once; and every listed key that has been
/// written to is reported.
pub proof fn lemma_list_entries(logs: Map<Name, LogView>, keys: Seq<Name>)
    ensures
        keys_distinct(logs_list(logs, keys)),
        forall|i: int|
            0 <= i < logs_list(logs, keys).len() ==> {
                let e = #[trigger] logs_list(logs, keys)[i];
                log_of(logs, e.0).written() && e.1 == logs[e.0].committed && keys.contains(e.0)
            },
        forall|k: Name|
            keys.contains(k) && log_of(logs, k).written() ==> has_key(logs_list(logs, keys), k),
    decreases keys.len(),
{
    if keys.len() > 0 {
        let front = keys.drop_last();
        lemma_list_entries(logs, front);
        let rest = logs_list(logs, front);
        let all = logs_list(logs, keys);
        assert forall|i: int| 0 <= i < all.len() implies {
            let e = #[trigger] all[i];
            log_of(logs, e.0).written() && e.1 == logs[e.0].committed && keys.contains(e.0)
        } by {
            if i < rest.len() {
                let e = rest[i];
                assert(front.contains(e.0));
                let j = choose|j: int| 0 <= j < front.len() && front[j] == e.0;
                assert(keys[j] == e.0);
            } else {
                assert(keys[keys.len() - 1] == keys.last());
            }
        }
        assert forall|k: Name| keys.contains(k) && log_of(logs, k).written() implies has_key(all, k) by {
            let j = choose|j: int| 0 <= j < keys.len() && keys[j] == k;
            if j < front.len() {
                assert(front[j] == k);
                assert(front.contains(k));
                assert(has_key(rest, k));
                let i = position_of(rest, k);
                assert(all[i].0 == k);
            } else if has_key(rest, k) {
                let i = position_of(rest, k);
                assert(all[i].0 == k);
            } else {
                assert(all[rest.len() as int].0 == k);
            }
        }
        assert forall|a: int, b: int| 0 <= a < b < all.len() implies all[a].0 != all[b].0 by {
            if b == rest.len() {
                assert(rest[a].0 == all[a].0);
            }
        }
    }
}

/// The logs of a node, one for each key that something was written under.
#[derive(Clone, Debug)]
pub struct Logs {
    inner: StrMap<Log>,
}

impl View for Logs {
    type V = Map<Name, LogView>;

    closed spec fn view(&self) -> Map<Name, LogView> {
        self.inner@.map_values(|l: Log| l@)
    }
}

impl Default for Logs {
    fn default() -> (logs: Self)
        ensures
            logs@ == Map::<Name, LogView>::empty(),
    {
        Logs::new()
    }
}

impl Logs {
    /// No logs at all.
    pub fn new() -> (logs: Self)
        ensures
            logs@ == Map::<Name, LogView>::empty(),
    {
        let logs = Logs { inner: StrMap::new() };
        proof {
            assert(logs@ =~= Map::<Name, LogView>::empty());
        }
        logs
    }

    /// The position of the log of `key`, which is created empty if the key has
    /// none yet.
    fn get_or_create(&mut self, key: &str) -> (i: usize)
        ensures
            i < final(self).inner.entries().len(),
            final(self).inner.entries()[i as int].0 == key@,
            final(self).inner.entries()[i as int].1@ == log_of(old(self)@, key@),
            final(self)@ == old(self)@.insert(key@, log_of(old(self)@, key@)),
    {
        match self.inner.find(key) {
            Some(i) => {
                proof {
                    lemma_as_map_entry(self.inner.entries(), i as int);
                    assert(self@ =~= self@.insert(key@, log_of(self@, key@)));
                }
                i
            },
            None => {
                let n = self.inner.len();
                let ghost before = self.inner@;
                self.inner.insert(key.to_owned(), Log::new());
                proof {
                    assert(self@ =~= before.map_values(|l: Log| l@).insert(key@, LogView::empty()));
                }
                n
            },
        }
    }

    /// Whether a message can still be appended under `key`.
    pub open spec fn can_append(&self, key: Name) -> bool {
        log_of(self@, key).next_offset < u64::MAX
    }

    /// Tells whether a message can still be appended under `key`.
    pub fn has_room(&self, key: &str) -> (b: bool)
        ensures
            b == self.can_append(key@),
    {
        match self.inner.get(key) {
            Some(log) => log.next_offset() < u64::MAX,
            None => true,
        }
    }

    /// Appends `msg` to the log of `key` and returns the offset it got: the
    /// number of messages appended under that key before.
    pub fn append(&mut self, key: &str, msg: u64) -> (offset: u64)
        requires
            old(self).can_append(key@),
        ensures
            offset == log_of(old(self)@, key@).next_offset,
            final(self)@ == logs_append(old(self)@, key@, msg),
    {
        let i = self.get_or_create(key);
        let ghost mid = self.inner@;
        let ghost mid_view = self@;
        let mut log = self.inner.replace_at(i, Log::new());
        let offset = log.append(msg);
        let ghost appended = log;
        let _ = self.inner.replace_at(i, log);
        proof {
            assert(self.inner@ =~= mid.insert(key@, appended));
            assert(self@ =~= mid_view.insert(key@, appended@));
            assert(self@ =~= logs_append(old(self)@, key@, msg));
        }
        offset
    }

    /// Puts `msg` at `offset` in the log of `key`.
    pub fn insert_at(&mut self, key: &str, offset: u64, msg: u64)
        ensures
            final(self)@ == logs_insert_at(old(self)@, key@, offset, msg),
    {
        let i = self.get_or_create(key);
        let ghost mid = self.inner@;
        let ghost mid_view = self@;
        let mut log = self.inner.replace_at(i, Log::new());
        log.insert_at(offset, msg);
        let ghost changed = log;
        let _ = self.inner.replace_at(i, log);
        proof {
            assert(self.inner@ =~= mid.insert(key@, changed));
            assert(self@ =~= mid_view.insert(key@, changed@));
            assert(self@ =~= logs_insert_at(old(self)@, key@, offset, msg));
        }
    }

    /// For each requested key that has been written to, what its log holds from
    /// the requested offset on.
    pub fn poll(&self, offsets: &StrMap<u64>) -> (out: StrMap<Vec<(u64, u64)>>)
        ensures
            crate::message::polled_view(out.entries()) == logs_poll(self@, offsets.entries()),
    {
        let mut out: StrMap<Vec<(u64, u64)>> = StrMap::new();
        let n = offsets.len();
        let mut i: usize = 0;
        proof {
            assert(offsets.entries().take(0) =~= Seq::empty());
            assert(crate::message::polled_view(out.entries()) =~= Seq::empty());
        }
        while i < n
            invariant
                i <= n,
                n == offsets.entries().len(),
                keys_distinct(offsets.entries()),
                crate::message::polled_view(out.entries()) == logs_poll(
                    self@,
                    offsets.entries().take(i as int),
                ),
                forall|j: int|
                    0 <= j < out.entries().len() ==> exists|m: int|
                        0 <= m < i && offsets.entries()[m].0 == (#[trigger] out.entries()[j]).0,
            decreases n - i,
        {
            let key = offsets.key_at(i);
            let from = *offsets.value_at(i);
            proof {
                let all = offsets.entries();
                assert(all.take(i + 1).drop_last() =~= all.take(i as int));
                assert(all.take(i + 1).last() == all[i as int]);
            }
            let written = match self.inner.get(key.as_str()) {
                Some(log) => if log.is_written() {
                    Some(log)
                } else {
                    None
                },
                None => None,
            };
            match written {
                Some(log) => {
                    let read = log.read_from(from, None);
                    let ghost before = out.entries();
                    proof {
                        if has_key(before, key@) {
                            let j = position_of(before, key@);
                            let m = choose|m: int|
                                0 <= m < i && offsets.entries()[m].0 == before[j].0;
                            assert(offsets.entries()[m].0 != offsets.entries()[i as int].0);
                        }
                    }
                    out.insert(key.clone(), read);
                    proof {
                        assert(crate::message::polled_view(out.entries()) =~= crate::message::polled_view(
                            before,
                        ).push((key@, read@)));
                        assert forall|j: int| 0 <= j < out.entries().len() implies exists|m: int|
                            0 <= m < i + 1 && offsets.entries()[m].0 == (#[trigger] out.entries()[j]).0 by {
                            if j < before.len() {
                                assert(out.entries()[j] == before[j]);
                                let m = choose|m: int|
                                    0 <= m < i && offsets.entries()[m].0 == before[j].0;
                                assert(offsets.entries()[m].0 == out.entries()[j].0);
                            } else {
                                assert(offsets.entries()[i as int].0 == out.entries()[j].0);
                            }
                        }
                    }
                },
                None => {},
            }
            i = i + 1;
        }
        proof {
            assert(offsets.entries().take(n as int) =~= offsets.entries());
        }
        out
    }

    /// Commits each requested offset to the log of its key, whether or not the
    /// key has been written to.
    pub fn commit_offsets(&mut self, offsets: StrMap<u64>)
        ensures
            final(self)@ == logs_commit(old(self)@, offsets.entries()),
    {
        let n = offsets.len();
        let mut i: usize = 0;
        proof {
            assert(offsets.entries().take(0) =~= Seq::empty());
        }
        while i < n
            invariant
                i <= n,
                n == offsets.entries().len(),
                self@ == logs_commit(old(self)@, offsets.entries().take(i as int)),
            decreases n - i,
        {
            let key = offsets.key_at(i);
            let offset = *offsets.value_at(i);
            proof {
                let all = offsets.entries();
                assert(all.take(i + 1).drop_last() =~= all.take(i as int));
                assert(all.take(i + 1).last() == all[i as int]);
            }
            let ghost view_before = self@;
            let at = self.get_or_create(key.as_str());
            let ghost mid = self.inner@;
            let ghost mid_view = self@;
            let mut log = self.inner.replace_at(at, Log::new());
            log.commit(offset);
            let ghost changed = log;
            let _ = self.inner.replace_at(at, log);
            proof {
                assert(self.inner@ =~= mid.insert(key@, changed));
                assert(self@ =~= mid_view.insert(key@, changed@));
                assert(self@ =~= view_before.insert(key@, log_of(view_before, key@).commit(offset)));
            }
            i = i + 1;
        }
        proof {
            assert(offsets.entries().take(n as int) =~= offsets.entries());
        }
    }

    /// The committed offset of each listed key that has been written to.
    pub fn list_committed_offsets(&self, keys: &[String]) -> (out: StrMap<u64>)
        ensures
            out.entries() == logs_list(self@, names(keys@)),
    {
        let mut out: StrMap<u64> = StrMap::new();
        let mut i: usize = 0;
        proof {
            assert(names(keys@).take(0) =~= Seq::empty());
        }
        while i < keys.len()
            invariant
                i <= keys@.len(),
                out.entries() == logs_list(self@, names(keys@).take(i as int)),
            decreases keys@.len() - i,
        {
            proof {
                let all = names(keys@);
                assert(all.take(i + 1).drop_last() =~= all.take(i as int));
                assert(all.take(i + 1).last() == keys@[i as int]@);
            }
            match self.inner.get(keys[i].as_str()) {
                Some(log) => {
                    if log.is_written() && !out.contains_key(keys[i].as_str()) {
                        out.insert(keys[i].clone(), log.committed_offset());
                    }
                },
                None => {},
            }
            i = i + 1;
        }
        proof {
            assert(names(keys@).take(keys@.len() as int) =~= names(keys@));
        }
        out
    }
}

} // verus!
