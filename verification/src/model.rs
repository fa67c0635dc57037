//! The index as a mathematical value, and what holds of replaying a log
//! into it.

use crate::kv::LogView;
use vstd::prelude::*;

verus! {

/// The mathematical value of an index.
pub struct IndexView {
    /// For each live key, its record and the length of that record's line.
    pub live: Map<Seq<char>, (LogView, nat)>,
    /// The bytes of the log that hold no live record.
    pub uncompacted: nat,
    /// All bytes of the log: those of the live records and the uncompacted ones.
    pub logged: nat,
}

impl IndexView {
    /// The index of an empty log.
    pub open spec fn empty() -> IndexView {
        IndexView { live: Map::empty(), uncompacted: 0, logged: 0 }
    }

    /// The bytes that the live record of `key` takes, 0 where there is none.
    pub open spec fn displaced(self, key: Seq<char>) -> nat {
        if self.live.contains_key(key) {
            self.live[key].1
        } else {
            0
        }
    }

    /// The index after one more record of `size` bytes has reached the log.
    pub open spec fn observe(self, record: LogView, size: nat) -> IndexView {
        match record {
            LogView::Put(key, _) => IndexView {
                live: self.live.insert(key, (record, size)),
                uncompacted: self.uncompacted + self.displaced(key),
                logged: self.logged + size,
            },
            LogView::Remove(key) => IndexView {
                live: self.live.remove(key),
                uncompacted: self.uncompacted + size + self.displaced(key),
                logged: self.logged + size,
            },
        }
    }

    /// The index after the log has been rewritten to hold the live records
    /// only, each in a line as long as before.
    pub open spec fn reset(self) -> IndexView {
        IndexView {
            live: self.live,
            uncompacted: 0,
            logged: (self.logged - self.uncompacted) as nat,
        }
    }

    /// The value that `key` maps to, `None` where the key is not live.
    pub open spec fn value(self, key: Seq<char>) -> Option<Seq<char>> {
        if self.live.contains_key(key) {
            match self.live[key].0 {
                LogView::Put(_, value) => Some(value),
                LogView::Remove(_) => None,
            }
        } else {
            None
        }
    }

    /// The live keys, each with the value it maps to.
    pub open spec fn values(self) -> Map<Seq<char>, Seq<char>> {
        Map::new(
            |key: Seq<char>| self.value(key) is Some,
            |key: Seq<char>| self.value(key)->Some_0,
        )
    }

    /// What holds of every index that records were observed into: a live
    /// record is a `Put` of the key it stands under.
    pub open spec fn wf(self) -> bool {
        forall|key: Seq<char>| #[trigger]
            self.live.contains_key(key) ==> self.live[key].0 is Put && self.live[key].0.key()
                == key
    }
}

/// The index that observing `records` one by one, oldest first, leads to.
pub open spec fn replayed(records: Seq<(LogView, nat)>) -> IndexView
    decreases records.len(),
{
    if records.len() == 0 {
        IndexView::empty()
    } else {
        replayed(records.drop_last()).observe(records.last().0, records.last().1)
    }
}

/// Whether `list` holds every live record of `live` once, and nothing else.
pub open spec fn lists(list: Seq<LogView>, live: Map<Seq<char>, (LogView, nat)>) -> bool {
    &&& forall|i: int|
        0 <= i < list.len() ==> live.contains_key(#[trigger] list[i].key()) && live[list[i].key()].0
            == list[i]
    &&& forall|i: int, j: int|
        0 <= i < j < list.len() ==> #[trigger] list[i].key() != #[trigger] list[j].key()
    &&& forall|key: Seq<char>| #[trigger]
        live.contains_key(key) ==> exists|i: int|
            0 <= i < list.len() && #[trigger] list[i].key() == key
}

/// The bytes that the lines of `records` take together.
pub open spec fn total(records: Seq<(LogView, nat)>) -> nat
    decreases records.len(),
{
    if records.len() == 0 {
        0
    } else {
        total(records.drop_last()) + records.last().1
    }
}

/// The lines of a beginning of a sequence of records take no more bytes than
/// the lines of all of them.
pub proof fn lemma_total_take(records: Seq<(LogView, nat)>, n: int)
    requires
        0 <= n <= records.len(),
    ensures
        total(records.take(n)) <= total(records),
    decreases records.len(),
{
    if n == records.len() {
        assert(records.take(n) =~= records);
    } else {
        lemma_total_take(records.drop_last(), n);
        assert(records.drop_last().take(n) =~= records.take(n));
    }
}


/// Whether `key` maps in `after` to what it maps to in `before`: to nothing
/// in both, or to the same value.
pub open spec fn same_at(
    before: Map<Seq<char>, Seq<char>>,
    after: Map<Seq<char>, Seq<char>>,
    key: Seq<char>,
) -> bool {
    &&& before.contains_key(key) == after.contains_key(key)
    &&& before.contains_key(key) ==> before[key] == after[key]
}

/// Whether every key other than `key` maps in `after` to what it maps to in
/// `before`.
pub open spec fn same_but(
    before: Map<Seq<char>, Seq<char>>,
    after: Map<Seq<char>, Seq<char>>,
    key: Seq<char>,
) -> bool {
    forall|other: Seq<char>| other != key ==> #[trigger] same_at(before, after, other)
}

/// Whether a history leaves `key` alone. A history is what a store maps
/// before and after each of a sequence of calls, `states`, with the key that
/// each call was made for, `touched`. It leaves `key` alone where every call
/// has either changed nothing or was made for another key and has changed
/// nothing but that.
pub open spec fn leaves(
    states: Seq<Map<Seq<char>, Seq<char>>>,
    touched: Seq<Seq<char>>,
    key: Seq<char>,
) -> bool {
    &&& states.len() == touched.len() + 1
    &&& forall|at: int|
        0 <= at < touched.len() ==> {
            ||| states[at + 1] == states[at]
            ||| #[trigger] touched[at] != key && same_but(states[at], states[at + 1], touched[at])
        }
}

/// A history that leaves a key alone ends with the key mapped to what it was
/// mapped to at the beginning.
pub proof fn lemma_history(
    states: Seq<Map<Seq<char>, Seq<char>>>,
    touched: Seq<Seq<char>>,
    key: Seq<char>,
)
    requires
        leaves(states, touched, key),
    ensures
        same_at(states.first(), states.last(), key),
    decreases touched.len(),
{
    if touched.len() > 0 {
        let last = touched.len() - 1;
        assert(leaves(states.drop_last(), touched.drop_last(), key)) by {
            assert forall|at: int| 0 <= at < touched.drop_last().len() implies {
                ||| states.drop_last()[at + 1] == states.drop_last()[at]
                ||| #[trigger] touched.drop_last()[at] != key && same_but(
                    states.drop_last()[at],
                    states.drop_last()[at + 1],
                    touched.drop_last()[at],
                )
            } by {
                assert(touched.drop_last()[at] == touched[at]);
            }
        }
        lemma_history(states.drop_last(), touched.drop_last(), key);
        assert(states.drop_last().last() == states[last]);
        assert(states.last() == states[last + 1]);
        if states[last + 1] != states[last] {
            assert(touched[last] != key);
            assert(same_at(states[last], states[last + 1], key));
        }
    }
}

/// Read your writes, over a history: where a key maps to a value, as it does
/// once a `set` has succeeded, it still maps to that value after any number
/// of calls that left the key alone.
pub proof fn lemma_read_your_writes(
    states: Seq<Map<Seq<char>, Seq<char>>>,
    touched: Seq<Seq<char>>,
    key: Seq<char>,
    value: Seq<char>,
)
    requires
        leaves(states, touched, key),
        states.first().contains_key(key),
        states.first()[key] == value,
    ensures
        states.last().contains_key(key),
        states.last()[key] == value,
{
    lemma_history(states, touched, key);
}

/// Remove erases, over a history: where a key maps to nothing, as it does
/// once a `remove` has succeeded, it still maps to nothing after any number
/// of calls that left the key alone.
pub proof fn lemma_remove_erases(
    states: Seq<Map<Seq<char>, Seq<char>>>,
    touched: Seq<Seq<char>>,
    key: Seq<char>,
)
    requires
        leaves(states, touched, key),
        !states.first().contains_key(key),
    ensures
        !states.last().contains_key(key),
{
    lemma_history(states, touched, key);
}

/// The most recent of `records` that speaks of `key`, with the length of its
/// line.
pub open spec fn latest(records: Seq<(LogView, nat)>, key: Seq<char>) -> Option<(LogView, nat)>
    decreases records.len(),
{
    if records.len() == 0 {
        None
    } else if records.last().0.key() == key {
        Some(records.last())
    } else {
        latest(records.drop_last(), key)
    }
}

/// Observing a record keeps an index well-formed.
pub proof fn lemma_observe_wf(index: IndexView, record: LogView, size: nat)
    requires
        index.wf(),
    ensures
        index.observe(record, size).wf(),
{
}

/// The index of a log is well-formed, and counts every byte of the log.
pub proof fn lemma_replayed_wf(records: Seq<(LogView, nat)>)
    ensures
        replayed(records).wf(),
        replayed(records).logged == total(records),
    decreases records.len(),
{
    if records.len() > 0 {
        lemma_replayed_wf(records.drop_last());
        lemma_observe_wf(replayed(records.drop_last()), records.last().0, records.last().1);
    }
}

/// Once `Put(key, value)` is observed, `key` maps to `value`, and every
/// other key to what it mapped to.
pub proof fn lemma_put_then_value(index: IndexView, key: Seq<char>, value: Seq<char>, size: nat)
    ensures
        index.observe(LogView::Put(key, value), size).value(key) == Some(value),
        index.observe(LogView::Put(key, value), size).values() == index.values().insert(
            key,
            value,
        ),
        same_but(index.values(), index.observe(LogView::Put(key, value), size).values(), key),
{
    let after = index.observe(LogView::Put(key, value), size);
    assert(after.values() =~= index.values().insert(key, value));
}

/// Overwrite: of two `Put`s of one key, the later one counts.
pub proof fn lemma_put_twice(
    index: IndexView,
    key: Seq<char>,
    first: Seq<char>,
    second: Seq<char>,
    first_size: nat,
    second_size: nat,
)
    ensures
        index.observe(LogView::Put(key, first), first_size).observe(
            LogView::Put(key, second),
            second_size,
        ).value(key) == Some(second),
{
}

/// Once `Remove(key)` is observed, `key` maps to nothing, and every other
/// key to what it mapped to.
pub proof fn lemma_remove_then_none(index: IndexView, key: Seq<char>, size: nat)
    ensures
        index.observe(LogView::Remove(key), size).value(key) is None,
        index.observe(LogView::Remove(key), size).values() == index.values().remove(key),
        same_but(index.values(), index.observe(LogView::Remove(key), size).values(), key),
{
    let after = index.observe(LogView::Remove(key), size);
    assert(after.values() =~= index.values().remove(key));
}

/// A record of one key leaves what every other key maps to as it was.
pub proof fn lemma_other_key_untouched(
    index: IndexView,
    record: LogView,
    size: nat,
    key: Seq<char>,
)
    requires
        record.key() != key,
    ensures
        index.observe(record, size).value(key) == index.value(key),
{
}

/// Rewriting the log changes what no key maps to.
pub proof fn lemma_reset_keeps_values(index: IndexView)
    ensures
        index.reset().values() == index.values(),
        index.reset().uncompacted == 0,
{
}

/// The index of a log holds, for each key, the most recent record of that
/// key where it is a `Put`, and holds nothing for a key whose most recent
/// record is a `Remove` or that the log never speaks of.
pub proof fn lemma_replayed_latest(records: Seq<(LogView, nat)>, key: Seq<char>)
    ensures
        match latest(records, key) {
            Some((LogView::Put(k, value), size)) => {
                &&& replayed(records).live.contains_key(key)
                &&& replayed(records).live[key] == (LogView::Put(k, value), size)
            },
            Some((LogView::Remove(_), _)) => !replayed(records).live.contains_key(key),
            None => !replayed(records).live.contains_key(key),
        },
    decreases records.len(),
{
    if records.len() > 0 {
        lemma_replayed_latest(records.drop_last(), key);
    }
}

/// A log of tombstones only has an index without a live key.
pub proof fn lemma_replayed_tombstones(records: Seq<(LogView, nat)>)
    requires
        forall|i: int| 0 <= i < records.len() ==> (#[trigger] records[i]).0 is Remove,
    ensures
        replayed(records).live == Map::<Seq<char>, (LogView, nat)>::empty(),
        replayed(records).uncompacted == total(records),
    decreases records.len(),
{
    if records.len() > 0 {
        lemma_replayed_tombstones(records.drop_last());
    }
}

/// Whether the record at place `at` is the one that the index of `records`
/// refers to for its key: a `Put` that no later record speaks of the key of.
pub open spec fn referenced(records: Seq<(LogView, nat)>, at: int) -> bool {
    &&& records[at].0 is Put
    &&& forall|later: int|
        at < later < records.len() ==> (#[trigger] records[later]).0.key() != records[at].0.key()
}

/// The bytes that those of the first `upto` lines take that the index of
/// `records` does not refer to.
pub open spec fn superseded(records: Seq<(LogView, nat)>, upto: nat) -> nat
    decreases upto,
{
    if upto == 0 {
        0
    } else {
        let at = (upto - 1) as int;
        superseded(records, (upto - 1) as nat) + if referenced(records, at) {
            0
        } else {
            records[at].1
        }
    }
}

/// The index of a log holds a key exactly where one of the records is
/// referenced for it, and then holds that record.
proof fn lemma_replayed_referenced(records: Seq<(LogView, nat)>, key: Seq<char>)
    ensures
        replayed(records).live.contains_key(key) <==> exists|at: int|
            0 <= at < records.len() && #[trigger] referenced(records, at) && records[at].0.key()
                == key,
        forall|at: int|
            0 <= at < records.len() && #[trigger] referenced(records, at) && records[at].0.key()
                == key ==> replayed(records).live[key] == records[at],
    decreases records.len(),
{
    if records.len() > 0 {
        let front = records.drop_last();
        let last = records.len() - 1;
        lemma_replayed_referenced(front, key);
        if records[last].0.key() == key {
            if records[last].0 is Put {
                assert(referenced(records, last));
            }
        } else {
            assert forall|at: int| 0 <= at < front.len() implies (#[trigger] referenced(
                records,
                at,
            ) && records[at].0.key() == key) == (referenced(front, at) && front[at].0.key()
                == key) by {
                if front[at].0.key() == key {
                    if referenced(front, at) {
                        assert forall|later: int| at < later < records.len() implies (
                        #[trigger] records[later]).0.key() != records[at].0.key() by {
                            if later < last {
                                assert(front[later] == records[later]);
                            }
                        }
                    }
                }
            }
            if replayed(records).live.contains_key(key) {
                let at = choose|at: int|
                    0 <= at < front.len() && #[trigger] referenced(front, at) && front[at].0.key()
                        == key;
                assert(referenced(records, at) && records[at].0.key() == key);
            }
        }
    }
}

/// One more record at the end of a log supersedes, among the lines before
/// it, the one that was referenced for its key and no other.
proof fn lemma_superseded_push(
    records: Seq<(LogView, nat)>,
    record: (LogView, nat),
    upto: nat,
)
    requires
        upto <= records.len(),
    ensures
        superseded(records.push(record), upto) == superseded(records, upto) + if exists|at: int|
            0 <= at < upto && #[trigger] referenced(records, at) && records[at].0.key()
                == record.0.key() {
            replayed(records).displaced(record.0.key())
        } else {
            0
        },
    decreases upto,
{
    let more = records.push(record);
    let key = record.0.key();
    if upto > 0 {
        let at = (upto - 1) as int;
        lemma_superseded_push(records, record, (upto - 1) as nat);
        lemma_replayed_referenced(records, key);
        if referenced(records, at) {
            if records[at].0.key() == key {
                assert(more[records.len() as int].0.key() == more[at].0.key());
            }
        } else {
            if referenced(more, at) {
                assert forall|later: int| at < later < records.len() implies (
                #[trigger] records[later]).0.key() != records[at].0.key() by {
                    assert(more[later] == records[later]);
                }
            }
        }
    }
}

/// The uncompacted bytes of the index of a log are the bytes of the lines
/// that the index does not refer to: every tombstone, and every `Put` that a
/// later record of the same key supersedes.
pub proof fn lemma_replayed_uncompacted(records: Seq<(LogView, nat)>)
    ensures
        replayed(records).uncompacted == superseded(records, records.len()),
    decreases records.len(),
{
    if records.len() > 0 {
        let front = records.drop_last();
        let last = records.last();
        assert(front.push(last) =~= records);
        lemma_replayed_uncompacted(front);
        lemma_superseded_push(front, last, front.len());
        lemma_replayed_referenced(front, last.0.key());
    }
}

/// Whether `records` are all `Put`s, of keys that differ from one another.
pub open spec fn distinct_puts(records: Seq<(LogView, nat)>) -> bool {
    &&& forall|i: int| 0 <= i < records.len() ==> (#[trigger] records[i]).0 is Put
    &&& forall|i: int, j: int|
        0 <= i < j < records.len() ==> (#[trigger] records[i]).0.key() != (
        #[trigger] records[j]).0.key()
}

/// The index of a log of `Put`s of distinct keys: each of them is live, no
/// other key is, and no byte of the log is uncompacted.
pub proof fn lemma_replayed_distinct(records: Seq<(LogView, nat)>)
    requires
        distinct_puts(records),
    ensures
        replayed(records).uncompacted == 0,
        forall|i: int|
            0 <= i < records.len() ==> replayed(records).live.contains_key(
                (#[trigger] records[i]).0.key(),
            ) && replayed(records).live[records[i].0.key()] == records[i],
        forall|key: Seq<char>| #[trigger]
            replayed(records).live.contains_key(key) ==> exists|i: int|
                0 <= i < records.len() && (#[trigger] records[i]).0.key() == key,
    decreases records.len(),
{
    if records.len() > 0 {
        let front = records.drop_last();
        lemma_replayed_distinct(front);
        assert forall|i: int| 0 <= i < records.len() implies replayed(records).live.contains_key(
            (#[trigger] records[i]).0.key(),
        ) && replayed(records).live[records[i].0.key()] == records[i] by {
            if i < front.len() {
                assert(front[i] == records[i]);
            }
        }
    }
}

} // verus!
