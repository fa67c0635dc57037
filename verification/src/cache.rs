//! The index in memory: which record is live for each key, and how many
//! bytes of the log are taken by records that no longer are.

use crate::error::KvsError;
use crate::kv::{log_views, views, Cache, Log, LogView, SizedLog};
use crate::model::{lemma_replayed_wf, lemma_total_take, replayed, total, IndexView};
use vstd::hash_map::StringHashMap;
use vstd::prelude::*;

verus! {

/// The bytes that the lines of `entries` take together.
spec fn total_size(entries: Seq<SizedLog>) -> nat
    decreases entries.len(),
{
    if entries.len() == 0 {
        0
    } else {
        total_size(entries.drop_last()) + entries.last().size as nat
    }
}

proof fn lemma_total_size_bounds(entries: Seq<SizedLog>, at: int)
    requires
        0 <= at < entries.len(),
    ensures
        entries[at].size <= total_size(entries),
    decreases entries.len(),
{
    if at < entries.len() - 1 {
        lemma_total_size_bounds(entries.drop_last(), at);
    }
}

proof fn lemma_total_size_update(entries: Seq<SizedLog>, at: int, entry: SizedLog)
    requires
        0 <= at < entries.len(),
    ensures
        total_size(entries.update(at, entry)) + entries[at].size == total_size(entries)
            + entry.size,
    decreases entries.len(),
{
    if at < entries.len() - 1 {
        lemma_total_size_update(entries.drop_last(), at, entry);
        assert(entries.update(at, entry).drop_last() =~= entries.drop_last().update(at, entry));
    } else {
        assert(entries.update(at, entry).drop_last() =~= entries.drop_last());
    }
}

/// An index in memory: a hash map from each live key to the place of its
/// record in a dense vector of the live records.
pub struct InMemoryMapCache {
    slots: StringHashMap<usize>,
    entries: Vec<SizedLog>,
    uncompacted: usize,
}

impl View for InMemoryMapCache {
    type V = IndexView;

    closed spec fn view(&self) -> IndexView {
        IndexView {
            live: Map::new(
                |key: Seq<char>| self.slots@.contains_key(key),
                |key: Seq<char>| self.entries@[self.slots@[key] as int]@,
            ),
            uncompacted: self.uncompacted as nat,
            logged: total_size(self.entries@) + self.uncompacted as nat,
        }
    }
}

/// Whether the hash map and the vector agree: each key leads to the place of
/// an entry under that key, each entry is a `Put` and is found under its key.
spec fn agree(slots: Map<Seq<char>, usize>, entries: Seq<SizedLog>) -> bool {
    &&& forall|key: Seq<char>| #[trigger]
        slots.contains_key(key) ==> 0 <= slots[key] < entries.len() && entries[slots[key] as int].log@.key()
            == key
    &&& forall|at: int|
        0 <= at < entries.len() ==> (#[trigger] entries[at]).log is Put && slots.contains_key(
            entries[at].log@.key(),
        ) && slots[entries[at].log@.key()] == at
}

impl InMemoryMapCache {
    /// The hash map and the vector agree, and the bytes counted fit the
    /// machine.
    pub closed spec fn inv(&self) -> bool {
        &&& agree(self.slots@, self.entries@)
        &&& total_size(self.entries@) + self.uncompacted <= usize::MAX
    }

    /// A well-formed cache has a well-formed value, within the machine's range.
    pub proof fn lemma_inv(&self)
        requires
            self.inv(),
        ensures
            self@.wf(),
            self@.logged <= usize::MAX,
    {
        assert forall|key: Seq<char>| #[trigger] self@.live.contains_key(key) implies self@.live[key].0 is Put
            && self@.live[key].0.key() == key by {
            let entry = self.entries@[self.slots@[key] as int];
        }
    }

    /// The index of a log: observes `records` one by one, oldest first. The
    /// bytes of the log have to fit the machine's range.
    pub fn replay(records: &Vec<SizedLog>) -> (res: Result<Self, KvsError>)
        requires
            total(views(records@)) <= usize::MAX,
        ensures
            res matches Ok(cache) && cache.wf() && cache@ == replayed(views(records@)),
    {
        let ghost all = views(records@);
        let mut cache = match InMemoryMapCache::new() {
            Ok(cache) => cache,
            Err(e) => {
                return Err(e);
            },
        };
        let mut at: usize = 0;
        while at < records.len()
            invariant
                at <= records@.len(),
                all == views(records@),
                total(all) <= usize::MAX,
                cache.wf(),
                cache@ == replayed(all.take(at as int)),
            decreases records@.len() - at,
        {
            proof {
                lemma_replayed_wf(all.take(at as int));
                lemma_total_take(all, at + 1);
                assert(all.take(at + 1).drop_last() =~= all.take(at as int));
            }
            let entry = &records[at];
            match cache.insert(entry.log.clone(), entry.size) {
                Ok(_) => {},
                Err(e) => {
                    return Err(e);
                },
            }
            at += 1;
        }
        assert(all.take(at as int) =~= all);
        Ok(cache)
    }
}

impl Cache for InMemoryMapCache {
    open spec fn wf(&self) -> bool {
        self.inv()
    }

    fn new() -> (res: Result<Self, KvsError>)
        ensures
            res is Ok,
    {
        let cache = InMemoryMapCache {
            slots: StringHashMap::new(),
            entries: Vec::new(),
            uncompacted: 0,
        };
        assert(cache@.live =~= Map::empty());
        Ok(cache)
    }

    fn insert(&mut self, log: Log, size: usize) -> (res: Result<(), KvsError>)
        ensures
            res is Ok,
    {
        let ghost before = *self;
        let ghost goal = before@.observe(log@, size as nat);
        let key: String = log.key().to_owned();
        let found: Option<usize> = match self.slots.get(key.as_str()) {
            Some(at) => Some(*at),
            None => None,
        };
        match log {
            Log::Put(_, _) => {
                match found {
                    Some(at) => {
                        proof {
                            lemma_total_size_bounds(self.entries@, at as int);
                            lemma_total_size_update(
                                self.entries@,
                                at as int,
                                SizedLog { log, size },
                            );
                        }
                        let displaced = self.entries[at].size;
                        self.entries[at] = SizedLog::new(log, size);
                        self.uncompacted = self.uncompacted + displaced;
                    },
                    None => {
                        self.slots.insert(key, self.entries.len());
                        self.entries.push(SizedLog::new(log, size));
                        assert(self.entries@.drop_last() =~= before.entries@);
                    },
                }
            },
            Log::Remove(_) => {
                self.uncompacted = self.uncompacted + size;
                match found {
                    Some(at) => {
                        let last = self.entries.len() - 1;
                        proof {
                            lemma_total_size_bounds(self.entries@, at as int);
                            lemma_total_size_update(
                                self.entries@,
                                at as int,
                                self.entries@.last(),
                            );
                        }
                        let removed = self.entries.swap_remove(at);
                        self.slots.remove(key.as_str());
                        if at < last {
                            let moved: String = self.entries[at].log.key().to_owned();
                            self.slots.insert(moved, at);
                        }
                        self.uncompacted = self.uncompacted + removed.size;
                    },
                    None => {},
                }
            },
        }
        assert(self@.live =~= goal.live);
        Ok(())
    }

    fn get(&self, key: &str) -> (res: Result<Option<Log>, KvsError>)
        ensures
            res is Ok,
    {
        match self.slots.get(key) {
            Some(at) => Ok(Some(self.entries[*at].log.clone())),
            None => Ok(None),
        }
    }

    fn get_all(&self) -> (res: Vec<&Log>) {
        let mut logs: Vec<&Log> = Vec::new();
        let mut at: usize = 0;
        while at < self.entries.len()
            invariant
                at <= self.entries@.len(),
                logs@.len() == at,
                forall|i: int| 0 <= i < at ==> *logs@[i] == self.entries@[i].log,
            decreases self.entries@.len() - at,
        {
            logs.push(&self.entries[at].log);
            at += 1;
        }
        proof {
            let list = log_views(logs@);
            assert forall|key: Seq<char>| #[trigger] self@.live.contains_key(key) implies exists|
                i: int,
            |
                0 <= i < list.len() && #[trigger] list[i].key() == key by {
                let i = self.slots@[key] as int;
                assert(self.entries@[i].log@ == list[i]);
            }
        }
        logs
    }

    fn uncompacted_space(&self) -> (res: usize) {
        self.uncompacted
    }

    fn reset_after_compaction(&mut self) {
        self.uncompacted = 0;
    }
}

} // verus!
