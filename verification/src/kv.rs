//! The store, the records it keeps, and what it asks of its log and of its
//! index.

use crate::cache::InMemoryMapCache;
use crate::codec::{encode, encoded, fits, Fault};
use crate::error::KvsError;
use crate::model::{
    distinct_puts, latest, lemma_put_then_value, lemma_remove_then_none, lemma_replayed_distinct,
    lemma_replayed_latest, lemma_replayed_uncompacted, lemma_replayed_wf, lists, replayed,
    same_but, superseded, total, IndexView,
};
use crate::recovery::{lemma_crash_safety, Files};
use crate::storage::{
    all_fit, image, latest_record, lemma_image_len, lemma_parsed_append, lemma_parsed_total,
    parsed, scan, sized, snapshot,
};
use vstd::prelude::*;

verus! {

/// One operation on the store, the unit that is appended to the log. In the
/// log a `Put` is written under the name `Set`, a `Remove` under its own.
#[derive(Debug, PartialEq, Eq)]
pub enum Log {
    /// `Put(key, value)`: from now on `key` maps to `value`.
    Put(String, String),
    /// `Remove(key)`: from now on `key` is absent.
    Remove(String),
}

/// The mathematical value of a [`Log`].
pub enum LogView {
    Put(Seq<char>, Seq<char>),
    Remove(Seq<char>),
}

impl LogView {
    /// The key that the record speaks of.
    pub open spec fn key(self) -> Seq<char> {
        match self {
            LogView::Put(k, _) => k,
            LogView::Remove(k) => k,
        }
    }
}

impl View for Log {
    type V = LogView;

    open spec fn view(&self) -> LogView {
        match self {
            Log::Put(k, v) => LogView::Put(k@, v@),
            Log::Remove(k) => LogView::Remove(k@),
        }
    }
}

impl Clone for Log {
    fn clone(&self) -> (res: Self)
        ensures
            res == *self,
    {
        match self {
            Log::Put(k, v) => Log::Put(k.clone(), v.clone()),
            Log::Remove(k) => Log::Remove(k.clone()),
        }
    }
}

impl Log {
    /// The key that the record speaks of.
    pub fn key(&self) -> (k: &str)
        ensures
            k@ == self@.key(),
    {
        match self {
            Log::Put(k, _) => k.as_str(),
            Log::Remove(k) => k.as_str(),
        }
    }
}

/// A record together with the number of bytes that its line takes in the log.
#[derive(Debug, PartialEq, Eq)]
pub struct SizedLog {
    pub log: Log,
    pub size: usize,
}

impl View for SizedLog {
    type V = (LogView, nat);

    open spec fn view(&self) -> (LogView, nat) {
        (self.log@, self.size as nat)
    }
}

impl SizedLog {
    pub fn new(log: Log, size: usize) -> (res: Self)
        ensures
            res.log == log,
            res.size == size,
    {
        Self { log, size }
    }
}

impl Clone for SizedLog {
    fn clone(&self) -> (res: Self)
        ensures
            res == *self,
    {
        SizedLog { log: self.log.clone(), size: self.size }
    }
}

/// The values of a sequence of sized records, one by one.
pub open spec fn views(records: Seq<SizedLog>) -> Seq<(LogView, nat)> {
    Seq::new(records.len(), |i: int| records[i]@)
}

/// The values of a sequence of borrowed records, one by one.
pub open spec fn log_views(logs: Seq<&Log>) -> Seq<LogView> {
    Seq::new(logs.len(), |i: int| logs[i]@)
}

/// The bytes of a log, as contracts speak of them.
pub type Contents = Seq<u8>;

/// What a log of the store has to offer: a sequence of bytes that can be
/// read, extended at its end, and replaced as a whole.
///
/// The store is proved against the contracts of these methods. For an
/// implementation that is not itself verified they are what the store relies
/// on; such an implementation gives `contents` a body that is never run.
pub trait Storage: Sized {
    /// The bytes that the log holds.
    spec fn contents(&self) -> Contents;

    /// Opens the log of the given name, and creates it where there is none.
    fn new(db_name: &str) -> (res: Result<Self, KvsError>)
        ensures
            res matches Err(e) ==> e is Io,
    ;

    /// Appends `line` to the log and says how many bytes went in. Either the
    /// whole line reaches the log, or none of it.
    fn write(&mut self, line: &[u8]) -> (res: Result<usize, KvsError>)
        ensures
            match res {
                Ok(written) => {
                    &&& written == line@.len()
                    &&& final(self).contents() == old(self).contents() + line@
                    &&& final(self).contents().len() <= usize::MAX
                },
                Err(e) => e is Io && final(self).contents() == old(self).contents(),
            },
    ;

    /// All bytes of the log, from its beginning.
    fn read(&mut self) -> (res: Result<Vec<u8>, KvsError>)
        ensures
            final(self).contents() == old(self).contents(),
            match res {
                Ok(bytes) => bytes@ == old(self).contents(),
                Err(e) => e is Io,
            },
    ;

    /// Puts `image` in the place of the log. Either the log holds `image`
    /// afterwards, or it is as it was.
    fn override_storage(&mut self, image: &[u8]) -> (res: Result<(), KvsError>)
        ensures
            match res {
                Ok(_) => final(self).contents() == image@,
                Err(e) => e is Io && final(self).contents() == old(self).contents(),
            },
    ;
}

/// What an index of the store has to offer.
pub trait Cache: View<V = IndexView> + Sized {
    /// The invariant of the implementation.
    spec fn wf(&self) -> bool;

    /// An empty index.
    fn new() -> (res: Result<Self, KvsError>)
        ensures
            res matches Ok(cache) ==> cache.wf() && cache@ == IndexView::empty(),
    ;

    /// Takes note of a record that has reached the log in a line of `size`
    /// bytes. The bytes of the log have to fit the machine's range.
    fn insert(&mut self, log: Log, size: usize) -> (res: Result<(), KvsError>)
        requires
            old(self).wf(),
            old(self)@.logged + size <= usize::MAX,
        ensures
            final(self).wf(),
            res is Ok ==> final(self)@ == old(self)@.observe(log@, size as nat),
            res is Err ==> final(self)@ == old(self)@,
    ;

    /// The live record of `key`, if there is one.
    fn get(&self, key: &str) -> (res: Result<Option<Log>, KvsError>)
        requires
            self.wf(),
        ensures
            res matches Ok(found) ==> match found {
                Some(log) => self@.live.contains_key(key@) && self@.live[key@].0 == log@,
                None => !self@.live.contains_key(key@),
            },
    ;

    /// Every live record once, in no stated order.
    fn get_all(&self) -> (res: Vec<&Log>)
        requires
            self.wf(),
        ensures
            lists(log_views(res@), self@.live),
    ;

    /// The bytes of the log that hold no live record.
    fn uncompacted_space(&self) -> (res: usize)
        requires
            self.wf(),
        ensures
            res == self@.uncompacted,
    ;

    /// Takes note that the log was rewritten to hold the live records only.
    fn reset_after_compaction(&mut self)
        requires
            old(self).wf(),
        ensures
            final(self).wf(),
            final(self)@ == old(self)@.reset(),
    ;
}

/// Whether `error` is the one that a failed write owes: that of the storage,
/// `Io`, where what was to be written fits, and `InvalidArgument` where it
/// does not and so was never handed to the storage.
pub open spec fn owed(error: KvsError, fit: bool) -> bool {
    if fit {
        error is Io
    } else {
        error is InvalidArgument
    }
}

/// The bytes of uncompacted log from which on a store compacts, unless it
/// was opened with another threshold: 1 MiB.
pub const COMPACTION_THRESHOLD: usize = 1048576;

/// A key-value store: an index in memory over a log of records.
pub struct KvStore<S: Storage> {
    storage: S,
    cache: InMemoryMapCache,
    threshold: usize,
}

impl<S: Storage> View for KvStore<S> {
    type V = Map<Seq<char>, Seq<char>>;

    /// The live keys, each with the value it maps to.
    closed spec fn view(&self) -> Map<Seq<char>, Seq<char>> {
        self.cache@.values()
    }
}

impl<S: Storage> KvStore<S> {
    /// The bytes of the log.
    pub closed spec fn log(&self) -> Seq<u8> {
        self.storage.contents()
    }

    /// The value of the index.
    pub closed spec fn index(&self) -> IndexView {
        self.cache@
    }

    /// The bytes of uncompacted log from which on the store compacts.
    pub closed spec fn threshold(&self) -> usize {
        self.threshold
    }

    /// The log is sound, and the index is the one that replaying the log
    /// leads to.
    pub closed spec fn wf(&self) -> bool {
        &&& self.cache.wf()
        &&& parsed(self.storage.contents()) is Ok
        &&& self.cache@ == replayed(parsed(self.storage.contents())->Ok_0)
    }

    /// Whether every live record can be written anew.
    pub open spec fn live_fit(&self) -> bool {
        forall|key: Seq<char>| #[trigger]
            self.index().live.contains_key(key) ==> fits(self.index().live[key].0)
    }

    /// Whether the log holds the live records and nothing else: no byte is
    /// uncompacted, the log is the image of the live records in some order,
    /// and the index has each of them with the length of its line there.
    pub open spec fn compact(&self) -> bool {
        &&& self.index().uncompacted == 0
        &&& exists|list: Seq<LogView>|
            {
                &&& lists(list, self.index().live)
                &&& #[trigger] image(list) == self.log()
            }
        &&& forall|key: Seq<char>| #[trigger]
            self.index().live.contains_key(key) ==> self.index().live[key].1 == encoded(
                self.index().live[key].0,
            ).len()
    }

    /// Replay equivalence: the index of a well-formed store is the one that
    /// replaying its log leads to, and what the store maps each key to is
    /// read off that index. Two stores over equal logs agree on every key.
    pub proof fn lemma_replay(&self)
        requires
            self.wf(),
        ensures
            parsed(self.log()) is Ok,
            self.index() == replayed(parsed(self.log())->Ok_0),
            self.index().wf(),
            self.index().logged == self.log().len(),
            self@ == self.index().values(),
    {
        lemma_replayed_wf(parsed(self.log())->Ok_0);
        lemma_parsed_total(self.log());
    }

    /// The index against the log, key by key: a key is live exactly where
    /// the most recent record of the log that speaks of it is a `Put`, and
    /// then maps to the value of that `Put`.
    pub proof fn lemma_latest(&self, key: Seq<char>)
        requires
            self.wf(),
        ensures
            match latest(parsed(self.log())->Ok_0, key) {
                Some((LogView::Put(_, value), _)) => self@.contains_key(key) && self@[key]
                    == value,
                Some((LogView::Remove(_), _)) => !self@.contains_key(key),
                None => !self@.contains_key(key),
            },
    {
        lemma_replayed_latest(parsed(self.log())->Ok_0, key);
    }

    /// The count of uncompacted bytes against the log: it is the bytes of
    /// the lines that the index does not refer to.
    pub proof fn lemma_accounting(&self)
        requires
            self.wf(),
        ensures
            self.index().uncompacted == superseded(
                parsed(self.log())->Ok_0,
                parsed(self.log())->Ok_0.len(),
            ),
    {
        lemma_replayed_uncompacted(parsed(self.log())->Ok_0);
    }

    /// A store over an empty log maps no key to anything.
    pub proof fn lemma_empty(&self)
        requires
            self.wf(),
            self.log().len() == 0,
        ensures
            self.index() == IndexView::empty(),
            self@ == Map::<Seq<char>, Seq<char>>::empty(),
    {
    }

    /// A compact store has a log that is as long as the lines of its live
    /// records are together.
    pub proof fn lemma_compact_len(&self)
        requires
            self.wf(),
            self.compact(),
        ensures
            exists|list: Seq<LogView>|
                lists(list, self.index().live) && self.log().len() == #[trigger] total(
                    sized(list),
                ),
    {
        let list = choose|list: Seq<LogView>|
            lists(list, self.index().live) && #[trigger] image(list) == self.log();
        lemma_image_len(list);
    }

    /// Durability: a store that is opened over the log that another store
    /// has left maps every key to what that store mapped it to.
    pub proof fn lemma_reopen(&self, reopened: &Self)
        requires
            self.wf(),
            reopened.wf(),
            reopened.log() == self.log(),
        ensures
            reopened.index() == self.index(),
            reopened@ == self@,
    {
    }

    /// Crash safety: let a compaction of `self` be cut short after any
    /// number of its steps on disk, with `compacted` the store that it was
    /// to leave. A store that is then opened over what the open finds maps
    /// every key to what `self` mapped it to.
    pub proof fn lemma_crash_recovery(
        &self,
        compacted: &Self,
        reopened: &Self,
        stale: Option<Seq<u8>>,
        done: nat,
    )
        requires
            self.wf(),
            compacted.wf(),
            compacted@ == self@,
            done <= 6,
            reopened.wf(),
            reopened.log() == (Files { log: Some(self.log()), new: stale, old: None }).after_steps(
                done,
                compacted.log(),
            ).opened(),
        ensures
            reopened@ == self@,
    {
        lemma_crash_safety(self.log(), stale, compacted.log(), done);
        if done <= 2 {
            self.lemma_reopen(reopened);
        } else {
            compacted.lemma_reopen(reopened);
        }
    }

    /// Opens the store of the given name with the threshold of 1 MiB.
    pub fn new(db: &str) -> (res: Result<Self, KvsError>)
        ensures
            match res {
                Ok(store) => store.wf() && store.threshold() == COMPACTION_THRESHOLD,
                Err(e) => e is Io || e is Serde || e is Malformed,
            },
    {
        match S::new(db) {
            Ok(storage) => Self::open(storage, COMPACTION_THRESHOLD),
            Err(e) => Err(e),
        }
    }

    /// Opens the store over a log: replays the log into a fresh index. Where
    /// the log is not sound the call fails, with the fault of the first line
    /// that is no record.
    pub fn open(storage: S, threshold: usize) -> (res: Result<Self, KvsError>)
        ensures
            match res {
                Ok(store) => {
                    &&& store.wf()
                    &&& store.log() == storage.contents()
                    &&& store.threshold() == threshold
                },
                Err(KvsError::Io(_)) => true,
                Err(KvsError::Malformed) => parsed(storage.contents()) == Err::<
                    Seq<(LogView, nat)>,
                    Fault,
                >(Fault::Malformed),
                Err(KvsError::Serde(_)) => parsed(storage.contents()) == Err::<
                    Seq<(LogView, nat)>,
                    Fault,
                >(Fault::Payload),
                Err(_) => false,
            },
    {
        let mut storage = storage;
        match Self::cache_logs(&mut storage) {
            Ok(cache) => Ok(KvStore { storage, cache, threshold }),
            Err(e) => Err(e),
        }
    }

    /// Reads the log and observes each of its records in a fresh index.
    fn cache_logs(storage: &mut S) -> (res: Result<InMemoryMapCache, KvsError>)
        ensures
            final(storage).contents() == old(storage).contents(),
            match res {
                Ok(cache) => {
                    &&& cache.wf()
                    &&& parsed(old(storage).contents()) is Ok
                    &&& cache@ == replayed(parsed(old(storage).contents())->Ok_0)
                },
                Err(KvsError::Io(_)) => true,
                Err(KvsError::Malformed) => parsed(old(storage).contents()) == Err::<
                    Seq<(LogView, nat)>,
                    Fault,
                >(Fault::Malformed),
                Err(KvsError::Serde(_)) => parsed(old(storage).contents()) == Err::<
                    Seq<(LogView, nat)>,
                    Fault,
                >(Fault::Payload),
                Err(_) => false,
            },
    {
        let bytes = match storage.read() {
            Ok(bytes) => bytes,
            Err(e) => {
                return Err(e);
            },
        };
        let records = match scan(bytes.as_slice()) {
            Ok(records) => records,
            Err(e) => {
                return Err(e);
            },
        };
        proof {
            lemma_parsed_total(bytes@);
            vstd::std_specs::vec::axiom_spec_len(&bytes);
        }
        InMemoryMapCache::replay(&records)
    }

    /// The value that `key` maps to, `KeyNotFound` where the key is not live.
    /// The log is not read.
    pub fn get(&self, key: &str) -> (res: Result<String, KvsError>)
        requires
            self.wf(),
        ensures
            match res {
                Ok(value) => self@.contains_key(key@) && self@[key@] == value@,
                Err(e) => e is KeyNotFound && !self@.contains_key(key@),
            },
    {
        proof {
            self.cache.lemma_inv();
        }
        match self.cache.get(key) {
            Ok(Some(Log::Put(_, value))) => Ok(value),
            _ => Err(KvsError::KeyNotFound),
        }
    }

    /// Reads the log for the most recent record that speaks of `key`. The
    /// index already answers for it: the key is live exactly where that
    /// record is a `Put`.
    pub fn _get_from_db(&mut self, key: &str) -> (res: Result<Option<SizedLog>, KvsError>)
        requires
            old(self).wf(),
        ensures
            final(self).wf(),
            final(self).threshold() == old(self).threshold(),
            final(self).log() == old(self).log(),
            final(self).index() == old(self).index(),
            final(self)@ == old(self)@,
            match res {
                Ok(Some(record)) => {
                    &&& latest(parsed(old(self).log())->Ok_0, key@) == Some(record@)
                    &&& record.log is Put <==> old(self)@.contains_key(key@)
                },
                Ok(None) => {
                    &&& latest(parsed(old(self).log())->Ok_0, key@) is None
                    &&& !old(self)@.contains_key(key@)
                },
                Err(e) => e is Io,
            },
    {
        proof {
            self.lemma_latest(key@);
        }
        let bytes = match self.storage.read() {
            Ok(bytes) => bytes,
            Err(e) => {
                return Err(e);
            },
        };
        match scan(bytes.as_slice()) {
            Ok(records) => Ok(latest_record(&records, key)),
            Err(e) => Err(e),
        }
    }

    /// Appends one record to the log and, once it is there, observes it in
    /// the index. A record that does not fit is refused before anything is
    /// written. Where the record does not reach the log nothing changes.
    fn append(&mut self, log: Log) -> (res: Result<(), KvsError>)
        requires
            old(self).wf(),
        ensures
            final(self).wf(),
            final(self).threshold() == old(self).threshold(),
            match res {
                Ok(_) => {
                    &&& fits(log@)
                    &&& final(self).log() == old(self).log() + encoded(log@)
                    &&& final(self).index() == old(self).index().observe(
                        log@,
                        encoded(log@).len(),
                    )
                },
                Err(e) => {
                    &&& owed(e, fits(log@))
                    &&& final(self).log() == old(self).log()
                    &&& final(self).index() == old(self).index()
                },
            },
    {
        let line = match encode(&log) {
            Ok(line) => line,
            Err(e) => {
                return Err(e);
            },
        };
        let ghost records = parsed(self.storage.contents())->Ok_0;
        proof {
            lemma_parsed_append(self.storage.contents(), line@);
            lemma_parsed_total(self.storage.contents());
            lemma_replayed_wf(records);
            assert(records.push((log@, line@.len())).drop_last() =~= records);
        }
        let size = match self.storage.write(line.as_slice()) {
            Ok(size) => size,
            Err(e) => {
                return Err(e);
            },
        };
        self.cache.insert(log, size)
    }

    /// Compaction: rewrites the log to hold the live records and nothing
    /// else, and rebuilds the index from the new log. What the store maps
    /// each key to stays as it was. Where a live record does not fit, the
    /// call fails with `InvalidArgument` before anything is written. Where
    /// the new log cannot be put in place, nothing changes.
    pub fn compress_storage(&mut self) -> (res: Result<(), KvsError>)
        requires
            old(self).wf(),
        ensures
            final(self).wf(),
            final(self).threshold() == old(self).threshold(),
            final(self)@ == old(self)@,
            match res {
                Ok(_) => old(self).live_fit() && final(self).compact(),
                Err(e) => {
                    &&& owed(e, old(self).live_fit())
                    &&& final(self).log() == old(self).log()
                    &&& final(self).index() == old(self).index()
                },
            },
    {
        let ghost before = self.cache@;
        let live = self.cache.get_all();
        let ghost list = log_views(live@);
        proof {
            // Every live record is listed, and nothing else is.
            if all_fit(list) {
                assert forall|key: Seq<char>| #[trigger] before.live.contains_key(key) implies fits(
                    before.live[key].0,
                ) by {
                    let i = choose|i: int| 0 <= i < list.len() && #[trigger] list[i].key() == key;
                    assert(fits(list[i]));
                }
                assert(self.live_fit());
            } else {
                let i = choose|i: int| 0 <= i < list.len() && !fits(#[trigger] list[i]);
                let key = list[i].key();
                assert(before.live.contains_key(key) && before.live[key].0 == list[i]);
                assert(self.index().live.contains_key(key) && !fits(self.index().live[key].0));
                assert(!self.live_fit());
            }
        }
        let (bytes, records) = match snapshot(&live) {
            Ok(pair) => pair,
            Err(e) => {
                return Err(e);
            },
        };
        match self.storage.override_storage(bytes.as_slice()) {
            Ok(_) => {},
            Err(e) => {
                return Err(e);
            },
        }
        proof {
            lemma_parsed_total(bytes@);
            vstd::std_specs::vec::axiom_spec_len(&bytes);
        }
        let mut cache = match InMemoryMapCache::replay(&records) {
            Ok(cache) => cache,
            Err(e) => {
                return Err(e);
            },
        };
        proof {
            self.cache.lemma_inv();
            // The new log holds a `Put` for each live key and nothing else.
            let fresh = sized(list);
            assert(distinct_puts(fresh)) by {
                assert forall|i: int| 0 <= i < fresh.len() implies (#[trigger] fresh[i]).0 is Put by {
                    assert(before.live.contains_key(list[i].key()));
                }
            }
            lemma_replayed_distinct(fresh);
            // So its index has the live records of before, and those only.
            let after = cache@;
            assert forall|key: Seq<char>| #[trigger] after.live.contains_key(key) implies before.live.contains_key(
                key,
            ) && after.live[key].0 == before.live[key].0 by {
                let i = choose|i: int| 0 <= i < fresh.len() && (#[trigger] fresh[i]).0.key() == key;
                assert(fresh[i].0 == list[i]);
            }
            assert forall|key: Seq<char>| #[trigger] before.live.contains_key(key) implies after.live.contains_key(
                key,
            ) by {
                let i = choose|i: int| 0 <= i < list.len() && #[trigger] list[i].key() == key;
                assert(fresh[i].0 == list[i]);
            }
            assert(after.values() =~= before.values());
            assert(lists(list, after.live));
        }
        cache.reset_after_compaction();
        self.cache = cache;
        Ok(())
    }

    /// Compacts where the uncompacted bytes have reached the threshold.
    fn compress_if_due(&mut self) -> (res: Result<(), KvsError>)
        requires
            old(self).wf(),
        ensures
            final(self).wf(),
            final(self).threshold() == old(self).threshold(),
            final(self)@ == old(self)@,
            match res {
                Ok(_) => if old(self).index().uncompacted >= old(self).threshold() {
                    final(self).compact()
                } else {
                    final(self).log() == old(self).log() && final(self).index() == old(
                        self,
                    ).index()
                },
                Err(e) => {
                    &&& owed(e, old(self).live_fit())
                    &&& old(self).index().uncompacted >= old(self).threshold()
                    &&& final(self).log() == old(self).log()
                    &&& final(self).index() == old(self).index()
                },
            },
    {
        if self.cache.uncompacted_space() >= self.threshold {
            self.compress_storage()
        } else {
            Ok(())
        }
    }

    /// What `set` and `remove` leave behind once `record` has reached the
    /// log of `before`: the log with the record's line at its end and the
    /// index that has observed it, or, where by then the uncompacted bytes
    /// have reached the threshold, a compact store.
    pub open spec fn written(before: &Self, record: LogView, after: &Self) -> bool {
        let index = before.index().observe(record, encoded(record).len());
        &&& after@ == index.values()
        &&& if index.uncompacted >= before.threshold() {
            after.compact()
        } else {
            after.log() == before.log() + encoded(record) && after.index() == index
        }
    }

    /// What `set` and `remove` leave behind where they fail with `error`.
    /// Either nothing has changed: the record did not fit, or the storage
    /// did not take it. Or the record has reached the log and was observed,
    /// and the compaction that was due then failed: a live record did not
    /// fit, or the storage did not take the new log.
    pub open spec fn failed(
        before: &Self,
        record: LogView,
        after: &Self,
        error: KvsError,
    ) -> bool {
        let index = before.index().observe(record, encoded(record).len());
        ||| {
            &&& owed(error, fits(record))
            &&& after.log() == before.log()
            &&& after.index() == before.index()
        }
        ||| {
            &&& fits(record)
            &&& owed(error, after.live_fit())
            &&& index.uncompacted >= before.threshold()
            &&& after.log() == before.log() + encoded(record)
            &&& after.index() == index
        }
    }

    /// Maps `key` to `value`: appends `Put(key, value)` to the log, observes
    /// it, and compacts where that is due. A key and a value whose record
    /// does not fit are refused with `InvalidArgument`, and nothing changes.
    pub fn set(&mut self, key: &str, value: &str) -> (res: Result<(), KvsError>)
        requires
            old(self).wf(),
        ensures
            final(self).wf(),
            final(self).threshold() == old(self).threshold(),
            same_but(old(self)@, final(self)@, key@),
            match res {
                Ok(_) => {
                    &&& fits(LogView::Put(key@, value@))
                    &&& final(self)@ == old(self)@.insert(key@, value@)
                    &&& Self::written(old(self), LogView::Put(key@, value@), final(self))
                },
                Err(e) => Self::failed(old(self), LogView::Put(key@, value@), final(self), e),
            },
    {
        let log = Log::Put(key.to_owned(), value.to_owned());
        proof {
            lemma_put_then_value(self.cache@, key@, value@, encoded(log@).len());
        }
        match self.append(log) {
            Ok(_) => {},
            Err(e) => {
                return Err(e);
            },
        }
        self.compress_if_due()
    }

    /// Removes `key`. Where the key is not live the call fails with
    /// `KeyNotFound` and nothing reaches the log. Otherwise it appends
    /// `Remove(key)` to the log, observes it, and compacts where that is due.
    pub fn remove(&mut self, key: &str) -> (res: Result<(), KvsError>)
        requires
            old(self).wf(),
        ensures
            final(self).wf(),
            final(self).threshold() == old(self).threshold(),
            same_but(old(self)@, final(self)@, key@),
            match res {
                Ok(_) => {
                    &&& old(self)@.contains_key(key@)
                    &&& fits(LogView::Remove(key@))
                    &&& final(self)@ == old(self)@.remove(key@)
                    &&& Self::written(old(self), LogView::Remove(key@), final(self))
                },
                Err(KvsError::KeyNotFound) => {
                    &&& !old(self)@.contains_key(key@)
                    &&& final(self).log() == old(self).log()
                    &&& final(self).index() == old(self).index()
                },
                Err(e) => {
                    &&& old(self)@.contains_key(key@)
                    &&& Self::failed(old(self), LogView::Remove(key@), final(self), e)
                },
            },
    {
        match self.get(key) {
            Ok(_) => {},
            Err(e) => {
                return Err(e);
            },
        }
        let log = Log::Remove(key.to_owned());
        proof {
            lemma_remove_then_none(self.cache@, key@, encoded(log@).len());
        }
        match self.append(log) {
            Ok(_) => {},
            Err(e) => {
                return Err(e);
            },
        }
        self.compress_if_due()
    }

    /// The bytes of the log that hold no live record.
    pub fn uncompacted_space(&self) -> (res: usize)
        requires
            self.wf(),
        ensures
            res == self.index().uncompacted,
    {
        self.cache.uncompacted_space()
    }

    /// Gives up the store for its log.
    pub fn into_storage(self) -> (res: S)
        ensures
            res.contents() == self.log(),
    {
        self.storage
    }
}

} // verus!
