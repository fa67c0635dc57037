use kvs::recovery::{after_failure, recovery, Failure, Recovery, SwapStep};
use kvs::storage::snapshot;
use kvs::{Cache, InMemoryMapCache, KvStore, KvsError, Log, MemoryStorage, SizedLog, Storage};

fn put(key: &str, value: &str) -> Log {
    Log::Put(key.to_owned(), value.to_owned())
}

fn remove(key: &str) -> Log {
    Log::Remove(key.to_owned())
}

fn sorted(mut logs: Vec<Log>) -> Vec<Log> {
    logs.sort_by(|x, y| x.key().cmp(y.key()));
    logs
}

fn all_of(cache: &InMemoryMapCache) -> Vec<Log> {
    sorted(cache.get_all().into_iter().cloned().collect())
}

#[test]
fn new_cache_is_empty() {
    let cache = InMemoryMapCache::new().unwrap();
    assert_eq!(cache.uncompacted_space(), 0);
    assert!(cache.get_all().is_empty());
    assert_eq!(cache.get("k").unwrap(), None);
}

#[test]
fn insert_of_a_fresh_key_counts_nothing() {
    let mut cache = InMemoryMapCache::new().unwrap();
    cache.insert(put("a", "1"), 10).unwrap();
    cache.insert(put("b", "2"), 20).unwrap();
    assert_eq!(cache.uncompacted_space(), 0);
    assert_eq!(cache.get("a").unwrap(), Some(put("a", "1")));
    assert_eq!(cache.get("b").unwrap(), Some(put("b", "2")));
    assert_eq!(cache.get("c").unwrap(), None);
}

#[test]
fn insert_over_a_live_key_counts_the_displaced_line() {
    let mut cache = InMemoryMapCache::new().unwrap();
    cache.insert(put("a", "1"), 10).unwrap();
    cache.insert(put("a", "2"), 7).unwrap();
    assert_eq!(cache.uncompacted_space(), 10);
    cache.insert(put("a", "3"), 5).unwrap();
    assert_eq!(cache.uncompacted_space(), 17);
    assert_eq!(cache.get("a").unwrap(), Some(put("a", "3")));
    assert_eq!(all_of(&cache), vec![put("a", "3")]);
}

#[test]
fn insert_of_a_tombstone_counts_itself_and_the_displaced_line() {
    let mut cache = InMemoryMapCache::new().unwrap();
    cache.insert(put("a", "1"), 10).unwrap();
    cache.insert(remove("a"), 4).unwrap();
    assert_eq!(cache.uncompacted_space(), 14);
    assert_eq!(cache.get("a").unwrap(), None);
    assert!(cache.get_all().is_empty());
}

#[test]
fn insert_of_a_tombstone_for_an_absent_key_counts_itself() {
    let mut cache = InMemoryMapCache::new().unwrap();
    cache.insert(put("a", "1"), 10).unwrap();
    cache.insert(remove("b"), 4).unwrap();
    assert_eq!(cache.uncompacted_space(), 4);
    assert_eq!(cache.get("a").unwrap(), Some(put("a", "1")));
}

#[test]
fn removal_keeps_the_other_keys_in_place() {
    let mut cache = InMemoryMapCache::new().unwrap();
    for (i, key) in ["a", "b", "c", "d", "e"].iter().enumerate() {
        cache.insert(put(key, "x"), 10 + i).unwrap();
    }
    cache.insert(remove("a"), 1).unwrap();
    cache.insert(remove("e"), 1).unwrap();
    cache.insert(remove("c"), 1).unwrap();
    assert_eq!(cache.uncompacted_space(), 3 + 10 + 14 + 12);
    assert_eq!(all_of(&cache), vec![put("b", "x"), put("d", "x")]);
    assert_eq!(cache.get("b").unwrap(), Some(put("b", "x")));
    assert_eq!(cache.get("d").unwrap(), Some(put("d", "x")));
    cache.insert(put("b", "y"), 2).unwrap();
    cache.insert(put("d", "y"), 2).unwrap();
    assert_eq!(cache.uncompacted_space(), 39 + 11 + 13);
    assert_eq!(all_of(&cache), vec![put("b", "y"), put("d", "y")]);
}

#[test]
fn get_all_lists_each_live_record_once() {
    let mut cache = InMemoryMapCache::new().unwrap();
    cache.insert(put("a", "1"), 1).unwrap();
    cache.insert(put("b", "2"), 1).unwrap();
    cache.insert(put("a", "3"), 1).unwrap();
    cache.insert(put("c", "4"), 1).unwrap();
    cache.insert(remove("b"), 1).unwrap();
    assert_eq!(all_of(&cache), vec![put("a", "3"), put("c", "4")]);
}

#[test]
fn reset_after_compaction_clears_the_count_only() {
    let mut cache = InMemoryMapCache::new().unwrap();
    cache.insert(put("a", "1"), 10).unwrap();
    cache.insert(put("a", "2"), 10).unwrap();
    assert_eq!(cache.uncompacted_space(), 10);
    cache.reset_after_compaction();
    assert_eq!(cache.uncompacted_space(), 0);
    assert_eq!(cache.get("a").unwrap(), Some(put("a", "2")));
}

#[test]
fn replay_observes_the_records_in_order() {
    let records = vec![
        SizedLog::new(put("a", "1"), 10),
        SizedLog::new(put("b", "2"), 20),
        SizedLog::new(put("a", "3"), 30),
        SizedLog::new(remove("b"), 40),
        SizedLog::new(remove("z"), 50),
    ];
    let cache = InMemoryMapCache::replay(&records).unwrap();
    assert_eq!(cache.uncompacted_space(), 10 + 40 + 20 + 50);
    assert_eq!(all_of(&cache), vec![put("a", "3")]);
    let empty = InMemoryMapCache::replay(&vec![]).unwrap();
    assert_eq!(empty.uncompacted_space(), 0);
    assert!(empty.get_all().is_empty());
}

#[test]
fn sized_log_keeps_what_it_was_given() {
    let sized = SizedLog::new(put("a", "1"), 18);
    assert_eq!(sized.log, put("a", "1"));
    assert_eq!(sized.size, 18);
    assert_eq!(sized.clone(), sized);
}

#[test]
fn log_knows_its_key() {
    assert_eq!(put("a", "1").key(), "a");
    assert_eq!(remove("b").key(), "b");
    assert_eq!(put("a", "1").clone(), put("a", "1"));
}

#[test]
fn errors_come_from_their_causes() {
    let io = std::io::Error::new(std::io::ErrorKind::Other, "disk");
    assert!(matches!(KvsError::from(io), KvsError::Io(_)));
    let json = serde_json::from_str::<String>("nothing").unwrap_err();
    assert!(matches!(KvsError::from(json), KvsError::Serde(_)));
}

#[test]
fn memory_storage_appends_reads_and_replaces() {
    let mut storage = MemoryStorage::new("any").unwrap();
    assert_eq!(storage.read().unwrap(), Vec::<u8>::new());
    assert_eq!(storage.write(b"abc").unwrap(), 3);
    assert_eq!(storage.write(b"de").unwrap(), 2);
    assert_eq!(storage.read().unwrap(), b"abcde".to_vec());
    storage.override_storage(b"xy").unwrap();
    assert_eq!(storage.read().unwrap(), b"xy".to_vec());
    assert_eq!(storage.write(b"z").unwrap(), 1);
    assert_eq!(storage.into_bytes(), b"xyz".to_vec());
}

#[test]
fn swap_steps_come_in_order() {
    let mut steps = vec![SwapStep::first()];
    while let Some(step) = steps.last().unwrap().next() {
        steps.push(step);
    }
    assert_eq!(
        steps,
        vec![
            SwapStep::CreateNew,
            SwapStep::FillNew,
            SwapStep::RetireLog,
            SwapStep::PromoteNew,
            SwapStep::DeleteOld,
            SwapStep::Reopen,
        ]
    );
}

#[test]
fn recovery_follows_the_two_rules() {
    let nothing = Recovery { promote_new: false, delete_old: false };
    assert_eq!(recovery(false, false, false), nothing);
    assert_eq!(recovery(true, false, false), nothing);
    // A new log left behind beside the log stays where it is.
    assert_eq!(recovery(true, true, false), nothing);
    assert_eq!(recovery(false, true, false), Recovery { promote_new: true, delete_old: false });
    assert_eq!(recovery(false, true, true), Recovery { promote_new: true, delete_old: true });
    assert_eq!(recovery(true, false, true), Recovery { promote_new: false, delete_old: true });
    assert_eq!(recovery(true, true, true), Recovery { promote_new: false, delete_old: true });
    assert_eq!(recovery(false, false, true), nothing);
}

#[test]
fn crash_between_the_two_renames_recovers_the_new_log() {
    let mut store = KvStore::open(MemoryStorage::from_bytes(Vec::new()), 1 << 30).unwrap();
    for i in 0..100 {
        store.set(&format!("k{}", i), &format!("v{}", i)).unwrap();
    }
    for i in 0..100 {
        store.set(&format!("k{}", i), &format!("w{}", i)).unwrap();
    }
    // The new log has been written and the log retired; then the crash.
    let old = store.into_storage().into_bytes();
    let live: Vec<Log> = (0..100).map(|i| put(&format!("k{}", i), &format!("w{}", i))).collect();
    let (new, _) = snapshot(&live.iter().collect()).unwrap();
    assert!(new.len() < old.len());
    let plan = recovery(false, true, true);
    assert!(plan.promote_new && plan.delete_old);
    let store = KvStore::open(MemoryStorage::from_bytes(new), 1 << 30).unwrap();
    assert_eq!(store.uncompacted_space(), 0);
    for i in 0..100 {
        assert_eq!(store.get(&format!("k{}", i)).unwrap(), format!("w{}", i));
    }
}

#[test]
fn get_from_db_finds_the_most_recent_record() {
    let mut store = KvStore::open(MemoryStorage::from_bytes(Vec::new()), 1 << 30).unwrap();
    store.set("a", "1").unwrap();
    store.set("b", "2").unwrap();
    store.set("a", "3").unwrap();
    store.remove("b").unwrap();
    assert_eq!(store._get_from_db("a").unwrap(), Some(SizedLog::new(put("a", "3"), 18)));
    assert_eq!(store._get_from_db("b").unwrap(), Some(SizedLog::new(remove("b"), 15)));
    assert_eq!(store._get_from_db("c").unwrap(), None);
    assert_eq!(store.get("a").unwrap(), "3");
}

#[test]
fn failure_of_a_step_is_given_up_before_the_log_is_retired() {
    assert_eq!(after_failure(SwapStep::CreateNew), Failure::GiveUp);
    assert_eq!(after_failure(SwapStep::FillNew), Failure::GiveUp);
    assert_eq!(after_failure(SwapStep::RetireLog), Failure::GiveUp);
    assert_eq!(after_failure(SwapStep::PromoteNew), Failure::Finish);
    assert_eq!(after_failure(SwapStep::DeleteOld), Failure::Finish);
    assert_eq!(after_failure(SwapStep::Reopen), Failure::Finish);
}
