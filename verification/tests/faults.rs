use kvs::kv::Contents;
use kvs::{KvStore, KvsError, MemoryStorage, Storage};
use std::cell::Cell;
use std::io::{Error, ErrorKind};
use std::rc::Rc;

/// Which calls of a `Flaky` log fail.
#[derive(Default)]
struct Faults {
    open: Cell<bool>,
    write: Cell<bool>,
    read: Cell<bool>,
    replace: Cell<bool>,
}

/// A log in memory whose calls fail on demand, without touching the bytes.
struct Flaky {
    bytes: MemoryStorage,
    faults: Rc<Faults>,
}

fn failure(what: &str) -> KvsError {
    KvsError::Io(Error::new(ErrorKind::Other, what.to_owned()))
}

impl Flaky {
    fn over(bytes: &[u8]) -> (Flaky, Rc<Faults>) {
        let faults = Rc::new(Faults::default());
        let flaky = Flaky { bytes: MemoryStorage::from_bytes(bytes.to_vec()), faults: faults.clone() };
        (flaky, faults)
    }
}

impl Storage for Flaky {
    fn contents(&self) -> Contents {
        unreachable!()
    }

    fn new(_db_name: &str) -> Result<Self, KvsError> {
        Err(failure("open"))
    }

    fn write(&mut self, line: &[u8]) -> Result<usize, KvsError> {
        if self.faults.write.get() {
            return Err(failure("write"));
        }
        self.bytes.write(line)
    }

    fn read(&mut self) -> Result<Vec<u8>, KvsError> {
        if self.faults.read.get() {
            return Err(failure("read"));
        }
        self.bytes.read()
    }

    fn override_storage(&mut self, image: &[u8]) -> Result<(), KvsError> {
        if self.faults.replace.get() {
            return Err(failure("replace"));
        }
        self.bytes.override_storage(image)
    }
}

#[test]
fn new_hands_on_the_failure_of_the_log() {
    assert!(matches!(KvStore::<Flaky>::new("any"), Err(KvsError::Io(_))));
}

#[test]
fn open_hands_on_the_failure_of_reading() {
    let (log, faults) = Flaky::over(b"{\"Set\":[\"k\",\"v\"]}\n");
    faults.read.set(true);
    assert!(!faults.open.get());
    assert!(matches!(KvStore::open(log, 1024), Err(KvsError::Io(_))));
}

#[test]
fn failed_append_leaves_index_and_log_unchanged() {
    let (log, faults) = Flaky::over(b"{\"Set\":[\"k\",\"v1\"]}\n");
    let mut store = KvStore::open(log, 1024).unwrap();
    faults.write.set(true);
    assert!(matches!(store.set("k", "v2"), Err(KvsError::Io(_))));
    assert!(matches!(store.set("j", "v3"), Err(KvsError::Io(_))));
    assert!(matches!(store.remove("k"), Err(KvsError::Io(_))));
    assert_eq!(store.get("k").unwrap(), "v1");
    assert!(matches!(store.get("j"), Err(KvsError::KeyNotFound)));
    assert_eq!(store.uncompacted_space(), 0);
    // An absent key is found absent before anything is written.
    assert!(matches!(store.remove("j"), Err(KvsError::KeyNotFound)));
    faults.write.set(false);
    store.set("k", "v2").unwrap();
    assert_eq!(store.get("k").unwrap(), "v2");
    assert_eq!(
        store.into_storage().bytes.into_bytes(),
        b"{\"Set\":[\"k\",\"v1\"]}\n{\"Set\":[\"k\",\"v2\"]}\n".to_vec()
    );
}

#[test]
fn failed_compaction_keeps_the_appended_record() {
    let (log, faults) = Flaky::over(b"");
    let mut store = KvStore::open(log, 19).unwrap();
    store.set("k", "v1").unwrap();
    faults.replace.set(true);
    // The record is appended and observed; the compaction that is due fails.
    assert!(matches!(store.set("k", "v2"), Err(KvsError::Io(_))));
    assert_eq!(store.get("k").unwrap(), "v2");
    assert_eq!(store.uncompacted_space(), 19);
    assert!(matches!(store.compress_storage(), Err(KvsError::Io(_))));
    assert_eq!(store.get("k").unwrap(), "v2");
    assert_eq!(store.uncompacted_space(), 19);
    faults.replace.set(false);
    store.set("j", "v3").unwrap();
    assert_eq!(store.uncompacted_space(), 0);
    assert_eq!(store.get("k").unwrap(), "v2");
    assert_eq!(store.get("j").unwrap(), "v3");
    assert_eq!(store.into_storage().bytes.into_bytes().len(), 38);
}

#[test]
fn failed_read_of_the_log_leaves_the_store_as_it_was() {
    let (log, faults) = Flaky::over(b"{\"Set\":[\"k\",\"v1\"]}\n");
    let mut store = KvStore::open(log, 1024).unwrap();
    faults.read.set(true);
    assert!(matches!(store._get_from_db("k"), Err(KvsError::Io(_))));
    assert_eq!(store.get("k").unwrap(), "v1");
    faults.read.set(false);
    assert!(store._get_from_db("k").unwrap().is_some());
}
