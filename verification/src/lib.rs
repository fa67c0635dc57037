//! An embedded key-value store over an append-only log of records.
//!
//! Every write is appended to the log as one line of text; reads are served
//! from an index held in memory; compaction rewrites the log so that it holds
//! the live records only.

pub mod cache;
pub mod codec;
pub mod error;
pub mod kv;
pub mod model;
pub mod recovery;
pub mod storage;

pub use error::KvsError;
pub use cache::InMemoryMapCache;
pub use kv::{Cache, KvStore, Log, LogView, SizedLog, Storage};
pub use storage::MemoryStorage;
