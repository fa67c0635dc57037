//! The errors that the store hands to its callers.

use vstd::prelude::*;

verus! {

/// `serde_json::Error`, carried through as an opaque value.
#[verifier::external_type_specification]
#[verifier::external_body]
pub struct ExJsonError(serde_json::Error);

/// `std::io::Error`, carried through as an opaque value.
#[verifier::external_type_specification]
#[verifier::external_body]
pub struct ExIoError(std::io::Error);

/// What can go wrong while working with a store.
#[derive(Debug)]
pub enum KvsError {
    /// The storage backend failed to read, write or replace the log.
    Io(std::io::Error),
    /// serde_json refused the payload of a record.
    Serde(serde_json::Error),
    /// A line of the log does not have the shape of a record, or holds more
    /// than a record may.
    Malformed,
    /// The key is not live: it was never set, or it was removed.
    KeyNotFound,
    /// The key and the value make a record that is too long to be written.
    InvalidArgument,
}

impl From<std::io::Error> for KvsError {
    fn from(err: std::io::Error) -> (res: KvsError) {
        KvsError::Io(err)
    }
}

impl vstd::std_specs::convert::FromSpecImpl<std::io::Error> for KvsError {
    open spec fn obeys_from_spec() -> bool {
        true
    }

    open spec fn from_spec(err: std::io::Error) -> KvsError {
        KvsError::Io(err)
    }
}

impl From<serde_json::Error> for KvsError {
    fn from(err: serde_json::Error) -> (res: KvsError) {
        KvsError::Serde(err)
    }
}

impl vstd::std_specs::convert::FromSpecImpl<serde_json::Error> for KvsError {
    open spec fn obeys_from_spec() -> bool {
        true
    }

    open spec fn from_spec(err: serde_json::Error) -> KvsError {
        KvsError::Serde(err)
    }
}

} // verus!
