//! syncless: ordered, atomic storage without durability guarantees.
//!
//! A store is an append-only log of checksummed records behind a 12-byte
//! header.  The log is replayed into an interval map of spans, which projects
//! the records onto a dense, zero-filled logical byte space.
//!
//! This crate never touches a file itself.  Every operation is handed the
//! bytes of the backing file as its caller last read them, and appends to
//! them what has to be written; reading and writing the file is the caller's
//! part.  A torn tail, a damaged record or a stale read is therefore an input
//! like any other, and each contract says what becomes of it.
//!
//! - [`header`] and [`record`] are the file format: the header, and the
//!   records with their checksums.
//! - [`span`] is the interval map, and [`log`] the replay of a file's
//!   records into it.
//! - [`store`] holds the store itself: opening, reading, writing,
//!   validating.  [`model`] is what its contracts are stated in.
//! - [`laws`] states what holds over any run of operations: the last writer
//!   wins, a reopened file shows the same view, a cut file shows a
//!   beginning of the log.
use std::marker::PhantomData;
use vstd::prelude::*;

pub mod bytes;
pub mod header;
pub mod laws;
pub mod log;
pub mod model;
pub mod record;
pub mod span;
pub mod store;

pub use crate::store::{open, open_readonly, StoreBase};

verus! {

/// `std::io::Error`, the file system's own error.  The library makes none
/// and reads none: a value of it is only carried in `Error::Io`.
#[verifier::external_type_specification]
#[verifier::external_body]
pub struct ExIoError(std::io::Error);

/// Errors from our functions.
#[derive(Debug)]
pub enum Error {
    /// Underlying filesystem issue (ENOENT, ENOSPC, etc).
    Io(std::io::Error),
    /// Open: not a file created by Syncless.
    NotSyncless,
    /// Open: a future version of Syncless, which says we're not compatible.
    UnsupportedVersion,
    /// Read: we just wrote a record, and it wasn't valid when we read it back.
    /// This should not happen.
    CorruptRecord,
}

impl From<std::io::Error> for Error {
    fn from(err: std::io::Error) -> (e: Self) {
        Error::Io(err)
    }
}

impl vstd::std_specs::convert::FromSpecImpl<std::io::Error> for Error {
    open spec fn obeys_from_spec() -> bool {
        true
    }

    open spec fn from_spec(err: std::io::Error) -> Self {
        Error::Io(err)
    }
}

/// Store comes in two flavors: ReadOnly and Writable.
pub struct Store<M> {
    base: StoreBase,
    writable: bool,
    _mode: PhantomData<M>,
}

/// Marks a store that only reads.
pub struct ReadOnly;

/// Marks a store that may append.
pub struct Writable;

/// How to open the Syncless store file:
pub enum WriteOpenMode {
    /// Must exist, must be a Syncless store file.
    MustExist,
    /// Must not exist.
    MustNotExist,
    /// Must not exist or be a Syncless store file.
    MayExist,
}

impl WriteOpenMode {
    /// Whether opening in this mode creates the file where there is none.
    pub fn create(&self) -> (yes: bool)
        ensures
            yes == (*self is MayExist),
    {
        match self {
            WriteOpenMode::MustExist => false,
            WriteOpenMode::MustNotExist => false,
            WriteOpenMode::MayExist => true,
        }
    }

    /// Whether opening in this mode must create the file, and fails where
    /// there is one already.
    pub fn create_new(&self) -> (yes: bool)
        ensures
            yes == (*self is MustNotExist),
    {
        match self {
            WriteOpenMode::MustExist => false,
            WriteOpenMode::MustNotExist => true,
            WriteOpenMode::MayExist => false,
        }
    }
}

} // verus!
