//! Error types surfaced by the tracker core.

use vstd::prelude::*;
use vstd::string::StringExecFns;

verus! {

/// Top-level application error.
#[derive(Clone, Copy, Debug, PartialEq, Eq)]
pub struct AppError;

/// Command-line error used by tests of the driver layer.
#[derive(Clone, Copy, Debug, PartialEq, Eq)]
pub struct CliErrorTest;

/// The error kinds of the tracker core.
///
/// The variants that the verified code itself produces are `ActiveTimer`
/// (`start` while the lockfile exists), `InactiveTimer` (`stop` while it does
/// not) and `JsonParseError` (the database bytes are not a well-formed
/// encoding). The remaining variants describe failures of the file layer;
/// the caller that performs the reads and writes maps its I/O errors to them.
#[derive(Clone, Copy, Debug, PartialEq, Eq)]
pub enum FlatFileError {
    /// `start` was called while a timer is already running.
    ActiveTimer,
    /// `stop` was called while no timer is running.
    InactiveTimer,
    /// The lockfile could not be created, opened, locked or removed.
    LockFileError,
    /// The database file could not be created or opened.
    DbFileError,
    /// The database file could not be read.
    ReadError,
    /// The database file could not be written.
    WriteError,
    /// The database bytes are not a well-formed encoding of a record sequence.
    JsonParseError,
    /// A record sequence could not be serialized.
    JsonSerializeError,
}

/// The human-readable description of each error kind.
pub open spec fn spec_message(e: FlatFileError) -> Seq<char> {
    match e {
        FlatFileError::ActiveTimer => "timer is already running"@,
        FlatFileError::InactiveTimer => "timer is not running"@,
        FlatFileError::LockFileError => "failed to create or open the lock file"@,
        FlatFileError::DbFileError => "failed to create or open the database file"@,
        FlatFileError::ReadError => "failed to read from the database file"@,
        FlatFileError::WriteError => "failed to write to the database file"@,
        FlatFileError::JsonParseError => "failed to parse JSON data"@,
        FlatFileError::JsonSerializeError => "failed to serialize data to JSON"@,
    }
}

impl FlatFileError {
    /// The human-readable description of this error kind.
    pub fn message(&self) -> (r: String)
        ensures
            r@ == spec_message(*self),
    {
        match self {
            FlatFileError::ActiveTimer => String::from_str("timer is already running"),
            FlatFileError::InactiveTimer => String::from_str("timer is not running"),
            FlatFileError::LockFileError => String::from_str("failed to create or open the lock file"),
            FlatFileError::DbFileError => String::from_str("failed to create or open the database file"),
            FlatFileError::ReadError => String::from_str("failed to read from the database file"),
            FlatFileError::WriteError => String::from_str("failed to write to the database file"),
            FlatFileError::JsonParseError => String::from_str("failed to parse JSON data"),
            FlatFileError::JsonSerializeError => String::from_str("failed to serialize data to JSON"),
        }
    }
}

} // verus!
