use vstd::prelude::*;

verus! {

/// Makes `std::io::Error` usable in the library's types; its contents are opaque.
#[verifier::external_type_specification]
#[verifier::external_body]
pub struct ExIoError(std::io::Error);

/// The kinds of failure that the store reports.
#[derive(Debug)]
pub enum Error {
    /// An underlying filesystem operation failed.
    IOError(std::io::Error),
    /// A generation's index or data file is malformed.
    DBCorruptionError,
    /// The background flush worker failed or panicked.
    BackgroundFlushError,
    /// The database path is a file, or a directory without a metadata file.
    DBNameInvalidError,
    /// A lock was poisoned by an earlier panic.
    SyncPoisonError,
    /// The shutdown channel to the worker was closed unexpectedly.
    SendError,
}

pub type Result<T> = core::result::Result<T, Error>;

/// Relies on `std::io::Error::from(ErrorKind::UnexpectedEof)`: the I/O error
/// that a read which ends before the bytes it needs reports.
#[verifier::external_body]
pub(crate) fn unexpected_eof() -> std::io::Error {
    std::io::Error::from(std::io::ErrorKind::UnexpectedEof)
}

} // verus!
